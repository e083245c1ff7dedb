//! The command line: what each argument asks for, and what is refused.
//!
//! Whether an `--epsilon` value reads as a number is floating-point work and
//! is judged by the caller; each argument's verdict is handed in, and the
//! value itself travels on as the text it was given as.
use vstd::prelude::*;
use crate::csv::Text;
use crate::diff::{texts, debug_text, debug_quoted};
use crate::options::{split_on, delimiter_choice, first_conflict, split_columns, delimiter, check_key_ignore};
use crate::text::{decimal, push_decimal};

verus! {

/// The help text.
pub const USAGE: &'static str = "\
drift — diff two tabular datasets

usage:
  drift <before.csv> <after.csv> --key <column>[,<column>...] [options]

options:
  -k, --key <columns>      columns that identify a row (required)
      --ignore <columns>   columns left out of the comparison
  -e, --epsilon <n>        treat numbers within n of each other as unchanged
  -d, --delimiter <c>      field separator: one character, or `tab`
      --summary            print only the counts
      --json               print the report as JSON (wins over --quiet)
      --quiet              print nothing; use the exit code
      --no-color           plain output
  -h, --help               this
  -V, --version            version

exit codes:
  0  identical      1  differences found      2  could not run

Rows are matched on the key, not by position, so a row that only moved is
unchanged. Comparing exit code 1 is how a pipeline asks \"did this data move\".

--epsilon compares numerically where both sides are numbers, so a pipeline that
rewrites 0.1000001 as 0.1000002 stops reporting every row as changed. Text is
still compared exactly: a value that does not parse is never waved through.
";

/// How an argument reads as a tolerance: a finite number of zero or more, a
/// number out of that range, or no number at all.
#[derive(Clone, Copy, PartialEq, Eq, Structural)]
pub enum NumberCheck {
    Accepted,
    OutOfRange,
    NotANumber,
}

/// What a run is asked to do.
pub struct Args {
    pub before: String,
    pub after: String,
    pub keys: Vec<String>,
    pub ignore: Vec<String>,
    pub delimiter: char,
    /// The tolerance as it was written, already judged a number of zero or
    /// more.
    pub epsilon: Option<String>,
    pub quiet: bool,
    pub json: bool,
    pub summary: bool,
    pub color: bool,
}

/// What the command line asks for.
pub enum Request {
    Help,
    Version,
    Run(Args),
}

pub struct ArgsModel {
    pub before: Text,
    pub after: Text,
    pub keys: Seq<Text>,
    pub ignore: Seq<Text>,
    pub delimiter: char,
    pub epsilon: Option<Text>,
    pub quiet: bool,
    pub json: bool,
    pub summary: bool,
    pub color: bool,
}

pub enum RequestModel {
    Help,
    Version,
    Run(ArgsModel),
}

pub open spec fn text_option(o: Option<String>) -> Option<Text> {
    match o {
        Some(s) => Some(s@),
        None => None,
    }
}

pub open spec fn texts_option(o: Option<Vec<String>>) -> Option<Seq<Text>> {
    match o {
        Some(v) => Some(texts(v@)),
        None => None,
    }
}

impl View for Args {
    type V = ArgsModel;

    open spec fn view(&self) -> ArgsModel {
        ArgsModel {
            before: self.before@,
            after: self.after@,
            keys: texts(self.keys@),
            ignore: texts(self.ignore@),
            delimiter: self.delimiter,
            epsilon: text_option(self.epsilon),
            quiet: self.quiet,
            json: self.json,
            summary: self.summary,
            color: self.color,
        }
    }
}

impl View for Request {
    type V = RequestModel;

    open spec fn view(&self) -> RequestModel {
        match self {
            Request::Help => RequestModel::Help,
            Request::Version => RequestModel::Version,
            Request::Run(a) => RequestModel::Run(a@),
        }
    }
}

/// What has been read of the command line so far.
pub struct ArgsState {
    pub positional: Seq<Text>,
    pub keys: Option<Seq<Text>>,
    pub ignore: Seq<Text>,
    pub delimiter: char,
    pub epsilon: Option<Text>,
    pub quiet: bool,
    pub json: bool,
    pub summary: bool,
    pub color: bool,
}

/// The state held in the reader's variables.
pub open spec fn state_of(
    positional: Seq<String>,
    keys: Option<Vec<String>>,
    ignore: Seq<String>,
    delimiter: char,
    epsilon: Option<String>,
    quiet: bool,
    json: bool,
    summary: bool,
    color: bool,
) -> ArgsState {
    ArgsState {
        positional: texts(positional),
        keys: texts_option(keys),
        ignore: texts(ignore),
        delimiter,
        epsilon: text_option(epsilon),
        quiet,
        json,
        summary,
        color,
    }
}

/// Nothing read yet: comma-separated, colour as the environment says.
pub open spec fn args_start(color: bool) -> ArgsState {
    ArgsState {
        positional: Seq::empty(),
        keys: None,
        ignore: Seq::empty(),
        delimiter: ',',
        epsilon: None,
        quiet: false,
        json: false,
        summary: false,
        color,
    }
}

/// The verdict on argument `i`; an argument without one is no number.
pub open spec fn check_at(numbers: Seq<NumberCheck>, i: int) -> NumberCheck {
    if 0 <= i < numbers.len() {
        numbers[i]
    } else {
        NumberCheck::NotANumber
    }
}

/// Once every argument is read: two files and a key are needed, and no key
/// column may also be ignored.
pub open spec fn finish_args(st: ArgsState) -> Result<RequestModel, Text> {
    if st.positional.len() != 2 {
        Err("expected two files, got "@ + decimal(st.positional.len()) + "\n\n"@ + USAGE@)
    } else {
        match st.keys {
            None => Err("--key is required: drift needs to know what identifies a row"@),
            Some(keys) => match first_conflict(keys, st.ignore) {
                Some(j) => Err("column "@ + keys[j] + " is both a key and ignored"@),
                None => Ok(
                    RequestModel::Run(
                        ArgsModel {
                            before: st.positional[0],
                            after: st.positional[1],
                            keys,
                            ignore: st.ignore,
                            delimiter: st.delimiter,
                            epsilon: st.epsilon,
                            quiet: st.quiet,
                            json: st.json,
                            summary: st.summary,
                            color: st.color,
                        },
                    ),
                ),
            },
        }
    }
}

/// The command line read from argument `i` on, in state `st`. Help and
/// version end the reading at once, as does the first refusal; an option's
/// value is the argument after it.
pub open spec fn read_args(
    args: Seq<Text>,
    numbers: Seq<NumberCheck>,
    i: int,
    st: ArgsState,
) -> Result<RequestModel, Text>
    decreases args.len() - i,
{
    if i < 0 || i >= args.len() {
        finish_args(st)
    } else {
        let a = args[i];
        let has_value = i + 1 < args.len();
        if a == "-h"@ || a == "--help"@ {
            Ok(RequestModel::Help)
        } else if a == "-V"@ || a == "--version"@ {
            Ok(RequestModel::Version)
        } else if a == "--quiet"@ {
            read_args(args, numbers, i + 1, ArgsState { quiet: true, ..st })
        } else if a == "--json"@ {
            read_args(args, numbers, i + 1, ArgsState { json: true, ..st })
        } else if a == "--summary"@ {
            read_args(args, numbers, i + 1, ArgsState { summary: true, ..st })
        } else if a == "--no-color"@ {
            read_args(args, numbers, i + 1, ArgsState { color: false, ..st })
        } else if a == "-k"@ || a == "--key"@ {
            if !has_value {
                Err("--key needs a column name"@)
            } else {
                read_args(args, numbers, i + 2, ArgsState { keys: Some(split_on(args[i + 1], ',')), ..st })
            }
        } else if a == "--ignore"@ {
            if !has_value {
                Err("--ignore needs a column name"@)
            } else {
                read_args(
                    args,
                    numbers,
                    i + 2,
                    ArgsState { ignore: st.ignore + split_on(args[i + 1], ','), ..st },
                )
            }
        } else if a == "-d"@ || a == "--delimiter"@ {
            if !has_value {
                Err("--delimiter needs a character"@)
            } else {
                match delimiter_choice(args[i + 1]) {
                    Ok(c) => read_args(args, numbers, i + 2, ArgsState { delimiter: c, ..st }),
                    Err(e) => Err(e),
                }
            }
        } else if a == "-e"@ || a == "--epsilon"@ {
            if !has_value {
                Err("--epsilon needs a number"@)
            } else {
                match check_at(numbers, i + 1) {
                    NumberCheck::NotANumber => Err(
                        "--epsilon wants a number, got "@ + debug_text(args[i + 1]),
                    ),
                    NumberCheck::OutOfRange => Err("--epsilon must be zero or more, got "@ + args[i + 1]),
                    NumberCheck::Accepted => read_args(
                        args,
                        numbers,
                        i + 2,
                        ArgsState { epsilon: Some(args[i + 1]), ..st },
                    ),
                }
            }
        } else if a.len() > 1 && a[0] == '-' {
            Err("unknown option "@ + a)
        } else {
            read_args(args, numbers, i + 1, ArgsState { positional: st.positional.push(a), ..st })
        }
    }
}

/// Whether `a` is the word `w`.
fn is_word(a: &String, w: &str) -> (r: bool)
    ensures
        r == (a@ == w@),
{
    *a == w.to_owned()
}

/// The help text.
pub fn usage() -> (r: String)
    ensures
        r@ == USAGE@,
{
    USAGE.to_owned()
}

/// Read the command line. `numbers[i]` says how argument `i` reads as a
/// tolerance; `color` is whether the environment allows colour.
pub fn read_command_line(args: &Vec<String>, numbers: &Vec<NumberCheck>, color: bool) -> (r: Result<
    Request,
    String,
>)
    ensures
        match (r, read_args(texts(args@), numbers@, 0, args_start(color))) {
            (Ok(q), Ok(m)) => q@ == m,
            (Err(e), Err(m)) => e@ == m,
            _ => false,
        },
{
    let ghost av = texts(args@);
    let ghost target = read_args(av, numbers@, 0, args_start(color));
    let mut positional: Vec<String> = Vec::new();
    let mut keys: Option<Vec<String>> = None;
    let mut ignore: Vec<String> = Vec::new();
    let mut delim: char = ',';
    let mut epsilon: Option<String> = None;
    let mut quiet = false;
    let mut json = false;
    let mut summary = false;
    let mut colour = color;
    let n = args.len();
    let mut i: usize = 0;
    proof {
        assert(texts(positional@) =~= Seq::<Text>::empty());
        assert(texts(ignore@) =~= Seq::<Text>::empty());
    }
    while i < n
        invariant
            n == args@.len(),
            av == texts(args@),
            target == read_args(av, numbers@, 0, args_start(color)),
            i <= n,
            read_args(
                av,
                numbers@,
                i as int,
                state_of(positional@, keys, ignore@, delim, epsilon, quiet, json, summary, colour),
            ) == target,
        decreases n - i,
    {
        let a = &args[i];
        let has_value = i + 1 < n;
        proof {
            assert(av[i as int] == a@);
        }
        if is_word(a, "-h") || is_word(a, "--help") {
            return Ok(Request::Help);
        } else if is_word(a, "-V") || is_word(a, "--version") {
            return Ok(Request::Version);
        } else if is_word(a, "--quiet") {
            quiet = true;
            i = i + 1;
        } else if is_word(a, "--json") {
            json = true;
            i = i + 1;
        } else if is_word(a, "--summary") {
            summary = true;
            i = i + 1;
        } else if is_word(a, "--no-color") {
            colour = false;
            i = i + 1;
        } else if is_word(a, "-k") || is_word(a, "--key") {
            if !has_value {
                return Err("--key needs a column name".to_owned());
            }
            proof {
                assert(av[i + 1] == args@[i + 1]@);
            }
            keys = Some(split_columns(args[i + 1].as_str()));
            i = i + 2;
        } else if is_word(a, "--ignore") {
            if !has_value {
                return Err("--ignore needs a column name".to_owned());
            }
            proof {
                assert(av[i + 1] == args@[i + 1]@);
            }
            let ghost old_ignore = texts(ignore@);
            let mut more = split_columns(args[i + 1].as_str());
            let ghost more_view = texts(more@);
            ignore.append(&mut more);
            proof {
                assert(texts(ignore@) =~= old_ignore + more_view);
            }
            i = i + 2;
        } else if is_word(a, "-d") || is_word(a, "--delimiter") {
            if !has_value {
                return Err("--delimiter needs a character".to_owned());
            }
            proof {
                assert(av[i + 1] == args@[i + 1]@);
            }
            match delimiter(args[i + 1].as_str()) {
                Ok(c) => {
                    delim = c;
                },
                Err(e) => {
                    return Err(e);
                },
            }
            i = i + 2;
        } else if is_word(a, "-e") || is_word(a, "--epsilon") {
            if !has_value {
                return Err("--epsilon needs a number".to_owned());
            }
            proof {
                assert(av[i + 1] == args@[i + 1]@);
            }
            let verdict = if i + 1 < numbers.len() {
                numbers[i + 1]
            } else {
                NumberCheck::NotANumber
            };
            match verdict {
                NumberCheck::NotANumber => {
                    let mut msg = "--epsilon wants a number, got ".to_owned();
                    let shown = debug_quoted(&args[i + 1]);
                    msg.append(shown.as_str());
                    return Err(msg);
                },
                NumberCheck::OutOfRange => {
                    let mut msg = "--epsilon must be zero or more, got ".to_owned();
                    msg.append(args[i + 1].as_str());
                    return Err(msg);
                },
                NumberCheck::Accepted => {
                    epsilon = Some(args[i + 1].clone());
                },
            }
            i = i + 2;
        } else {
            let cs = crate::text::chars_of(a.as_str());
            if cs.len() > 1 && cs[0] == '-' {
                let mut msg = "unknown option ".to_owned();
                msg.append(a.as_str());
                return Err(msg);
            }
            let ghost old_positional = texts(positional@);
            positional.push(a.clone());
            proof {
                assert(texts(positional@) =~= old_positional.push(a@));
            }
            i = i + 1;
        }
    }
    if positional.len() != 2 {
        let mut msg = "expected two files, got ".to_owned();
        push_decimal(&mut msg, positional.len());
        msg.append("\n\n");
        msg.append(USAGE);
        return Err(msg);
    }
    let keys = match keys {
        None => {
            return Err("--key is required: drift needs to know what identifies a row".to_owned());
        },
        Some(k) => k,
    };
    match check_key_ignore(keys.as_slice(), ignore.as_slice()) {
        Err(e) => {
            return Err(e);
        },
        Ok(()) => {},
    }
    let after = positional.pop().unwrap();
    let before = positional.pop().unwrap();
    Ok(
        Request::Run(
            Args {
                before,
                after,
                keys,
                ignore,
                delimiter: delim,
                epsilon,
                quiet,
                json,
                summary,
                color: colour,
            },
        ),
    )
}

} // verus!
