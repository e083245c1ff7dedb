use drift::args::{read_command_line, usage, Args, NumberCheck, Request};

fn check(raw: &str) -> NumberCheck {
    match raw.parse::<f64>() {
        Err(_) => NumberCheck::NotANumber,
        Ok(v) if !v.is_finite() || v < 0.0 => NumberCheck::OutOfRange,
        Ok(_) => NumberCheck::Accepted,
    }
}

fn read(line: &[&str]) -> Result<Request, String> {
    let argv: Vec<String> = line.iter().map(|s| s.to_string()).collect();
    let numbers: Vec<NumberCheck> = argv.iter().map(|a| check(a)).collect();
    read_command_line(&argv, &numbers, true)
}

fn run_args(line: &[&str]) -> Args {
    match read(line) {
        Ok(Request::Run(a)) => a,
        Ok(Request::Help) => panic!("help"),
        Ok(Request::Version) => panic!("version"),
        Err(e) => panic!("{e}"),
    }
}

fn refusal(line: &[&str]) -> String {
    match read(line) {
        Err(e) => e,
        Ok(_) => panic!("accepted {line:?}"),
    }
}

#[test]
fn a_missing_key_flag_exits_two() {
    let e = refusal(&["a.csv", "b.csv"]);
    assert!(e.contains("--key is required"), "{e}");
}

#[test]
fn an_unknown_option_exits_two() {
    let e = refusal(&["a.csv", "b.csv", "--key", "id", "--bogus"]);
    assert_eq!(e, "unknown option --bogus");
}

#[test]
fn a_bad_epsilon_exits_two() {
    let e = refusal(&["a.csv", "b.csv", "--key", "id", "--epsilon", "-1"]);
    assert_eq!(e, "--epsilon must be zero or more, got -1");
    let e = refusal(&["a.csv", "b.csv", "--key", "id", "-e", "lots"]);
    assert_eq!(e, "--epsilon wants a number, got \"lots\"");
    let e = refusal(&["a.csv", "b.csv", "--key", "id", "--epsilon", "inf"]);
    assert!(e.contains("epsilon"), "{e}");
}

#[test]
fn help_and_version_exit_zero() {
    assert!(matches!(read(&["--help"]), Ok(Request::Help)));
    assert!(matches!(read(&["-h", "--bogus"]), Ok(Request::Help)));
    assert!(usage().contains("usage"));
    assert!(matches!(read(&["--version"]), Ok(Request::Version)));
    assert!(matches!(read(&["a.csv", "-V"]), Ok(Request::Version)));
}

#[test]
fn every_option_is_read() {
    let a = run_args(&[
        "old.tsv",
        "--key",
        "region,id",
        "new.tsv",
        "--ignore",
        "updated_at",
        "--ignore",
        "exported_by,note",
        "-d",
        "tab",
        "-e",
        "1e-6",
        "--summary",
        "--json",
        "--quiet",
        "--no-color",
    ]);
    assert_eq!(a.before, "old.tsv");
    assert_eq!(a.after, "new.tsv");
    assert_eq!(a.keys, ["region", "id"]);
    assert_eq!(a.ignore, ["updated_at", "exported_by", "note"]);
    assert_eq!(a.delimiter, '\t');
    assert_eq!(a.epsilon.as_deref(), Some("1e-6"));
    assert!(a.summary && a.json && a.quiet && !a.color);
}

#[test]
fn defaults_are_comma_exact_and_coloured() {
    let a = run_args(&["a.csv", "b.csv", "-k", "id"]);
    assert_eq!(a.keys, ["id"]);
    assert!(a.ignore.is_empty());
    assert_eq!(a.delimiter, ',');
    assert_eq!(a.epsilon, None);
    assert!(!a.summary && !a.json && !a.quiet && a.color);
}

#[test]
fn the_last_key_given_wins() {
    let a = run_args(&["a.csv", "b.csv", "--key", "id", "--key", "region,id"]);
    assert_eq!(a.keys, ["region", "id"]);
}

#[test]
fn a_lone_dash_is_a_file_name() {
    let a = run_args(&["-", "b.csv", "--key", "id"]);
    assert_eq!(a.before, "-");
}

#[test]
fn two_files_are_needed() {
    let e = refusal(&["a.csv", "--key", "id"]);
    assert!(e.starts_with("expected two files, got 1\n\n"), "{e}");
    assert!(e.ends_with(&usage()), "{e}");
    let e = refusal(&["a.csv", "b.csv", "c.csv", "--key", "id"]);
    assert!(e.starts_with("expected two files, got 3\n\n"), "{e}");
}

#[test]
fn an_option_without_its_value_is_refused() {
    assert_eq!(refusal(&["a.csv", "b.csv", "--key"]), "--key needs a column name");
    assert_eq!(refusal(&["a.csv", "b.csv", "-k", "id", "--ignore"]), "--ignore needs a column name");
    assert_eq!(refusal(&["a.csv", "b.csv", "-k", "id", "-d"]), "--delimiter needs a character");
    assert_eq!(refusal(&["a.csv", "b.csv", "-k", "id", "-e"]), "--epsilon needs a number");
}

#[test]
fn the_first_refusal_is_the_one_reported() {
    let e = refusal(&["a.csv", "b.csv", "-k", "id", "-e", "x", "--bogus"]);
    assert_eq!(e, "--epsilon wants a number, got \"x\"");
    let e = refusal(&["a.csv", "--bogus", "-e", "x"]);
    assert_eq!(e, "unknown option --bogus");
}

#[test]
fn a_key_that_is_also_ignored_is_refused() {
    let e = refusal(&["a.csv", "b.csv", "--key", "region,id", "--ignore", "id"]);
    assert_eq!(e, "column id is both a key and ignored");
}

#[test]
fn a_multi_character_delimiter_is_refused() {
    let e = refusal(&["a.csv", "b.csv", "--key", "id", "--delimiter", "::"]);
    assert!(e.contains("single character"), "{e}");
}
