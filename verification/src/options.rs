//! The rules for the command line's column lists and delimiter.
use vstd::prelude::*;
use crate::csv::Text;
use crate::diff::{texts, contains};
use crate::text::chars_of;

verus! {

/// `s` split at every `sep`: n separators give n + 1 parts, empty ones
/// included.
pub open spec fn split_on(s: Text, sep: char) -> Seq<Text>
    decreases s.len(),
{
    if s.len() == 0 {
        seq![Seq::empty()]
    } else {
        let parts = split_on(s.drop_last(), sep);
        if s.last() == sep {
            parts.push(Seq::empty())
        } else {
            parts.update(parts.len() - 1, parts.last().push(s.last()))
        }
    }
}

/// A comma-separated list of column names, such as `region,id`. The names
/// are kept apart rather than joined, so a composite key stays a list.
pub fn split_columns(arg: &str) -> (r: Vec<String>)
    ensures
        texts(r@) == split_on(arg@, ','),
{
    let cs = chars_of(arg);
    let mut parts: Vec<String> = Vec::new();
    let mut current = String::new();
    let mut i: usize = 0;
    proof {
        assert(texts(parts@).push(current@) =~= split_on(cs@.take(0), ','));
    }
    while i < cs.len()
        invariant
            i <= cs@.len(),
            cs@ == arg@,
            texts(parts@).push(current@) == split_on(cs@.take(i as int), ','),
        decreases cs@.len() - i,
    {
        let c = cs[i];
        let ghost old_parts = texts(parts@);
        let ghost old_current = current@;
        proof {
            assert(cs@.take(i + 1).drop_last() =~= cs@.take(i as int));
            assert(cs@.take(i + 1).last() == c);
        }
        if c == ',' {
            parts.push(current);
            current = String::new();
            proof {
                assert(texts(parts@) =~= old_parts.push(old_current));
                assert(texts(parts@).push(current@) =~= old_parts.push(old_current).push(Seq::empty()));
            }
        } else {
            current.push(c);
            proof {
                assert(texts(parts@).push(current@) =~= old_parts.push(old_current).update(
                    old_parts.len() as int,
                    old_current.push(c),
                ));
            }
        }
        i += 1;
    }
    parts.push(current);
    proof {
        assert(cs@.take(cs@.len() as int) =~= cs@);
    }
    parts
}

/// What a delimiter argument means: the word `tab` or the two characters
/// `\t` for a tab, any single character for itself, and nothing longer.
pub open spec fn delimiter_choice(arg: Text) -> Result<char, Text> {
    if arg == seq!['t', 'a', 'b'] || arg == seq!['\\', 't'] {
        Ok('\t')
    } else if arg.len() == 1 {
        Ok(arg[0])
    } else {
        Err("--delimiter wants a single character, got "@ + arg)
    }
}

/// The delimiter an argument names. A multi-character delimiter is refused
/// rather than having its first character used.
pub fn delimiter(arg: &str) -> (r: Result<char, String>)
    ensures
        match (r, delimiter_choice(arg@)) {
            (Ok(c), Ok(d)) => c == d,
            (Err(e), Err(m)) => e@ == m,
            _ => false,
        },
{
    let cs = chars_of(arg);
    if cs.len() == 3 && cs[0] == 't' && cs[1] == 'a' && cs[2] == 'b' {
        proof { assert(arg@ =~= seq!['t', 'a', 'b']); }
        return Ok('\t');
    }
    if cs.len() == 2 && cs[0] == '\\' && cs[1] == 't' {
        proof { assert(arg@ =~= seq!['\\', 't']); }
        return Ok('\t');
    }
    if cs.len() == 1 {
        return Ok(cs[0]);
    }
    let mut msg = "--delimiter wants a single character, got ".to_owned();
    msg.append(arg);
    Err(msg)
}

/// Index of the first key column that is also ignored, if any.
pub open spec fn first_conflict(keys: Seq<Text>, ignore: Seq<Text>) -> Option<int>
    decreases keys.len(),
{
    if keys.len() == 0 {
        None
    } else if ignore.contains(keys[0]) {
        Some(0)
    } else {
        match first_conflict(keys.drop_first(), ignore) {
            Some(i) => Some(i + 1),
            None => None,
        }
    }
}

pub proof fn lemma_first_conflict(keys: Seq<Text>, ignore: Seq<Text>, j: int)
    requires
        0 <= j < keys.len(),
        ignore.contains(keys[j]),
        forall|m: int| 0 <= m < j ==> !ignore.contains(#[trigger] keys[m]),
    ensures
        first_conflict(keys, ignore) == Some(j),
    decreases j,
{
    if j > 0 {
        assert forall|m: int| 0 <= m < j - 1 implies !ignore.contains(#[trigger] keys.drop_first()[m]) by {
            assert(keys.drop_first()[m] == keys[m + 1]);
        }
        assert(keys.drop_first()[j - 1] == keys[j]);
        lemma_first_conflict(keys.drop_first(), ignore, j - 1);
    }
}

pub proof fn lemma_no_conflict(keys: Seq<Text>, ignore: Seq<Text>)
    requires
        forall|m: int| 0 <= m < keys.len() ==> !ignore.contains(#[trigger] keys[m]),
    ensures
        first_conflict(keys, ignore) is None,
    decreases keys.len(),
{
    if keys.len() > 0 {
        assert forall|m: int| 0 <= m < keys.len() - 1 implies !ignore.contains(#[trigger] keys.drop_first()[m]) by {
            assert(keys.drop_first()[m] == keys[m + 1]);
        }
        lemma_no_conflict(keys.drop_first(), ignore);
    }
}

/// A column named both as a key and as ignored is refused: a key is never
/// compared as a field anyway, so the command is not what its author meant.
pub fn check_key_ignore(keys: &[String], ignore: &[String]) -> (r: Result<(), String>)
    ensures
        match first_conflict(texts(keys@), texts(ignore@)) {
            None => r is Ok,
            Some(j) => r matches Err(e) && e@ == "column "@ + texts(keys@)[j] + " is both a key and ignored"@,
        },
{
    let ghost ks = texts(keys@);
    let ghost ig = texts(ignore@);
    let mut j: usize = 0;
    while j < keys.len()
        invariant
            j <= keys@.len(),
            ks == texts(keys@),
            ig == texts(ignore@),
            forall|m: int| 0 <= m < j ==> !ig.contains(#[trigger] ks[m]),
        decreases keys@.len() - j,
    {
        if contains(ignore, &keys[j]) {
            proof { lemma_first_conflict(ks, ig, j as int); }
            let mut msg = "column ".to_owned();
            msg.append(keys[j].as_str());
            msg.append(" is both a key and ignored");
            return Err(msg);
        }
        j += 1;
    }
    proof { lemma_no_conflict(ks, ig); }
    Ok(())
}

} // verus!
