//! Writing the report as JSON.
//!
//! Escaping is the whole job: cell values are arbitrary text from somebody's
//! export, with quotes, backslashes and control characters that are legal in
//! a CSV field and illegal raw in a JSON string.
use vstd::prelude::*;
use crate::csv::{Text, Record};
use crate::diff::{
    Report, ReportModel, Change, ChangeModel, FieldChange, texts, keys_view, field_changes_view,
    differs, join,
};
use crate::text::{decimal, push_decimal};

verus! {

/// The lowercase hexadecimal digit for `d` (0 to 15).
pub open spec fn hex_digit(d: int) -> char {
    if d == 0 { '0' } else if d == 1 { '1' } else if d == 2 { '2' } else if d == 3 { '3' }
    else if d == 4 { '4' } else if d == 5 { '5' } else if d == 6 { '6' } else if d == 7 { '7' }
    else if d == 8 { '8' } else if d == 9 { '9' } else if d == 10 { 'a' } else if d == 11 { 'b' }
    else if d == 12 { 'c' } else if d == 13 { 'd' } else if d == 14 { 'e' } else { 'f' }
}

/// How one character is written inside a JSON string. Every character
/// below 0x20 is escaped, with a shorthand where JSON has one and `\u00XX`
/// otherwise; the forward slash and everything else go through as they are.
pub open spec fn escape_char(c: char) -> Text {
    if c == '"' {
        seq!['\\', '"']
    } else if c == '\\' {
        seq!['\\', '\\']
    } else if c == '\n' {
        seq!['\\', 'n']
    } else if c == '\r' {
        seq!['\\', 'r']
    } else if c == '\t' {
        seq!['\\', 't']
    } else if c == '\u{08}' {
        seq!['\\', 'b']
    } else if c == '\u{0c}' {
        seq!['\\', 'f']
    } else if (c as u32) < 0x20 {
        seq!['\\', 'u', '0', '0', hex_digit(((c as u32) / 16) as int), hex_digit(((c as u32) % 16) as int)]
    } else {
        seq![c]
    }
}

/// A text escaped for a JSON double-quoted context.
pub open spec fn escaped(s: Text) -> Text
    decreases s.len(),
{
    if s.len() == 0 {
        Seq::empty()
    } else {
        escaped(s.drop_last()) + escape_char(s.last())
    }
}

fn hex(d: u32) -> (c: char)
    requires
        d < 16,
    ensures
        c == hex_digit(d as int),
{
    if d == 0 { '0' } else if d == 1 { '1' } else if d == 2 { '2' } else if d == 3 { '3' }
    else if d == 4 { '4' } else if d == 5 { '5' } else if d == 6 { '6' } else if d == 7 { '7' }
    else if d == 8 { '8' } else if d == 9 { '9' } else if d == 10 { 'a' } else if d == 11 { 'b' }
    else if d == 12 { 'c' } else if d == 13 { 'd' } else if d == 14 { 'e' } else { 'f' }
}

/// Append the escaped form of `s` to `out`.
fn push_escaped(out: &mut String, s: &str)
    ensures
        final(out)@ == old(out)@ + escaped(s@),
{
    let ghost start = out@;
    for c in it: s.chars()
        invariant
            it.seq() == s@,
            out@ == start + escaped(it.seq().take(it.index() as int)),
    {
        let ghost i = it.index() as int;
        proof {
            assert(s@.take(i + 1).drop_last() =~= s@.take(i));
            assert(s@.take(i + 1).last() == c);
        }
        let ghost before = out@;
        if c == '"' {
            out.push('\\');
            out.push('"');
        } else if c == '\\' {
            out.push('\\');
            out.push('\\');
        } else if c == '\n' {
            out.push('\\');
            out.push('n');
        } else if c == '\r' {
            out.push('\\');
            out.push('r');
        } else if c == '\t' {
            out.push('\\');
            out.push('t');
        } else if c == '\u{08}' {
            out.push('\\');
            out.push('b');
        } else if c == '\u{0c}' {
            out.push('\\');
            out.push('f');
        } else if (c as u32) < 32 {
            let code = c as u32;
            out.push('\\');
            out.push('u');
            out.push('0');
            out.push('0');
            out.push(hex(code / 16));
            out.push(hex(code % 16));
        } else {
            out.push(c);
        }
        proof {
            assert(out@ =~= before + escape_char(c));
        }
    }
    proof {
        assert(s@.take(s@.len() as int) =~= s@);
    }
}

/// Escape a string for a JSON double-quoted context.
///
/// Every character below 0x20 has to go, not just the ones with short
/// escapes: a raw control character in a string is invalid JSON. The forward
/// slash is deliberately not escaped; it is legal either way.
pub fn escape(s: &str) -> (r: String)
    ensures
        r@ == escaped(s@),
{
    let mut out = String::new();
    push_escaped(&mut out, s);
    proof {
        assert(out@ =~= escaped(s@));
    }
    out
}

/// The value of a hexadecimal digit, either case.
pub open spec fn hex_value(c: char) -> Option<int> {
    let n = c as int;
    if '0' as int <= n <= '9' as int {
        Some(n - '0' as int)
    } else if 'a' as int <= n <= 'f' as int {
        Some(n - 'a' as int + 10)
    } else if 'A' as int <= n <= 'F' as int {
        Some(n - 'A' as int + 10)
    } else {
        None
    }
}

/// The number written by the four hexadecimal digits at `i`.
pub open spec fn hex4(t: Text, i: int) -> Option<int> {
    match (hex_value(t[i]), hex_value(t[i + 1]), hex_value(t[i + 2]), hex_value(t[i + 3])) {
        (Some(a), Some(b), Some(c), Some(d)) => Some(a * 4096 + b * 256 + c * 16 + d),
        _ => None,
    }
}

/// The character a two-character escape such as `\n` stands for.
pub open spec fn short_escape(e: char) -> Option<char> {
    if e == '"' {
        Some('"')
    } else if e == '\\' {
        Some('\\')
    } else if e == '/' {
        Some('/')
    } else if e == 'b' {
        Some('\u{08}')
    } else if e == 'f' {
        Some('\u{0c}')
    } else if e == 'n' {
        Some('\n')
    } else if e == 'r' {
        Some('\r')
    } else if e == 't' {
        Some('\t')
    } else {
        None
    }
}

/// How a JSON reader takes the first character of a string's contents:
/// the character it stands for and how many characters of `t` it used, or
/// `None` where the contents are not valid JSON there (a raw quote or
/// control character, a bad escape, an unpaired surrogate).
pub open spec fn json_char(t: Text) -> Option<(char, int)>
    recommends
        t.len() > 0,
{
    if t[0] == '\\' {
        if t.len() >= 2 && short_escape(t[1]) is Some {
            Some((short_escape(t[1])->0, 2))
        } else if t.len() >= 6 && t[1] == 'u' && hex4(t, 2) is Some {
            let u = hex4(t, 2)->0;
            if 0xD800 <= u < 0xDC00 {
                if t.len() >= 12 && t[6] == '\\' && t[7] == 'u' && hex4(t, 8) is Some && 0xDC00 <= hex4(
                    t,
                    8,
                )->0 < 0xE000 {
                    Some(((0x10000 + (u - 0xD800) * 0x400 + (hex4(t, 8)->0 - 0xDC00)) as char, 12))
                } else {
                    None
                }
            } else if 0xDC00 <= u < 0xE000 {
                None
            } else {
                Some((u as char, 6))
            }
        } else {
            None
        }
    } else if (t[0] as u32) < 0x20 || t[0] == '"' {
        None
    } else {
        Some((t[0], 1))
    }
}

/// What a JSON reader makes of the contents of a double-quoted string, or
/// `None` where they are not valid JSON.
pub open spec fn json_string_value(t: Text) -> Option<Text>
    decreases t.len(),
{
    if t.len() == 0 {
        Some(Seq::empty())
    } else {
        match json_char(t) {
            Some((c, n)) => match json_string_value(t.skip(n)) {
                Some(rest) => Some(seq![c] + rest),
                None => None,
            },
            None => None,
        }
    }
}

/// `true` or `false`.
pub open spec fn bool_text(b: bool) -> Text {
    if b {
        "true"@
    } else {
        "false"@
    }
}

fn bool_of(b: bool) -> (r: String)
    ensures
        r@ == bool_text(b),
{
    if b {
        "true".to_owned()
    } else {
        "false".to_owned()
    }
}

/// One member line of the report object, trailing comma included. A quoted
/// value is escaped; an unquoted one is written as it is.
pub open spec fn member_line(name: Text, value: Text, quoted: bool) -> Text {
    if quoted {
        "  \""@ + name + "\": \""@ + escaped(value) + "\",\n"@
    } else {
        "  \""@ + name + "\": "@ + value + ",\n"@
    }
}

fn push_field(out: &mut String, name: &str, value: &str, quoted: bool)
    ensures
        final(out)@ == old(out)@ + member_line(name@, value@, quoted),
{
    let ghost start = out@;
    if quoted {
        out.append("  \"");
        out.append(name);
        out.append("\": \"");
        push_escaped(out, value);
        out.append("\",\n");
        proof {
            assert(out@ =~= start + member_line(name@, value@, quoted));
        }
    } else {
        push_raw(out, name, value);
    }
}

fn push_raw(out: &mut String, name: &str, value: &str)
    ensures
        final(out)@ == old(out)@ + member_line(name@, value@, false),
{
    let ghost start = out@;
    out.append("  \"");
    out.append(name);
    out.append("\": ");
    out.append(value);
    out.append(",\n");
    proof {
        assert(out@ =~= start + member_line(name@, value@, false));
    }
}

/// A JSON string: the text escaped, in double quotes.
pub open spec fn json_string(s: Text) -> Text {
    "\""@ + escaped(s) + "\""@
}

/// A JSON array of strings.
pub open spec fn json_array(items: Seq<Text>) -> Text {
    if items.len() == 0 {
        "[]"@
    } else {
        "["@ + join(Seq::new(items.len(), |i: int| json_string(items[i])), ", "@) + "]"@
    }
}

/// A JSON array of keys, each an array of its parts: the parts go over
/// intact rather than joined into one display string.
pub open spec fn json_key_array(keys: Seq<Record>) -> Text {
    if keys.len() == 0 {
        "[]"@
    } else {
        "["@ + join(Seq::new(keys.len(), |i: int| json_array(keys[i])), ", "@) + "]"@
    }
}

/// A JSON array of strings.
fn array(items: &[String]) -> (r: String)
    ensures
        r@ == json_array(texts(items@)),
{
    if items.len() == 0 {
        return "[]".to_owned();
    }
    let ghost parts = Seq::new(items@.len(), |i: int| json_string(items@[i]@));
    let mut out = "[".to_owned();
    let mut i: usize = 0;
    while i < items.len()
        invariant
            0 < items@.len(),
            i <= items@.len(),
            parts == Seq::new(items@.len(), |i: int| json_string(items@[i]@)),
            out@ == "["@ + join(parts.take(i as int), ", "@),
        decreases items.len() - i,
    {
        let ghost before = out@;
        proof {
            assert(parts.take(i + 1).drop_last() =~= parts.take(i as int));
            assert(parts.take(i + 1).last() == json_string(items@[i as int]@));
            if i == 0 {
                assert(parts.take(0) =~= Seq::<Text>::empty());
                assert(parts.take(1) =~= seq![parts[0]]);
            }
        }
        if i > 0 {
            out.append(", ");
        }
        out.append("\"");
        push_escaped(&mut out, items[i].as_str());
        out.append("\"");
        proof {
            if i == 0 {
                assert(out@ =~= before + json_string(items@[0]@));
                assert(join(Seq::<Text>::empty(), ", "@) =~= Seq::<char>::empty());
                assert(join(parts.take(1), ", "@) == parts[0]);
            } else {
                assert(out@ =~= before + ", "@ + json_string(items@[i as int]@));
            }
        }
        i += 1;
    }
    out.append("]");
    proof {
        assert(parts.take(items@.len() as int) =~= parts);
        assert(parts =~= Seq::new(texts(items@).len(), |i: int| json_string(texts(items@)[i])));
    }
    out
}

/// A key is several fields, so it serialises as an array of strings.
fn key_array(keys: &[Vec<String>]) -> (r: String)
    ensures
        r@ == json_key_array(keys_view(keys@)),
{
    if keys.len() == 0 {
        return "[]".to_owned();
    }
    let ghost parts = Seq::new(keys@.len(), |i: int| json_array(texts(keys@[i]@)));
    let mut out = "[".to_owned();
    let mut i: usize = 0;
    while i < keys.len()
        invariant
            0 < keys@.len(),
            i <= keys@.len(),
            parts == Seq::new(keys@.len(), |i: int| json_array(texts(keys@[i]@))),
            out@ == "["@ + join(parts.take(i as int), ", "@),
        decreases keys.len() - i,
    {
        let ghost before = out@;
        proof {
            assert(parts.take(i + 1).drop_last() =~= parts.take(i as int));
            assert(parts.take(i + 1).last() == json_array(texts(keys@[i as int]@)));
            if i == 0 {
                assert(parts.take(0) =~= Seq::<Text>::empty());
                assert(parts.take(1) =~= seq![parts[0]]);
            }
        }
        if i > 0 {
            out.append(", ");
        }
        let a = array(keys[i].as_slice());
        out.append(a.as_str());
        proof {
            if i == 0 {
                assert(join(parts.take(1), ", "@) == parts[0]);
            }
        }
        i += 1;
    }
    out.append("]");
    proof {
        assert(parts.take(keys@.len() as int) =~= parts);
        assert(parts =~= Seq::new(keys_view(keys@).len(), |i: int| json_array(keys_view(keys@)[i])));
    }
    out
}

/// The first `n` of `items`, one per line, with a comma after every item but
/// the last of `items`.
pub open spec fn listing(items: Seq<Text>, n: int) -> Text
    decreases n,
{
    if n <= 0 {
        Seq::empty()
    } else {
        listing(items, n - 1) + items[n - 1] + (if n < items.len() {
            ","@
        } else {
            Seq::empty()
        }) + "\n"@
    }
}

/// One changed field as a JSON object on its own line.
pub open spec fn json_field(f: FieldChange) -> Text {
    "        { \"column\": \""@ + escaped(f.0) + "\", \"before\": \""@ + escaped(f.1)
        + "\", \"after\": \""@ + escaped(f.2) + "\" }"@
}

/// One change as a JSON object: its key parts and its changed fields.
pub open spec fn json_change(c: ChangeModel) -> Text {
    "    {\n"@ + "      \"key\": "@ + json_array(c.key) + ",\n"@ + "      \"fields\": [\n"@
        + listing(Seq::new(c.fields.len(), |j: int| json_field(c.fields[j])), c.fields.len() as int)
        + "      ]\n    }"@
}

/// The changes as a JSON array, one object per change.
pub open spec fn json_changes(cs: Seq<ChangeModel>) -> Text {
    if cs.len() == 0 {
        "[]"@
    } else {
        "[\n"@ + listing(Seq::new(cs.len(), |i: int| json_change(cs[i])), cs.len() as int) + "  ]"@
    }
}

fn push_field_object(out: &mut String, f: &(String, String, String))
    ensures
        final(out)@ == old(out)@ + json_field((f.0@, f.1@, f.2@)),
{
    let ghost start = out@;
    out.append("        { \"column\": \"");
    push_escaped(out, f.0.as_str());
    out.append("\", \"before\": \"");
    push_escaped(out, f.1.as_str());
    out.append("\", \"after\": \"");
    push_escaped(out, f.2.as_str());
    out.append("\" }");
    proof {
        assert(out@ =~= start + json_field((f.0@, f.1@, f.2@)));
    }
}

fn push_change(out: &mut String, c: &Change)
    ensures
        final(out)@ == old(out)@ + json_change(c@),
{
    let ghost start = out@;
    let ghost lines = Seq::new(c@.fields.len(), |j: int| json_field(c@.fields[j]));
    out.append("    {\n");
    out.append("      \"key\": ");
    let k = array(c.key.as_slice());
    out.append(k.as_str());
    out.append(",\n");
    out.append("      \"fields\": [\n");
    let ghost head = out@;
    let n = c.fields.len();
    let mut j: usize = 0;
    while j < n
        invariant
            j <= n,
            n == c.fields@.len(),
            lines == Seq::new(c@.fields.len(), |j: int| json_field(c@.fields[j])),
            out@ == head + listing(lines, j as int),
        decreases n - j,
    {
        let ghost before = out@;
        let f = &c.fields[j];
        push_field_object(out, f);
        proof {
            assert(c@.fields[j as int] == (f.0@, f.1@, f.2@));
        }
        if j + 1 < n {
            out.push(',');
        }
        out.push('\n');
        proof {
            reveal_strlit(",");
            reveal_strlit("\n");
            if j + 1 < n {
                assert(out@ =~= before + lines[j as int] + ","@ + "\n"@);
            } else {
                assert(out@ =~= before + lines[j as int] + Seq::<char>::empty() + "\n"@);
            }
        }
        j += 1;
    }
    out.append("      ]\n    }");
    proof {
        assert(out@ =~= start + json_change(c@));
    }
}

fn changes(changed: &[Change]) -> (r: String)
    ensures
        r@ == json_changes(Seq::new(changed@.len(), |i: int| changed@[i]@)),
{
    let ghost cs = Seq::new(changed@.len(), |i: int| changed@[i]@);
    if changed.len() == 0 {
        return "[]".to_owned();
    }
    let ghost lines = Seq::new(cs.len(), |i: int| json_change(cs[i]));
    let mut out = "[\n".to_owned();
    let n = changed.len();
    let mut i: usize = 0;
    while i < n
        invariant
            i <= n,
            n == changed@.len(),
            cs == Seq::new(changed@.len(), |i: int| changed@[i]@),
            lines == Seq::new(cs.len(), |i: int| json_change(cs[i])),
            out@ == "[\n"@ + listing(lines, i as int),
        decreases n - i,
    {
        let ghost before = out@;
        push_change(&mut out, &changed[i]);
        if i + 1 < n {
            out.push(',');
        }
        out.push('\n');
        proof {
            reveal_strlit(",");
            reveal_strlit("\n");
            if i + 1 < n {
                assert(out@ =~= before + lines[i as int] + ","@ + "\n"@);
            } else {
                assert(out@ =~= before + lines[i as int] + Seq::<char>::empty() + "\n"@);
            }
        }
        i += 1;
    }
    out.append("  ]");
    out
}

/// The whole report as one JSON object, newline-terminated. Besides the
/// report's own fields it says whether the two tables are `identical`, so a
/// consumer can branch without re-deriving that and getting the
/// duplicate-key case wrong.
pub open spec fn json_report(r: ReportModel, keys: Seq<Text>) -> Text {
    "{\n"@ + member_line("identical"@, bool_text(!differs(r)), false) + member_line(
        "keys"@,
        json_array(keys),
        false,
    ) + member_line("addedColumns"@, json_array(r.added_columns), false) + member_line(
        "removedColumns"@,
        json_array(r.removed_columns),
        false,
    ) + member_line("columnsReordered"@, bool_text(r.reordered), false) + member_line(
        "addedRows"@,
        json_key_array(r.added_rows),
        false,
    ) + member_line("removedRows"@, json_key_array(r.removed_rows), false) + member_line(
        "duplicateKeys"@,
        json_key_array(r.duplicate_keys),
        false,
    ) + member_line("changed"@, json_changes(r.changed), false) + "  \"unchanged\": "@ + decimal(
        r.unchanged,
    ) + "\n"@ + "}\n"@
}

/// Render a report as a JSON object, newline-terminated.
pub fn report(r: &Report, keys: &[String]) -> (out: String)
    ensures
        out@ == json_report(r@, texts(keys@)),
{
    let mut out = "{\n".to_owned();
    let identical = bool_of(!r.any());
    push_field(&mut out, "identical", identical.as_str(), false);
    let k = array(keys);
    push_raw(&mut out, "keys", k.as_str());
    let added = array(r.added_columns.as_slice());
    push_raw(&mut out, "addedColumns", added.as_str());
    let removed = array(r.removed_columns.as_slice());
    push_raw(&mut out, "removedColumns", removed.as_str());
    let reordered = bool_of(r.reordered);
    push_field(&mut out, "columnsReordered", reordered.as_str(), false);
    let added_rows = key_array(r.added_rows.as_slice());
    push_raw(&mut out, "addedRows", added_rows.as_str());
    let removed_rows = key_array(r.removed_rows.as_slice());
    push_raw(&mut out, "removedRows", removed_rows.as_str());
    let dupes = key_array(r.duplicate_keys.as_slice());
    push_raw(&mut out, "duplicateKeys", dupes.as_str());
    let ch = changes(r.changed.as_slice());
    push_raw(&mut out, "changed", ch.as_str());
    // Counts last, and `unchanged` without a trailing comma.
    out.append("  \"unchanged\": ");
    push_decimal(&mut out, r.unchanged);
    out.append("\n");
    out.append("}\n");
    proof {
        assert(Seq::new(r.changed@.len(), |i: int| r.changed@[i]@) =~= r@.changed);
    }
    out
}

/// One count member of the summary object, trailing comma included.
pub open spec fn count_line(name: Text, n: nat) -> Text {
    "  \""@ + name + "\": "@ + decimal(n) + ",\n"@
}

fn push_count(out: &mut String, name: &str, n: usize)
    ensures
        final(out)@ == old(out)@ + count_line(name@, n as nat),
{
    let ghost start = out@;
    out.append("  \"");
    out.append(name);
    out.append("\": ");
    push_decimal(out, n);
    out.append(",\n");
    proof {
        assert(out@ =~= start + count_line(name@, n as nat));
    }
}

/// Only the counts of a report, as one JSON object, newline-terminated.
pub open spec fn json_summary(r: ReportModel) -> Text {
    "{\n"@ + member_line("identical"@, bool_text(!differs(r)), false) + count_line(
        "columnsAdded"@,
        r.added_columns.len(),
    ) + count_line("columnsRemoved"@, r.removed_columns.len()) + member_line(
        "columnsReordered"@,
        bool_text(r.reordered),
        false,
    ) + count_line("rowsAdded"@, r.added_rows.len()) + count_line(
        "rowsRemoved"@,
        r.removed_rows.len(),
    ) + count_line("rowsChanged"@, r.changed.len()) + count_line(
        "duplicateKeys"@,
        r.duplicate_keys.len(),
    ) + "  \"unchanged\": "@ + decimal(r.unchanged) + "\n"@ + "}\n"@
}

/// Render only the counts of a report as a JSON object.
pub fn summary(r: &Report) -> (out: String)
    ensures
        out@ == json_summary(r@),
{
    let mut out = "{\n".to_owned();
    let identical = bool_of(!r.any());
    push_field(&mut out, "identical", identical.as_str(), false);
    push_count(&mut out, "columnsAdded", r.added_columns.len());
    push_count(&mut out, "columnsRemoved", r.removed_columns.len());
    let reordered = bool_of(r.reordered);
    push_field(&mut out, "columnsReordered", reordered.as_str(), false);
    push_count(&mut out, "rowsAdded", r.added_rows.len());
    push_count(&mut out, "rowsRemoved", r.removed_rows.len());
    push_count(&mut out, "rowsChanged", r.changed.len());
    push_count(&mut out, "duplicateKeys", r.duplicate_keys.len());
    out.append("  \"unchanged\": ");
    push_decimal(&mut out, r.unchanged);
    out.append("\n");
    out.append("}\n");
    out
}

} // verus!
