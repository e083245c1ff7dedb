use drift::csv::{parse, parse_delimited, Table};
use drift::diff::{apply_tolerance, compare, show_key, Report};
use drift::json::escape;
use drift::options::{check_key_ignore, delimiter, split_columns};
use drift::render::{render, render_summary, Paint};

fn table(s: &str) -> Table {
    parse(s).unwrap()
}

fn cmp_on(a: &str, b: &str, keys: &[&str], ignore: &[&str]) -> Report {
    let keys: Vec<String> = keys.iter().map(|s| s.to_string()).collect();
    let ignore: Vec<String> = ignore.iter().map(|s| s.to_string()).collect();
    compare(&table(a), &table(b), &keys, &ignore).unwrap()
}

fn cmp(a: &str, b: &str) -> Report {
    cmp_on(a, b, &["id"], &[])
}

fn shown(keys: &[Vec<String>]) -> Vec<String> {
    keys.iter().map(|k| show_key(k)).collect()
}

/// A JSON reader for the contents of a double-quoted string, enough to read
/// back what `escape` writes.
fn unescape(s: &str) -> Option<String> {
    let mut out = String::new();
    let mut it = s.chars();
    while let Some(c) = it.next() {
        if c == '"' || (c as u32) < 0x20 {
            return None;
        }
        if c != '\\' {
            out.push(c);
            continue;
        }
        match it.next()? {
            '"' => out.push('"'),
            '\\' => out.push('\\'),
            '/' => out.push('/'),
            'b' => out.push('\u{08}'),
            'f' => out.push('\u{0c}'),
            'n' => out.push('\n'),
            'r' => out.push('\r'),
            't' => out.push('\t'),
            'u' => {
                let hex: String = (0..4).filter_map(|_| it.next()).collect();
                let code = u32::from_str_radix(&hex, 16).ok()?;
                out.push(char::from_u32(code)?);
            }
            _ => return None,
        }
    }
    Some(out)
}

#[test]
fn the_same_comparison_prints_the_same_bytes() {
    let a = "id,v\n3,c\n1,a\n2,b\n";
    let b = "id,v\n2,x\n4,d\n1,y\n";
    let first = render(&cmp(a, b), false);
    let second = render(&cmp(a, b), false);
    assert_eq!(first, second);
    assert_eq!(shown(&cmp(a, b).changed.iter().map(|c| c.key.clone()).collect::<Vec<_>>()), ["1", "2"]);
}

#[test]
fn a_table_compared_with_itself_is_identical() {
    let t = "id,v\n1,a\n2,b\n2,c\n";
    let r = cmp(t, t);
    assert!(!r.any());
    assert!(r.changed.is_empty());
    assert_eq!(r.unchanged, 2);
    assert_eq!(shown(&r.duplicate_keys), ["2"]);
}

#[test]
fn reported_fields_are_only_shared_compared_columns() {
    let r = cmp_on(
        "id,v,only_before,skip\n1,a,x,p\n",
        "id,v,only_after,skip\n1,b,y,q\n",
        &["id"],
        &["skip"],
    );
    assert_eq!(r.changed.len(), 1);
    assert_eq!(r.changed[0].fields, [("v".to_string(), "a".to_string(), "b".to_string())]);
}

#[test]
fn reordering_rows_on_either_side_changes_nothing() {
    let a1 = "id,v\n1,a\n2,b\n3,c\n";
    let a2 = "id,v\n3,c\n1,a\n2,b\n";
    let b1 = "id,v\n2,x\n3,c\n4,d\n";
    let b2 = "id,v\n4,d\n2,x\n3,c\n";
    let first = render(&cmp(a1, b1), false);
    assert_eq!(first, render(&cmp(a2, b2), false));
    assert_eq!(first, render(&cmp(a1, b2), false));
    assert_eq!(first, render(&cmp(a2, b1), false));
}

#[test]
fn a_sorted_export_reports_nothing() {
    let r = cmp("id,v\n3,c\n1,a\n2,b\n", "id,v\n1,a\n2,b\n3,c\n");
    assert!(!r.any());
    assert_eq!(r.unchanged, 3);
}

#[test]
fn swapping_the_files_swaps_added_and_removed() {
    let a = "id,v,gone\n1,a,x\n2,b,y\n3,c,z\n";
    let b = "id,v,new\n1,a,p\n3,q,r\n4,d,s\n";
    let ab = cmp(a, b);
    let ba = cmp(b, a);
    assert_eq!(ab.added_columns, ba.removed_columns);
    assert_eq!(ab.removed_columns, ba.added_columns);
    assert_eq!(ab.added_rows, ba.removed_rows);
    assert_eq!(ab.removed_rows, ba.added_rows);
    assert_eq!(ab.unchanged, ba.unchanged);
    assert_eq!(ab.changed.len(), 1);
    assert_eq!(ba.changed.len(), 1);
    assert_eq!(ab.changed[0].key, ba.changed[0].key);
    assert_eq!(ab.changed[0].fields, [("v".to_string(), "c".to_string(), "q".to_string())]);
    assert_eq!(ba.changed[0].fields, [("v".to_string(), "q".to_string(), "c".to_string())]);
}

#[test]
fn a_repeated_key_is_compared_by_its_last_row() {
    let r = cmp("id,v\n1,a\n1,b\n", "id,v\n1,b\n");
    assert!(!r.any());
    assert_eq!(r.unchanged, 1);
    assert_eq!(shown(&r.duplicate_keys), ["1"]);
    let r = cmp("id,v\n1,b\n1,a\n", "id,v\n1,b\n");
    assert_eq!(r.changed.len(), 1);
    assert_eq!(r.changed[0].fields, [("v".to_string(), "a".to_string(), "b".to_string())]);
}

#[test]
fn no_verdict_leaves_the_report_as_it_is() {
    let a = "id,v,w\n1,a,1.0\n2,b,2\n";
    let b = "id,v,w\n1,z,1.00\n2,b,3\n";
    let before = cmp(a, b);
    let shown_before = render(&before, false);
    let verdicts: Vec<Vec<bool>> = before.changed.iter().map(|c| vec![false; c.fields.len()]).collect();
    let after = apply_tolerance(before, &verdicts);
    assert_eq!(render(&after, false), shown_before);
}

#[test]
fn a_tolerance_only_drops_what_it_accepts() {
    let a = "id,v,w\n1,a,1.0\n2,b,2\n3,c,3\n";
    let b = "id,v,w\n1,z,1.00\n2,b,2.0\n3,c,4\n";
    let before = cmp(a, b);
    assert_eq!(before.changed.len(), 3);
    assert_eq!(before.unchanged, 0);
    // Key 1: accept the w change only; key 2: accept its one change; key 3:
    // accept nothing; a verdict for a change that does not exist is ignored.
    let verdicts = vec![vec![false, true], vec![true], vec![false], vec![true]];
    let after = apply_tolerance(before, &verdicts);
    assert_eq!(after.unchanged, 1);
    assert_eq!(after.changed.len(), 2);
    assert_eq!(after.changed[0].key, ["1"]);
    assert_eq!(after.changed[0].fields, [("v".to_string(), "a".to_string(), "z".to_string())]);
    assert_eq!(after.changed[1].key, ["3"]);
    assert_eq!(after.changed[1].fields, [("w".to_string(), "3".to_string(), "4".to_string())]);
}

#[test]
fn a_missing_verdict_keeps_the_field() {
    let before = cmp("id,v\n1,a\n", "id,v\n1,b\n");
    let after = apply_tolerance(before, &vec![]);
    assert_eq!(after.changed.len(), 1);
    assert_eq!(after.unchanged, 0);
}

#[test]
fn escaped_text_reads_back_as_itself() {
    let mut every_control = String::new();
    for code in 0u32..0x20 {
        every_control.push(char::from_u32(code).unwrap());
    }
    for s in ["", "plain", "a\"b\\c/d", "line\nbreak\r\n\ttab", "café ☕ 𝄞", every_control.as_str()] {
        let e = escape(s);
        assert!(e.chars().all(|c| (c as u32) >= 0x20), "{e:?}");
        assert_eq!(unescape(&e).as_deref(), Some(s), "{e:?}");
    }
    assert_eq!(escape("\u{7f}"), "\u{7f}");
}

#[test]
fn the_last_record_is_never_a_blank_line() {
    let t = table("a\n1\n\n\n");
    assert_eq!(t.rows, [["1"]]);
    let t = table("a\n\n\n");
    assert!(t.rows.is_empty());
    let t = table("a\n\n1\n");
    assert_eq!(t.rows, [vec![""], vec!["1"]]);
}

#[test]
fn a_byte_order_mark_reads_as_nothing() {
    assert_eq!(table("\u{feff}a,b\n1,2\n").header, table("a,b\n1,2\n").header);
    assert_eq!(table("\u{feff}a,b\n1,2\n").rows, table("a,b\n1,2\n").rows);
    assert_eq!(parse("\u{feff}").unwrap_err(), "file is empty");
}

#[test]
fn a_delimiter_inside_quotes_is_data() {
    let t = parse_delimited("a;b\n\"x;y\";z\n", ';').unwrap();
    assert_eq!(t.rows, [["x;y", "z"]]);
    let t = parse_delimited("a\tb\n\"x\ty\"\tz\n", '\t').unwrap();
    assert_eq!(t.rows, [["x\ty", "z"]]);
    let t = parse_delimited("a;b\n1,2;3\n", ';').unwrap();
    assert_eq!(t.rows, [["1,2", "3"]]);
}

#[test]
fn composite_key_parts_are_split_on_commas() {
    assert_eq!(split_columns("region,id"), ["region", "id"]);
    assert_eq!(split_columns("id"), ["id"]);
    assert_eq!(split_columns("a,,b"), ["a", "", "b"]);
    assert_eq!(split_columns(""), [""]);
}

#[test]
fn a_delimiter_names_one_character() {
    assert_eq!(delimiter("tab"), Ok('\t'));
    assert_eq!(delimiter("\\t"), Ok('\t'));
    assert_eq!(delimiter(";"), Ok(';'));
    assert_eq!(delimiter("é"), Ok('é'));
    assert_eq!(delimiter("::"), Err("--delimiter wants a single character, got ::".to_string()));
    assert_eq!(delimiter(""), Err("--delimiter wants a single character, got ".to_string()));
}

#[test]
fn a_key_that_is_ignored_is_named_in_the_refusal() {
    let keys = vec!["region".to_string(), "id".to_string()];
    assert_eq!(check_key_ignore(&keys, &["v".to_string()]), Ok(()));
    assert_eq!(
        check_key_ignore(&keys, &["id".to_string(), "region".to_string()]),
        Err("column region is both a key and ignored".to_string())
    );
}

#[test]
fn long_lists_stop_and_say_how_many_more() {
    let mut before = String::from("id,v\n");
    let mut after = String::from("id,v\n");
    for i in 0..25 {
        before.push_str(&format!("{i:02},a\n{i:02},a\n"));
        after.push_str(&format!("{i:02},b\n"));
    }
    for i in 100..123 {
        after.push_str(&format!("{i},n\n"));
    }
    let r = cmp(&before, &after);
    assert_eq!(r.changed.len(), 25);
    assert_eq!(r.added_rows.len(), 23);
    assert_eq!(r.duplicate_keys.len(), 25);
    let out = render(&r, false);
    assert!(out.contains("changed · 25\n"), "{out}");
    assert!(out.contains("  … and 5 more\n"), "{out}");
    assert!(out.contains("added · 23\n"), "{out}");
    assert!(out.contains("  … and 3 more\n"), "{out}");
    assert!(out.contains("  + 119\n"), "{out}");
    assert!(!out.contains("  + 120\n"), "{out}");
    assert!(out.contains("warning · 25 duplicate key(s); comparison used one row each\n"), "{out}");
    assert!(out.contains("  19\n"), "{out}");
    assert!(!out.contains("  20\n"), "{out}");
    assert!(out.ends_with("0 unchanged · 25 changed · 23 added · 0 removed\n"), "{out}");
}

#[test]
fn colour_wraps_in_escape_codes_only_when_on() {
    let on = Paint(true);
    let off = Paint(false);
    assert_eq!(on.red("x"), "\x1b[31mx\x1b[0m");
    assert_eq!(on.green("x"), "\x1b[32mx\x1b[0m");
    assert_eq!(on.yellow("x"), "\x1b[33mx\x1b[0m");
    assert_eq!(on.dim("x"), "\x1b[2mx\x1b[0m");
    assert_eq!(off.red("x"), "x");
    let r = cmp("id,v\n1,a\n", "id,v\n1,a\n");
    assert_eq!(render(&r, true), "\x1b[2mno differences · 1 rows match\x1b[0m\n");
}

#[test]
fn the_summary_lists_counts_only() {
    let r = cmp("id,v,x\n1,a,1\n1,a,1\n2,b,2\n", "id,v\n1,z\n3,c\n");
    assert_eq!(
        render_summary(&r, false),
        "columns · 0 added · 1 removed\nrows · 1 added · 1 removed · 1 changed · 0 unchanged\nwarning · 1 duplicate key(s)\n"
    );
}

#[test]
fn reordered_columns_are_listed_in_the_schema() {
    let r = cmp("id,a,b\n1,x,y\n", "id,b,a\n1,y,x\n");
    assert!(r.reordered);
    assert_eq!(render(&r, false), "schema\n  ~ columns reordered\n\n1 unchanged · 0 changed · 0 added · 0 removed\n");
}

#[test]
fn a_final_line_break_changes_nothing() {
    let cases: [(&str, char); 6] = [
        ("a,b\n1,2", ','),
        ("a\n\"\"", ','),
        ("a\r\n1\r", ','),
        ("a\rb", '\r'),
        ("a;b\n\"x\ny\";2", ';'),
        ("a\n1\n", ','),
    ];
    for (s, d) in cases {
        let with = format!("{s}\n");
        let a = parse_delimited(s, d).unwrap();
        let b = parse_delimited(&with, d).unwrap();
        assert_eq!(a.header, b.header, "{s:?}");
        assert_eq!(a.rows, b.rows, "{s:?}");
    }
    assert_eq!(parse("").unwrap_err(), parse("\n").unwrap_err());
}

#[test]
fn repeated_keys_come_in_the_order_they_first_repeat() {
    let t = table("id,v\nb,1\na,2\nb,3\na,4\nc,5\na,6\n");
    let (entries, repeated) = drift::keyed::index(&t.rows, &vec![0]);
    assert_eq!(repeated, [vec!["b".to_string()], vec!["a".to_string()]]);
    let keys: Vec<&str> = entries.iter().map(|e| e.key[0].as_str()).collect();
    assert_eq!(keys, ["a", "b", "c"]);
    let rows: Vec<usize> = entries.iter().map(|e| e.row).collect();
    assert_eq!(rows, [5, 2, 4]);
    let dups: Vec<bool> = entries.iter().map(|e| e.dup).collect();
    assert_eq!(dups, [true, true, false]);
}

#[test]
fn every_shared_key_is_changed_or_unchanged() {
    let r = cmp("id,v\n1,a\n2,b\n3,c\n4,d\n", "id,v\n2,b\n3,x\n4,d\n5,e\n1,y\n");
    assert_eq!(r.changed.len() + r.unchanged, 4);
    assert_eq!(r.changed.len(), 2);
}

fn quote_all(records: &[Vec<&str>], delim: char) -> String {
    let mut out = String::new();
    for r in records {
        let fields: Vec<String> = r.iter().map(|f| format!("\"{}\"", f.replace('"', "\"\""))).collect();
        out.push_str(&fields.join(&delim.to_string()));
        out.push('\n');
    }
    out
}

#[test]
fn quoting_every_field_reads_back() {
    let records = vec![
        vec!["\u{feff}id", "a,b", "say \"hi\""],
        vec!["1", "", "line\r\nbreak"],
        vec![""],
        vec!["\"", "\"\"", "x\ry"],
    ];
    for delim in [',', ';', '\t'] {
        let t = parse_delimited(&quote_all(&records, delim), delim).unwrap();
        assert_eq!(t.header, records[0]);
        assert_eq!(t.rows, records[1..].to_vec());
    }
}

#[test]
fn key_columns_are_found_or_the_file_is_named() {
    let t = table("a,b,a\n1,2,3\n");
    let keys = vec!["a".to_string(), "b".to_string()];
    assert_eq!(drift::diff::key_indices(&t, &keys, "first"), Ok(vec![0, 1]));
    let keys = vec!["b".to_string(), "c".to_string(), "d".to_string()];
    assert_eq!(
        drift::diff::key_indices(&t, &keys, "second"),
        Err("no column \"c\" in the second file; it has a, b, a".to_string())
    );
}

/// A strict reader for one JSON value, enough to check that a text is one.
struct Reader<'a> {
    s: &'a [char],
    i: usize,
}

impl<'a> Reader<'a> {
    fn space(&mut self) {
        while self.i < self.s.len() && matches!(self.s[self.i], ' ' | '\t' | '\n' | '\r') {
            self.i += 1;
        }
    }

    fn eat(&mut self, c: char) -> bool {
        if self.i < self.s.len() && self.s[self.i] == c {
            self.i += 1;
            true
        } else {
            false
        }
    }

    fn string(&mut self) -> Option<String> {
        if !self.eat('"') {
            return None;
        }
        let start = self.i;
        while self.i < self.s.len() && self.s[self.i] != '"' {
            if self.s[self.i] == '\\' {
                self.i += 1;
            }
            self.i += 1;
        }
        let raw: String = self.s[start..self.i].iter().collect();
        if !self.eat('"') {
            return None;
        }
        unescape(&raw)
    }

    fn value(&mut self) -> bool {
        self.space();
        let ok = if self.eat('{') {
            self.space();
            if self.eat('}') {
                true
            } else {
                loop {
                    self.space();
                    if self.string().is_none() {
                        break false;
                    }
                    self.space();
                    if !self.eat(':') || !self.value() {
                        break false;
                    }
                    self.space();
                    if self.eat('}') {
                        break true;
                    }
                    if !self.eat(',') {
                        break false;
                    }
                }
            }
        } else if self.eat('[') {
            self.space();
            if self.eat(']') {
                true
            } else {
                loop {
                    if !self.value() {
                        break false;
                    }
                    self.space();
                    if self.eat(']') {
                        break true;
                    }
                    if !self.eat(',') {
                        break false;
                    }
                }
            }
        } else if self.i < self.s.len() && self.s[self.i] == '"' {
            self.string().is_some()
        } else {
            let start = self.i;
            while self.i < self.s.len() && self.s[self.i].is_ascii_alphanumeric() {
                self.i += 1;
            }
            let word: String = self.s[start..self.i].iter().collect();
            word == "true" || word == "false" || word == "null" || word.parse::<u64>().is_ok()
        };
        self.space();
        ok
    }
}

#[test]
fn the_json_report_is_one_object() {
    let r = cmp_on(
        "id,v,gone\n1,\"a\"\"q\",x\n2,\"b\nc\",y\n2,z,z\n",
        "id,v,new\n1,\"a\\b\",p\n3,\u{1},q\n",
        &["id"],
        &[],
    );
    let out = drift::json::report(&r, &["id".to_string()]);
    let chars: Vec<char> = out.chars().collect();
    let mut reader = Reader { s: &chars, i: 0 };
    assert!(reader.value(), "{out}");
    assert_eq!(reader.i, chars.len(), "{out}");
    assert!(out.starts_with("{\n  \"identical\": false,\n  \"keys\": [\"id\"],\n"), "{out}");
    assert!(out.ends_with("  \"unchanged\": 0\n}\n"), "{out}");
}
