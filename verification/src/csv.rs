//! A CSV reader: RFC 4180 as it actually appears in exports.
//!
//! Quoted fields, doubled quotes inside them, embedded delimiters and
//! newlines, `\r\n`, `\n` and a bare `\r`, ragged rows, one leading byte-order
//! mark, and files with no trailing newline. No comments and no encoding
//! detection.
use vstd::prelude::*;
use crate::text::{chars_of, decimal};

verus! {

/// A field's text, as characters.
pub type Text = Seq<char>;

/// One record: its fields in order.
pub type Record = Seq<Text>;

/// One parsed file: a header and the rows under it.
#[derive(Debug)]
pub struct Table {
    pub header: Vec<String>,
    pub rows: Vec<Vec<String>>,
}

/// What a table holds, as plain sequences of characters.
pub struct TableModel {
    pub header: Record,
    pub rows: Seq<Record>,
}

impl View for Table {
    type V = TableModel;

    open spec fn view(&self) -> TableModel {
        TableModel { header: self.header.deep_view(), rows: self.rows.deep_view() }
    }
}

/// Index of the first entry of `names` equal to `name`.
pub open spec fn position(names: Seq<Text>, name: Text) -> Option<int>
    decreases names.len(),
{
    if names.len() == 0 {
        None
    } else if names[0] == name {
        Some(0)
    } else {
        match position(names.drop_first(), name) {
            Some(i) => Some(i + 1),
            None => None,
        }
    }
}

/// `position` is the first matching index, and `None` exactly when nothing matches.
pub proof fn lemma_position(names: Seq<Text>, name: Text)
    ensures
        match position(names, name) {
            Some(i) => 0 <= i < names.len() && names[i] == name && forall|j: int|
                0 <= j < i ==> names[j] != name,
            None => forall|j: int| 0 <= j < names.len() ==> names[j] != name,
        },
    decreases names.len(),
{
    if names.len() > 0 {
        lemma_position(names.drop_first(), name);
        if names[0] != name {
            assert forall|j: int| 1 <= j < names.len() implies names[j] == names.drop_first()[j - 1] by {}
        }
    }
}

/// A field of a row; a position past the end of a short row reads as empty.
pub open spec fn field_at(row: Record, idx: int) -> Text {
    if 0 <= idx < row.len() {
        row[idx]
    } else {
        Seq::empty()
    }
}

impl Table {
    /// Index of a named column.
    pub fn column(&self, name: &str) -> (r: Option<usize>)
        ensures
            match r {
                Some(i) => position(self@.header, name@) == Some(i as int),
                None => position(self@.header, name@) is None,
            },
    {
        proof { lemma_position(self@.header, name@); }
        let wanted = name.to_owned();
        let mut i: usize = 0;
        while i < self.header.len()
            invariant
                i <= self.header.len(),
                wanted@ == name@,
                forall|j: int| 0 <= j < i ==> self@.header[j] != name@,
            decreases self.header.len() - i,
        {
            if self.header[i] == wanted {
                proof {
                    lemma_position_is_first(self@.header, name@, i as int);
                }
                return Some(i);
            }
            i += 1;
        }
        None
    }

    /// A field, or "" when the row is short.
    ///
    /// Ragged rows are common in exported data; a missing field reads as
    /// empty, which a diff then reports as a change.
    pub fn field<'a>(&self, row: &'a [String], idx: usize) -> (r: &'a str)
        ensures
            r@ == field_at(row@.map_values(|s: String| s@), idx as int),
    {
        if idx < row.len() {
            row[idx].as_str()
        } else {
            proof { reveal_strlit(""); }
            ""
        }
    }
}

/// Where the first match is known, `position` finds it.
pub proof fn lemma_position_is_first(names: Seq<Text>, name: Text, i: int)
    requires
        0 <= i < names.len(),
        names[i] == name,
        forall|j: int| 0 <= j < i ==> names[j] != name,
    ensures
        position(names, name) == Some(i),
    decreases names.len(),
{
    if i > 0 {
        assert forall|j: int| 0 <= j < i - 1 implies names.drop_first()[j] != name by {
            assert(names.drop_first()[j] == names[j + 1]);
        }
        lemma_position_is_first(names.drop_first(), name, i - 1);
    }
}

/// The reader's state between two characters.
pub struct Scan {
    /// Records completed so far.
    pub records: Seq<Record>,
    /// Fields of the record being read.
    pub record: Record,
    /// Characters of the field being read.
    pub field: Text,
    /// Inside a quoted field.
    pub quoted: bool,
    /// Line number, counting line breaks read so far.
    pub line: nat,
}

pub open spec fn scan_start() -> Scan {
    Scan { records: Seq::empty(), record: Seq::empty(), field: Seq::empty(), quoted: false, line: 1 }
}

/// The state after a line break ends the record being read.
pub open spec fn end_record(st: Scan) -> Scan {
    Scan {
        records: st.records.push(st.record.push(st.field)),
        record: Seq::empty(),
        field: Seq::empty(),
        quoted: false,
        line: st.line + 1,
    }
}

/// The reader run from position `i` of `s` in state `st` to the end.
pub open spec fn scan(s: Text, delim: char, i: int, st: Scan) -> Scan
    decreases s.len() - i,
{
    if i < 0 || i >= s.len() {
        st
    } else {
        let c = s[i];
        if st.quoted {
            if c == '"' {
                if i + 1 < s.len() && s[i + 1] == '"' {
                    // A doubled quote inside a quoted field is one literal quote.
                    scan(s, delim, i + 2, Scan { field: st.field.push('"'), ..st })
                } else {
                    scan(s, delim, i + 1, Scan { quoted: false, ..st })
                }
            } else if c == '\n' {
                scan(s, delim, i + 1, Scan { field: st.field.push('\n'), line: st.line + 1, ..st })
            } else {
                scan(s, delim, i + 1, Scan { field: st.field.push(c), ..st })
            }
        } else if c == '"' && st.field.len() == 0 {
            scan(s, delim, i + 1, Scan { quoted: true, ..st })
        } else if c == delim {
            scan(s, delim, i + 1, Scan { record: st.record.push(st.field), field: Seq::empty(), ..st })
        } else if c == '\r' {
            // The `\n` of a `\r\n` pair belongs to the same line break.
            let next = if i + 1 < s.len() && s[i + 1] == '\n' { i + 2 } else { i + 1 };
            scan(s, delim, next, end_record(st))
        } else if c == '\n' {
            scan(s, delim, i + 1, end_record(st))
        } else {
            scan(s, delim, i + 1, Scan { field: st.field.push(c), ..st })
        }
    }
}

/// A record made of one empty field: what a blank line reads as.
pub open spec fn is_blank(r: Record) -> bool {
    r.len() == 1 && r[0].len() == 0
}

/// Trailing blank lines are noise, not rows.
pub open spec fn drop_blank_tail(recs: Seq<Record>) -> Seq<Record>
    decreases recs.len(),
{
    if recs.len() > 0 && is_blank(recs.last()) {
        drop_blank_tail(recs.drop_last())
    } else {
        recs
    }
}

/// The records once the input is exhausted: a final record without a line
/// break still counts, and trailing blank lines do not.
pub open spec fn finish(st: Scan) -> Seq<Record> {
    let recs = if st.field.len() > 0 || st.record.len() > 0 {
        st.records.push(st.record.push(st.field))
    } else {
        st.records
    };
    drop_blank_tail(recs)
}

/// Where reading starts: after one leading byte-order mark, if there is one.
pub open spec fn body_start(s: Text) -> int {
    if s.len() > 0 && s[0] == '\u{feff}' {
        1
    } else {
        0
    }
}

/// The records of a document, or the message that refuses it.
pub open spec fn csv_records(s: Text, delim: char) -> Result<Seq<Record>, Text> {
    let st = scan(s, delim, body_start(s), scan_start());
    if st.quoted {
        Err("unterminated quote starting before line "@ + decimal(st.line))
    } else if finish(st).len() == 0 {
        Err("file is empty"@)
    } else {
        Ok(finish(st))
    }
}

/// Parse a whole comma-separated document.
pub fn parse(input: &str) -> (r: Result<Table, String>)
    requires
        input@.len() < usize::MAX,
    ensures
        match (r, csv_records(input@, ',')) {
            (Ok(t), Ok(recs)) => recs == seq![t@.header] + t@.rows,
            (Err(e), Err(msg)) => e@ == msg,
            _ => false,
        },
{
    parse_delimited(input, ',')
}

/// Parse a whole document whose fields are separated by `delim`.
///
/// The quoting rules are the same with any delimiter: a delimiter inside a
/// quoted field is data, not a field break.
pub fn parse_delimited(input: &str, delim: char) -> (r: Result<Table, String>)
    requires
        input@.len() < usize::MAX,
    ensures
        match (r, csv_records(input@, delim)) {
            (Ok(t), Ok(recs)) => recs == seq![t@.header] + t@.rows,
            (Err(e), Err(msg)) => e@ == msg,
            _ => false,
        },
{
    let s = chars_of(input);
    let n = s.len();
    let ghost sv = s@;
    let start: usize = if n > 0 && s[0] == '\u{feff}' { 1 } else { 0 };

    let mut records: Vec<Vec<String>> = Vec::new();
    let mut record: Vec<String> = Vec::new();
    let mut field = String::new();
    let mut quoted = false;
    let mut line: usize = 1;
    let mut i: usize = start;
    proof {
        assert(records.deep_view() =~= Seq::<Record>::empty());
        assert(record.deep_view() =~= Seq::<Text>::empty());
    }

    while i < n
        invariant
            n == s@.len(),
            sv == s@,
            sv == input@,
            n < usize::MAX,
            start == body_start(sv),
            start <= i <= n,
            1 <= line <= i - start + 1,
            scan(sv, delim, i as int, Scan {
                records: records.deep_view(),
                record: record.deep_view(),
                field: field@,
                quoted,
                line: line as nat,
            }) == scan(sv, delim, start as int, scan_start()),
        decreases n - i,
    {
        let c = s[i];
        let ghost before = Scan {
            records: records.deep_view(),
            record: record.deep_view(),
            field: field@,
            quoted,
            line: line as nat,
        };
        if quoted {
            if c == '"' {
                if i + 1 < n && s[i + 1] == '"' {
                    field.push('"');
                    i = i + 2;
                } else {
                    quoted = false;
                    i = i + 1;
                }
            } else if c == '\n' {
                line = line + 1;
                field.push('\n');
                i = i + 1;
            } else {
                field.push(c);
                i = i + 1;
            }
        } else if c == '"' && field.as_str().is_empty() {
            quoted = true;
            i = i + 1;
        } else if c == delim {
            let ghost old_record = record.deep_view();
            record.push(field);
            field = String::new();
            proof {
                assert(record.deep_view() =~= old_record.push(before.field));
            }
            i = i + 1;
        } else if c == '\r' || c == '\n' {
            let ghost old_records = records.deep_view();
            let ghost old_record = record.deep_view();
            record.push(field);
            field = String::new();
            let ghost full = record.deep_view();
            proof {
                assert(full =~= old_record.push(before.field));
            }
            records.push(record);
            record = Vec::new();
            proof {
                assert(records.deep_view() =~= old_records.push(full));
                assert(record.deep_view() =~= Seq::<Text>::empty());
            }
            line = line + 1;
            if c == '\r' && i + 1 < n && s[i + 1] == '\n' {
                i = i + 2;
            } else {
                i = i + 1;
            }
        } else {
            field.push(c);
            i = i + 1;
        }
    }

    if quoted {
        let mut msg = "unterminated quote starting before line ".to_owned();
        crate::text::push_decimal(&mut msg, line);
        return Err(msg);
    }

    let ghost last = Scan {
        records: records.deep_view(),
        record: record.deep_view(),
        field: field@,
        quoted,
        line: line as nat,
    };
    proof {
        assert(last == scan(sv, delim, start as int, scan_start()));
    }

    // A file not ending in a line break still has a final record.
    if !field.as_str().is_empty() || record.len() > 0 {
        let ghost old_records = records.deep_view();
        let ghost old_record = record.deep_view();
        record.push(field);
        let ghost full = record.deep_view();
        proof {
            assert(full =~= old_record.push(last.field));
        }
        records.push(record);
        proof {
            assert(records.deep_view() =~= old_records.push(full));
        }
    }

    // Trailing blank lines are noise, not empty rows.
    while records.len() > 0 && records[records.len() - 1].len() == 1
        && records[records.len() - 1][0].as_str().is_empty()
        invariant
            drop_blank_tail(records.deep_view()) == finish(last),
        decreases records.len(),
    {
        let ghost old_records = records.deep_view();
        records.pop();
        proof {
            assert(records.deep_view() =~= old_records.drop_last());
        }
    }

    if records.len() == 0 {
        return Err("file is empty".to_owned());
    }
    let ghost all = records.deep_view();
    let rows = records.split_off(1);
    let header = records.pop().unwrap();
    proof {
        assert(all == finish(last));
        assert(all =~= seq![header.deep_view()] + rows.deep_view());
    }
    Ok(Table { header, rows })
}

} // verus!
