//! The report as text for a person.
//!
//! Everything is in the report's own order, which is sorted, so two runs over
//! the same input print the same bytes. Long lists stop at a fixed number of
//! entries and say how many more there are.
use vstd::prelude::*;
use crate::csv::{Text, Record};
use crate::diff::{
    Report, ReportModel, Change, ChangeModel, FieldChange, texts, keys_view, field_changes_view,
    differs, join, push_joined,
};
use crate::text::{decimal, push_decimal};

verus! {

/// How many entries of a list to name before summarising the rest.
pub const SHOWN: usize = 20;

/// Terminal colours, or none.
pub struct Paint(pub bool);

/// `s` wrapped in the escape codes for `code` when colour is on.
pub open spec fn paint(color: bool, code: Text, s: Text) -> Text {
    if color {
        "\x1b["@ + code + "m"@ + s + "\x1b[0m"@
    } else {
        s
    }
}

pub open spec fn red(color: bool, s: Text) -> Text {
    paint(color, "31"@, s)
}

pub open spec fn green(color: bool, s: Text) -> Text {
    paint(color, "32"@, s)
}

pub open spec fn yellow(color: bool, s: Text) -> Text {
    paint(color, "33"@, s)
}

pub open spec fn dim(color: bool, s: Text) -> Text {
    paint(color, "2"@, s)
}

impl Paint {
    pub fn red(&self, s: &str) -> (r: String)
        ensures
            r@ == red(self.0, s@),
    {
        self.wrap("31", s)
    }

    pub fn green(&self, s: &str) -> (r: String)
        ensures
            r@ == green(self.0, s@),
    {
        self.wrap("32", s)
    }

    pub fn yellow(&self, s: &str) -> (r: String)
        ensures
            r@ == yellow(self.0, s@),
    {
        self.wrap("33", s)
    }

    pub fn dim(&self, s: &str) -> (r: String)
        ensures
            r@ == dim(self.0, s@),
    {
        self.wrap("2", s)
    }

    pub fn wrap(&self, code: &str, s: &str) -> (r: String)
        ensures
            r@ == paint(self.0, code@, s@),
    {
        if self.0 {
            let mut out = "\x1b[".to_owned();
            out.append(code);
            out.append("m");
            out.append(s);
            out.append("\x1b[0m");
            out
        } else {
            s.to_owned()
        }
    }
}

/// The parts one after another.
pub open spec fn concat(parts: Seq<Text>) -> Text
    decreases parts.len(),
{
    if parts.len() == 0 {
        Seq::empty()
    } else {
        concat(parts.drop_last()) + parts.last()
    }
}

/// How many entries of a list of `n` are named.
pub open spec fn shown(n: int) -> int {
    if n > SHOWN {
        SHOWN as int
    } else {
        n
    }
}

/// The line that says how many entries of a list of `n` were not named.
pub open spec fn more_line(color: bool, n: int) -> Text {
    if n > SHOWN {
        "  "@ + dim(color, "… and "@ + decimal((n - SHOWN) as nat) + " more"@) + "\n"@
    } else {
        Seq::empty()
    }
}

/// A key for display: its parts joined with " · ".
pub open spec fn key_text(k: Record) -> Text {
    join(k, " · "@)
}

/// The schema section: columns removed, added, or moved.
pub open spec fn schema_block(r: ReportModel, color: bool) -> Text {
    if r.added_columns.len() > 0 || r.removed_columns.len() > 0 || r.reordered {
        "schema\n"@ + concat(
            Seq::new(
                r.removed_columns.len(),
                |i: int| "  "@ + red(color, "−"@) + " column "@ + r.removed_columns[i] + "\n"@,
            ),
        ) + concat(
            Seq::new(
                r.added_columns.len(),
                |i: int| "  "@ + green(color, "+"@) + " column "@ + r.added_columns[i] + "\n"@,
            ),
        ) + (if r.reordered {
            "  "@ + yellow(color, "~"@) + " columns reordered\n"@
        } else {
            Seq::empty()
        }) + "\n"@
    } else {
        Seq::empty()
    }
}

/// One changed field: column, the value before, the value after.
pub open spec fn field_line(f: FieldChange, color: bool) -> Text {
    "    "@ + f.0 + ": "@ + red(color, f.1) + " → "@ + green(color, f.2) + "\n"@
}

/// One change: its key, then each changed field.
pub open spec fn change_lines(c: ChangeModel, color: bool) -> Text {
    "  "@ + yellow(color, key_text(c.key)) + "\n"@ + concat(
        Seq::new(c.fields.len(), |j: int| field_line(c.fields[j], color)),
    )
}

/// The changed section.
pub open spec fn changed_block(r: ReportModel, color: bool) -> Text {
    let n = r.changed.len() as int;
    if n > 0 {
        "changed · "@ + decimal(n as nat) + "\n"@ + concat(
            Seq::new(shown(n) as nat, |i: int| change_lines(r.changed[i], color)),
        ) + more_line(color, n) + "\n"@
    } else {
        Seq::empty()
    }
}

/// A section of rows only one side has.
pub open spec fn rows_block(label: Text, keys: Seq<Record>, mark: Text, color: bool) -> Text {
    let n = keys.len() as int;
    if n > 0 {
        label + " · "@ + decimal(n as nat) + "\n"@ + concat(
            Seq::new(shown(n) as nat, |i: int| "  "@ + mark + " "@ + key_text(keys[i]) + "\n"@),
        ) + more_line(color, n) + "\n"@
    } else {
        Seq::empty()
    }
}

/// The warning about keys carried by more than one row. It is shown even
/// when nothing else differs.
pub open spec fn duplicates_block(r: ReportModel, color: bool) -> Text {
    let n = r.duplicate_keys.len() as int;
    if n > 0 {
        yellow(
            color,
            "warning · "@ + decimal(n as nat) + " duplicate key(s); comparison used one row each"@,
        ) + "\n"@ + concat(
            Seq::new(shown(n) as nat, |i: int| "  "@ + key_text(r.duplicate_keys[i]) + "\n"@),
        ) + more_line(color, n) + "\n"@
    } else {
        Seq::empty()
    }
}

/// The closing line of counts.
pub open spec fn totals_line(r: ReportModel, color: bool) -> Text {
    dim(
        color,
        decimal(r.unchanged) + " unchanged · "@ + decimal(r.changed.len()) + " changed · "@
            + decimal(r.added_rows.len()) + " added · "@ + decimal(r.removed_rows.len())
            + " removed"@,
    ) + "\n"@
}

/// The whole report as text.
pub open spec fn report_text(r: ReportModel, color: bool) -> Text {
    if !differs(r) {
        duplicates_block(r, color) + dim(
            color,
            "no differences · "@ + decimal(r.unchanged) + " rows match"@,
        ) + "\n"@
    } else {
        schema_block(r, color) + changed_block(r, color) + rows_block(
            "removed"@,
            r.removed_rows,
            red(color, "−"@),
            color,
        ) + rows_block("added"@, r.added_rows, green(color, "+"@), color) + duplicates_block(
            r,
            color,
        ) + totals_line(r, color)
    }
}

/// Only the counts: columns added and removed, rows added, removed, changed
/// and unchanged, and the duplicate-key warning if there is one.
pub open spec fn summary_text(r: ReportModel, color: bool) -> Text {
    "columns · "@ + decimal(r.added_columns.len()) + " added · "@ + decimal(
        r.removed_columns.len(),
    ) + " removed\n"@ + "rows · "@ + decimal(r.added_rows.len()) + " added · "@ + decimal(
        r.removed_rows.len(),
    ) + " removed · "@ + decimal(r.changed.len()) + " changed · "@ + decimal(r.unchanged)
        + " unchanged\n"@ + (if r.duplicate_keys.len() > 0 {
        yellow(color, "warning · "@ + decimal(r.duplicate_keys.len()) + " duplicate key(s)"@)
            + "\n"@
    } else {
        Seq::empty()
    })
}

fn push_more(out: &mut String, c: &Paint, n: usize)
    ensures
        final(out)@ == old(out)@ + more_line(c.0, n as int),
{
    if n > SHOWN {
        let mut inner = "… and ".to_owned();
        push_decimal(&mut inner, n - SHOWN);
        inner.append(" more");
        let painted = c.dim(inner.as_str());
        let ghost start = out@;
        out.append("  ");
        out.append(painted.as_str());
        out.append("\n");
        proof {
            assert(out@ =~= start + more_line(c.0, n as int));
        }
    } else {
        proof {
            assert(old(out)@ + more_line(c.0, n as int) =~= old(out)@);
        }
    }
}

/// Append `k` joined for display.
fn push_key(out: &mut String, k: &Vec<String>)
    ensures
        final(out)@ == old(out)@ + key_text(texts(k@)),
{
    push_joined(out, k.as_slice(), " · ");
}

fn push_schema(out: &mut String, r: &Report, c: &Paint)
    ensures
        final(out)@ == old(out)@ + schema_block(r@, c.0),
{
    let ghost start = out@;
    if r.added_columns.len() > 0 || r.removed_columns.len() > 0 || r.reordered {
        out.append("schema\n");
        let minus = c.red("−");
        let ghost removed = Seq::new(
            r@.removed_columns.len(),
            |i: int| "  "@ + red(c.0, "−"@) + " column "@ + r@.removed_columns[i] + "\n"@,
        );
        let ghost mid = out@;
        let mut i: usize = 0;
        while i < r.removed_columns.len()
            invariant
                i <= r.removed_columns@.len(),
                minus@ == red(c.0, "−"@),
                removed == Seq::new(
                    r@.removed_columns.len(),
                    |i: int| "  "@ + red(c.0, "−"@) + " column "@ + r@.removed_columns[i] + "\n"@,
                ),
                out@ == mid + concat(removed.take(i as int)),
            decreases r.removed_columns@.len() - i,
        {
            let ghost before = out@;
            out.append("  ");
            out.append(minus.as_str());
            out.append(" column ");
            out.append(r.removed_columns[i].as_str());
            out.append("\n");
            proof {
                assert(removed.take(i + 1).drop_last() =~= removed.take(i as int));
                assert(out@ =~= before + removed[i as int]);
            }
            i += 1;
        }
        proof { assert(removed.take(removed.len() as int) =~= removed); }
        let plus = c.green("+");
        let ghost added = Seq::new(
            r@.added_columns.len(),
            |i: int| "  "@ + green(c.0, "+"@) + " column "@ + r@.added_columns[i] + "\n"@,
        );
        let ghost mid2 = out@;
        let mut i: usize = 0;
        while i < r.added_columns.len()
            invariant
                i <= r.added_columns@.len(),
                plus@ == green(c.0, "+"@),
                added == Seq::new(
                    r@.added_columns.len(),
                    |i: int| "  "@ + green(c.0, "+"@) + " column "@ + r@.added_columns[i] + "\n"@,
                ),
                out@ == mid2 + concat(added.take(i as int)),
            decreases r.added_columns@.len() - i,
        {
            let ghost before = out@;
            out.append("  ");
            out.append(plus.as_str());
            out.append(" column ");
            out.append(r.added_columns[i].as_str());
            out.append("\n");
            proof {
                assert(added.take(i + 1).drop_last() =~= added.take(i as int));
                assert(out@ =~= before + added[i as int]);
            }
            i += 1;
        }
        proof { assert(added.take(added.len() as int) =~= added); }
        let ghost mid3 = out@;
        if r.reordered {
            let tilde = c.yellow("~");
            out.append("  ");
            out.append(tilde.as_str());
            out.append(" columns reordered\n");
            proof {
                assert(out@ =~= mid3 + ("  "@ + yellow(c.0, "~"@) + " columns reordered\n"@));
            }
        } else {
            proof { assert(out@ =~= mid3 + Seq::<char>::empty()); }
        }
        out.append("\n");
        proof {
            assert(out@ =~= start + schema_block(r@, c.0));
        }
    } else {
        proof { assert(out@ =~= start + schema_block(r@, c.0)); }
    }
}

fn push_change_lines(out: &mut String, ch: &Change, c: &Paint)
    ensures
        final(out)@ == old(out)@ + change_lines(ch@, c.0),
{
    let ghost start = out@;
    let mut k = String::new();
    push_key(&mut k, &ch.key);
    let key = c.yellow(k.as_str());
    out.append("  ");
    out.append(key.as_str());
    out.append("\n");
    let ghost mid = out@;
    let ghost lines = Seq::new(ch@.fields.len(), |j: int| field_line(ch@.fields[j], c.0));
    let mut j: usize = 0;
    while j < ch.fields.len()
        invariant
            j <= ch.fields@.len(),
            lines == Seq::new(ch@.fields.len(), |j: int| field_line(ch@.fields[j], c.0)),
            out@ == mid + concat(lines.take(j as int)),
        decreases ch.fields@.len() - j,
    {
        let ghost before = out@;
        let f = &ch.fields[j];
        let b = c.red(f.1.as_str());
        let a = c.green(f.2.as_str());
        out.append("    ");
        out.append(f.0.as_str());
        out.append(": ");
        out.append(b.as_str());
        out.append(" → ");
        out.append(a.as_str());
        out.append("\n");
        proof {
            assert(ch@.fields[j as int] == (f.0@, f.1@, f.2@));
            assert(lines.take(j + 1).drop_last() =~= lines.take(j as int));
            assert(out@ =~= before + lines[j as int]);
        }
        j += 1;
    }
    proof {
        assert(lines.take(lines.len() as int) =~= lines);
        assert(out@ =~= start + change_lines(ch@, c.0));
    }
}

fn push_changed(out: &mut String, r: &Report, c: &Paint)
    ensures
        final(out)@ == old(out)@ + changed_block(r@, c.0),
{
    let ghost start = out@;
    let n = r.changed.len();
    if n > 0 {
        out.append("changed · ");
        push_decimal(out, n);
        out.append("\n");
        let ghost mid = out@;
        let limit = if n > SHOWN { SHOWN } else { n };
        let ghost parts = Seq::new(shown(n as int) as nat, |i: int| change_lines(r@.changed[i], c.0));
        let mut i: usize = 0;
        while i < limit
            invariant
                i <= limit,
                limit as int == shown(n as int),
                n == r.changed@.len(),
                parts == Seq::new(shown(n as int) as nat, |i: int| change_lines(r@.changed[i], c.0)),
                out@ == mid + concat(parts.take(i as int)),
            decreases limit - i,
        {
            let ghost before = out@;
            push_change_lines(out, &r.changed[i], c);
            proof {
                assert(parts.take(i + 1).drop_last() =~= parts.take(i as int));
                assert(r@.changed[i as int] == r.changed@[i as int]@);
            }
            i += 1;
        }
        proof { assert(parts.take(parts.len() as int) =~= parts); }
        push_more(out, c, n);
        out.append("\n");
        proof {
            assert(out@ =~= start + changed_block(r@, c.0));
        }
    } else {
        proof { assert(out@ =~= start + changed_block(r@, c.0)); }
    }
}

fn push_rows(out: &mut String, label: &str, keys: &Vec<Vec<String>>, mark: &str, c: &Paint)
    ensures
        final(out)@ == old(out)@ + rows_block(label@, keys_view(keys@), mark@, c.0),
{
    let ghost start = out@;
    let ghost kv = keys_view(keys@);
    let n = keys.len();
    if n > 0 {
        out.append(label);
        out.append(" · ");
        push_decimal(out, n);
        out.append("\n");
        let ghost mid = out@;
        let limit = if n > SHOWN { SHOWN } else { n };
        let ghost parts = Seq::new(shown(n as int) as nat, |i: int| "  "@ + mark@ + " "@ + key_text(kv[i]) + "\n"@);
        let mut i: usize = 0;
        while i < limit
            invariant
                i <= limit,
                limit as int == shown(n as int),
                n == keys@.len(),
                kv == keys_view(keys@),
                parts == Seq::new(shown(n as int) as nat, |i: int| "  "@ + mark@ + " "@ + key_text(kv[i]) + "\n"@),
                out@ == mid + concat(parts.take(i as int)),
            decreases limit - i,
        {
            let ghost before = out@;
            out.append("  ");
            out.append(mark);
            out.append(" ");
            push_key(out, &keys[i]);
            out.append("\n");
            proof {
                assert(parts.take(i + 1).drop_last() =~= parts.take(i as int));
                assert(out@ =~= before + parts[i as int]);
            }
            i += 1;
        }
        proof { assert(parts.take(parts.len() as int) =~= parts); }
        push_more(out, c, n);
        out.append("\n");
        proof {
            assert(out@ =~= start + rows_block(label@, kv, mark@, c.0));
        }
    } else {
        proof { assert(out@ =~= start + rows_block(label@, kv, mark@, c.0)); }
    }
}

fn push_duplicates(out: &mut String, r: &Report, c: &Paint)
    ensures
        final(out)@ == old(out)@ + duplicates_block(r@, c.0),
{
    let ghost start = out@;
    let ghost kv = r@.duplicate_keys;
    let n = r.duplicate_keys.len();
    if n > 0 {
        let mut warning = "warning · ".to_owned();
        push_decimal(&mut warning, n);
        warning.append(" duplicate key(s); comparison used one row each");
        let painted = c.yellow(warning.as_str());
        out.append(painted.as_str());
        out.append("\n");
        let ghost mid = out@;
        let limit = if n > SHOWN { SHOWN } else { n };
        let ghost parts = Seq::new(shown(n as int) as nat, |i: int| "  "@ + key_text(kv[i]) + "\n"@);
        let mut i: usize = 0;
        while i < limit
            invariant
                i <= limit,
                limit as int == shown(n as int),
                n == r.duplicate_keys@.len(),
                kv == keys_view(r.duplicate_keys@),
                parts == Seq::new(shown(n as int) as nat, |i: int| "  "@ + key_text(kv[i]) + "\n"@),
                out@ == mid + concat(parts.take(i as int)),
            decreases limit - i,
        {
            let ghost before = out@;
            out.append("  ");
            push_key(out, &r.duplicate_keys[i]);
            out.append("\n");
            proof {
                assert(parts.take(i + 1).drop_last() =~= parts.take(i as int));
                assert(out@ =~= before + parts[i as int]);
            }
            i += 1;
        }
        proof { assert(parts.take(parts.len() as int) =~= parts); }
        push_more(out, c, n);
        out.append("\n");
        proof {
            assert(out@ =~= start + duplicates_block(r@, c.0));
        }
    } else {
        proof { assert(out@ =~= start + duplicates_block(r@, c.0)); }
    }
}

/// Render a report as text for a person, with or without colour.
pub fn render(r: &Report, color: bool) -> (out: String)
    ensures
        out@ == report_text(r@, color),
{
    let c = Paint(color);
    let mut out = String::new();
    if !r.any() {
        push_duplicates(&mut out, r, &c);
        let mut line = "no differences · ".to_owned();
        push_decimal(&mut line, r.unchanged);
        line.append(" rows match");
        let painted = c.dim(line.as_str());
        out.append(painted.as_str());
        out.append("\n");
        proof {
            assert(out@ =~= report_text(r@, color));
        }
        return out;
    }
    push_schema(&mut out, r, &c);
    push_changed(&mut out, r, &c);
    let minus = c.red("−");
    push_rows(&mut out, "removed", &r.removed_rows, minus.as_str(), &c);
    let plus = c.green("+");
    push_rows(&mut out, "added", &r.added_rows, plus.as_str(), &c);
    push_duplicates(&mut out, r, &c);
    let mut totals = String::new();
    push_decimal(&mut totals, r.unchanged);
    totals.append(" unchanged · ");
    push_decimal(&mut totals, r.changed.len());
    totals.append(" changed · ");
    push_decimal(&mut totals, r.added_rows.len());
    totals.append(" added · ");
    push_decimal(&mut totals, r.removed_rows.len());
    totals.append(" removed");
    let painted = c.dim(totals.as_str());
    out.append(painted.as_str());
    out.append("\n");
    proof {
        assert(totals@ =~= decimal(r@.unchanged) + " unchanged · "@ + decimal(r@.changed.len()) + " changed · "@
            + decimal(r@.added_rows.len()) + " added · "@ + decimal(r@.removed_rows.len())
            + " removed"@);
        assert(out@ =~= report_text(r@, color));
    }
    out
}

/// Render only the counts.
pub fn render_summary(r: &Report, color: bool) -> (out: String)
    ensures
        out@ == summary_text(r@, color),
{
    let c = Paint(color);
    let mut out = "columns · ".to_owned();
    push_decimal(&mut out, r.added_columns.len());
    out.append(" added · ");
    push_decimal(&mut out, r.removed_columns.len());
    out.append(" removed\n");
    out.append("rows · ");
    push_decimal(&mut out, r.added_rows.len());
    out.append(" added · ");
    push_decimal(&mut out, r.removed_rows.len());
    out.append(" removed · ");
    push_decimal(&mut out, r.changed.len());
    out.append(" changed · ");
    push_decimal(&mut out, r.unchanged);
    out.append(" unchanged\n");
    let ghost mid = out@;
    if r.duplicate_keys.len() > 0 {
        let mut warning = "warning · ".to_owned();
        push_decimal(&mut warning, r.duplicate_keys.len());
        warning.append(" duplicate key(s)");
        let painted = c.yellow(warning.as_str());
        out.append(painted.as_str());
        out.append("\n");
    }
    proof {
        assert(out@ =~= summary_text(r@, color));
    }
    out
}

} // verus!
