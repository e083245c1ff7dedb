//! What each operation is for, stated from its inputs: what a command's
//! exit status means for the two tables, which fields a change lists, which
//! fields a tolerance keeps, how unquoted fields read, and what the summary's
//! counts count.
use vstd::prelude::*;
use crate::csv::{Text, Record, TableModel};
use crate::diff::{ReportModel, is_report_of, differs, change_keys, changes_for, shared_columns, cell, key_columns};
use crate::keyed::keys_of;
use crate::command::status_of;
use crate::render::summary_text;
use crate::json::{json_summary, count_line, member_line, bool_text};
use crate::text::decimal;
use crate::order::{strictly_sorted, lemma_sorted_distinct};
use crate::diff::{missing_from, row_changes, FieldChange};
use crate::csv::{position, lemma_position, Scan, scan, scan_start, end_record, csv_records, body_start, drop_blank_tail, finish, is_blank};
use crate::laws::{stands_at, lemma_stands_at_split};
use crate::laws::{
    compared_row, lemma_missing_from_self, lemma_empty_set_empty_seq, lemma_row_changes_empty,
    lemma_shared_columns, judged_same, lemma_tolerated_member,
};
use crate::diff::{kept_fields, tolerated, with_tolerance, verdicts_for, ChangeModel};

verus! {

/// The exit status is `1` exactly when something moved: a column added,
/// removed or reordered, or a row added, removed or changed; otherwise it is
/// `0`. Duplicate keys alone never make it `1`.
pub proof fn law_exit_status_is_one_exactly_when_something_moved(r: ReportModel)
    ensures
        status_of(r) == 0 || status_of(r) == 1,
        status_of(r) == 1 <==> (r.added_columns.len() > 0 || r.removed_columns.len() > 0 || r.reordered
            || r.added_rows.len() > 0 || r.removed_rows.len() > 0 || r.changed.len() > 0),
{
}

/// Exit status `0` means the data did not move: the two headers are the
/// same, the two tables hold the same keys, and for every key the rows it is
/// compared by agree on every compared column. Any other pair of tables
/// gives `1`, a schema change alone included.
pub proof fn law_exit_status_zero_means_nothing_moved(
    r: ReportModel,
    b: TableModel,
    a: TableModel,
    keys: Seq<Text>,
    ignore: Seq<Text>,
)
    requires
        is_report_of(r, b, a, keys, ignore),
    ensures
        status_of(r) == 0 <==> {
            let kb = keys_of(b.rows, key_columns(b.header, keys));
            let ka = keys_of(a.rows, key_columns(a.header, keys));
            &&& b.header == a.header
            &&& kb == ka
            &&& forall|k: Record, c: Text|
                kb.contains(k) && b.header.contains(c) && !ignore.contains(c) ==> #[trigger] cell(
                    b.header,
                    compared_row(b, keys, k),
                    c,
                ) == cell(a.header, compared_row(a, keys, k), c)
        },
{
    let kb = keys_of(b.rows, key_columns(b.header, keys));
    let ka = keys_of(a.rows, key_columns(a.header, keys));
    lemma_shared_columns(b.header, a.header, ignore);
    let same = forall|k: Record, c: Text|
        kb.contains(k) && b.header.contains(c) && !ignore.contains(c) ==> #[trigger] cell(
            b.header,
            compared_row(b, keys, k),
            c,
        ) == cell(a.header, compared_row(a, keys, k), c);
    if status_of(r) == 0 {
        assert(!differs(r));
        assert(b.header == a.header);
        assert forall|k: Record| kb.contains(k) implies ka.contains(k) by {
            if !ka.contains(k) {
                assert(r.removed_rows.to_set().contains(k));
            }
        }
        assert forall|k: Record| ka.contains(k) implies kb.contains(k) by {
            if !kb.contains(k) {
                assert(r.added_rows.to_set().contains(k));
            }
        }
        assert(kb =~= ka);
        assert forall|k: Record, c: Text|
            kb.contains(k) && b.header.contains(c) && !ignore.contains(c) implies #[trigger] cell(
                b.header,
                compared_row(b, keys, k),
                c,
            ) == cell(a.header, compared_row(a, keys, k), c) by {
            if changes_for(b, a, keys, ignore, k).len() > 0 {
                assert(change_keys(r.changed).to_set().contains(k));
            }
            let sh = shared_columns(b.header, a.header, ignore);
            lemma_row_changes_empty(sh, b.header, compared_row(b, keys, k), a.header, compared_row(a, keys, k));
            assert(sh.contains(c));
        }
    }
    if b.header == a.header && kb == ka && same {
        assert forall|i: int| 0 <= i < b.header.len() implies b.header.contains(#[trigger] b.header[i]) by {}
        lemma_missing_from_self(b.header, b.header);
        assert(r.removed_rows.to_set() =~= Set::empty());
        lemma_empty_set_empty_seq(r.removed_rows);
        assert(r.added_rows.to_set() =~= Set::empty());
        lemma_empty_set_empty_seq(r.added_rows);
        assert forall|k: Record| kb.contains(k) implies changes_for(b, a, keys, ignore, k).len() == 0 by {
            let sh = shared_columns(b.header, a.header, ignore);
            lemma_row_changes_empty(sh, b.header, compared_row(b, keys, k), a.header, compared_row(a, keys, k));
            assert forall|c: Text| #[trigger] sh.contains(c) implies cell(b.header, compared_row(b, keys, k), c)
                == cell(a.header, compared_row(a, keys, k), c) by {}
        }
        assert(change_keys(r.changed).to_set() =~= Set::empty());
        lemma_empty_set_empty_seq(change_keys(r.changed));
    }
}

/// A list in strictly ascending order is as long as the set it holds.
proof fn lemma_sorted_len(s: Seq<Record>)
    requires
        strictly_sorted(s),
    ensures
        s.len() == s.to_set().len(),
{
    assert(s.no_duplicates()) by {
        assert forall|i: int, j: int| 0 <= i < s.len() && 0 <= j < s.len() && i != j implies s[i] != s[j] by {
            lemma_sorted_distinct(s, i, j);
        }
    }
    s.unique_seq_to_set();
}

/// The counts a report gives, from the two tables: rows added are the keys
/// only the second table holds, rows removed those only the first holds,
/// changed and unchanged split the keys both hold.
proof fn lemma_report_counts(r: ReportModel, b: TableModel, a: TableModel, keys: Seq<Text>, ignore: Seq<Text>)
    requires
        is_report_of(r, b, a, keys, ignore),
    ensures
        ({
            let kb = keys_of(b.rows, key_columns(b.header, keys));
            let ka = keys_of(a.rows, key_columns(a.header, keys));
            &&& r.added_rows.len() == ka.difference(kb).len()
            &&& r.removed_rows.len() == kb.difference(ka).len()
            &&& r.changed.len() == Set::new(
                |k: Record| kb.contains(k) && ka.contains(k) && changes_for(b, a, keys, ignore, k).len() > 0,
            ).len()
            &&& r.unchanged == Set::new(
                |k: Record| kb.contains(k) && ka.contains(k) && changes_for(b, a, keys, ignore, k).len() == 0,
            ).len()
            &&& r.added_columns.len() == missing_from(a.header, b.header).len()
            &&& r.removed_columns.len() == missing_from(b.header, a.header).len()
        }),
{
    let kb = keys_of(b.rows, key_columns(b.header, keys));
    let ka = keys_of(a.rows, key_columns(a.header, keys));
    lemma_sorted_len(r.added_rows);
    lemma_sorted_len(r.removed_rows);
    lemma_sorted_len(change_keys(r.changed));
    assert(r.added_rows.to_set() =~= ka.difference(kb));
    assert(r.removed_rows.to_set() =~= kb.difference(ka));
}

/// The summary says what it counts: on its rows line the number before
/// "added" is how many keys only the second table holds, which is how many
/// rows the report lists as added, and the number before "removed" how many
/// only the first holds, which is how many it lists as removed, then how many keys both
/// hold changed and how many did not; the columns line counts the columns
/// only the second header has and those only the first has.
pub proof fn law_the_summary_counts_what_it_says(
    r: ReportModel,
    b: TableModel,
    a: TableModel,
    keys: Seq<Text>,
    ignore: Seq<Text>,
    color: bool,
)
    requires
        is_report_of(r, b, a, keys, ignore),
    ensures
        ({
            let kb = keys_of(b.rows, key_columns(b.header, keys));
            let ka = keys_of(a.rows, key_columns(a.header, keys));
            let changed = Set::new(
                |k: Record| kb.contains(k) && ka.contains(k) && changes_for(b, a, keys, ignore, k).len() > 0,
            );
            let unchanged = Set::new(
                |k: Record| kb.contains(k) && ka.contains(k) && changes_for(b, a, keys, ignore, k).len() == 0,
            );
            &&& r.added_rows.len() == ka.difference(kb).len()
            &&& r.removed_rows.len() == kb.difference(ka).len()
            &&& exists|warning: Text|
                summary_text(r, color) == "columns · "@ + decimal(missing_from(a.header, b.header).len())
                    + " added · "@ + decimal(missing_from(b.header, a.header).len()) + " removed\n"@
                    + "rows · "@ + decimal(ka.difference(kb).len()) + " added · "@ + decimal(
                    kb.difference(ka).len(),
                ) + " removed · "@ + decimal(changed.len()) + " changed · "@ + decimal(unchanged.len())
                    + " unchanged\n"@ + warning
        }),
{
    lemma_report_counts(r, b, a, keys, ignore);
    let warning = if r.duplicate_keys.len() > 0 {
        crate::render::yellow(color, "warning · "@ + decimal(r.duplicate_keys.len()) + " duplicate key(s)"@)
            + "\n"@
    } else {
        Seq::empty()
    };
    let kb = keys_of(b.rows, key_columns(b.header, keys));
    let ka = keys_of(a.rows, key_columns(a.header, keys));
    let changed = Set::new(
        |k: Record| kb.contains(k) && ka.contains(k) && changes_for(b, a, keys, ignore, k).len() > 0,
    );
    let unchanged = Set::new(
        |k: Record| kb.contains(k) && ka.contains(k) && changes_for(b, a, keys, ignore, k).len() == 0,
    );
    assert(summary_text(r, color) == "columns · "@ + decimal(missing_from(a.header, b.header).len())
        + " added · "@ + decimal(missing_from(b.header, a.header).len()) + " removed\n"@
        + "rows · "@ + decimal(ka.difference(kb).len()) + " added · "@ + decimal(
        kb.difference(ka).len(),
    ) + " removed · "@ + decimal(changed.len()) + " changed · "@ + decimal(unchanged.len())
        + " unchanged\n"@ + warning);
}

/// The JSON counts object says what it counts, as the text summary does:
/// `rowsAdded` is how many keys only the second table holds, `rowsRemoved`
/// how many only the first holds, `rowsChanged` how many keys both hold
/// changed, `unchanged` how many did not.
pub proof fn law_the_json_summary_counts_what_it_says(
    r: ReportModel,
    b: TableModel,
    a: TableModel,
    keys: Seq<Text>,
    ignore: Seq<Text>,
)
    requires
        is_report_of(r, b, a, keys, ignore),
    ensures
        ({
            let kb = keys_of(b.rows, key_columns(b.header, keys));
            let ka = keys_of(a.rows, key_columns(a.header, keys));
            let changed = Set::new(
                |k: Record| kb.contains(k) && ka.contains(k) && changes_for(b, a, keys, ignore, k).len() > 0,
            );
            let unchanged = Set::new(
                |k: Record| kb.contains(k) && ka.contains(k) && changes_for(b, a, keys, ignore, k).len() == 0,
            );
            exists|head: Text, middle: Text|
                json_summary(r) == head + count_line("rowsAdded"@, ka.difference(kb).len()) + count_line(
                    "rowsRemoved"@,
                    kb.difference(ka).len(),
                ) + count_line("rowsChanged"@, changed.len()) + middle + "  \"unchanged\": "@ + decimal(
                    unchanged.len(),
                ) + "\n"@ + "}\n"@
        }),
{
    lemma_report_counts(r, b, a, keys, ignore);
    let head = "{\n"@ + member_line("identical"@, bool_text(!differs(r)), false) + count_line(
        "columnsAdded"@,
        r.added_columns.len(),
    ) + count_line("columnsRemoved"@, r.removed_columns.len()) + member_line(
        "columnsReordered"@,
        bool_text(r.reordered),
        false,
    );
    let middle = count_line("duplicateKeys"@, r.duplicate_keys.len());
    assert(json_summary(r) == head + count_line("rowsAdded"@, r.added_rows.len()) + count_line(
        "rowsRemoved"@,
        r.removed_rows.len(),
    ) + count_line("rowsChanged"@, r.changed.len()) + middle + "  \"unchanged\": "@ + decimal(r.unchanged)
        + "\n"@ + "}\n"@);
}

/// Where a column stands in a header: its first position, or -1.
pub open spec fn column_index(h: Seq<Text>, c: Text) -> int {
    match position(h, c) {
        Some(p) => p,
        None => -1,
    }
}

/// What `row_changes` finds: each field it lists is one of the columns with
/// its two cells, which differ, and every column whose cells differ is
/// listed.
proof fn lemma_row_changes_exact(cols: Seq<Text>, bh: Seq<Text>, brow: Record, ah: Seq<Text>, arow: Record)
    ensures
        forall|j: int|
            0 <= j < row_changes(cols, bh, brow, ah, arow).len() ==> {
                let f = #[trigger] row_changes(cols, bh, brow, ah, arow)[j];
                &&& cols.contains(f.0)
                &&& f.1 == cell(bh, brow, f.0)
                &&& f.2 == cell(ah, arow, f.0)
                &&& f.1 != f.2
            },
        forall|c: Text|
            #[trigger] cols.contains(c) && cell(bh, brow, c) != cell(ah, arow, c) ==> exists|j: int|
                0 <= j < row_changes(cols, bh, brow, ah, arow).len() && #[trigger] row_changes(
                    cols,
                    bh,
                    brow,
                    ah,
                    arow,
                )[j] == (c, cell(bh, brow, c), cell(ah, arow, c)),
    decreases cols.len(),
{
    if cols.len() > 0 {
        let init = cols.drop_last();
        let rest = row_changes(init, bh, brow, ah, arow);
        let rc = row_changes(cols, bh, brow, ah, arow);
        let x = cols.last();
        lemma_row_changes_exact(init, bh, brow, ah, arow);
        assert forall|c: Text| init.contains(c) implies cols.contains(c) by {
            let w = choose|w: int| 0 <= w < init.len() && init[w] == c;
            assert(cols[w] == c);
        }
        assert(cols[cols.len() - 1] == x);
        assert forall|j: int| 0 <= j < rc.len() implies {
            let f = #[trigger] rc[j];
            &&& cols.contains(f.0)
            &&& f.1 == cell(bh, brow, f.0)
            &&& f.2 == cell(ah, arow, f.0)
            &&& f.1 != f.2
        } by {
            if j < rest.len() {
                assert(rc[j] == rest[j]);
            }
        }
        assert forall|c: Text|
            #[trigger] cols.contains(c) && cell(bh, brow, c) != cell(ah, arow, c) implies exists|j: int|
                0 <= j < rc.len() && #[trigger] rc[j] == (c, cell(bh, brow, c), cell(ah, arow, c)) by {
            if c == x {
                assert(rc[rc.len() - 1] == (c, cell(bh, brow, c), cell(ah, arow, c)));
            } else {
                let w = choose|w: int| 0 <= w < cols.len() && cols[w] == c;
                assert(init[w] == c);
                assert(init.contains(c));
                let j = choose|j: int| 0 <= j < rest.len() && #[trigger] rest[j] == (c, cell(bh, brow, c), cell(ah, arow, c));
                assert(rc[j] == rest[j]);
            }
        }
    }
}

/// `row_changes` keeps the order of the columns it walks.
proof fn lemma_row_changes_in_order(cols: Seq<Text>, bh: Seq<Text>, brow: Record, ah: Seq<Text>, arow: Record, h: Seq<Text>)
    requires
        forall|k1: int, k2: int|
            0 <= k1 < k2 < cols.len() ==> column_index(h, #[trigger] cols[k1]) < column_index(h, #[trigger] cols[k2]),
    ensures
        forall|j1: int, j2: int|
            0 <= j1 < j2 < row_changes(cols, bh, brow, ah, arow).len() ==> column_index(
                h,
                (#[trigger] row_changes(cols, bh, brow, ah, arow)[j1]).0,
            ) < column_index(h, (#[trigger] row_changes(cols, bh, brow, ah, arow)[j2]).0),
    decreases cols.len(),
{
    if cols.len() > 0 {
        let init = cols.drop_last();
        let rest = row_changes(init, bh, brow, ah, arow);
        let rc = row_changes(cols, bh, brow, ah, arow);
        assert forall|k1: int, k2: int| 0 <= k1 < k2 < init.len() implies column_index(h, #[trigger] init[k1])
            < column_index(h, #[trigger] init[k2]) by {
            assert(init[k1] == cols[k1] && init[k2] == cols[k2]);
        }
        lemma_row_changes_in_order(init, bh, brow, ah, arow, h);
        lemma_row_changes_exact(init, bh, brow, ah, arow);
        assert forall|j1: int, j2: int| 0 <= j1 < j2 < rc.len() implies column_index(h, (#[trigger] rc[j1]).0)
            < column_index(h, (#[trigger] rc[j2]).0) by {
            if j2 < rest.len() {
                assert(rc[j1] == rest[j1] && rc[j2] == rest[j2]);
            } else {
                assert(rc[j1] == rest[j1]);
                assert(init.contains(rest[j1].0));
                let k = choose|k: int| 0 <= k < init.len() && init[k] == rest[j1].0;
                assert(cols[k] == init[k]);
                assert(rc[j2].0 == cols[cols.len() - 1]);
            }
        }
    }
}

/// The shared columns come in the order of the first header.
proof fn lemma_shared_in_order(bh: Seq<Text>, ah: Seq<Text>, ignore: Seq<Text>)
    ensures
        forall|k1: int, k2: int|
            0 <= k1 < k2 < shared_columns(bh, ah, ignore).len() ==> exists|p1: int, p2: int|
                #![trigger bh[p1], bh[p2]]
                0 <= p1 < p2 < bh.len() && bh[p1] == (#[trigger] shared_columns(bh, ah, ignore)[k1]) && bh[p2]
                    == (#[trigger] shared_columns(bh, ah, ignore)[k2]),
        forall|k: int|
            0 <= k < shared_columns(bh, ah, ignore).len() ==> exists|p: int|
                0 <= p < bh.len() && #[trigger] bh[p] == (#[trigger] shared_columns(bh, ah, ignore)[k]),
    decreases bh.len(),
{
    if bh.len() > 0 {
        let init = bh.drop_last();
        let rest = shared_columns(init, ah, ignore);
        let sh = shared_columns(bh, ah, ignore);
        lemma_shared_in_order(init, ah, ignore);
        assert forall|k: int| 0 <= k < sh.len() implies exists|p: int|
            0 <= p < bh.len() && #[trigger] bh[p] == (#[trigger] sh[k]) by {
            if k < rest.len() {
                assert(sh[k] == rest[k]);
                let p = choose|p: int| 0 <= p < init.len() && #[trigger] init[p] == rest[k];
                assert(bh[p] == init[p]);
            } else {
                assert(bh[bh.len() - 1] == sh[k]);
            }
        }
        assert forall|k1: int, k2: int| 0 <= k1 < k2 < sh.len() implies exists|p1: int, p2: int|
            #![trigger bh[p1], bh[p2]]
            0 <= p1 < p2 < bh.len() && bh[p1] == (#[trigger] sh[k1]) && bh[p2] == (#[trigger] sh[k2]) by {
            if k2 < rest.len() {
                assert(sh[k1] == rest[k1] && sh[k2] == rest[k2]);
                let (p1, p2) = choose|p1: int, p2: int|
                    #![trigger init[p1], init[p2]]
                    0 <= p1 < p2 < init.len() && init[p1] == rest[k1] && init[p2] == rest[k2];
                assert(bh[p1] == init[p1] && bh[p2] == init[p2]);
            } else {
                assert(sh[k1] == rest[k1]);
                let p1 = choose|p: int| 0 <= p < init.len() && #[trigger] init[p] == rest[k1];
                assert(bh[p1] == init[p1]);
                assert(bh[bh.len() - 1] == sh[k2]);
            }
        }
    }
}

/// In a header without a repeated name, a name's index is where it stands.
proof fn lemma_column_index(h: Seq<Text>, p: int)
    requires
        h.no_duplicates(),
        0 <= p < h.len(),
    ensures
        column_index(h, h[p]) == p,
{
    lemma_position(h, h[p]);
}

/// A change lists exactly the columns that changed: every column both
/// headers have and that is not ignored, whose cells in the two rows the key
/// is compared by differ, is listed with its value before and after, and
/// every field listed is such a column. With no column named twice in the
/// first header, the fields come in its order.
pub proof fn law_a_change_lists_every_compared_column_that_differs(
    r: ReportModel,
    b: TableModel,
    a: TableModel,
    keys: Seq<Text>,
    ignore: Seq<Text>,
    i: int,
)
    requires
        is_report_of(r, b, a, keys, ignore),
        0 <= i < r.changed.len(),
    ensures
        ({
            let k = r.changed[i].key;
            let brow = compared_row(b, keys, k);
            let arow = compared_row(a, keys, k);
            let fs = r.changed[i].fields;
            &&& forall|c: Text|
                b.header.contains(c) && a.header.contains(c) && !ignore.contains(c) && #[trigger] cell(
                    b.header,
                    brow,
                    c,
                ) != cell(a.header, arow, c) ==> exists|j: int|
                    0 <= j < fs.len() && #[trigger] fs[j] == (c, cell(b.header, brow, c), cell(a.header, arow, c))
            &&& forall|j: int|
                0 <= j < fs.len() ==> {
                    let f = #[trigger] fs[j];
                    &&& b.header.contains(f.0)
                    &&& a.header.contains(f.0)
                    &&& !ignore.contains(f.0)
                    &&& f.1 == cell(b.header, brow, f.0)
                    &&& f.2 == cell(a.header, arow, f.0)
                    &&& f.1 != f.2
                }
            &&& b.header.no_duplicates() ==> forall|j1: int, j2: int|
                0 <= j1 < j2 < fs.len() ==> column_index(b.header, (#[trigger] fs[j1]).0) < column_index(
                    b.header,
                    (#[trigger] fs[j2]).0,
                )
        }),
{
    let k = r.changed[i].key;
    let brow = compared_row(b, keys, k);
    let arow = compared_row(a, keys, k);
    let sh = shared_columns(b.header, a.header, ignore);
    assert(r.changed[i].fields == changes_for(b, a, keys, ignore, k));
    lemma_shared_columns(b.header, a.header, ignore);
    lemma_row_changes_exact(sh, b.header, brow, a.header, arow);
    let fs = r.changed[i].fields;
    assert forall|c: Text|
        b.header.contains(c) && a.header.contains(c) && !ignore.contains(c) && #[trigger] cell(
            b.header,
            brow,
            c,
        ) != cell(a.header, arow, c) implies exists|j: int|
            0 <= j < fs.len() && #[trigger] fs[j] == (c, cell(b.header, brow, c), cell(a.header, arow, c)) by {
        assert(sh.contains(c));
    }
    if b.header.no_duplicates() {
        lemma_shared_in_order(b.header, a.header, ignore);
        assert forall|k1: int, k2: int| 0 <= k1 < k2 < sh.len() implies column_index(b.header, #[trigger] sh[k1])
            < column_index(b.header, #[trigger] sh[k2]) by {
            let (p1, p2) = choose|p1: int, p2: int|
                #![trigger b.header[p1], b.header[p2]]
                0 <= p1 < p2 < b.header.len() && b.header[p1] == sh[k1] && b.header[p2] == sh[k2];
            lemma_column_index(b.header, p1);
            lemma_column_index(b.header, p2);
        }
        lemma_row_changes_in_order(sh, b.header, brow, a.header, arow, b.header);
    }
}

/// How many of the first `j` fields the tolerance did not judge the same.
pub open spec fn unforgiven_before(flags: Seq<bool>, j: int) -> nat
    decreases j,
{
    if j <= 0 {
        0
    } else {
        unforgiven_before(flags, j - 1) + if judged_same(flags, j - 1) {
            0nat
        } else {
            1nat
        }
    }
}

proof fn lemma_unforgiven_grows(flags: Seq<bool>, j1: int, j2: int)
    requires
        0 <= j1 <= j2,
    ensures
        unforgiven_before(flags, j1) <= unforgiven_before(flags, j2),
    decreases j2 - j1,
{
    if j1 < j2 {
        lemma_unforgiven_grows(flags, j1, j2 - 1);
    }
}

/// The fields a tolerance keeps are the fields it did not judge the same,
/// in order: field `j` kept lands at its rank among them.
proof fn lemma_kept_fields_ranks(fields: Seq<FieldChange>, flags: Seq<bool>)
    ensures
        kept_fields(fields, flags).len() == unforgiven_before(flags, fields.len() as int),
        forall|j: int|
            0 <= j < fields.len() && !judged_same(flags, j) ==> kept_fields(fields, flags)[unforgiven_before(
                flags,
                j,
            ) as int] == #[trigger] fields[j],
    decreases fields.len(),
{
    if fields.len() > 0 {
        let n = fields.len() - 1;
        let init = fields.drop_last();
        lemma_kept_fields_ranks(init, flags);
        let kept = kept_fields(fields, flags);
        let rest = kept_fields(init, flags);
        assert forall|j: int| 0 <= j < fields.len() && !judged_same(flags, j) implies kept[unforgiven_before(
            flags,
            j,
        ) as int] == #[trigger] fields[j] by {
            if j < n {
                assert(init[j] == fields[j]);
                lemma_unforgiven_grows(flags, j + 1, n);
                assert(unforgiven_before(flags, j) < rest.len());
                assert(kept[unforgiven_before(flags, j) as int] == rest[unforgiven_before(flags, j) as int]);
            }
        }
    }
}

/// A tolerance drops exactly the fields it judges the same. In every change
/// that stays, the fields are those of the exact comparison whose verdict is
/// missing or false, each at its rank among them, and no others: a field
/// judged the same is never kept, wherever it stands among the change's
/// fields.
pub proof fn law_a_tolerance_drops_exactly_the_fields_it_forgives(
    r: ReportModel,
    b: TableModel,
    a: TableModel,
    keys: Seq<Text>,
    ignore: Seq<Text>,
    verdicts: Seq<Seq<bool>>,
    i: int,
    m: int,
)
    requires
        is_report_of(r, b, a, keys, ignore),
        0 <= i < r.changed.len(),
        0 <= m < with_tolerance(r, verdicts).changed.len(),
        with_tolerance(r, verdicts).changed[m].key == r.changed[i].key,
    ensures
        ({
            let kept = with_tolerance(r, verdicts).changed[m].fields;
            let fields = r.changed[i].fields;
            let flags = verdicts_for(verdicts, i);
            &&& kept.len() == unforgiven_before(flags, fields.len() as int)
            &&& forall|j: int|
                0 <= j < fields.len() && !judged_same(flags, j) ==> kept[unforgiven_before(flags, j) as int]
                    == #[trigger] fields[j]
        }),
{
    let cs = r.changed;
    assert forall|x: int, y: int| 0 <= x < cs.len() && 0 <= y < cs.len() && x != y implies #[trigger] cs[x].key
        != #[trigger] cs[y].key by {
        assert(change_keys(cs)[x] == cs[x].key && change_keys(cs)[y] == cs[y].key);
        crate::order::lemma_sorted_distinct(change_keys(cs), x, y);
    }
    lemma_tolerated_member(cs, verdicts, i);
    assert(with_tolerance(r, verdicts).changed == tolerated(cs, verdicts));
    assert(tolerated(cs, verdicts)[m].key == cs[i].key);
    lemma_kept_fields_ranks(cs[i].fields, verdicts_for(verdicts, i));
}

/// A field that can be written as it is: it does not start with a quote and
/// holds no delimiter and no line break. Quotes after its first character
/// are data.
pub open spec fn plain_field(f: Text, delim: char) -> bool {
    &&& (f.len() > 0 ==> f[0] != '"')
    &&& forall|j: int| 0 <= j < f.len() ==> #[trigger] f[j] != delim && f[j] != '\n' && f[j] != '\r'
}

/// The fields of a record written as they are, separated by `delim`.
pub open spec fn plain_fields(r: Record, delim: char) -> Text
    decreases r.len(),
{
    if r.len() == 0 {
        Seq::empty()
    } else if r.len() == 1 {
        r[0]
    } else {
        r[0] + seq![delim] + plain_fields(r.drop_first(), delim)
    }
}

/// A document of records written as they are, each ending in a line feed.
pub open spec fn plain_document(recs: Seq<Record>, delim: char) -> Text
    decreases recs.len(),
{
    if recs.len() == 0 {
        Seq::empty()
    } else {
        plain_fields(recs[0], delim) + seq!['\n'] + plain_document(recs.drop_first(), delim)
    }
}

/// The characters of an unquoted field are read into the field as they
/// are, quotes included.
proof fn lemma_scan_plain_chars(d: Text, delim: char, p: int, f: Text, st: Scan)
    requires
        !st.quoted,
        st.field.len() == 0 && f.len() > 0 ==> f[0] != '"',
        forall|j: int| 0 <= j < f.len() ==> #[trigger] f[j] != delim && f[j] != '\n' && f[j] != '\r',
        stands_at(d, p, f),
    ensures
        scan(d, delim, p, st) == scan(d, delim, p + f.len(), Scan { field: st.field + f, ..st }),
    decreases f.len(),
{
    if f.len() == 0 {
        assert(st.field + f =~= st.field);
        assert(Scan { field: st.field + f, ..st } == st);
    } else {
        let c = f[0];
        let rest = f.drop_first();
        assert(f[0] == d[p]);
        assert(c != delim && c != '\n' && c != '\r');
        let next = Scan { field: st.field.push(c), ..st };
        assert(scan(d, delim, p, st) == scan(d, delim, p + 1, next));
        lemma_stands_at_split(d, p, seq![c], rest);
        assert(seq![c] + rest =~= f);
        assert forall|j: int| 0 <= j < rest.len() implies #[trigger] rest[j] != delim && rest[j] != '\n' && rest[j] != '\r' by {
            assert(rest[j] == f[j + 1]);
        }
        lemma_scan_plain_chars(d, delim, p + 1, rest, next);
        assert(next.field + rest =~= st.field + f);
    }
}

/// A record written as it is, and its line feed, reads as that record.
proof fn lemma_scan_plain_record(d: Text, delim: char, p: int, r: Record, st: Scan)
    requires
        delim != '"',
        delim != '\n',
        r.len() >= 1,
        forall|k: int| 0 <= k < r.len() ==> plain_field(#[trigger] r[k], delim),
        !st.quoted,
        st.field.len() == 0,
        stands_at(d, p, plain_fields(r, delim) + seq!['\n']),
    ensures
        scan(d, delim, p, st) == scan(
            d,
            delim,
            p + plain_fields(r, delim).len() + 1,
            Scan {
                records: st.records.push(st.record + r),
                record: Seq::empty(),
                field: Seq::empty(),
                quoted: false,
                line: st.line + 1,
            },
        ),
    decreases r.len(),
{
    let f = r[0];
    assert(plain_field(f, delim));
    let q = p + f.len();
    if r.len() == 1 {
        lemma_stands_at_split(d, p, f, seq!['\n']);
        assert(seq!['\n'][0] == d[q]);
        lemma_scan_plain_chars(d, delim, p, f, st);
        assert(st.field + f =~= f);
        let after = Scan { field: f, ..st };
        assert(scan(d, delim, q, after) == scan(d, delim, q + 1, end_record(after)));
        assert(st.record.push(f) =~= st.record + r);
    } else {
        let rest = r.drop_first();
        let tail = plain_fields(rest, delim) + seq!['\n'];
        assert(plain_fields(r, delim) + seq!['\n'] =~= f + (seq![delim] + tail));
        lemma_stands_at_split(d, p, f, seq![delim] + tail);
        lemma_stands_at_split(d, q, seq![delim], tail);
        assert(seq![delim][0] == d[q]);
        lemma_scan_plain_chars(d, delim, p, f, st);
        assert(st.field + f =~= f);
        let after = Scan { field: f, ..st };
        let next = Scan { record: st.record.push(f), field: Seq::empty(), ..after };
        if f.len() == 0 {
            assert(delim != '"');
        }
        assert(scan(d, delim, q, after) == scan(d, delim, q + 1, next));
        assert forall|k: int| 0 <= k < rest.len() implies plain_field(#[trigger] rest[k], delim) by {
            assert(rest[k] == r[k + 1]);
        }
        lemma_scan_plain_record(d, delim, q + 1, rest, next);
        assert(st.record.push(f) + rest =~= st.record + r);
    }
}

/// A document of records written as they are reads as those records.
proof fn lemma_scan_plain_document(d: Text, delim: char, p: int, recs: Seq<Record>, st: Scan)
    requires
        delim != '"',
        delim != '\n',
        forall|i: int| 0 <= i < recs.len() ==> #[trigger] recs[i].len() >= 1,
        forall|i: int, k: int| 0 <= i < recs.len() && 0 <= k < recs[i].len() ==> plain_field(#[trigger] recs[i][k], delim),
        !st.quoted,
        st.field.len() == 0,
        st.record.len() == 0,
        stands_at(d, p, plain_document(recs, delim)),
    ensures
        scan(d, delim, p, st) == scan(
            d,
            delim,
            p + plain_document(recs, delim).len(),
            Scan {
                records: st.records + recs,
                record: Seq::empty(),
                field: Seq::empty(),
                quoted: false,
                line: st.line + recs.len(),
            },
        ),
    decreases recs.len(),
{
    if recs.len() == 0 {
        assert(st.records + recs =~= st.records);
        assert(st.field =~= Seq::<char>::empty());
        assert(st.record =~= Seq::<Text>::empty());
    } else {
        let r = recs[0];
        let rest = recs.drop_first();
        let head = plain_fields(r, delim) + seq!['\n'];
        assert(plain_document(recs, delim) =~= head + plain_document(rest, delim));
        lemma_stands_at_split(d, p, head, plain_document(rest, delim));
        assert forall|k: int| 0 <= k < r.len() implies plain_field(#[trigger] r[k], delim) by {
            assert(plain_field(recs[0][k], delim));
        }
        lemma_scan_plain_record(d, delim, p, r, st);
        assert(st.record + r =~= r);
        let next = Scan {
            records: st.records.push(r),
            record: Seq::empty(),
            field: Seq::empty(),
            quoted: false,
            line: st.line + 1,
        };
        assert forall|i: int| 0 <= i < rest.len() implies #[trigger] rest[i].len() >= 1 by {
            assert(rest[i] == recs[i + 1]);
        }
        assert forall|i: int, k: int| 0 <= i < rest.len() && 0 <= k < rest[i].len() implies plain_field(
            #[trigger] rest[i][k],
            delim,
        ) by {
            assert(rest[i] == recs[i + 1]);
            assert(plain_field(recs[i + 1][k], delim));
        }
        lemma_scan_plain_document(d, delim, p + head.len(), rest, next);
        assert(st.records.push(r) + rest =~= st.records + recs);
    }
}

/// Outside quotes a quote is data unless it opens a field. Records whose
/// fields do not start with a quote and hold no delimiter or line break,
/// written as they are, each ending in a line feed, read back as those
/// records, quotes inside fields included. Every record needs a field, the
/// last may not be a blank line (one empty field), the document may not
/// start with a byte-order mark, and the delimiter may be neither a quote,
/// a line feed nor a byte-order mark.
pub proof fn law_unquoted_fields_read_back_as_written(recs: Seq<Record>, delim: char)
    requires
        delim != '"',
        delim != '\n',
        recs.len() >= 1,
        forall|i: int| 0 <= i < recs.len() ==> #[trigger] recs[i].len() >= 1,
        forall|i: int, k: int| 0 <= i < recs.len() && 0 <= k < recs[i].len() ==> plain_field(#[trigger] recs[i][k], delim),
        !is_blank(recs.last()),
        recs[0][0].len() > 0 ==> recs[0][0][0] != '\u{feff}',
        delim != '\u{feff}',
    ensures
        csv_records(plain_document(recs, delim), delim) == Ok::<Seq<Record>, Text>(recs),
{
    let d = plain_document(recs, delim);
    assert forall|j: int| 0 <= j < d.len() implies #[trigger] d[j] == d[0 + j] by {}
    assert(stands_at(d, 0, d));
    lemma_scan_plain_document(d, delim, 0, recs, scan_start());
    let r0 = recs[0];
    let head = plain_fields(r0, delim);
    assert(d =~= (head + seq!['\n']) + plain_document(recs.drop_first(), delim));
    if r0[0].len() > 0 {
        if r0.len() == 1 {
            assert(head == r0[0]);
        } else {
            assert(head =~= r0[0] + (seq![delim] + plain_fields(r0.drop_first(), delim)));
        }
        assert(d[0] == r0[0][0]);
    } else {
        if r0.len() == 1 {
            assert(head == r0[0]);
            assert(d[0] == '\n');
        } else {
            assert(head =~= r0[0] + (seq![delim] + plain_fields(r0.drop_first(), delim)));
            assert(d[0] == delim);
            assert(plain_field(r0[1], delim));
        }
    }
    assert(body_start(d) == 0);
    assert(scan_start().records + recs =~= recs);
    let fin = Scan {
        records: recs,
        record: Seq::empty(),
        field: Seq::empty(),
        quoted: false,
        line: 1 + recs.len(),
    };
    assert(drop_blank_tail(recs) == recs);
    assert(finish(fin) == recs);
}

} // verus!
