//! What holds of every comparison, whatever the tables.
use vstd::prelude::*;
use crate::csv::{
    Text, Record, TableModel, Scan, scan, scan_start, end_record, csv_records, body_start, drop_blank_tail, is_blank,
    finish,
};
use crate::diff::{
    ReportModel, ChangeModel, FieldChange, is_report_of, differs, change_keys, changes_for,
    row_changes, shared_columns, cell, key_columns, missing_from, kept_fields, tolerated, absorbed,
    with_tolerance, verdicts_for,
};
use crate::keyed::{
    keys_of, repeated_keys, last_with_key, key_of, lemma_last_with_key, lemma_count_key_positive,
    lemma_single_row_with_key, lemma_no_later_row_with_key,
};
use crate::order::{strictly_sorted, lemma_sorted_unique, key_lt};
use crate::render::{
    SHOWN, shown, more_line, dim, report_text, schema_block, changed_block, rows_block, duplicates_block,
    totals_line, concat, change_lines, key_text, red, green, yellow,
};
use crate::json::{escaped, escape_char, hex_digit, hex_value, hex4, json_char, json_string_value, short_escape};

verus! {

/// The report of two tables is fixed by the tables, the key columns and the
/// ignored columns: two reports of the same comparison are the same report,
/// so two runs over the same input print the same bytes.
pub proof fn law_report_is_determined(
    r1: ReportModel,
    r2: ReportModel,
    b: TableModel,
    a: TableModel,
    keys: Seq<Text>,
    ignore: Seq<Text>,
)
    requires
        is_report_of(r1, b, a, keys, ignore),
        is_report_of(r2, b, a, keys, ignore),
    ensures
        r1 == r2,
{
    assert(r1.removed_rows.to_set() =~= r2.removed_rows.to_set());
    lemma_sorted_unique(r1.removed_rows, r2.removed_rows);
    assert(r1.added_rows.to_set() =~= r2.added_rows.to_set());
    lemma_sorted_unique(r1.added_rows, r2.added_rows);
    assert(r1.duplicate_keys.to_set() =~= r2.duplicate_keys.to_set());
    lemma_sorted_unique(r1.duplicate_keys, r2.duplicate_keys);
    assert(change_keys(r1.changed).to_set() =~= change_keys(r2.changed).to_set());
    lemma_sorted_unique(change_keys(r1.changed), change_keys(r2.changed));
    assert forall|i: int| 0 <= i < r1.changed.len() implies r1.changed[i] == r2.changed[i] by {
        assert(change_keys(r1.changed)[i] == change_keys(r2.changed)[i]);
        assert(r1.changed[i].fields == changes_for(b, a, keys, ignore, r1.changed[i].key));
        assert(r2.changed[i].fields == changes_for(b, a, keys, ignore, r2.changed[i].key));
    }
    assert(r1.changed.len() == change_keys(r1.changed).len());
    assert(r1.changed =~= r2.changed);
}

/// The same two rows over any columns differ nowhere.
pub proof fn lemma_row_changes_same(cols: Seq<Text>, h: Seq<Text>, row: Record)
    ensures
        row_changes(cols, h, row, h, row).len() == 0,
    decreases cols.len(),
{
    if cols.len() > 0 {
        lemma_row_changes_same(cols.drop_last(), h, row);
    }
}

/// A header lacks none of its own columns.
pub proof fn lemma_missing_from_self(from: Seq<Text>, other: Seq<Text>)
    requires
        forall|i: int| 0 <= i < from.len() ==> other.contains(#[trigger] from[i]),
    ensures
        missing_from(from, other).len() == 0,
    decreases from.len(),
{
    if from.len() > 0 {
        assert(other.contains(from[from.len() - 1]));
        lemma_missing_from_self(from.drop_last(), other);
    }
}

/// A sequence whose set of elements is empty is empty.
pub proof fn lemma_empty_set_empty_seq(s: Seq<Record>)
    requires
        s.to_set() =~= Set::empty(),
    ensures
        s.len() == 0,
{
    if s.len() > 0 {
        assert(s.to_set().contains(s[0]));
    }
}

/// Comparing a table with itself finds no difference: every key is
/// unchanged, whatever order or repetition its rows have.
pub proof fn law_self_comparison_is_identical(
    r: ReportModel,
    t: TableModel,
    keys: Seq<Text>,
    ignore: Seq<Text>,
)
    requires
        is_report_of(r, t, t, keys, ignore),
    ensures
        !differs(r),
        r.changed.len() == 0,
        r.unchanged == keys_of(t.rows, key_columns(t.header, keys)).len(),
{
    let kt = keys_of(t.rows, key_columns(t.header, keys));
    assert forall|i: int| 0 <= i < t.header.len() implies t.header.contains(#[trigger] t.header[i]) by {}
    lemma_missing_from_self(t.header, t.header);
    assert(r.removed_rows.to_set() =~= Set::empty());
    lemma_empty_set_empty_seq(r.removed_rows);
    assert(r.added_rows.to_set() =~= Set::empty());
    lemma_empty_set_empty_seq(r.added_rows);
    assert forall|k: Record| changes_for(t, t, keys, ignore, k).len() == 0 by {
        lemma_row_changes_same(
            shared_columns(t.header, t.header, ignore),
            t.header,
            t.rows[last_with_key(t.rows, key_columns(t.header, keys), k)],
        );
    }
    assert(change_keys(r.changed).to_set() =~= Set::empty());
    lemma_empty_set_empty_seq(change_keys(r.changed));
    assert(Set::new(
        |k: Record| kt.contains(k) && kt.contains(k) && changes_for(t, t, keys, ignore, k).len() == 0,
    ) =~= kt);
}

/// Every change of `row_changes` is over one of `cols`, and its two values
/// differ.
pub proof fn lemma_row_changes_columns(
    cols: Seq<Text>,
    bh: Seq<Text>,
    brow: Record,
    ah: Seq<Text>,
    arow: Record,
)
    ensures
        forall|j: int|
            0 <= j < row_changes(cols, bh, brow, ah, arow).len() ==> {
                let f = #[trigger] row_changes(cols, bh, brow, ah, arow)[j];
                &&& cols.contains(f.0)
                &&& f.1 != f.2
            },
    decreases cols.len(),
{
    if cols.len() > 0 {
        let rest = row_changes(cols.drop_last(), bh, brow, ah, arow);
        lemma_row_changes_columns(cols.drop_last(), bh, brow, ah, arow);
        assert forall|j: int| 0 <= j < rest.len() implies cols.contains(#[trigger] rest[j].0) by {
            let w = choose|w: int| 0 <= w < cols.drop_last().len() && cols.drop_last()[w] == rest[j].0;
            assert(cols[w] == rest[j].0);
        }
        assert(cols[cols.len() - 1] == cols.last());
    }
}

/// A shared column is in both headers and not ignored.
pub proof fn lemma_shared_columns(bh: Seq<Text>, ah: Seq<Text>, ignore: Seq<Text>)
    ensures
        forall|c: Text|
            #[trigger] shared_columns(bh, ah, ignore).contains(c) <==> (bh.contains(c) && ah.contains(c)
                && !ignore.contains(c)),
    decreases bh.len(),
{
    if bh.len() > 0 {
        let rest = shared_columns(bh.drop_last(), ah, ignore);
        lemma_shared_columns(bh.drop_last(), ah, ignore);
        assert forall|c: Text| #[trigger] shared_columns(bh, ah, ignore).contains(c) <==> (bh.contains(c)
            && ah.contains(c) && !ignore.contains(c)) by {
            let s = shared_columns(bh, ah, ignore);
            if s.contains(c) {
                let w = choose|w: int| 0 <= w < s.len() && s[w] == c;
                if w < rest.len() {
                    assert(rest[w] == c);
                    assert(rest.contains(c));
                    let v = choose|v: int| 0 <= v < bh.drop_last().len() && bh.drop_last()[v] == c;
                    assert(bh[v] == c);
                } else {
                    assert(bh[bh.len() - 1] == c);
                }
            }
            if bh.contains(c) && ah.contains(c) && !ignore.contains(c) {
                let v = choose|v: int| 0 <= v < bh.len() && bh[v] == c;
                if v < bh.len() - 1 {
                    assert(bh.drop_last()[v] == c);
                    assert(rest.contains(c));
                    let w = choose|w: int| 0 <= w < rest.len() && rest[w] == c;
                    assert(s[w] == c);
                } else {
                    assert(s[s.len() - 1] == c);
                }
            }
        }
    }
}

/// A reported field is a column both tables have, that is not ignored, and
/// whose two values differ: a column on one side only is a schema change and
/// is never reported per row, and an ignored column is never compared.
pub proof fn law_reported_fields_are_compared_columns(
    r: ReportModel,
    b: TableModel,
    a: TableModel,
    keys: Seq<Text>,
    ignore: Seq<Text>,
    i: int,
    j: int,
)
    requires
        is_report_of(r, b, a, keys, ignore),
        0 <= i < r.changed.len(),
        0 <= j < r.changed[i].fields.len(),
    ensures
        b.header.contains(r.changed[i].fields[j].0),
        a.header.contains(r.changed[i].fields[j].0),
        !ignore.contains(r.changed[i].fields[j].0),
        r.changed[i].fields[j].1 != r.changed[i].fields[j].2,
{
    let k = r.changed[i].key;
    let bk = key_columns(b.header, keys);
    let ak = key_columns(a.header, keys);
    let sh = shared_columns(b.header, a.header, ignore);
    lemma_row_changes_columns(
        sh,
        b.header,
        b.rows[last_with_key(b.rows, bk, k)],
        a.header,
        a.rows[last_with_key(a.rows, ak, k)],
    );
    lemma_shared_columns(b.header, a.header, ignore);
    assert(r.changed[i].fields[j] == changes_for(b, a, keys, ignore, k)[j]);
}

/// Two lists of rows that hold the same rows, each key at most once in
/// either, have the same keys, and the row each key is compared by is the
/// same row.
proof fn lemma_same_rows_by_key(rows1: Seq<Record>, rows2: Seq<Record>, kidx: Seq<int>)
    requires
        rows1.to_set() == rows2.to_set(),
        repeated_keys(rows1, kidx) == Set::<Record>::empty(),
        repeated_keys(rows2, kidx) == Set::<Record>::empty(),
    ensures
        keys_of(rows1, kidx) == keys_of(rows2, kidx),
        forall|k: Record|
            #[trigger] keys_of(rows1, kidx).contains(k) ==> rows1[last_with_key(rows1, kidx, k)]
                == rows2[last_with_key(rows2, kidx, k)],
{
    assert forall|k: Record| keys_of(rows1, kidx).contains(k) implies keys_of(rows2, kidx).contains(k)
        && rows1[last_with_key(rows1, kidx, k)] == rows2[last_with_key(rows2, kidx, k)] by {
        lemma_last_with_key(rows1, kidx, k);
        let i = last_with_key(rows1, kidx, k);
        assert(rows1.to_set().contains(rows1[i]));
        assert(rows2.to_set().contains(rows1[i]));
        let j = choose|j: int| 0 <= j < rows2.len() && rows2[j] == rows1[i];
        assert(key_of(rows2[j], kidx) == k);
        lemma_count_key_positive(rows2, kidx, k);
        assert(!repeated_keys(rows2, kidx).contains(k));
        lemma_single_row_with_key(rows2, kidx, k, j);
    }
    assert forall|k: Record| keys_of(rows2, kidx).contains(k) implies keys_of(rows1, kidx).contains(k) by {
        lemma_last_with_key(rows2, kidx, k);
        let j = last_with_key(rows2, kidx, k);
        assert(rows2.to_set().contains(rows2[j]));
        assert(rows1.to_set().contains(rows2[j]));
        let i = choose|i: int| 0 <= i < rows1.len() && rows1[i] == rows2[j];
        assert(key_of(rows1[i], kidx) == k);
        lemma_count_key_positive(rows1, kidx, k);
    }
    assert(keys_of(rows1, kidx) =~= keys_of(rows2, kidx));
}

/// A report of two tables is also the report of any two tables with the
/// same headers and the same rows in another order, when no key repeats.
proof fn lemma_report_of_reordered(
    r: ReportModel,
    b1: TableModel,
    a1: TableModel,
    b2: TableModel,
    a2: TableModel,
    keys: Seq<Text>,
    ignore: Seq<Text>,
)
    requires
        is_report_of(r, b1, a1, keys, ignore),
        b1.header == b2.header,
        a1.header == a2.header,
        b1.rows.to_set() == b2.rows.to_set(),
        a1.rows.to_set() == a2.rows.to_set(),
        repeated_keys(b1.rows, key_columns(b1.header, keys)) == Set::<Record>::empty(),
        repeated_keys(b2.rows, key_columns(b2.header, keys)) == Set::<Record>::empty(),
        repeated_keys(a1.rows, key_columns(a1.header, keys)) == Set::<Record>::empty(),
        repeated_keys(a2.rows, key_columns(a2.header, keys)) == Set::<Record>::empty(),
    ensures
        is_report_of(r, b2, a2, keys, ignore),
{
    let bk = key_columns(b1.header, keys);
    let ak = key_columns(a1.header, keys);
    lemma_same_rows_by_key(b1.rows, b2.rows, bk);
    lemma_same_rows_by_key(a1.rows, a2.rows, ak);
    let kb = keys_of(b1.rows, bk);
    let ka = keys_of(a1.rows, ak);
    assert forall|k: Record| kb.contains(k) && ka.contains(k) implies #[trigger] changes_for(
        b1,
        a1,
        keys,
        ignore,
        k,
    ) == changes_for(b2, a2, keys, ignore, k) by {}
    assert(Set::new(
        |k: Record| kb.contains(k) && ka.contains(k) && changes_for(b1, a1, keys, ignore, k).len() > 0,
    ) =~= Set::new(
        |k: Record| kb.contains(k) && ka.contains(k) && changes_for(b2, a2, keys, ignore, k).len() > 0,
    ));
    assert(Set::new(
        |k: Record| kb.contains(k) && ka.contains(k) && changes_for(b1, a1, keys, ignore, k).len() == 0,
    ) =~= Set::new(
        |k: Record| kb.contains(k) && ka.contains(k) && changes_for(b2, a2, keys, ignore, k).len() == 0,
    ));
    assert forall|i: int| 0 <= i < r.changed.len() implies #[trigger] r.changed[i].fields
        == changes_for(b2, a2, keys, ignore, r.changed[i].key) by {
        let k = r.changed[i].key;
        assert(change_keys(r.changed)[i] == k);
        assert(change_keys(r.changed).to_set().contains(k));
    }
    assert(repeated_keys(b2.rows, bk).union(repeated_keys(a2.rows, ak)) =~= repeated_keys(
        b1.rows,
        bk,
    ).union(repeated_keys(a1.rows, ak)));
}

/// Rows are matched on their key, not their position: with no key repeated
/// on either side, putting the rows of either table in another order
/// changes nothing in the report.
pub proof fn law_row_order_is_irrelevant(
    r1: ReportModel,
    r2: ReportModel,
    b1: TableModel,
    a1: TableModel,
    b2: TableModel,
    a2: TableModel,
    keys: Seq<Text>,
    ignore: Seq<Text>,
)
    requires
        is_report_of(r1, b1, a1, keys, ignore),
        is_report_of(r2, b2, a2, keys, ignore),
        b1.header == b2.header,
        a1.header == a2.header,
        b1.rows.to_set() == b2.rows.to_set(),
        a1.rows.to_set() == a2.rows.to_set(),
        repeated_keys(b1.rows, key_columns(b1.header, keys)) == Set::<Record>::empty(),
        repeated_keys(b2.rows, key_columns(b2.header, keys)) == Set::<Record>::empty(),
        repeated_keys(a1.rows, key_columns(a1.header, keys)) == Set::<Record>::empty(),
        repeated_keys(a2.rows, key_columns(a2.header, keys)) == Set::<Record>::empty(),
    ensures
        r1 == r2,
{
    lemma_report_of_reordered(r1, b1, a1, b2, a2, keys, ignore);
    law_report_is_determined(r1, r2, b2, a2, keys, ignore);
}

/// Sorting a file or exporting it again in another order produces no
/// difference at all, when no key repeats: every key is unchanged.
pub proof fn law_reordered_rows_report_nothing(
    r: ReportModel,
    b: TableModel,
    a: TableModel,
    keys: Seq<Text>,
    ignore: Seq<Text>,
)
    requires
        is_report_of(r, b, a, keys, ignore),
        b.header == a.header,
        b.rows.to_set() == a.rows.to_set(),
        repeated_keys(b.rows, key_columns(b.header, keys)) == Set::<Record>::empty(),
        repeated_keys(a.rows, key_columns(a.header, keys)) == Set::<Record>::empty(),
    ensures
        !differs(r),
        r.unchanged == keys_of(b.rows, key_columns(b.header, keys)).len(),
{
    lemma_report_of_reordered(r, b, a, b, b, keys, ignore);
    law_self_comparison_is_identical(r, b, keys, ignore);
}

/// Two rows agree over `cols` exactly when `row_changes` finds nothing.
pub proof fn lemma_row_changes_empty(
    cols: Seq<Text>,
    bh: Seq<Text>,
    brow: Record,
    ah: Seq<Text>,
    arow: Record,
)
    ensures
        row_changes(cols, bh, brow, ah, arow).len() == 0 <==> forall|c: Text|
            #[trigger] cols.contains(c) ==> cell(bh, brow, c) == cell(ah, arow, c),
    decreases cols.len(),
{
    if cols.len() > 0 {
        let init = cols.drop_last();
        lemma_row_changes_empty(init, bh, brow, ah, arow);
        assert forall|c: Text| cols.contains(c) <==> (init.contains(c) || c == cols.last()) by {
            if cols.contains(c) {
                let w = choose|w: int| 0 <= w < cols.len() && cols[w] == c;
                if w < cols.len() - 1 {
                    assert(init[w] == c);
                }
            }
            if init.contains(c) {
                let w = choose|w: int| 0 <= w < init.len() && init[w] == c;
                assert(cols[w] == c);
            }
            if c == cols.last() {
                assert(cols[cols.len() - 1] == c);
            }
        }
        let rest = row_changes(init, bh, brow, ah, arow);
        let c0 = cols.last();
        if row_changes(cols, bh, brow, ah, arow).len() == 0 {
            assert(cell(bh, brow, c0) == cell(ah, arow, c0));
            assert(rest.len() == 0);
            assert forall|c: Text| #[trigger] cols.contains(c) implies cell(bh, brow, c) == cell(
                ah,
                arow,
                c,
            ) by {
                if c != c0 {
                    assert(init.contains(c));
                }
            }
        }
        if forall|c: Text| #[trigger] cols.contains(c) ==> cell(bh, brow, c) == cell(ah, arow, c) {
            assert(cols.contains(c0));
            assert forall|c: Text| #[trigger] init.contains(c) implies cell(bh, brow, c) == cell(
                ah,
                arow,
                c,
            ) by {
                assert(cols.contains(c));
            }
        }
    }
}

/// The row a key is compared by, on one side.
pub open spec fn compared_row(t: TableModel, keys: Seq<Text>, k: Record) -> Record {
    t.rows[last_with_key(t.rows, key_columns(t.header, keys), k)]
}

/// A key both tables hold counts as changed exactly when a column both
/// tables have, and that is not ignored, holds different values in the two
/// rows it is compared by. So an ignored column, or a column on one side
/// only, can never make a row count as changed.
pub proof fn law_changed_exactly_when_a_compared_field_differs(
    r: ReportModel,
    b: TableModel,
    a: TableModel,
    keys: Seq<Text>,
    ignore: Seq<Text>,
    k: Record,
)
    requires
        is_report_of(r, b, a, keys, ignore),
    ensures
        change_keys(r.changed).contains(k) <==> {
            &&& keys_of(b.rows, key_columns(b.header, keys)).contains(k)
            &&& keys_of(a.rows, key_columns(a.header, keys)).contains(k)
            &&& exists|c: Text|
                b.header.contains(c) && a.header.contains(c) && !ignore.contains(c) && #[trigger] cell(
                    b.header,
                    compared_row(b, keys, k),
                    c,
                ) != cell(a.header, compared_row(a, keys, k), c)
        },
{
    let sh = shared_columns(b.header, a.header, ignore);
    let brow = compared_row(b, keys, k);
    let arow = compared_row(a, keys, k);
    lemma_row_changes_empty(sh, b.header, brow, a.header, arow);
    lemma_shared_columns(b.header, a.header, ignore);
    assert(change_keys(r.changed).to_set().contains(k) == change_keys(r.changed).contains(k));
    if exists|c: Text|
        b.header.contains(c) && a.header.contains(c) && !ignore.contains(c) && #[trigger] cell(
            b.header,
            brow,
            c,
        ) != cell(a.header, arow, c) {
        let c = choose|c: Text|
            b.header.contains(c) && a.header.contains(c) && !ignore.contains(c) && #[trigger] cell(
                b.header,
                brow,
                c,
            ) != cell(a.header, arow, c);
        assert(sh.contains(c));
    }
}

/// Comparing the files the other way round swaps what was added and what
/// was removed, columns and rows, and finds the same keys changed, the same
/// number unchanged and the same duplicate keys.
pub proof fn law_swapping_the_files_swaps_added_and_removed(
    r1: ReportModel,
    r2: ReportModel,
    b: TableModel,
    a: TableModel,
    keys: Seq<Text>,
    ignore: Seq<Text>,
)
    requires
        is_report_of(r1, b, a, keys, ignore),
        is_report_of(r2, a, b, keys, ignore),
    ensures
        r2.added_columns == r1.removed_columns,
        r2.removed_columns == r1.added_columns,
        r2.reordered == r1.reordered,
        r2.added_rows == r1.removed_rows,
        r2.removed_rows == r1.added_rows,
        change_keys(r2.changed) == change_keys(r1.changed),
        r2.duplicate_keys == r1.duplicate_keys,
        r2.unchanged == r1.unchanged,
{
    let kb = keys_of(b.rows, key_columns(b.header, keys));
    let ka = keys_of(a.rows, key_columns(a.header, keys));
    assert(r1.removed_rows.to_set() =~= r2.added_rows.to_set());
    lemma_sorted_unique(r1.removed_rows, r2.added_rows);
    assert(r1.added_rows.to_set() =~= r2.removed_rows.to_set());
    lemma_sorted_unique(r1.added_rows, r2.removed_rows);
    assert(r1.duplicate_keys.to_set() =~= r2.duplicate_keys.to_set());
    lemma_sorted_unique(r1.duplicate_keys, r2.duplicate_keys);
    lemma_shared_columns(b.header, a.header, ignore);
    lemma_shared_columns(a.header, b.header, ignore);
    assert forall|k: Record| #[trigger] changes_for(b, a, keys, ignore, k).len() == 0 <==> changes_for(
        a,
        b,
        keys,
        ignore,
        k,
    ).len() == 0 by {
        let brow = compared_row(b, keys, k);
        let arow = compared_row(a, keys, k);
        let sab = shared_columns(b.header, a.header, ignore);
        let sba = shared_columns(a.header, b.header, ignore);
        lemma_row_changes_empty(sab, b.header, brow, a.header, arow);
        lemma_row_changes_empty(sba, a.header, arow, b.header, brow);
        if changes_for(b, a, keys, ignore, k).len() == 0 {
            assert forall|c: Text| #[trigger] sba.contains(c) implies cell(a.header, arow, c) == cell(
                b.header,
                brow,
                c,
            ) by {
                assert(sab.contains(c));
            }
        }
        if changes_for(a, b, keys, ignore, k).len() == 0 {
            assert forall|c: Text| #[trigger] sab.contains(c) implies cell(b.header, brow, c) == cell(
                a.header,
                arow,
                c,
            ) by {
                assert(sba.contains(c));
            }
        }
    }
    assert(change_keys(r1.changed).to_set() =~= change_keys(r2.changed).to_set());
    lemma_sorted_unique(change_keys(r1.changed), change_keys(r2.changed));
    assert(Set::new(
        |k: Record| kb.contains(k) && ka.contains(k) && changes_for(b, a, keys, ignore, k).len() == 0,
    ) =~= Set::new(
        |k: Record| ka.contains(k) && kb.contains(k) && changes_for(a, b, keys, ignore, k).len() == 0,
    ));
}

/// The fields a tolerance keeps are some of the fields it was given.
proof fn lemma_kept_fields_subset(fields: Seq<FieldChange>, accepted: Seq<bool>)
    ensures
        forall|f: FieldChange| #[trigger] kept_fields(fields, accepted).contains(f) ==> fields.contains(f),
    decreases fields.len(),
{
    if fields.len() > 0 {
        let init = fields.drop_last();
        lemma_kept_fields_subset(init, accepted);
        assert forall|f: FieldChange| #[trigger] kept_fields(fields, accepted).contains(f) implies fields.contains(
            f,
        ) by {
            let kept = kept_fields(fields, accepted);
            let rest = kept_fields(init, accepted);
            let w = choose|w: int| 0 <= w < kept.len() && kept[w] == f;
            if w < rest.len() {
                assert(rest[w] == f);
                assert(rest.contains(f));
                let v = choose|v: int| 0 <= v < init.len() && init[v] == f;
                assert(fields[v] == f);
            } else {
                assert(fields[fields.len() - 1] == f);
            }
        }
    }
}

/// With no field judged the same, every field stays.
proof fn lemma_kept_fields_all(fields: Seq<FieldChange>, accepted: Seq<bool>)
    requires
        forall|j: int| 0 <= j < accepted.len() ==> !#[trigger] accepted[j],
    ensures
        kept_fields(fields, accepted) == fields,
    decreases fields.len(),
{
    if fields.len() > 0 {
        lemma_kept_fields_all(fields.drop_last(), accepted);
        assert(fields.drop_last().push(fields.last()) =~= fields);
    }
}

/// What a tolerance does to a list of changes: each change it keeps is one
/// of them, with some of its fields; each change is either kept or counted
/// as absorbed; and the kept changes stay in key order.
proof fn lemma_tolerated(cs: Seq<ChangeModel>, verdicts: Seq<Seq<bool>>)
    ensures
        tolerated(cs, verdicts).len() + absorbed(cs, verdicts) == cs.len(),
        forall|i: int|
            #![trigger tolerated(cs, verdicts)[i]]
            0 <= i < tolerated(cs, verdicts).len() ==> exists|j: int|
                #![trigger cs[j]]
                0 <= j < cs.len() && cs[j].key == tolerated(cs, verdicts)[i].key && forall|f: FieldChange|
                    #[trigger] tolerated(cs, verdicts)[i].fields.contains(f) ==> cs[j].fields.contains(f),
        strictly_sorted(change_keys(cs)) ==> strictly_sorted(change_keys(tolerated(cs, verdicts))),
    decreases cs.len(),
{
    if cs.len() > 0 {
        let init = cs.drop_last();
        let n = cs.len() - 1;
        let rest = tolerated(init, verdicts);
        let kept = kept_fields(cs.last().fields, verdicts_for(verdicts, n));
        let tol = tolerated(cs, verdicts);
        lemma_tolerated(init, verdicts);
        lemma_kept_fields_subset(cs.last().fields, verdicts_for(verdicts, n));
        assert forall|i: int| #![trigger tol[i]] 0 <= i < tol.len() implies exists|j: int|
            #![trigger cs[j]]
            0 <= j < cs.len() && cs[j].key == tol[i].key && forall|f: FieldChange|
                #[trigger] tol[i].fields.contains(f) ==> cs[j].fields.contains(f) by {
            if i < rest.len() {
                assert(tol[i] == rest[i]);
                let j = choose|j: int|
                    #![trigger init[j]]
                    0 <= j < init.len() && init[j].key == rest[i].key && forall|f: FieldChange|
                        #[trigger] rest[i].fields.contains(f) ==> init[j].fields.contains(f);
                assert(cs[j] == init[j]);
            } else {
                assert(cs[n] == cs.last());
            }
        }
        if strictly_sorted(change_keys(cs)) {
            let ks = change_keys(cs);
            assert(change_keys(init) =~= ks.drop_last());
            assert(strictly_sorted(change_keys(init)));
            if kept.len() > 0 {
                let tk = change_keys(tol);
                assert forall|i: int, j: int| 0 <= i < j < tk.len() implies key_lt(
                    #[trigger] tk[i],
                    #[trigger] tk[j],
                ) by {
                    if j < rest.len() {
                        assert(tk[i] == change_keys(rest)[i]);
                        assert(tk[j] == change_keys(rest)[j]);
                    } else {
                        assert(tk[j] == cs[n].key);
                        assert(tol[i] == rest[i]);
                        let w = choose|w: int|
                            #![trigger init[w]]
                            0 <= w < init.len() && init[w].key == rest[i].key && forall|f: FieldChange|
                                #[trigger] rest[i].fields.contains(f) ==> init[w].fields.contains(f);
                        assert(ks[w] == init[w].key);
                        assert(ks[n] == cs[n].key);
                    }
                }
            } else {
                assert(change_keys(tol) == change_keys(rest));
            }
        }
    }
}

/// With no verdict "same", every change keeps all its fields.
proof fn lemma_tolerated_nothing(cs: Seq<ChangeModel>, verdicts: Seq<Seq<bool>>)
    requires
        forall|i: int, j: int|
            0 <= i < verdicts.len() && 0 <= j < verdicts[i].len() ==> !#[trigger] verdicts[i][j],
        forall|i: int| 0 <= i < cs.len() ==> #[trigger] cs[i].fields.len() > 0,
    ensures
        tolerated(cs, verdicts) == cs,
        absorbed(cs, verdicts) == 0,
    decreases cs.len(),
{
    if cs.len() > 0 {
        let n = cs.len() - 1;
        let init = cs.drop_last();
        assert forall|i: int| 0 <= i < init.len() implies #[trigger] init[i].fields.len() > 0 by {
            assert(init[i] == cs[i]);
        }
        lemma_tolerated_nothing(init, verdicts);
        let flags = verdicts_for(verdicts, n);
        assert forall|j: int| 0 <= j < flags.len() implies !#[trigger] flags[j] by {
            assert(!verdicts[n][j]);
        }
        lemma_kept_fields_all(cs.last().fields, flags);
        assert(cs[n].fields.len() > 0);
        assert(init.push(ChangeModel { key: cs.last().key, fields: cs.last().fields }) =~= cs);
    }
}

/// A tolerance only forgives. Each change it reports is a change of the
/// exact comparison with some of its fields, still in key order; each
/// change it drops counts as unchanged instead, so the keys both tables
/// hold are all still counted; and the columns, the added and removed rows
/// and the duplicate keys are left as they are.
pub proof fn law_tolerance_only_forgives(
    r: ReportModel,
    b: TableModel,
    a: TableModel,
    keys: Seq<Text>,
    ignore: Seq<Text>,
    verdicts: Seq<Seq<bool>>,
)
    requires
        is_report_of(r, b, a, keys, ignore),
    ensures
        ({
            let t = with_tolerance(r, verdicts);
            &&& t.unchanged + t.changed.len() == r.unchanged + r.changed.len()
            &&& forall|i: int|
                #![trigger t.changed[i]]
                0 <= i < t.changed.len() ==> exists|j: int|
                    #![trigger r.changed[j]]
                    0 <= j < r.changed.len() && r.changed[j].key == t.changed[i].key && forall|
                        f: FieldChange,
                    | #[trigger] t.changed[i].fields.contains(f) ==> r.changed[j].fields.contains(f)
            &&& strictly_sorted(change_keys(t.changed))
            &&& t.added_columns == r.added_columns
            &&& t.removed_columns == r.removed_columns
            &&& t.reordered == r.reordered
            &&& t.added_rows == r.added_rows
            &&& t.removed_rows == r.removed_rows
            &&& t.duplicate_keys == r.duplicate_keys
        }),
{
    lemma_tolerated(r.changed, verdicts);
}

/// Exact comparison is the tolerance that judges no two differing values
/// the same: under it the report of a comparison stays as it is.
pub proof fn law_no_verdict_changes_nothing(
    r: ReportModel,
    b: TableModel,
    a: TableModel,
    keys: Seq<Text>,
    ignore: Seq<Text>,
    verdicts: Seq<Seq<bool>>,
)
    requires
        is_report_of(r, b, a, keys, ignore),
        forall|i: int, j: int|
            0 <= i < verdicts.len() && 0 <= j < verdicts[i].len() ==> !#[trigger] verdicts[i][j],
    ensures
        with_tolerance(r, verdicts) == r,
{
    assert forall|i: int| 0 <= i < r.changed.len() implies #[trigger] r.changed[i].fields.len() > 0 by {
        let k = r.changed[i].key;
        assert(change_keys(r.changed)[i] == k);
        assert(change_keys(r.changed).to_set().contains(k));
    }
    lemma_tolerated_nothing(r.changed, verdicts);
}

/// A hexadecimal digit reads back as the number it was written for.
proof fn lemma_hex_digit(d: int)
    requires
        0 <= d < 16,
    ensures
        hex_value(hex_digit(d)) == Some(d),
{
}

/// A reader takes the escaped form of one character back as that
/// character, using all of the escape and nothing after it.
pub proof fn lemma_json_char_of_escape(c: char, rest: Text)
    ensures
        json_char(escape_char(c) + rest) == Some((c, escape_char(c).len() as int)),
{
    let t = escape_char(c) + rest;
    let e = escape_char(c);
    if c != '"' && c != '\\' && c != '\n' && c != '\r' && c != '\t' && c != '\u{08}' && c != '\u{0c}' && (c
        as u32) < 0x20 {
        let code = c as u32;
        let hi = (code / 16) as int;
        let lo = (code % 16) as int;
        lemma_hex_digit(hi);
        lemma_hex_digit(lo);
        assert(t[0] == '\\');
        assert(t[1] == 'u');
        assert(short_escape('u') is None);
        assert(t[2] == '0' && t[3] == '0');
        assert(t[4] == hex_digit(hi) && t[5] == hex_digit(lo));
        assert(hex_value('0') == Some(0int));
        assert(hex4(t, 2) == Some(hi * 16 + lo));
        assert(hi * 16 + lo == code as int);
        assert(((code as int) as char) == c);
    } else {
        assert(t[0] == e[0]);
        if e.len() >= 2 {
            assert(t[1] == e[1]);
        }
    }
}

/// Reading the escaped form of one character followed by more: the
/// character, then whatever the rest reads as.
proof fn lemma_value_after_escape(c: char, rest: Text)
    ensures
        json_string_value(escape_char(c) + rest) == match json_string_value(rest) {
            Some(v) => Some(seq![c] + v),
            None => None::<Text>,
        },
{
    let t = escape_char(c) + rest;
    lemma_json_char_of_escape(c, rest);
    assert(t.skip(escape_char(c).len() as int) =~= rest);
}

/// Reading escaped text followed by more: the text comes back, then
/// whatever the rest reads as.
proof fn lemma_value_of_escaped(s: Text, rest: Text)
    ensures
        json_string_value(escaped(s) + rest) == match json_string_value(rest) {
            Some(v) => Some(s + v),
            None => None::<Text>,
        },
    decreases s.len(),
{
    if s.len() == 0 {
        assert(escaped(s) + rest =~= rest);
        match json_string_value(rest) {
            Some(v) => {
                assert(s + v =~= v);
            },
            None => {},
        }
    } else {
        let c = s.last();
        let init = s.drop_last();
        let rest2 = escape_char(c) + rest;
        assert(escaped(s) + rest =~= escaped(init) + rest2);
        lemma_value_of_escaped(init, rest2);
        lemma_value_after_escape(c, rest);
        match json_string_value(rest) {
            Some(v) => {
                assert(init + (seq![c] + v) =~= s + v);
            },
            None => {},
        }
    }
}

/// A JSON reader reads the escaped form of any text back as exactly that
/// text: whatever quotes, backslashes or control characters a field holds,
/// the escaped form is valid inside a JSON string and loses nothing.
pub proof fn law_escape_round_trips(s: Text)
    ensures
        json_string_value(escaped(s)) == Some(s),
{
    lemma_value_of_escaped(s, Seq::empty());
    assert(escaped(s) + Seq::<char>::empty() =~= escaped(s));
    assert(s + Seq::<char>::empty() =~= s);
}

/// No character below 0x20 is left raw by escaping.
pub proof fn law_escaped_text_has_no_control_characters(s: Text)
    ensures
        forall|i: int| 0 <= i < escaped(s).len() ==> (#[trigger] escaped(s)[i] as u32) >= 0x20,
    decreases s.len(),
{
    if s.len() > 0 {
        let init = s.drop_last();
        law_escaped_text_has_no_control_characters(init);
        let c = s.last();
        let e = escape_char(c);
        assert forall|i: int| 0 <= i < escaped(s).len() implies (#[trigger] escaped(s)[i] as u32) >= 0x20 by {
            let n = escaped(init).len();
            if i < n {
                assert(escaped(s)[i] == escaped(init)[i]);
            } else {
                assert(escaped(s)[i] == e[i - n]);
                if c != '"' && c != '\\' && c != '\n' && c != '\r' && c != '\t' && c != '\u{08}' && c
                    != '\u{0c}' && (c as u32) < 0x20 {
                    let code = c as u32;
                    assert(0 <= code / 16 < 16);
                    assert(0 <= code % 16 < 16);
                }
            }
        }
    }
}

/// What is left once trailing blank records are dropped does not end in
/// one.
proof fn lemma_drop_blank_tail(recs: Seq<Record>)
    ensures
        drop_blank_tail(recs).len() > 0 ==> !is_blank(drop_blank_tail(recs).last()),
    decreases recs.len(),
{
    if recs.len() > 0 && is_blank(recs.last()) {
        lemma_drop_blank_tail(recs.drop_last());
    }
}

/// Trailing blank lines are noise, not rows: the last record of a document
/// is never a blank line.
pub proof fn law_no_trailing_blank_record(s: Text, delim: char)
    ensures
        csv_records(s, delim) matches Ok(recs) ==> !is_blank(recs.last()),
{
    let st = scan(s, delim, body_start(s), scan_start());
    let recs = if st.field.len() > 0 || st.record.len() > 0 {
        st.records.push(st.record.push(st.field))
    } else {
        st.records
    };
    lemma_drop_blank_tail(recs);
}

/// Reading after a prefix is reading without it.
proof fn lemma_scan_after_prefix(p: Text, s: Text, delim: char, i: int, st: Scan)
    requires
        0 <= i,
    ensures
        scan(p + s, delim, p.len() + i, st) == scan(s, delim, i, st),
    decreases s.len() - i,
{
    if i < s.len() {
        let t = p + s;
        let j = p.len() + i;
        let c = s[i];
        assert(t[j] == c);
        if i + 1 < s.len() {
            assert(t[j + 1] == s[i + 1]);
        }
        if st.quoted {
            if c == '"' {
                if i + 1 < s.len() && s[i + 1] == '"' {
                    lemma_scan_after_prefix(p, s, delim, i + 2, Scan { field: st.field.push('"'), ..st });
                } else {
                    lemma_scan_after_prefix(p, s, delim, i + 1, Scan { quoted: false, ..st });
                }
            } else if c == '\n' {
                lemma_scan_after_prefix(
                    p,
                    s,
                    delim,
                    i + 1,
                    Scan { field: st.field.push('\n'), line: st.line + 1, ..st },
                );
            } else {
                lemma_scan_after_prefix(p, s, delim, i + 1, Scan { field: st.field.push(c), ..st });
            }
        } else if c == '"' && st.field.len() == 0 {
            lemma_scan_after_prefix(p, s, delim, i + 1, Scan { quoted: true, ..st });
        } else if c == delim {
            lemma_scan_after_prefix(
                p,
                s,
                delim,
                i + 1,
                Scan { record: st.record.push(st.field), field: Seq::empty(), ..st },
            );
        } else if c == '\r' {
            let next = if i + 1 < s.len() && s[i + 1] == '\n' {
                i + 2
            } else {
                i + 1
            };
            lemma_scan_after_prefix(p, s, delim, next, end_record(st));
        } else if c == '\n' {
            lemma_scan_after_prefix(p, s, delim, i + 1, end_record(st));
        } else {
            lemma_scan_after_prefix(p, s, delim, i + 1, Scan { field: st.field.push(c), ..st });
        }
    }
}

/// One leading byte-order mark, as spreadsheet exports write, is dropped:
/// the document reads as if it were not there, so it cannot glue itself to
/// the first column name. Only one is dropped; a second is data.
pub proof fn law_byte_order_mark_is_dropped(s: Text, delim: char)
    requires
        s.len() == 0 || s[0] != '\u{feff}',
    ensures
        csv_records(seq!['\u{feff}'] + s, delim) == csv_records(s, delim),
{
    let t = seq!['\u{feff}'] + s;
    assert(t[0] == '\u{feff}');
    lemma_scan_after_prefix(seq!['\u{feff}'], s, delim, 0, scan_start());
}

/// Each change compares two rows that carry its key, every key part equal,
/// and on each side the last row that carries it: with a repeated key the
/// later row is the one compared. Its fields are exactly where those two
/// rows differ.
pub proof fn law_a_change_pairs_the_last_rows_with_its_key(
    r: ReportModel,
    b: TableModel,
    a: TableModel,
    keys: Seq<Text>,
    ignore: Seq<Text>,
    i: int,
)
    requires
        is_report_of(r, b, a, keys, ignore),
        0 <= i < r.changed.len(),
    ensures
        ({
            let k = r.changed[i].key;
            let bk = key_columns(b.header, keys);
            let ak = key_columns(a.header, keys);
            let bi = last_with_key(b.rows, bk, k);
            let ai = last_with_key(a.rows, ak, k);
            &&& 0 <= bi < b.rows.len()
            &&& key_of(b.rows[bi], bk) == k
            &&& forall|m: int| bi < m < b.rows.len() ==> key_of(#[trigger] b.rows[m], bk) != k
            &&& 0 <= ai < a.rows.len()
            &&& key_of(a.rows[ai], ak) == k
            &&& forall|m: int| ai < m < a.rows.len() ==> key_of(#[trigger] a.rows[m], ak) != k
            &&& r.changed[i].fields == row_changes(
                shared_columns(b.header, a.header, ignore),
                b.header,
                b.rows[bi],
                a.header,
                a.rows[ai],
            )
        }),
{
    let k = r.changed[i].key;
    let bk = key_columns(b.header, keys);
    let ak = key_columns(a.header, keys);
    assert(change_keys(r.changed)[i] == k);
    assert(change_keys(r.changed).to_set().contains(k));
    lemma_last_with_key(b.rows, bk, k);
    lemma_last_with_key(a.rows, ak, k);
    lemma_no_later_row_with_key(b.rows, bk, k);
    lemma_no_later_row_with_key(a.rows, ak, k);
}

/// Reading `s` and then `t` from where `s` left off is reading `s + t`,
/// when the first character of `t` cannot change how the end of `s` is
/// read: it is no quote, which could double one closing `s`, and no line
/// feed after a carriage return ending `s`.
proof fn lemma_scan_in_two(s: Text, t: Text, delim: char, i: int, st: Scan)
    requires
        0 <= i <= s.len(),
        t.len() > 0 ==> t[0] != '"',
        t.len() > 0 && t[0] == '\n' && s.len() > 0 ==> s.last() != '\r',
    ensures
        scan(s + t, delim, i, st) == scan(s + t, delim, s.len() as int, scan(s, delim, i, st)),
    decreases s.len() - i,
{
    let u = s + t;
    if i < s.len() {
        let c = s[i];
        assert(u[i] == c);
        if i + 1 < s.len() {
            assert(u[i + 1] == s[i + 1]);
        } else if t.len() > 0 {
            assert(u[i + 1] == t[0]);
        }
        if st.quoted {
            if c == '"' {
                if i + 1 < s.len() && s[i + 1] == '"' {
                    lemma_scan_in_two(s, t, delim, i + 2, Scan { field: st.field.push('"'), ..st });
                } else {
                    lemma_scan_in_two(s, t, delim, i + 1, Scan { quoted: false, ..st });
                }
            } else if c == '\n' {
                lemma_scan_in_two(s, t, delim, i + 1, Scan { field: st.field.push('\n'), line: st.line + 1, ..st });
            } else {
                lemma_scan_in_two(s, t, delim, i + 1, Scan { field: st.field.push(c), ..st });
            }
        } else if c == '"' && st.field.len() == 0 {
            lemma_scan_in_two(s, t, delim, i + 1, Scan { quoted: true, ..st });
        } else if c == delim {
            lemma_scan_in_two(
                s,
                t,
                delim,
                i + 1,
                Scan { record: st.record.push(st.field), field: Seq::empty(), ..st },
            );
        } else if c == '\r' {
            if i + 1 < s.len() && s[i + 1] == '\n' {
                lemma_scan_in_two(s, t, delim, i + 2, end_record(st));
            } else {
                if i + 1 == s.len() && t.len() > 0 {
                    assert(s.last() == '\r');
                }
                lemma_scan_in_two(s, t, delim, i + 1, end_record(st));
            }
        } else if c == '\n' {
            lemma_scan_in_two(s, t, delim, i + 1, end_record(st));
        } else {
            lemma_scan_in_two(s, t, delim, i + 1, Scan { field: st.field.push(c), ..st });
        }
    }
}

/// Ending the record being read at the end of the input gives the same
/// records as leaving it to the end of the input to close.
proof fn lemma_finish_end_record(st: Scan)
    ensures
        finish(end_record(st)) == finish(st),
{
    let recs = st.records.push(st.record.push(st.field));
    assert(end_record(st).records == recs);
    if !(st.field.len() > 0 || st.record.len() > 0) {
        assert(st.field =~= Seq::<char>::empty());
        assert(st.record =~= Seq::<Text>::empty());
        assert(st.record.push(st.field) =~= seq![Seq::<char>::empty()]);
        assert(is_blank(recs.last()));
        assert(recs.drop_last() =~= st.records);
    }
}

/// A file not ending in a line break still has its final record: adding
/// one final line feed changes nothing, unless the file ends inside a
/// quoted field, where the line feed is data, or the line feed is itself
/// the delimiter.
pub proof fn law_a_final_line_break_changes_nothing(s: Text, delim: char)
    requires
        delim != '\n',
        !scan(s, delim, body_start(s), scan_start()).quoted,
    ensures
        csv_records(s + seq!['\n'], delim) == csv_records(s, delim),
{
    let t = s + seq!['\n'];
    let b = body_start(s);
    if s.len() > 0 {
        assert(t[0] == s[0]);
    }
    assert(body_start(t) == b);
    let st_s = scan(s, delim, b, scan_start());
    if s.len() == 0 || s.last() != '\r' {
        lemma_scan_in_two(s, seq!['\n'], delim, b, scan_start());
        assert(t[s.len() as int] == '\n');
        assert(scan(t, delim, s.len() as int, st_s) == scan(t, delim, s.len() + 1int, end_record(st_s)));
        lemma_finish_end_record(st_s);
    } else {
        let p = s.drop_last();
        assert(p + seq!['\r'] =~= s);
        assert(p + seq!['\r', '\n'] =~= t);
        if b == 1 {
            assert(s[0] == '\u{feff}');
            assert(p.len() >= 1);
        }
        lemma_scan_in_two(p, seq!['\r'], delim, b, scan_start());
        lemma_scan_in_two(p, seq!['\r', '\n'], delim, b, scan_start());
        let st_p = scan(p, delim, b, scan_start());
        assert(s[p.len() as int] == '\r');
        assert(t[p.len() as int] == '\r');
        assert(t[p.len() + 1int] == '\n');
        let n = p.len() as int;
        if st_p.quoted {
            let q = Scan { field: st_p.field.push('\r'), ..st_p };
            assert(scan(s, delim, n, st_p) == scan(s, delim, n + 1, q));
            assert(st_s == q);
            assert(false);
        } else if delim == '\r' {
            let x = Scan { record: st_p.record.push(st_p.field), field: Seq::empty(), ..st_p };
            assert(scan(s, delim, n, st_p) == scan(s, delim, n + 1, x));
            assert(st_s == x);
            assert(scan(t, delim, n, st_p) == scan(t, delim, n + 1, x));
            assert(scan(t, delim, n + 1, x) == scan(t, delim, n + 2, end_record(x)));
            lemma_finish_end_record(x);
        } else {
            assert(scan(s, delim, n, st_p) == scan(s, delim, n + 1, end_record(st_p)));
            assert(st_s == end_record(st_p));
            assert(scan(t, delim, n, st_p) == scan(t, delim, n + 2, end_record(st_p)));
        }
    }
}

/// The keys of a table are the keys of its rows, so there are finitely
/// many.
pub proof fn lemma_keys_of_finite(rows: Seq<Record>, kidx: Seq<int>)
    ensures
        keys_of(rows, kidx).finite(),
{
    let ks = Seq::new(rows.len(), |i: int| key_of(rows[i], kidx));
    assert forall|k: Record| keys_of(rows, kidx).contains(k) <==> ks.to_set().contains(k) by {
        lemma_count_key_positive(rows, kidx, k);
        if keys_of(rows, kidx).contains(k) {
            let i = choose|i: int| 0 <= i < rows.len() && #[trigger] key_of(rows[i], kidx) == k;
            assert(ks[i] == k);
        }
        if ks.to_set().contains(k) {
            let i = choose|i: int| 0 <= i < ks.len() && ks[i] == k;
            assert(key_of(rows[i], kidx) == k);
        }
    }
    assert(keys_of(rows, kidx) =~= ks.to_set());
    vstd::seq_lib::seq_to_set_is_finite(ks);
}

/// Every key both tables hold is counted exactly once: it is either one of
/// the changes or one of the unchanged rows.
pub proof fn law_shared_keys_are_changed_or_unchanged(
    r: ReportModel,
    b: TableModel,
    a: TableModel,
    keys: Seq<Text>,
    ignore: Seq<Text>,
)
    requires
        is_report_of(r, b, a, keys, ignore),
    ensures
        ({
            let kb = keys_of(b.rows, key_columns(b.header, keys));
            let ka = keys_of(a.rows, key_columns(a.header, keys));
            r.changed.len() + r.unchanged == kb.intersect(ka).len()
        }),
{
    let kb = keys_of(b.rows, key_columns(b.header, keys));
    let ka = keys_of(a.rows, key_columns(a.header, keys));
    let both = kb.intersect(ka);
    lemma_keys_of_finite(b.rows, key_columns(b.header, keys));
    let c = Set::new(
        |k: Record| kb.contains(k) && ka.contains(k) && changes_for(b, a, keys, ignore, k).len() > 0,
    );
    let u = Set::new(
        |k: Record| kb.contains(k) && ka.contains(k) && changes_for(b, a, keys, ignore, k).len() == 0,
    );
    vstd::set_lib::lemma_len_subset(both, kb);
    vstd::set_lib::lemma_len_subset(c, both);
    vstd::set_lib::lemma_len_subset(u, both);
    let ck = change_keys(r.changed);
    assert(ck.no_duplicates()) by {
        assert forall|i: int, j: int| 0 <= i < ck.len() && 0 <= j < ck.len() && i != j implies ck[i] != ck[j] by {
            crate::order::lemma_sorted_distinct(ck, i, j);
        }
    }
    ck.unique_seq_to_set();
    assert(c.disjoint(u));
    vstd::set_lib::lemma_set_disjoint_lens(c, u);
    assert(c + u =~= both);
}

/// The records a finished reading holds before trailing blank lines are
/// dropped: a last record without a line break counts.
pub open spec fn records_read(st: Scan) -> Seq<Record> {
    if st.field.len() > 0 || st.record.len() > 0 {
        st.records.push(st.record.push(st.field))
    } else {
        st.records
    }
}

/// Dropping trailing blank records leaves nothing exactly when every record
/// is blank.
proof fn lemma_drop_blank_tail_empty(recs: Seq<Record>)
    ensures
        drop_blank_tail(recs).len() == 0 <==> forall|i: int| 0 <= i < recs.len() ==> #[trigger] is_blank(recs[i]),
    decreases recs.len(),
{
    if recs.len() > 0 {
        let init = recs.drop_last();
        lemma_drop_blank_tail_empty(init);
        if is_blank(recs.last()) {
            assert forall|i: int| 0 <= i < recs.len() && (forall|j: int| 0 <= j < init.len() ==> #[trigger] is_blank(init[j])) implies #[trigger] is_blank(recs[i]) by {
                if i < init.len() {
                    assert(recs[i] == init[i]);
                }
            }
            if forall|i: int| 0 <= i < recs.len() ==> #[trigger] is_blank(recs[i]) {
                assert forall|j: int| 0 <= j < init.len() implies #[trigger] is_blank(init[j]) by {
                    assert(recs[j] == init[j]);
                }
            }
        } else {
            assert(!is_blank(recs[recs.len() - 1]));
        }
    }
}

/// A document is refused exactly when it ends inside a quoted field, saying
/// before which line the quote was still open, or when every record in it is
/// a blank line, an empty document among them.
pub proof fn law_parse_fails_exactly_when(s: Text, delim: char)
    ensures
        ({
            let st = scan(s, delim, body_start(s), scan_start());
            let recs = records_read(st);
            &&& csv_records(s, delim) is Err <==> (st.quoted || forall|i: int|
                0 <= i < recs.len() ==> #[trigger] is_blank(recs[i]))
            &&& st.quoted ==> csv_records(s, delim) == Err::<Seq<Record>, Text>(
                "unterminated quote starting before line "@ + crate::text::decimal(st.line),
            )
            &&& !st.quoted && (forall|i: int| 0 <= i < recs.len() ==> #[trigger] is_blank(recs[i]))
                ==> csv_records(s, delim) == Err::<Seq<Record>, Text>("file is empty"@)
        }),
{
    let st = scan(s, delim, body_start(s), scan_start());
    lemma_drop_blank_tail_empty(records_read(st));
}

/// A list is never cut short without saying so. Of a list of `n` entries the
/// first `shown(n)` are named, all of them up to twenty; past twenty a last
/// line counts the ones not named, so named and counted together make `n`.
pub proof fn law_a_long_list_says_how_many_more(n: int, color: bool)
    requires
        n >= 0,
    ensures
        0 <= shown(n) <= n,
        shown(n) <= SHOWN,
        n <= SHOWN ==> shown(n) == n && more_line(color, n) == Seq::<char>::empty(),
        n > SHOWN ==> shown(n) == SHOWN && more_line(color, n) == "  "@ + dim(
            color,
            "… and "@ + crate::text::decimal((n - shown(n)) as nat) + " more"@,
        ) + "\n"@,
{
}

/// The text report of a difference is its schema, changed, removed, added
/// and duplicate sections and the counts, in that order, and each list in it
/// names its first `shown(n)` entries followed by the line that counts the
/// rest.
pub proof fn law_every_listing_names_or_counts_its_entries(r: ReportModel, color: bool)
    requires
        differs(r),
    ensures
        report_text(r, color) == schema_block(r, color) + changed_block(r, color) + rows_block(
            "removed"@,
            r.removed_rows,
            red(color, "−"@),
            color,
        ) + rows_block("added"@, r.added_rows, green(color, "+"@), color) + duplicates_block(r, color)
            + totals_line(r, color),
        r.changed.len() > 0 ==> changed_block(r, color) == "changed · "@ + crate::text::decimal(
            r.changed.len(),
        ) + "\n"@ + concat(
            Seq::new(shown(r.changed.len() as int) as nat, |i: int| change_lines(r.changed[i], color)),
        ) + more_line(color, r.changed.len() as int) + "\n"@,
        forall|label: Text, ks: Seq<Record>, mark: Text|
            ks.len() > 0 ==> #[trigger] rows_block(label, ks, mark, color) == label + " · "@
                + crate::text::decimal(ks.len()) + "\n"@ + concat(
                Seq::new(shown(ks.len() as int) as nat, |i: int| "  "@ + mark + " "@ + key_text(ks[i]) + "\n"@),
            ) + more_line(color, ks.len() as int) + "\n"@,
        r.duplicate_keys.len() > 0 ==> duplicates_block(r, color) == yellow(
            color,
            "warning · "@ + crate::text::decimal(r.duplicate_keys.len())
                + " duplicate key(s); comparison used one row each"@,
        ) + "\n"@ + concat(
            Seq::new(
                shown(r.duplicate_keys.len() as int) as nat,
                |i: int| "  "@ + key_text(r.duplicate_keys[i]) + "\n"@,
            ),
        ) + more_line(color, r.duplicate_keys.len() as int) + "\n"@,
{
}

/// Whether the tolerance judged field `j` the same.
pub open spec fn judged_same(flags: Seq<bool>, j: int) -> bool {
    0 <= j < flags.len() && flags[j]
}

/// A change keeps a field exactly when the field has no verdict "same".
proof fn lemma_kept_fields_nonempty(fields: Seq<FieldChange>, accepted: Seq<bool>)
    ensures
        kept_fields(fields, accepted).len() > 0 <==> exists|j: int|
            0 <= j < fields.len() && !#[trigger] judged_same(accepted, j),
    decreases fields.len(),
{
    if fields.len() > 0 {
        let init = fields.drop_last();
        lemma_kept_fields_nonempty(init, accepted);
        let n = fields.len() - 1;
        if !judged_same(accepted, n) {
            assert(0 <= n < fields.len() && !judged_same(accepted, n));
        }
        if exists|j: int| 0 <= j < fields.len() && !#[trigger] judged_same(accepted, j) {
            let j = choose|j: int| 0 <= j < fields.len() && !#[trigger] judged_same(accepted, j);
            if j < n {
                assert(0 <= j < init.len() && !judged_same(accepted, j));
            }
        }
    }
}

/// In a list of changes with distinct keys, a change survives the tolerance
/// exactly when it keeps a field, and then with exactly the fields it keeps.
pub proof fn lemma_tolerated_member(cs: Seq<ChangeModel>, verdicts: Seq<Seq<bool>>, i: int)
    requires
        0 <= i < cs.len(),
        forall|a: int, b: int| 0 <= a < cs.len() && 0 <= b < cs.len() && a != b ==> #[trigger] cs[a].key != #[trigger] cs[b].key,
    ensures
        ({
            let tol = tolerated(cs, verdicts);
            let kept = kept_fields(cs[i].fields, verdicts_for(verdicts, i));
            &&& (exists|m: int| 0 <= m < tol.len() && #[trigger] tol[m].key == cs[i].key) <==> kept.len() > 0
            &&& forall|m: int| 0 <= m < tol.len() && #[trigger] tol[m].key == cs[i].key ==> tol[m].fields == kept
        }),
    decreases cs.len(),
{
    let n = cs.len() - 1;
    let init = cs.drop_last();
    let rest = tolerated(init, verdicts);
    let tol = tolerated(cs, verdicts);
    let last_kept = kept_fields(cs.last().fields, verdicts_for(verdicts, n));
    lemma_tolerated(init, verdicts);
    if i < n {
        assert forall|a: int, b: int| 0 <= a < init.len() && 0 <= b < init.len() && a != b implies #[trigger] init[a].key != #[trigger] init[b].key by {
            assert(init[a] == cs[a] && init[b] == cs[b]);
        }
        lemma_tolerated_member(init, verdicts, i);
        assert(init[i] == cs[i]);
        assert(cs[n].key != cs[i].key);
        if last_kept.len() > 0 {
            assert(tol == rest.push(ChangeModel { key: cs.last().key, fields: last_kept }));
            if exists|m: int| 0 <= m < rest.len() && #[trigger] rest[m].key == cs[i].key {
                let m = choose|m: int| 0 <= m < rest.len() && #[trigger] rest[m].key == cs[i].key;
                assert(tol[m] == rest[m]);
            }
            assert forall|m: int| 0 <= m < tol.len() && #[trigger] tol[m].key == cs[i].key implies tol[m].fields
                == kept_fields(cs[i].fields, verdicts_for(verdicts, i)) by {
                assert(m < rest.len());
                assert(tol[m] == rest[m]);
            }
            if exists|m: int| 0 <= m < tol.len() && #[trigger] tol[m].key == cs[i].key {
                let m = choose|m: int| 0 <= m < tol.len() && #[trigger] tol[m].key == cs[i].key;
                assert(m < rest.len());
                assert(tol[m] == rest[m]);
            }
        }
    } else {
        assert forall|m: int| 0 <= m < rest.len() implies #[trigger] rest[m].key != cs[i].key by {
            let j = choose|j: int|
                #![trigger init[j]]
                0 <= j < init.len() && init[j].key == rest[m].key && forall|f: FieldChange|
                    #[trigger] rest[m].fields.contains(f) ==> init[j].fields.contains(f);
            assert(init[j] == cs[j]);
        }
        if last_kept.len() > 0 {
            assert(tol[rest.len() as int].key == cs[i].key);
            assert forall|m: int| 0 <= m < tol.len() && #[trigger] tol[m].key == cs[i].key implies tol[m].fields
                == last_kept by {
                if m < rest.len() {
                    assert(tol[m] == rest[m]);
                }
            }
        } else {
            assert forall|m: int| 0 <= m < tol.len() implies #[trigger] tol[m].key != cs[i].key by {
                assert(tol[m] == rest[m]);
            }
        }
    }
}

/// How the tolerance's verdicts decide a change: a change of the exact
/// comparison stays a change exactly when some field of it has no verdict
/// "same", and then it keeps exactly those fields, in their order.
pub proof fn law_a_change_stays_exactly_when_a_field_is_not_forgiven(
    r: ReportModel,
    b: TableModel,
    a: TableModel,
    keys: Seq<Text>,
    ignore: Seq<Text>,
    verdicts: Seq<Seq<bool>>,
    i: int,
)
    requires
        is_report_of(r, b, a, keys, ignore),
        0 <= i < r.changed.len(),
    ensures
        ({
            let t = with_tolerance(r, verdicts).changed;
            let fields = r.changed[i].fields;
            let flags = verdicts_for(verdicts, i);
            &&& (exists|m: int| 0 <= m < t.len() && #[trigger] t[m].key == r.changed[i].key) <==> exists|j: int|
                0 <= j < fields.len() && !#[trigger] judged_same(flags, j)
            &&& forall|m: int|
                0 <= m < t.len() && #[trigger] t[m].key == r.changed[i].key ==> t[m].fields == kept_fields(
                    fields,
                    flags,
                )
        }),
{
    let cs = r.changed;
    assert forall|x: int, y: int| 0 <= x < cs.len() && 0 <= y < cs.len() && x != y implies #[trigger] cs[x].key
        != #[trigger] cs[y].key by {
        assert(change_keys(cs)[x] == cs[x].key && change_keys(cs)[y] == cs[y].key);
        crate::order::lemma_sorted_distinct(change_keys(cs), x, y);
    }
    lemma_tolerated_member(cs, verdicts, i);
    lemma_kept_fields_nonempty(cs[i].fields, verdicts_for(verdicts, i));
    let t = with_tolerance(r, verdicts).changed;
    assert(t == tolerated(cs, verdicts));
    let kept = kept_fields(cs[i].fields, verdicts_for(verdicts, i));
    if exists|m: int| 0 <= m < t.len() && #[trigger] t[m].key == cs[i].key {
        let m = choose|m: int| 0 <= m < t.len() && #[trigger] t[m].key == cs[i].key;
        assert(tolerated(cs, verdicts)[m].key == cs[i].key);
    }
    if kept.len() > 0 {
        let m = choose|m: int| 0 <= m < tolerated(cs, verdicts).len() && #[trigger] tolerated(cs, verdicts)[m].key == cs[i].key;
        assert(t[m].key == cs[i].key);
    }
}

/// How one character of a field is written inside quotes: a quote doubled.
pub open spec fn quote_piece(c: char) -> Text {
    if c == '"' {
        seq!['"', '"']
    } else {
        seq![c]
    }
}

/// The characters of a field with every quote doubled.
pub open spec fn doubled_quotes(f: Text) -> Text
    decreases f.len(),
{
    if f.len() == 0 {
        Seq::empty()
    } else {
        quote_piece(f[0]) + doubled_quotes(f.drop_first())
    }
}

/// A field written in quotes.
pub open spec fn quoted_field(f: Text) -> Text {
    seq!['"'] + doubled_quotes(f) + seq!['"']
}

/// The fields of a record written in quotes, separated by `delim`.
pub open spec fn quoted_fields(r: Record, delim: char) -> Text
    decreases r.len(),
{
    if r.len() == 0 {
        Seq::empty()
    } else if r.len() == 1 {
        quoted_field(r[0])
    } else {
        quoted_field(r[0]) + seq![delim] + quoted_fields(r.drop_first(), delim)
    }
}

/// A document with every field quoted and every record ending in a line
/// feed.
pub open spec fn quoted_document(recs: Seq<Record>, delim: char) -> Text
    decreases recs.len(),
{
    if recs.len() == 0 {
        Seq::empty()
    } else {
        quoted_fields(recs[0], delim) + seq!['\n'] + quoted_document(recs.drop_first(), delim)
    }
}

/// How many line feeds a text holds.
pub open spec fn line_feeds(t: Text) -> nat
    decreases t.len(),
{
    if t.len() == 0 {
        0
    } else {
        (if t[0] == '\n' { 1nat } else { 0nat }) + line_feeds(t.drop_first())
    }
}

/// The line breaks a record counts: those inside its fields and its own.
pub open spec fn record_lines(r: Record) -> nat
    decreases r.len(),
{
    if r.len() <= 1 {
        (if r.len() == 1 { line_feeds(r[0]) } else { 0nat }) + 1
    } else {
        line_feeds(r[0]) + record_lines(r.drop_first())
    }
}

pub open spec fn document_lines(recs: Seq<Record>) -> nat
    decreases recs.len(),
{
    if recs.len() == 0 {
        0
    } else {
        record_lines(recs[0]) + document_lines(recs.drop_first())
    }
}

/// `x` stands in `d` at position `p`.
pub open spec fn stands_at(d: Text, p: int, x: Text) -> bool {
    &&& 0 <= p
    &&& p + x.len() <= d.len()
    &&& forall|j: int| 0 <= j < x.len() ==> #[trigger] x[j] == d[p + j]
}

pub proof fn lemma_stands_at_split(d: Text, p: int, x: Text, y: Text)
    requires
        stands_at(d, p, x + y),
    ensures
        stands_at(d, p, x),
        stands_at(d, p + x.len(), y),
{
    assert forall|j: int| 0 <= j < x.len() implies #[trigger] x[j] == d[p + j] by {
        assert((x + y)[j] == x[j]);
    }
    assert forall|j: int| 0 <= j < y.len() implies #[trigger] y[j] == d[p + x.len() + j] by {
        assert((x + y)[x.len() + j] == y[j]);
    }
}

/// Inside quotes, the doubled form of a field reads as the field.
proof fn lemma_scan_doubled(d: Text, delim: char, p: int, f: Text, st: Scan)
    requires
        st.quoted,
        stands_at(d, p, doubled_quotes(f)),
    ensures
        scan(d, delim, p, st) == scan(
            d,
            delim,
            p + doubled_quotes(f).len(),
            Scan { field: st.field + f, line: st.line + line_feeds(f), ..st },
        ),
    decreases f.len(),
{
    if f.len() == 0 {
        assert(st.field + f =~= st.field);
        assert(Scan { field: st.field + f, line: st.line + line_feeds(f), ..st } == st);
    } else {
        let c = f[0];
        let rest = f.drop_first();
        let piece = quote_piece(c);
        lemma_stands_at_split(d, p, piece, doubled_quotes(rest));
        assert(piece[0] == d[p]);
        let next = Scan {
            field: st.field.push(c),
            line: st.line + (if c == '\n' { 1nat } else { 0nat }),
            ..st
        };
        if c == '"' {
            assert(piece[1] == d[p + 1]);
            assert(scan(d, delim, p, st) == scan(d, delim, p + 2, next));
        } else {
            assert(scan(d, delim, p, st) == scan(d, delim, p + 1, next));
        }
        lemma_scan_doubled(d, delim, p + piece.len(), rest, next);
        assert(next.field + rest =~= st.field + f);
    }
}

/// A quoted field at the start of a field reads as the field, and the
/// quotes are closed after it.
proof fn lemma_scan_quoted_field(d: Text, delim: char, p: int, f: Text, st: Scan)
    requires
        !st.quoted,
        st.field.len() == 0,
        stands_at(d, p, quoted_field(f)),
        p + quoted_field(f).len() < d.len() ==> d[p + quoted_field(f).len()] != '"',
    ensures
        scan(d, delim, p, st) == scan(
            d,
            delim,
            p + quoted_field(f).len(),
            Scan { field: f, quoted: false, line: st.line + line_feeds(f), ..st },
        ),
{
    let inner = doubled_quotes(f);
    lemma_stands_at_split(d, p, seq!['"'] + inner, seq!['"']);
    lemma_stands_at_split(d, p, seq!['"'], inner);
    assert(seq!['"'][0] == d[p]);
    let e = p + 1 + inner.len();
    assert(seq!['"'][0] == d[e]);
    assert(scan(d, delim, p, st) == scan(d, delim, p + 1, Scan { quoted: true, ..st }));
    lemma_scan_doubled(d, delim, p + 1, f, Scan { quoted: true, ..st });
    assert(st.field + f =~= f);
    let opened = Scan { quoted: true, field: f, line: st.line + line_feeds(f), ..st };
    assert(scan(d, delim, e, opened) == scan(d, delim, e + 1, Scan { quoted: false, ..opened }));
}

/// A record with every field quoted, and its line feed, reads as that
/// record added to the records, whatever the fields hold.
proof fn lemma_scan_quoted_record(d: Text, delim: char, p: int, r: Record, st: Scan)
    requires
        delim != '"',
        delim != '\n',
        r.len() >= 1,
        !st.quoted,
        st.field.len() == 0,
        stands_at(d, p, quoted_fields(r, delim) + seq!['\n']),
    ensures
        scan(d, delim, p, st) == scan(
            d,
            delim,
            p + quoted_fields(r, delim).len() + 1,
            Scan {
                records: st.records.push(st.record + r),
                record: Seq::empty(),
                field: Seq::empty(),
                quoted: false,
                line: st.line + record_lines(r),
            },
        ),
    decreases r.len(),
{
    let f = r[0];
    let qf = quoted_field(f);
    let q = p + qf.len();
    if r.len() == 1 {
        lemma_stands_at_split(d, p, qf, seq!['\n']);
        assert(seq!['\n'][0] == d[q]);
        lemma_scan_quoted_field(d, delim, p, f, st);
        let after = Scan { field: f, quoted: false, line: st.line + line_feeds(f), ..st };
        assert(scan(d, delim, q, after) == scan(d, delim, q + 1, end_record(after)));
        assert(st.record.push(f) =~= st.record + r);
    } else {
        let rest = r.drop_first();
        let tail = quoted_fields(rest, delim) + seq!['\n'];
        assert(quoted_fields(r, delim) + seq!['\n'] =~= qf + (seq![delim] + tail));
        lemma_stands_at_split(d, p, qf, seq![delim] + tail);
        lemma_stands_at_split(d, q, seq![delim], tail);
        assert(seq![delim][0] == d[q]);
        lemma_scan_quoted_field(d, delim, p, f, st);
        let after = Scan { field: f, quoted: false, line: st.line + line_feeds(f), ..st };
        let next = Scan { record: st.record.push(f), field: Seq::empty(), ..after };
        assert(scan(d, delim, q, after) == scan(d, delim, q + 1, next));
        lemma_scan_quoted_record(d, delim, q + 1, rest, next);
        assert(st.record.push(f) + rest =~= st.record + r);
    }
}

/// A document with every field quoted reads as its records.
proof fn lemma_scan_quoted_document(d: Text, delim: char, p: int, recs: Seq<Record>, st: Scan)
    requires
        delim != '"',
        delim != '\n',
        forall|i: int| 0 <= i < recs.len() ==> #[trigger] recs[i].len() >= 1,
        !st.quoted,
        st.field.len() == 0,
        st.record.len() == 0,
        stands_at(d, p, quoted_document(recs, delim)),
    ensures
        scan(d, delim, p, st) == scan(
            d,
            delim,
            p + quoted_document(recs, delim).len(),
            Scan {
                records: st.records + recs,
                record: Seq::empty(),
                field: Seq::empty(),
                quoted: false,
                line: st.line + document_lines(recs),
            },
        ),
    decreases recs.len(),
{
    if recs.len() == 0 {
        assert(st.records + recs =~= st.records);
        assert(st.field =~= Seq::<char>::empty());
        assert(st.record =~= Seq::<Text>::empty());
    } else {
        let r = recs[0];
        let rest = recs.drop_first();
        let head = quoted_fields(r, delim) + seq!['\n'];
        assert(quoted_document(recs, delim) =~= head + quoted_document(rest, delim));
        lemma_stands_at_split(d, p, head, quoted_document(rest, delim));
        lemma_scan_quoted_record(d, delim, p, r, st);
        assert(st.record + r =~= r);
        let next = Scan {
            records: st.records.push(r),
            record: Seq::empty(),
            field: Seq::empty(),
            quoted: false,
            line: st.line + record_lines(r),
        };
        assert forall|i: int| 0 <= i < rest.len() implies #[trigger] rest[i].len() >= 1 by {
            assert(rest[i] == recs[i + 1]);
        }
        lemma_scan_quoted_document(d, delim, p + head.len(), rest, next);
        assert(st.records.push(r) + rest =~= st.records + recs);
    }
}

/// Writing every field in quotes, quotes inside doubled, and reading the
/// document back gives the records again, whatever delimiters, quotes, line
/// breaks or byte-order marks the fields hold. Every record needs a field,
/// and the last may not be a blank line, which reads as no record at all;
/// the delimiter may be neither a quote nor a line feed.
pub proof fn law_quoting_every_field_reads_back(recs: Seq<Record>, delim: char)
    requires
        delim != '"',
        delim != '\n',
        recs.len() >= 1,
        forall|i: int| 0 <= i < recs.len() ==> #[trigger] recs[i].len() >= 1,
        !is_blank(recs.last()),
    ensures
        csv_records(quoted_document(recs, delim), delim) == Ok::<Seq<Record>, Text>(recs),
{
    let d = quoted_document(recs, delim);
    assert forall|j: int| 0 <= j < d.len() implies #[trigger] d[j] == d[0 + j] by {}
    lemma_scan_quoted_document(d, delim, 0, recs, scan_start());
    let head = quoted_fields(recs[0], delim);
    assert(d =~= (head + seq!['\n']) + quoted_document(recs.drop_first(), delim));
    assert(head =~= quoted_field(recs[0][0]) + head.skip(quoted_field(recs[0][0]).len() as int));
    assert(d[0] == '"');
    assert(body_start(d) == 0);
    assert(scan_start().records + recs =~= recs);
    let fin = Scan {
        records: recs,
        record: Seq::empty(),
        field: Seq::empty(),
        quoted: false,
        line: 1 + document_lines(recs),
    };
    assert(drop_blank_tail(recs) == recs);
    assert(finish(fin) == recs);
}

} // verus!
