//! Comparing two tables.
//!
//! The comparison is keyed, not positional: rows are matched on their key
//! columns, so a row that only moved is unchanged and only a row whose fields
//! differ is reported as changed.
use vstd::prelude::*;
use crate::csv::{Table, TableModel, Text, Record, position, lemma_position, field_at};
use crate::order::{key_lt, strictly_sorted};
use crate::keyed::{
    key_of, count_key, last_with_key, keys_of, repeated_keys, indices_view, Entry, entry_keys,
    index_of_rows, lemma_last_with_key,
};
use crate::order::{
    Order, compare_key, chars_view, lemma_key_lt_transitive, lemma_key_lt_irreflexive, lemma_sorted_distinct,
};

verus! {

/// A row's identity: one field per key column, in the order they were named.
///
/// Held as a vector rather than a joined string: joining on a separator makes
/// ("a,b", "c") and ("a", "b,c") the same key, and any separator can appear in
/// data.
pub type Key = Vec<String>;

/// One changed field: column, value before, value after.
pub type FieldChange = (Text, Text, Text);

/// A row present in both tables whose compared fields differ.
#[derive(Debug)]
pub struct Change {
    pub key: Key,
    /// Column, before, after.
    pub fields: Vec<(String, String, String)>,
}

pub struct ChangeModel {
    pub key: Record,
    pub fields: Seq<FieldChange>,
}

/// The characters of each string.
pub open spec fn texts(v: Seq<String>) -> Seq<Text> {
    Seq::new(v.len(), |i: int| v[i]@)
}

/// The characters of each part of each field change.
pub open spec fn field_changes_view(v: Seq<(String, String, String)>) -> Seq<FieldChange> {
    Seq::new(v.len(), |i: int| (v[i].0@, v[i].1@, v[i].2@))
}

impl View for Change {
    type V = ChangeModel;

    open spec fn view(&self) -> ChangeModel {
        ChangeModel { key: texts(self.key@), fields: field_changes_view(self.fields@) }
    }
}

/// What changed between two tables.
#[derive(Debug)]
pub struct Report {
    pub added_columns: Vec<String>,
    pub removed_columns: Vec<String>,
    pub reordered: bool,
    pub added_rows: Vec<Key>,
    pub removed_rows: Vec<Key>,
    pub changed: Vec<Change>,
    pub duplicate_keys: Vec<Key>,
    pub unchanged: usize,
}

pub struct ReportModel {
    pub added_columns: Seq<Text>,
    pub removed_columns: Seq<Text>,
    pub reordered: bool,
    pub added_rows: Seq<Record>,
    pub removed_rows: Seq<Record>,
    pub changed: Seq<ChangeModel>,
    pub duplicate_keys: Seq<Record>,
    pub unchanged: nat,
}

/// The characters of each key.
pub open spec fn keys_view(v: Seq<Key>) -> Seq<Record> {
    Seq::new(v.len(), |i: int| texts(v[i]@))
}

impl View for Report {
    type V = ReportModel;

    open spec fn view(&self) -> ReportModel {
        ReportModel {
            added_columns: texts(self.added_columns@),
            removed_columns: texts(self.removed_columns@),
            reordered: self.reordered,
            added_rows: keys_view(self.added_rows@),
            removed_rows: keys_view(self.removed_rows@),
            changed: Seq::new(self.changed@.len(), |i: int| self.changed@[i]@),
            duplicate_keys: keys_view(self.duplicate_keys@),
            unchanged: self.unchanged as nat,
        }
    }
}

/// Whether anything at all differs: a column added, removed or moved, or a
/// row added, removed or changed. Duplicate keys alone are not a difference.
pub open spec fn differs(r: ReportModel) -> bool {
    r.added_columns.len() > 0 || r.removed_columns.len() > 0 || r.reordered
        || r.added_rows.len() > 0 || r.removed_rows.len() > 0 || r.changed.len() > 0
}

impl Report {
    /// Whether anything at all differs. Drives the exit code, so a script can
    /// branch on "did this dataset move" without parsing the output.
    pub fn any(&self) -> (r: bool)
        ensures
            r == differs(self@),
    {
        self.added_columns.len() > 0 || self.removed_columns.len() > 0 || self.reordered
            || self.added_rows.len() > 0 || self.removed_rows.len() > 0 || self.changed.len() > 0
    }
}

/// `items` joined with `sep` between consecutive items.
pub open spec fn join(items: Seq<Text>, sep: Text) -> Text
    decreases items.len(),
{
    if items.len() == 0 {
        Seq::empty()
    } else if items.len() == 1 {
        items[0]
    } else {
        join(items.drop_last(), sep) + sep + items.last()
    }
}

/// Append `items` joined with `sep` to `out`.
pub fn push_joined(out: &mut String, items: &[String], sep: &str)
    ensures
        final(out)@ == old(out)@ + join(texts(items@), sep@),
{
    let ghost start = out@;
    let mut i: usize = 0;
    while i < items.len()
        invariant
            i <= items.len(),
            out@ == start + join(texts(items@).take(i as int), sep@),
        decreases items.len() - i,
    {
        proof {
            let t = texts(items@);
            assert(t.take(i + 1).drop_last() =~= t.take(i as int));
            assert(t.take(i + 1).last() == items@[i as int]@);
            if i == 0 {
                assert(t.take(0) =~= Seq::<Text>::empty());
                assert(t.take(1) =~= seq![items@[0]@]);
            }
        }
        if i > 0 {
            out.append(sep);
        }
        out.append(items[i].as_str());
        i += 1;
    }
    proof {
        assert(texts(items@).take(items@.len() as int) =~= texts(items@));
    }
}

/// Render a key for output: its parts joined with " · ". Single keys print
/// bare.
pub fn show_key(k: &[String]) -> (r: String)
    ensures
        r@ == join(texts(k@), " · "@),
{
    let mut out = String::new();
    push_joined(&mut out, k, " · ");
    out
}

/// A header for an error message: its names joined with ", ", or "none".
pub open spec fn list_text(cols: Seq<Text>) -> Text {
    if cols.len() == 0 {
        "none"@
    } else {
        join(cols, ", "@)
    }
}

fn list(cols: &[String]) -> (r: String)
    ensures
        r@ == list_text(texts(cols@)),
{
    if cols.len() == 0 {
        "none".to_owned()
    } else {
        let mut out = String::new();
        push_joined(&mut out, cols, ", ");
        out
    }
}

/// Index of the first string in `names` equal to `name`.
pub fn find(names: &[String], name: &String) -> (r: Option<usize>)
    ensures
        match r {
            Some(i) => position(texts(names@), name@) == Some(i as int),
            None => position(texts(names@), name@) is None,
        },
{
    let ghost t = texts(names@);
    proof { lemma_position(t, name@); }
    let mut i: usize = 0;
    while i < names.len()
        invariant
            i <= names.len(),
            t == texts(names@),
            forall|j: int| 0 <= j < i ==> t[j] != name@,
        decreases names.len() - i,
    {
        if names[i] == *name {
            proof { crate::csv::lemma_position_is_first(t, name@, i as int); }
            return Some(i);
        }
        i += 1;
    }
    None
}

/// Whether `name` is one of `names`.
pub fn contains(names: &[String], name: &String) -> (r: bool)
    ensures
        r == texts(names@).contains(name@),
{
    proof { lemma_position(texts(names@), name@); }
    let found = find(names, name);
    match found {
        Some(i) => {
            proof { assert(texts(names@)[i as int] == name@); }
            true
        },
        None => false,
    }
}

/// The names of `from` that `other` does not have, in the order of `from`.
pub open spec fn missing_from(from: Seq<Text>, other: Seq<Text>) -> Seq<Text>
    decreases from.len(),
{
    if from.len() == 0 {
        Seq::empty()
    } else if other.contains(from.last()) {
        missing_from(from.drop_last(), other)
    } else {
        missing_from(from.drop_last(), other).push(from.last())
    }
}

fn missing_columns(from: &Vec<String>, other: &Vec<String>) -> (r: Vec<String>)
    ensures
        texts(r@) == missing_from(texts(from@), texts(other@)),
{
    let mut r: Vec<String> = Vec::new();
    let mut i: usize = 0;
    while i < from.len()
        invariant
            i <= from.len(),
            texts(r@) == missing_from(texts(from@).take(i as int), texts(other@)),
        decreases from.len() - i,
    {
        proof {
            let t = texts(from@);
            assert(t.take(i + 1).drop_last() =~= t.take(i as int));
            assert(t.take(i + 1).last() == from@[i as int]@);
        }
        if !contains(other.as_slice(), &from[i]) {
            let ghost old_r = r@;
            r.push(from[i].clone());
            proof { assert(texts(r@) =~= texts(old_r).push(from@[i as int]@)); }
        }
        i += 1;
    }
    proof { assert(texts(from@).take(from@.len() as int) =~= texts(from@)); }
    r
}

/// Whether two lists of names are the same names in the same order.
fn same_names(a: &Vec<String>, b: &Vec<String>) -> (r: bool)
    ensures
        r == (texts(a@) == texts(b@)),
{
    if a.len() != b.len() {
        proof { assert(texts(a@).len() != texts(b@).len()); }
        return false;
    }
    let mut i: usize = 0;
    while i < a.len()
        invariant
            i <= a.len(),
            a.len() == b.len(),
            forall|j: int| 0 <= j < i ==> a@[j]@ == b@[j]@,
        decreases a.len() - i,
    {
        if a[i] != b[i] {
            proof { assert(texts(a@)[i as int] != texts(b@)[i as int]); }
            return false;
        }
        i += 1;
    }
    proof { assert(texts(a@) =~= texts(b@)); }
    true
}

/// Each key column resolved to the first header position with its name; -1
/// for a name the header does not have.
pub open spec fn key_columns(header: Seq<Text>, keys: Seq<Text>) -> Seq<int> {
    Seq::new(
        keys.len(),
        |j: int|
            match position(header, keys[j]) {
                Some(i) => i,
                None => -1,
            },
    )
}

/// The header has every key column.
pub open spec fn has_columns(header: Seq<Text>, keys: Seq<Text>) -> bool {
    forall|j: int| 0 <= j < keys.len() ==> #[trigger] position(header, keys[j]) is Some
}

/// Index of the first key column the header lacks.
pub open spec fn first_missing(header: Seq<Text>, keys: Seq<Text>) -> int
    decreases keys.len(),
{
    if keys.len() == 0 || position(header, keys[0]) is None {
        0
    } else {
        1 + first_missing(header, keys.drop_first())
    }
}

/// How a string is written by Rust's `Debug` formatting: quoted, with escapes.
pub uninterp spec fn debug_text(s: Seq<char>) -> Seq<char>;

/// `format!("{:?}", s)`: the string quoted and escaped the way `Debug` writes it.
#[verifier::external_body]
pub(crate) fn debug_quoted(s: &String) -> (r: String)
    ensures
        r@ == debug_text(s@),
{
    format!("{:?}", s)
}

/// The refusal of a key column that one file does not have; it names the
/// file and lists what the file has instead.
pub open spec fn missing_column_message(k: Text, which: Text, header: Seq<Text>) -> Text {
    "no column "@ + debug_text(k) + " in the "@ + which + " file; it has "@ + list_text(header)
}

pub proof fn lemma_first_missing(header: Seq<Text>, keys: Seq<Text>)
    ensures
        0 <= first_missing(header, keys) <= keys.len(),
        forall|j: int|
            0 <= j < first_missing(header, keys) ==> #[trigger] position(header, keys[j]) is Some,
        first_missing(header, keys) < keys.len() ==> position(
            header,
            keys[first_missing(header, keys)],
        ) is None,
        has_columns(header, keys) <==> first_missing(header, keys) == keys.len(),
    decreases keys.len(),
{
    if keys.len() > 0 && position(header, keys[0]) is Some {
        lemma_first_missing(header, keys.drop_first());
        assert forall|j: int|
            0 <= j < first_missing(header, keys) implies #[trigger] position(header, keys[j]) is Some by {
            if j > 0 {
                assert(keys[j] == keys.drop_first()[j - 1]);
            }
        }
        if first_missing(header, keys) < keys.len() {
            assert(keys[first_missing(header, keys)] == keys.drop_first()[first_missing(
                header,
                keys.drop_first(),
            )]);
        }
        if has_columns(header, keys) {
            assert forall|j: int|
                0 <= j < keys.drop_first().len() implies #[trigger] position(
                header,
                keys.drop_first()[j],
            ) is Some by {
                assert(keys.drop_first()[j] == keys[j + 1]);
            }
        }
    }
}

/// Resolve key column names to indices in one table, naming the file in the
/// error so a typo says which side it could not be found on.
pub fn key_indices(t: &Table, keys: &[String], which: &str) -> (r: Result<Vec<usize>, String>)
    ensures
        match r {
            Ok(v) => has_columns(t@.header, texts(keys@)) && indices_view(v@) == key_columns(
                t@.header,
                texts(keys@),
            ),
            Err(e) => !has_columns(t@.header, texts(keys@)) && e@ == missing_column_message(
                texts(keys@)[first_missing(t@.header, texts(keys@))],
                which@,
                t@.header,
            ),
        },
{
    let ghost ks = texts(keys@);
    proof {
        lemma_first_missing(t@.header, ks);
        assert(t@.header =~= texts(t.header@));
    }
    let mut v: Vec<usize> = Vec::new();
    let mut j: usize = 0;
    while j < keys.len()
        invariant
            j <= keys.len(),
            ks == texts(keys@),
            t@.header == texts(t.header@),
            v@.len() == j,
            forall|m: int| 0 <= m < j ==> position(t@.header, ks[m]) == Some(#[trigger] v@[m] as int),
        decreases keys.len() - j,
    {
        match find(t.header.as_slice(), &keys[j]) {
            Some(i) => {
                v.push(i);
            },
            None => {
                proof {
                    assert forall|m: int| 0 <= m < j implies #[trigger] position(t@.header, ks[m]) is Some by {
                        assert(position(t@.header, ks[m]) == Some(v@[m] as int));
                    }
                    lemma_first_missing_at(t@.header, ks, j as int);
                }
                let mut msg = "no column ".to_owned();
                let shown = debug_quoted(&keys[j]);
                msg.append(shown.as_str());
                msg.append(" in the ");
                msg.append(which);
                msg.append(" file; it has ");
                let names = list(t.header.as_slice());
                msg.append(names.as_str());
                return Err(msg);
            },
        }
        j += 1;
    }
    proof {
        assert(indices_view(v@) =~= key_columns(t@.header, ks));
        assert forall|m: int| 0 <= m < ks.len() implies #[trigger] position(t@.header, ks[m]) is Some by {
            assert(position(t@.header, ks[m]) == Some(v@[m] as int));
        }
    }
    Ok(v)
}

/// The first missing key column is the first one not found.
pub proof fn lemma_first_missing_at(header: Seq<Text>, keys: Seq<Text>, j: int)
    requires
        0 <= j < keys.len(),
        forall|m: int| 0 <= m < j ==> #[trigger] position(header, keys[m]) is Some,
        position(header, keys[j]) is None,
    ensures
        first_missing(header, keys) == j,
    decreases j,
{
    if j > 0 {
        assert forall|m: int| 0 <= m < j - 1 implies #[trigger] position(
            header,
            keys.drop_first()[m],
        ) is Some by {
            assert(keys.drop_first()[m] == keys[m + 1]);
        }
        assert(position(header, keys[0]) is Some);
        lemma_first_missing_at(header, keys.drop_first(), j - 1);
    }
}

/// The columns both tables have and that are not ignored, in the order of
/// the first table. Only these are compared: a column on one side only is a
/// schema change, reported once, and an ignored column is never compared.
pub open spec fn shared_columns(bh: Seq<Text>, ah: Seq<Text>, ignore: Seq<Text>) -> Seq<Text>
    decreases bh.len(),
{
    if bh.len() == 0 {
        Seq::empty()
    } else if ah.contains(bh.last()) && !ignore.contains(bh.last()) {
        shared_columns(bh.drop_last(), ah, ignore).push(bh.last())
    } else {
        shared_columns(bh.drop_last(), ah, ignore)
    }
}

/// The value of column `c` in `row`, read at the first header position with
/// that name.
pub open spec fn cell(header: Seq<Text>, row: Record, c: Text) -> Text {
    match position(header, c) {
        Some(i) => field_at(row, i),
        None => Seq::empty(),
    }
}

/// The fields of two rows that differ, over `cols`, in column order.
pub open spec fn row_changes(
    cols: Seq<Text>,
    bh: Seq<Text>,
    brow: Record,
    ah: Seq<Text>,
    arow: Record,
) -> Seq<FieldChange>
    decreases cols.len(),
{
    if cols.len() == 0 {
        Seq::empty()
    } else {
        let rest = row_changes(cols.drop_last(), bh, brow, ah, arow);
        let c = cols.last();
        let b = cell(bh, brow, c);
        let a = cell(ah, arow, c);
        if b == a {
            rest
        } else {
            rest.push((c, b, a))
        }
    }
}

/// The fields that differ for key `k`, comparing the last row with that key
/// on each side.
pub open spec fn changes_for(
    b: TableModel,
    a: TableModel,
    keys: Seq<Text>,
    ignore: Seq<Text>,
    k: Record,
) -> Seq<FieldChange> {
    let bk = key_columns(b.header, keys);
    let ak = key_columns(a.header, keys);
    row_changes(
        shared_columns(b.header, a.header, ignore),
        b.header,
        b.rows[last_with_key(b.rows, bk, k)],
        a.header,
        a.rows[last_with_key(a.rows, ak, k)],
    )
}

/// The keys of the changes, in order.
pub open spec fn change_keys(changed: Seq<ChangeModel>) -> Seq<Record> {
    Seq::new(changed.len(), |i: int| changed[i].key)
}

/// `r` is the comparison of `b` and `a` on `keys`, leaving out `ignore`.
///
/// Each list of keys is ascending with no key twice, so the sets below fix
/// the lists exactly.
pub open spec fn is_report_of(
    r: ReportModel,
    b: TableModel,
    a: TableModel,
    keys: Seq<Text>,
    ignore: Seq<Text>,
) -> bool {
    let bk = key_columns(b.header, keys);
    let ak = key_columns(a.header, keys);
    let kb = keys_of(b.rows, bk);
    let ka = keys_of(a.rows, ak);
    &&& r.added_columns == missing_from(a.header, b.header)
    &&& r.removed_columns == missing_from(b.header, a.header)
    &&& r.reordered == (r.added_columns.len() == 0 && r.removed_columns.len() == 0 && b.header
        != a.header)
    &&& strictly_sorted(r.removed_rows)
    &&& r.removed_rows.to_set() == Set::new(|k: Record| kb.contains(k) && !ka.contains(k))
    &&& strictly_sorted(r.added_rows)
    &&& r.added_rows.to_set() == Set::new(|k: Record| ka.contains(k) && !kb.contains(k))
    &&& strictly_sorted(change_keys(r.changed))
    &&& change_keys(r.changed).to_set() == Set::new(
        |k: Record|
            kb.contains(k) && ka.contains(k) && changes_for(b, a, keys, ignore, k).len() > 0,
    )
    &&& forall|i: int|
        0 <= i < r.changed.len() ==> #[trigger] r.changed[i].fields == changes_for(
            b,
            a,
            keys,
            ignore,
            r.changed[i].key,
        )
    &&& strictly_sorted(r.duplicate_keys)
    &&& r.duplicate_keys.to_set() == repeated_keys(b.rows, bk).union(repeated_keys(a.rows, ak))
    &&& r.unchanged == Set::new(
        |k: Record|
            kb.contains(k) && ka.contains(k) && changes_for(b, a, keys, ignore, k).len() == 0,
    ).len()
}

/// A column compared between the two tables, with where each table has it.
struct SharedColumn {
    name: String,
    before: usize,
    after: usize,
}

spec fn shared_ok(cols: Seq<SharedColumn>, shared: Seq<Text>, bh: Seq<Text>, ah: Seq<Text>) -> bool {
    &&& cols.len() == shared.len()
    &&& forall|m: int|
        #![trigger cols[m]]
        0 <= m < cols.len() ==> {
            &&& cols[m].name@ == shared[m]
            &&& position(bh, shared[m]) == Some(cols[m].before as int)
            &&& position(ah, shared[m]) == Some(cols[m].after as int)
        }
}

fn shared(before: &Table, after: &Table, ignore: &[String]) -> (cols: Vec<SharedColumn>)
    ensures
        shared_ok(
            cols@,
            shared_columns(before@.header, after@.header, texts(ignore@)),
            before@.header,
            after@.header,
        ),
{
    let ghost bh = before@.header;
    let ghost ah = after@.header;
    let ghost ig = texts(ignore@);
    proof {
        assert(bh =~= texts(before.header@));
        assert(ah =~= texts(after.header@));
    }
    let mut cols: Vec<SharedColumn> = Vec::new();
    let mut j: usize = 0;
    while j < before.header.len()
        invariant
            j <= before.header.len(),
            bh == texts(before.header@),
            ah == texts(after.header@),
            ig == texts(ignore@),
            bh == before@.header,
            ah == after@.header,
            shared_ok(cols@, shared_columns(bh.take(j as int), ah, ig), bh, ah),
        decreases before.header.len() - j,
    {
        let ghost old_cols = cols@;
        let ghost c = bh[j as int];
        proof {
            assert(bh.take(j + 1).drop_last() =~= bh.take(j as int));
            assert(bh.take(j + 1).last() == c);
            lemma_position(ah, c);
            lemma_position(bh, c);
        }
        let name = &before.header[j];
        match find(after.header.as_slice(), name) {
            Some(ai) => {
                if !contains(ignore, name) {
                    let bi = find(before.header.as_slice(), name);
                    match bi {
                        Some(bi) => {
                            cols.push(SharedColumn { name: name.clone(), before: bi, after: ai });
                            proof {
                                assert(ah.contains(c)) by {
                                    assert(ah[ai as int] == c);
                                }
                            }
                        },
                        None => {
                            proof { assert(bh[j as int] == c); }
                        },
                    }
                } else {
                }
            },
            None => {
                proof {
                    if ah.contains(c) {
                        let w = choose|w: int| 0 <= w < ah.len() && ah[w] == c;
                        assert(ah[w] == c);
                    }
                }
            },
        }
        j += 1;
    }
    proof {
        assert(bh.take(bh.len() as int) =~= bh);
    }
    cols
}

/// The field at `i` of a row, or empty past the end of a short row.
fn cell_value(row: &Vec<String>, i: usize) -> (r: String)
    ensures
        r@ == field_at(texts(row@), i as int),
{
    if i < row.len() {
        row[i].clone()
    } else {
        String::new()
    }
}

/// The fields that differ between two rows, over the shared columns.
fn row_diff(
    cols: &Vec<SharedColumn>,
    brow: &Vec<String>,
    arow: &Vec<String>,
    Ghost(sh): Ghost<Seq<Text>>,
    Ghost(bh): Ghost<Seq<Text>>,
    Ghost(ah): Ghost<Seq<Text>>,
) -> (r: Vec<(String, String, String)>)
    requires
        shared_ok(cols@, sh, bh, ah),
    ensures
        field_changes_view(r@) == row_changes(sh, bh, texts(brow@), ah, texts(arow@)),
{
    let mut out: Vec<(String, String, String)> = Vec::new();
    let mut m: usize = 0;
    proof {
        assert(field_changes_view(out@) =~= Seq::<FieldChange>::empty());
    }
    while m < cols.len()
        invariant
            m <= cols.len(),
            shared_ok(cols@, sh, bh, ah),
            field_changes_view(out@) == row_changes(sh.take(m as int), bh, texts(brow@), ah, texts(arow@)),
        decreases cols.len() - m,
    {
        let col = &cols[m];
        let b = cell_value(brow, col.before);
        let a = cell_value(arow, col.after);
        proof {
            assert(sh.take(m + 1).drop_last() =~= sh.take(m as int));
            assert(sh.take(m + 1).last() == sh[m as int]);
        }
        if b != a {
            let ghost old_out = out@;
            out.push((col.name.clone(), b, a));
            proof {
                assert(field_changes_view(out@) =~= field_changes_view(old_out).push(
                    (sh[m as int], cell(bh, texts(brow@), sh[m as int]), cell(ah, texts(arow@), sh[m as int])),
                ));
            }
        }
        m += 1;
    }
    proof {
        assert(sh.take(cols@.len() as int) =~= sh);
    }
    out
}

/// A copy of a key.
fn clone_key(k: &Vec<String>) -> (r: Vec<String>)
    ensures
        texts(r@) == texts(k@),
{
    let mut r: Vec<String> = Vec::new();
    let mut i: usize = 0;
    while i < k.len()
        invariant
            i <= k.len(),
            r@.len() == i,
            forall|m: int| 0 <= m < i ==> #[trigger] r@[m]@ == k@[m]@,
        decreases k.len() - i,
    {
        r.push(k[i].clone());
        i += 1;
    }
    proof {
        assert(texts(r@) =~= texts(k@));
    }
    r
}

/// The outcome of walking two key indexes side by side.
struct Merged {
    removed: Vec<Key>,
    added: Vec<Key>,
    changed: Vec<Change>,
    dupes: Vec<Key>,
    unchanged: usize,
}

/// Some entry among the first `n` of `idx` has key `x` and is repeated.
spec fn repeated_in(idx: Seq<Entry>, n: int, x: Record) -> bool {
    exists|i: int| 0 <= i < n && #[trigger] texts(idx[i].key@) == x && idx[i].dup
}

/// Every key in `out` sorts before every key of `ks` from `from` on.
spec fn all_below(out: Seq<Record>, ks: Seq<Record>, from: int) -> bool {
    forall|m: int, i: int|
        0 <= m < out.len() && from <= i < ks.len() ==> key_lt(#[trigger] out[m], #[trigger] ks[i])
}

proof fn lemma_take_next(s: Seq<Record>, p: int, x: Record)
    requires
        0 <= p < s.len(),
    ensures
        s.take(p + 1).contains(x) <==> (s.take(p).contains(x) || x == s[p]),
{
    assert(s.take(p + 1) =~= s.take(p).push(s[p]));
    if s.take(p + 1).contains(x) && x != s[p] {
        let w = choose|w: int| 0 <= w < p + 1 && #[trigger] s.take(p + 1)[w] == x;
        assert(s.take(p)[w] == x);
    }
    if s.take(p).contains(x) {
        let w = choose|w: int| 0 <= w < p && #[trigger] s.take(p)[w] == x;
        assert(s.take(p + 1)[w] == x);
    }
    if x == s[p] {
        assert(s.take(p + 1)[p] == x);
    }
}

proof fn lemma_repeated_next(idx: Seq<Entry>, n: int, x: Record)
    requires
        0 <= n < idx.len(),
    ensures
        repeated_in(idx, n + 1, x) <==> (repeated_in(idx, n, x) || (texts(idx[n].key@) == x
            && idx[n].dup)),
{
    if repeated_in(idx, n + 1, x) {
        let i = choose|i: int| 0 <= i < n + 1 && #[trigger] texts(idx[i].key@) == x && idx[i].dup;
        if i < n {
            assert(repeated_in(idx, n, x));
        }
    }
    if texts(idx[n].key@) == x && idx[n].dup {
        assert(repeated_in(idx, n + 1, x));
    }
}

/// A key that sorts before the next unvisited key of a sorted sequence,
/// and after every visited one, is not in the sequence at all.
proof fn lemma_absent(ks: Seq<Record>, q: int, x: Record)
    requires
        strictly_sorted(ks),
        0 <= q <= ks.len(),
        q < ks.len() ==> key_lt(x, ks[q]),
        forall|j: int| 0 <= j < q ==> key_lt(#[trigger] ks[j], x),
    ensures
        !ks.contains(x),
{
    if ks.contains(x) {
        let j = choose|j: int| 0 <= j < ks.len() && ks[j] == x;
        lemma_key_lt_irreflexive(x);
        if j >= q {
            if j > q {
                assert(key_lt(ks[q], ks[j]));
                lemma_key_lt_transitive(x, ks[q], x);
            }
        } else {
            assert(key_lt(ks[j], x));
        }
    }
}

/// The row with key `x` in `t`, by the index entry that holds `x`.
proof fn lemma_entry_row(idx: Seq<Entry>, rows: Seq<Record>, kidx: Seq<int>, p: int)
    requires
        index_of_rows(idx, rows, kidx),
        0 <= p < idx.len(),
    ensures
        0 <= idx[p].row < rows.len(),
        idx[p].row as int == last_with_key(rows, kidx, entry_keys(idx)[p]),
{
    lemma_last_with_key(rows, kidx, texts(idx[p].key@));
}

fn merge(
    before: &Table,
    after: &Table,
    ib: &Vec<Entry>,
    ia: &Vec<Entry>,
    cols: &Vec<SharedColumn>,
    Ghost(keys): Ghost<Seq<Text>>,
    Ghost(ignore): Ghost<Seq<Text>>,
) -> (r: Merged)
    requires
        index_of_rows(ib@, before@.rows, key_columns(before@.header, keys)),
        index_of_rows(ia@, after@.rows, key_columns(after@.header, keys)),
        shared_ok(
            cols@,
            shared_columns(before@.header, after@.header, ignore),
            before@.header,
            after@.header,
        ),
    ensures
        ({
            let kb = entry_keys(ib@);
            let ka = entry_keys(ia@);
            &&& strictly_sorted(keys_view(r.removed@))
            &&& forall|x: Record|
                keys_view(r.removed@).contains(x) <==> (kb.contains(x) && !ka.contains(x))
            &&& strictly_sorted(keys_view(r.added@))
            &&& forall|x: Record|
                keys_view(r.added@).contains(x) <==> (ka.contains(x) && !kb.contains(x))
            &&& strictly_sorted(change_keys(change_models(r.changed@)))
            &&& forall|x: Record|
                change_keys(change_models(r.changed@)).contains(x) <==> (kb.contains(x)
                    && ka.contains(x) && changes_for(before@, after@, keys, ignore, x).len() > 0)
            &&& forall|m: int|
                0 <= m < r.changed@.len() ==> #[trigger] field_changes_view(r.changed@[m].fields@)
                    == changes_for(before@, after@, keys, ignore, texts(r.changed@[m].key@))
            &&& strictly_sorted(keys_view(r.dupes@))
            &&& forall|x: Record|
                keys_view(r.dupes@).contains(x) <==> (repeated_in(ib@, ib@.len() as int, x)
                    || repeated_in(ia@, ia@.len() as int, x))
            &&& r.unchanged == Set::new(
                |x: Record|
                    kb.contains(x) && ka.contains(x) && changes_for(before@, after@, keys, ignore, x).len()
                        == 0,
            ).len()
        }),
{
    let ghost kb = entry_keys(ib@);
    let ghost ka = entry_keys(ia@);
    let ghost bk = key_columns(before@.header, keys);
    let ghost ak = key_columns(after@.header, keys);
    let ghost sh = shared_columns(before@.header, after@.header, ignore);
    let nb = ib.len();
    let na = ia.len();
    let mut removed: Vec<Key> = Vec::new();
    let mut added: Vec<Key> = Vec::new();
    let mut changed: Vec<Change> = Vec::new();
    let mut dupes: Vec<Key> = Vec::new();
    let mut unchanged: usize = 0;
    let ghost mut same: Set<Record> = Set::empty();
    let mut p: usize = 0;
    let mut q: usize = 0;
    proof {
        assert(keys_view(removed@) =~= Seq::<Record>::empty());
        assert(keys_view(added@) =~= Seq::<Record>::empty());
        assert(keys_view(dupes@) =~= Seq::<Record>::empty());
        assert(change_keys(change_models(changed@)) =~= Seq::<Record>::empty());
        assert(kb.take(0) =~= Seq::<Record>::empty());
        assert(ka.take(0) =~= Seq::<Record>::empty());
    }
    while p < nb || q < na
        invariant
            nb == ib@.len(),
            na == ia@.len(),
            kb == entry_keys(ib@),
            ka == entry_keys(ia@),
            bk == key_columns(before@.header, keys),
            ak == key_columns(after@.header, keys),
            sh == shared_columns(before@.header, after@.header, ignore),
            index_of_rows(ib@, before@.rows, bk),
            index_of_rows(ia@, after@.rows, ak),
            shared_ok(cols@, sh, before@.header, after@.header),
            p <= nb,
            q <= na,
            forall|i: int, j: int| 0 <= i < p && q <= j < na ==> key_lt(#[trigger] kb[i], #[trigger] ka[j]),
            forall|i: int, j: int| 0 <= j < q && p <= i < nb ==> key_lt(#[trigger] ka[j], #[trigger] kb[i]),
            strictly_sorted(keys_view(removed@)),
            all_below(keys_view(removed@), kb, p as int),
            all_below(keys_view(removed@), ka, q as int),
            forall|x: Record|
                #![trigger keys_view(removed@).contains(x)]
                #![trigger kb.take(p as int).contains(x)]
                keys_view(removed@).contains(x) <==> (kb.take(p as int).contains(x) && !ka.contains(x)),
            strictly_sorted(keys_view(added@)),
            all_below(keys_view(added@), kb, p as int),
            all_below(keys_view(added@), ka, q as int),
            forall|x: Record|
                #![trigger keys_view(added@).contains(x)]
                #![trigger ka.take(q as int).contains(x)]
                keys_view(added@).contains(x) <==> (ka.take(q as int).contains(x) && !kb.contains(x)),
            strictly_sorted(change_keys(change_models(changed@))),
            all_below(change_keys(change_models(changed@)), kb, p as int),
            all_below(change_keys(change_models(changed@)), ka, q as int),
            forall|x: Record|
                #![trigger change_keys(change_models(changed@)).contains(x)]
                #![trigger kb.take(p as int).contains(x)]
                change_keys(change_models(changed@)).contains(x) <==> (kb.take(p as int).contains(x)
                    && ka.contains(x) && changes_for(before@, after@, keys, ignore, x).len() > 0),
            forall|m: int|
                0 <= m < changed@.len() ==> #[trigger] field_changes_view(changed@[m].fields@)
                    == changes_for(before@, after@, keys, ignore, texts(changed@[m].key@)),
            strictly_sorted(keys_view(dupes@)),
            all_below(keys_view(dupes@), kb, p as int),
            all_below(keys_view(dupes@), ka, q as int),
            forall|x: Record|
                #![trigger keys_view(dupes@).contains(x)]
                #![trigger repeated_in(ib@, p as int, x)]
                #![trigger repeated_in(ia@, q as int, x)]
                keys_view(dupes@).contains(x) <==> (repeated_in(ib@, p as int, x) || repeated_in(
                    ia@,
                    q as int,
                    x,
                )),
            same.finite(),
            unchanged as nat == same.len(),
            unchanged <= p,
            forall|x: Record|
                #![trigger same.contains(x)]
                #![trigger kb.take(p as int).contains(x)]
                same.contains(x) <==> (kb.take(p as int).contains(x) && ka.contains(x)
                    && changes_for(before@, after@, keys, ignore, x).len() == 0),
        decreases nb - p + na - q,
    {
        let step = if p == nb {
            Order::Greater
        } else if q == na {
            Order::Less
        } else {
            compare_key(&ib[p].chars, &ia[q].chars)
        };
        proof {
            if p < nb {
                assert(chars_view(ib@[p as int].chars@) == kb[p as int]);
            }
            if q < na {
                assert(chars_view(ia@[q as int].chars@) == ka[q as int]);
            }
        }
        match step {
            Order::Less => {
                // A key only the first table has: a removed row.
                let ghost x = kb[p as int];
                proof {
                    lemma_absent(ka, q as int, x);
                    lemma_take_next(kb, p as int, x);
                    lemma_below_rest(ka, q as int, x);
                    lemma_below_rest(kb, p as int + 1, x);
                    assert forall|y: Record| kb.take(p + 1).contains(y) <==> (kb.take(p as int).contains(y) || y == x) by {
                        lemma_take_next(kb, p as int, y);
                    }
                    assert forall|y: Record| repeated_in(ib@, p + 1, y) <==> (repeated_in(ib@, p as int, y) || (y == x && ib@[p as int].dup)) by {
                        lemma_repeated_next(ib@, p as int, y);
                    }
                }
                let k = clone_key(&ib[p].key);
                let ghost old_removed = keys_view(removed@);
                removed.push(k);
                proof {
                    assert(keys_view(removed@) =~= old_removed.push(x));
                    lemma_push_contains(old_removed, x);
                    lemma_push_sorted(old_removed, x, kb, p as int, ka, q as int);
                }
                if ib[p].dup {
                    let ghost old_dupes = keys_view(dupes@);
                    dupes.push(clone_key(&ib[p].key));
                    proof {
                        assert(keys_view(dupes@) =~= old_dupes.push(x));
                        lemma_push_contains(old_dupes, x);
                        lemma_push_sorted(old_dupes, x, kb, p as int, ka, q as int);
                    }
                } else {
                    proof { lemma_below_shrink(keys_view(dupes@), kb, p as int); }
                }
                proof {
                    lemma_below_shrink(keys_view(added@), kb, p as int);
                    lemma_below_shrink(change_keys(change_models(changed@)), kb, p as int);
                }
                p += 1;
            },
            Order::Greater => {
                // A key only the second table has: an added row.
                let ghost x = ka[q as int];
                proof {
                    lemma_absent(kb, p as int, x);
                    lemma_below_rest(kb, p as int, x);
                    lemma_below_rest(ka, q as int + 1, x);
                    assert forall|y: Record| ka.take(q + 1).contains(y) <==> (ka.take(q as int).contains(y) || y == x) by {
                        lemma_take_next(ka, q as int, y);
                    }
                    assert forall|y: Record| repeated_in(ia@, q + 1, y) <==> (repeated_in(ia@, q as int, y) || (y == x && ia@[q as int].dup)) by {
                        lemma_repeated_next(ia@, q as int, y);
                    }
                }
                let k = clone_key(&ia[q].key);
                let ghost old_added = keys_view(added@);
                added.push(k);
                proof {
                    assert(keys_view(added@) =~= old_added.push(x));
                    lemma_push_contains(old_added, x);
                    lemma_push_sorted(old_added, x, ka, q as int, kb, p as int);
                }
                if ia[q].dup {
                    let ghost old_dupes = keys_view(dupes@);
                    dupes.push(clone_key(&ia[q].key));
                    proof {
                        assert(keys_view(dupes@) =~= old_dupes.push(x));
                        lemma_push_contains(old_dupes, x);
                        lemma_push_sorted(old_dupes, x, ka, q as int, kb, p as int);
                    }
                } else {
                    proof { lemma_below_shrink(keys_view(dupes@), ka, q as int); }
                }
                proof {
                    lemma_below_shrink(change_keys(change_models(changed@)), ka, q as int);
                    lemma_below_shrink(keys_view(removed@), ka, q as int);
                }
                q += 1;
            },
            Order::Equal => {
                // A key both tables have: compare the rows.
                let ghost x = kb[p as int];
                proof {
                    assert(x == ka[q as int]);
                    lemma_below_rest(kb, p as int + 1, x);
                    lemma_below_rest(ka, q as int + 1, x);
                    assert(ka.contains(x));
                    assert(kb.contains(x));
                    assert forall|y: Record| kb.take(p + 1).contains(y) <==> (kb.take(p as int).contains(y) || y == x) by {
                        lemma_take_next(kb, p as int, y);
                    }
                    assert forall|y: Record| ka.take(q + 1).contains(y) <==> (ka.take(q as int).contains(y) || y == x) by {
                        lemma_take_next(ka, q as int, y);
                    }
                    assert forall|y: Record| repeated_in(ib@, p + 1, y) <==> (repeated_in(ib@, p as int, y) || (y == x && ib@[p as int].dup)) by {
                        lemma_repeated_next(ib@, p as int, y);
                    }
                    assert forall|y: Record| repeated_in(ia@, q + 1, y) <==> (repeated_in(ia@, q as int, y) || (y == x && ia@[q as int].dup)) by {
                        lemma_repeated_next(ia@, q as int, y);
                    }
                    lemma_entry_row(ib@, before@.rows, bk, p as int);
                    lemma_entry_row(ia@, after@.rows, ak, q as int);
                    assert(!kb.take(p as int).contains(x)) by {
                        if kb.take(p as int).contains(x) {
                            let w = choose|w: int| 0 <= w < p && #[trigger] kb.take(p as int)[w] == x;
                            lemma_sorted_distinct(kb, w, p as int);
                        }
                    }
                }
                let brow = &before.rows[ib[p].row];
                let arow = &after.rows[ia[q].row];
                let fields = row_diff(
                    cols,
                    brow,
                    arow,
                    Ghost(sh),
                    Ghost(before@.header),
                    Ghost(after@.header),
                );
                proof {
                    assert(before@.rows[ib@[p as int].row as int] =~= texts(brow@));
                    assert(after@.rows[ia@[q as int].row as int] =~= texts(arow@));
                    assert(field_changes_view(fields@) == changes_for(before@, after@, keys, ignore, x));
                }
                if fields.len() == 0 {
                    proof {
                        lemma_below_shrink(change_keys(change_models(changed@)), kb, p as int);
                        lemma_below_shrink(change_keys(change_models(changed@)), ka, q as int);
                        assert(changes_for(before@, after@, keys, ignore, x).len() == 0);
                        vstd::set::axiom_set_insert_len(same, x);
                        vstd::set::axiom_set_insert_finite(same, x);
                        same = same.insert(x);
                    }
                    unchanged += 1;
                } else {
                    let k = clone_key(&ib[p].key);
                    let ghost old_changed = change_keys(change_models(changed@));
                    changed.push(Change { key: k, fields });
                    proof {
                        assert(change_keys(change_models(changed@)) =~= old_changed.push(x));
                        lemma_push_contains(old_changed, x);
                        lemma_push_sorted(old_changed, x, kb, p as int, ka, q as int);
                        lemma_push_other(old_changed.push(x), x, ka, q as int);
                    }
                }
                if ib[p].dup || ia[q].dup {
                    let ghost old_dupes = keys_view(dupes@);
                    dupes.push(clone_key(&ib[p].key));
                    proof {
                        assert(keys_view(dupes@) =~= old_dupes.push(x));
                        lemma_push_contains(old_dupes, x);
                        lemma_push_sorted(old_dupes, x, kb, p as int, ka, q as int);
                        lemma_push_other(old_dupes.push(x), x, ka, q as int);
                    }
                } else {
                    proof {
                        lemma_below_shrink(keys_view(dupes@), kb, p as int);
                        lemma_below_shrink(keys_view(dupes@), ka, q as int);
                    }
                }
                proof {
                    lemma_below_shrink(keys_view(added@), kb, p as int);
                    lemma_below_shrink(keys_view(removed@), kb, p as int);
                    lemma_below_shrink(keys_view(added@), ka, q as int);
                    lemma_below_shrink(keys_view(removed@), ka, q as int);
                    assert forall|y: Record|
                        keys_view(removed@).contains(y) <==> (kb.take(p + 1).contains(y) && !ka.contains(y)) by {
                        lemma_take_next(kb, p as int, y);
                        if y == x {
                            assert(ka.contains(y));
                        }
                    }
                    assert forall|y: Record|
                        keys_view(added@).contains(y) <==> (ka.take(q + 1).contains(y) && !kb.contains(y)) by {
                        lemma_take_next(ka, q as int, y);
                        if y == x {
                            assert(kb.contains(y));
                        }
                    }
                }
                p += 1;
                q += 1;
            },
        }
    }
    proof {
        assert(kb.take(nb as int) =~= kb);
        assert(ka.take(na as int) =~= ka);
        assert(same =~= Set::new(
            |x: Record|
                kb.contains(x) && ka.contains(x) && changes_for(before@, after@, keys, ignore, x).len()
                    == 0,
        ));
    }
    Merged { removed, added, changed, dupes, unchanged }
}

/// After `x`, which sorts before every key of `ks` from `i` on, the keys from
/// `i + 1` on still sort after it.
proof fn lemma_below_rest(ks: Seq<Record>, i: int, x: Record)
    requires
        strictly_sorted(ks),
        0 <= i,
        i < ks.len() ==> key_lt(x, ks[i]) || (i > 0 && x == ks[i - 1]),
    ensures
        forall|j: int| i <= j < ks.len() ==> key_lt(x, #[trigger] ks[j]),
{
    assert forall|j: int| i <= j < ks.len() implies key_lt(x, #[trigger] ks[j]) by {
        if x == ks[i - 1] && i > 0 && !key_lt(x, ks[i]) {
            assert(key_lt(ks[i - 1], ks[j]));
        } else if j > i {
            assert(key_lt(ks[i], ks[j]));
            lemma_key_lt_transitive(x, ks[i], ks[j]);
        }
    }
}

/// Pushing the key at `q` of `ks` leaves the output below the keys after it.
proof fn lemma_push_other(o: Seq<Record>, x: Record, ks: Seq<Record>, q: int)
    requires
        strictly_sorted(ks),
        0 <= q < ks.len(),
        ks[q] == x,
        forall|m: int, n: int|
            0 <= m < o.len() && q <= n < ks.len() && ks[n] != x ==> key_lt(#[trigger] o[m], #[trigger] ks[n]),
    ensures
        all_below(o, ks, q + 1),
{
    assert forall|m: int, n: int| 0 <= m < o.len() && q + 1 <= n < ks.len() implies key_lt(#[trigger] o[m], #[trigger] ks[n]) by {
        lemma_sorted_distinct(ks, q, n);
    }
}

proof fn lemma_push_contains(s: Seq<Record>, x: Record)
    ensures
        forall|y: Record| #[trigger] s.push(x).contains(y) <==> (s.contains(y) || y == x),
{
    assert forall|y: Record| s.push(x).contains(y) implies (s.contains(y) || y == x) by {
        let w = choose|w: int| 0 <= w < s.push(x).len() && #[trigger] s.push(x)[w] == y;
        if w < s.len() {
            assert(s[w] == y);
        }
    }
    assert forall|y: Record| s.contains(y) implies s.push(x).contains(y) by {
        let w = choose|w: int| 0 <= w < s.len() && #[trigger] s[w] == y;
        assert(s.push(x)[w] == y);
    }
    assert(s.push(x)[s.len() as int] == x);
}

/// Everything below the keys from `i` on is below the keys from `i + 1` on.
proof fn lemma_below_shrink(out: Seq<Record>, ks: Seq<Record>, i: int)
    requires
        all_below(out, ks, i),
    ensures
        all_below(out, ks, i + 1),
{
}

/// Pushing a key that is above everything already out and below the keys
/// still to come keeps the output sorted and below those keys.
proof fn lemma_push_sorted(out: Seq<Record>, x: Record, ks: Seq<Record>, i: int, other: Seq<Record>, j: int)
    requires
        strictly_sorted(out),
        0 <= i < ks.len(),
        x == ks[i],
        strictly_sorted(ks),
        all_below(out, ks, i),
        all_below(out, other, j),
        forall|m: int| j <= m < other.len() ==> key_lt(x, #[trigger] other[m]) || x == other[m],
    ensures
        strictly_sorted(out.push(x)),
        all_below(out.push(x), ks, i + 1),
        forall|m: int, n: int|
            0 <= m < out.push(x).len() && j <= n < other.len() && other[n] != x ==> key_lt(#[trigger] out.push(x)[m], #[trigger] other[n]),
{
    let o = out.push(x);
    assert forall|a: int, b: int| 0 <= a < b < o.len() implies key_lt(#[trigger] o[a], #[trigger] o[b]) by {
        if b == out.len() {
            assert(key_lt(out[a], ks[i]));
        } else {
            assert(key_lt(out[a], out[b]));
        }
    }
    assert forall|m: int, n: int| 0 <= m < o.len() && i + 1 <= n < ks.len() implies key_lt(#[trigger] o[m], #[trigger] ks[n]) by {
        if m == out.len() {
            assert(key_lt(ks[i], ks[n]));
        } else {
            assert(key_lt(out[m], ks[n]));
        }
    }
    assert forall|m: int, n: int| 0 <= m < o.len() && j <= n < other.len() && other[n] != x implies key_lt(#[trigger] o[m], #[trigger] other[n]) by {
        if m == out.len() {
        } else {
            assert(key_lt(out[m], other[n]));
        }
    }
}

/// The characters of each change.
spec fn change_models(v: Seq<Change>) -> Seq<ChangeModel> {
    Seq::new(v.len(), |i: int| v[i]@)
}

/// The keys an index lists are the table's keys; an entry is marked
/// repeated exactly when more than one row carries its key.
proof fn lemma_index_keys(idx: Seq<Entry>, rows: Seq<Record>, kidx: Seq<int>)
    requires
        index_of_rows(idx, rows, kidx),
    ensures
        forall|x: Record| #[trigger] entry_keys(idx).contains(x) <==> count_key(rows, kidx, x) > 0,
        forall|x: Record| #[trigger] repeated_in(idx, idx.len() as int, x) <==> count_key(rows, kidx, x) >= 2,
{
    assert forall|x: Record| #[trigger] entry_keys(idx).contains(x) implies count_key(rows, kidx, x) > 0 by {
        let p = choose|p: int| 0 <= p < idx.len() && #[trigger] entry_keys(idx)[p] == x;
        assert(idx[p] == idx[p]);
    }
    assert forall|x: Record| count_key(rows, kidx, x) >= 2 implies #[trigger] repeated_in(idx, idx.len() as int, x) by {
        if count_key(rows, kidx, x) >= 2 {
            assert(entry_keys(idx).contains(x));
            let p = choose|p: int| 0 <= p < idx.len() && #[trigger] entry_keys(idx)[p] == x;
            assert(idx[p] == idx[p]);
            assert(texts(idx[p].key@) == x);
        }
    }
    assert forall|x: Record| #[trigger] repeated_in(idx, idx.len() as int, x) implies count_key(rows, kidx, x) >= 2 by {
        let p = choose|p: int| 0 <= p < idx.len() && #[trigger] texts(idx[p].key@) == x && idx[p].dup;
        assert(idx[p] == idx[p]);
    }
}

/// Why two tables cannot be compared on `keys`, or `None` when they can.
pub open spec fn compare_refusal(b: TableModel, a: TableModel, keys: Seq<Text>) -> Option<Text> {
    if keys.len() == 0 {
        Some("at least one key column is needed"@)
    } else if !has_columns(b.header, keys) {
        Some(missing_column_message(keys[first_missing(b.header, keys)], "first"@, b.header))
    } else if !has_columns(a.header, keys) {
        Some(missing_column_message(keys[first_missing(a.header, keys)], "second"@, a.header))
    } else {
        None
    }
}

/// Compare two tables, matching rows on the `keys` columns and leaving the
/// `ignore` columns out of the comparison.
///
/// Fields are compared exactly, character for character;
/// `apply_tolerance` then forgives the differences a tolerance accepts.
pub fn compare(
    before: &Table,
    after: &Table,
    keys: &[String],
    ignore: &[String],
) -> (r: Result<Report, String>)
    ensures
        match r {
            Ok(rep) => compare_refusal(before@, after@, texts(keys@)) is None && is_report_of(
                rep@,
                before@,
                after@,
                texts(keys@),
                texts(ignore@),
            ),
            Err(e) => compare_refusal(before@, after@, texts(keys@)) == Some(e@),
        },
{
    let ghost ks = texts(keys@);
    let ghost ig = texts(ignore@);
    if keys.len() == 0 {
        return Err("at least one key column is needed".to_owned());
    }
    let bk = match key_indices(before, keys, "first") {
        Ok(v) => v,
        Err(e) => {
            return Err(e);
        },
    };
    let ak = match key_indices(after, keys, "second") {
        Ok(v) => v,
        Err(e) => {
            return Err(e);
        },
    };

    let added_columns = missing_columns(&after.header, &before.header);
    let removed_columns = missing_columns(&before.header, &after.header);
    // Only meaningful when the sets match; otherwise added and removed say it.
    let reordered = added_columns.len() == 0 && removed_columns.len() == 0 && !same_names(
        &before.header,
        &after.header,
    );

    // The index's entries already say which keys repeat; the report lists
    // them in key order, so the lists in order of repetition are not needed.
    let (ib, _) = crate::keyed::index(&before.rows, &bk);
    let (ia, _) = crate::keyed::index(&after.rows, &ak);
    let cols = shared(before, after, ignore);
    proof {
        assert(before@.header =~= texts(before.header@));
        assert(after@.header =~= texts(after.header@));
        assert(before.rows.deep_view() == before@.rows);
        assert(after.rows.deep_view() == after@.rows);
    }
    let m = merge(before, after, &ib, &ia, &cols, Ghost(ks), Ghost(ig));
    let report = Report {
        added_columns,
        removed_columns,
        reordered,
        added_rows: m.added,
        removed_rows: m.removed,
        changed: m.changed,
        duplicate_keys: m.dupes,
        unchanged: m.unchanged,
    };
    proof {
        let bkv = key_columns(before@.header, ks);
        let akv = key_columns(after@.header, ks);
        lemma_index_keys(ib@, before@.rows, bkv);
        lemma_index_keys(ia@, after@.rows, akv);
        let kb = keys_of(before@.rows, bkv);
        let ka = keys_of(after@.rows, akv);
        let r = report@;
        assert(r.removed_rows == keys_view(m.removed@));
        assert(r.added_rows == keys_view(m.added@));
        assert forall|k: Record| r.removed_rows.to_set().contains(k) <==> (kb.contains(k) && !ka.contains(k)) by {
            assert(keys_view(m.removed@).contains(k) <==> (entry_keys(ib@).contains(k) && !entry_keys(ia@).contains(k)));
            assert(entry_keys(ib@).contains(k) <==> kb.contains(k));
            assert(entry_keys(ia@).contains(k) <==> ka.contains(k));
        }
        assert forall|k: Record| r.added_rows.to_set().contains(k) <==> (ka.contains(k) && !kb.contains(k)) by {
            assert(keys_view(m.added@).contains(k) <==> (entry_keys(ia@).contains(k) && !entry_keys(ib@).contains(k)));
            assert(entry_keys(ib@).contains(k) <==> kb.contains(k));
            assert(entry_keys(ia@).contains(k) <==> ka.contains(k));
        }
        assert(r.removed_rows.to_set() =~= Set::new(|k: Record| kb.contains(k) && !ka.contains(k)));
        assert(r.added_rows.to_set() =~= Set::new(|k: Record| ka.contains(k) && !kb.contains(k)));
        assert(r.changed =~= change_models(report.changed@));
        assert forall|k: Record| change_keys(r.changed).to_set().contains(k) <==> (kb.contains(k) && ka.contains(k) && changes_for(before@, after@, ks, ig, k).len() > 0) by {
            assert(change_keys(change_models(m.changed@)).contains(k) <==> (entry_keys(ib@).contains(k) && entry_keys(ia@).contains(k) && changes_for(before@, after@, ks, ig, k).len() > 0));
            assert(entry_keys(ib@).contains(k) <==> kb.contains(k));
            assert(entry_keys(ia@).contains(k) <==> ka.contains(k));
        }
        assert(change_keys(r.changed).to_set() =~= Set::new(
            |k: Record|
                kb.contains(k) && ka.contains(k) && changes_for(before@, after@, ks, ig, k).len() > 0,
        ));
        assert forall|i: int| 0 <= i < r.changed.len() implies #[trigger] r.changed[i].fields == changes_for(
            before@,
            after@,
            ks,
            ig,
            r.changed[i].key,
        ) by {
            assert(r.changed[i] == report.changed@[i]@);
        }
        assert(r.duplicate_keys.to_set() =~= repeated_keys(before@.rows, bkv).union(
            repeated_keys(after@.rows, akv),
        ));
        assert(Set::new(
            |x: Record|
                entry_keys(ib@).contains(x) && entry_keys(ia@).contains(x) && changes_for(
                    before@,
                    after@,
                    ks,
                    ig,
                    x,
                ).len() == 0,
        ) =~= Set::new(
            |k: Record|
                kb.contains(k) && ka.contains(k) && changes_for(before@, after@, ks, ig, k).len() == 0,
        ));
    }
    Ok(report)
}

/// The tolerance's verdicts for the fields of one change; none given for a
/// change that `verdicts` does not reach.
pub open spec fn verdicts_for(verdicts: Seq<Seq<bool>>, i: int) -> Seq<bool> {
    if 0 <= i < verdicts.len() {
        verdicts[i]
    } else {
        Seq::empty()
    }
}

/// The fields whose verdict is not "same": a field without a verdict stays.
pub open spec fn kept_fields(fields: Seq<FieldChange>, accepted: Seq<bool>) -> Seq<FieldChange>
    decreases fields.len(),
{
    if fields.len() == 0 {
        Seq::empty()
    } else {
        let j = fields.len() - 1;
        let rest = kept_fields(fields.drop_last(), accepted);
        if j < accepted.len() && accepted[j] {
            rest
        } else {
            rest.push(fields.last())
        }
    }
}

/// The changes that still have a field after the tolerance has spoken.
pub open spec fn tolerated(changed: Seq<ChangeModel>, verdicts: Seq<Seq<bool>>) -> Seq<ChangeModel>
    decreases changed.len(),
{
    if changed.len() == 0 {
        Seq::empty()
    } else {
        let i = changed.len() - 1;
        let rest = tolerated(changed.drop_last(), verdicts);
        let kept = kept_fields(changed.last().fields, verdicts_for(verdicts, i));
        if kept.len() == 0 {
            rest
        } else {
            rest.push(ChangeModel { key: changed.last().key, fields: kept })
        }
    }
}

/// How many changes the tolerance accepted in full.
pub open spec fn absorbed(changed: Seq<ChangeModel>, verdicts: Seq<Seq<bool>>) -> nat
    decreases changed.len(),
{
    if changed.len() == 0 {
        0
    } else {
        let i = changed.len() - 1;
        let kept = kept_fields(changed.last().fields, verdicts_for(verdicts, i));
        absorbed(changed.drop_last(), verdicts) + if kept.len() == 0 {
            1nat
        } else {
            0nat
        }
    }
}

/// The report once a tolerance has judged the changed fields.
pub open spec fn with_tolerance(r: ReportModel, verdicts: Seq<Seq<bool>>) -> ReportModel {
    ReportModel {
        changed: tolerated(r.changed, verdicts),
        unchanged: r.unchanged + absorbed(r.changed, verdicts),
        ..r
    }
}

/// Drop the field changes a numeric tolerance accepts.
///
/// `verdicts[i][j]` says whether the tolerance takes the two values of field
/// `j` of change `i` for the same number. Only fields that differ as text
/// ever reach the tolerance, so text is still compared exactly. A change
/// left with no field counts as unchanged.
pub fn apply_tolerance(r: Report, verdicts: &Vec<Vec<bool>>) -> (out: Report)
    requires
        r@.unchanged + r@.changed.len() <= usize::MAX,
    ensures
        out@ == with_tolerance(r@, verdicts.deep_view()),
{
    let ghost vs = verdicts.deep_view();
    let ghost cs = r@.changed;
    let Report {
        added_columns,
        removed_columns,
        reordered,
        added_rows,
        removed_rows,
        changed,
        duplicate_keys,
        unchanged,
    } = r;
    let mut kept_changes: Vec<Change> = Vec::new();
    let mut absorbed_count: usize = 0;
    let mut i: usize = 0;
    let n = changed.len();
    proof {
        assert(Seq::new(kept_changes@.len(), |m: int| kept_changes@[m]@) =~= Seq::<ChangeModel>::empty());
    }
    while i < n
        invariant
            i <= n,
            n == changed@.len(),
            cs == Seq::new(changed@.len(), |m: int| changed@[m]@),
            vs == verdicts.deep_view(),
            unchanged + n <= usize::MAX,
            absorbed_count <= i,
            Seq::new(kept_changes@.len(), |m: int| kept_changes@[m]@) == tolerated(cs.take(i as int), vs),
            absorbed_count == absorbed(cs.take(i as int), vs),
        decreases n - i,
    {
        proof {
            assert(cs.take(i + 1).drop_last() =~= cs.take(i as int));
            assert(cs.take(i + 1).last() == cs[i as int]);
        }
        let c = &changed[i];
        let ghost flags = verdicts_for(vs, i as int);
        let mut fields: Vec<(String, String, String)> = Vec::new();
        let mut j: usize = 0;
        proof {
            assert(field_changes_view(fields@) =~= Seq::<FieldChange>::empty());
        }
        while j < c.fields.len()
            invariant
                j <= c.fields@.len(),
                flags == verdicts_for(vs, i as int),
                vs == verdicts.deep_view(),
                i < n,
                n == changed@.len(),
                c == changed@[i as int],
                field_changes_view(fields@) == kept_fields(
                    field_changes_view(c.fields@).take(j as int),
                    flags,
                ),
            decreases c.fields@.len() - j,
        {
            let ghost fv = field_changes_view(c.fields@);
            proof {
                assert(fv.take(j + 1).drop_last() =~= fv.take(j as int));
                assert(fv.take(j + 1).last() == fv[j as int]);
            }
            let same = i < verdicts.len() && j < verdicts[i].len() && verdicts[i][j];
            proof {
                if i < verdicts@.len() {
                    assert(flags == verdicts@[i as int]@);
                }
            }
            if !same {
                let ghost old_fields = field_changes_view(fields@);
                let f = &c.fields[j];
                fields.push((f.0.clone(), f.1.clone(), f.2.clone()));
                proof {
                    assert(field_changes_view(fields@) =~= old_fields.push(fv[j as int]));
                }
            }
            j += 1;
        }
        proof {
            assert(field_changes_view(c.fields@).take(c.fields@.len() as int) =~= field_changes_view(c.fields@));
        }
        if fields.len() == 0 {
            absorbed_count += 1;
        } else {
            let ghost old_kept = Seq::new(kept_changes@.len(), |m: int| kept_changes@[m]@);
            let key = clone_key(&c.key);
            kept_changes.push(Change { key, fields });
            proof {
                assert(Seq::new(kept_changes@.len(), |m: int| kept_changes@[m]@) =~= old_kept.push(
                    ChangeModel { key: cs[i as int].key, fields: kept_fields(cs[i as int].fields, flags) },
                ));
            }
        }
        i += 1;
    }
    proof {
        assert(cs.take(n as int) =~= cs);
    }
    let out = Report {
        added_columns,
        removed_columns,
        reordered,
        added_rows,
        removed_rows,
        changed: kept_changes,
        duplicate_keys,
        unchanged: unchanged + absorbed_count,
    };
    proof {
        assert(out@.changed =~= with_tolerance(r@, vs).changed);
    }
    out
}

} // verus!
