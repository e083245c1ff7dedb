//! Rows by key: which keys a table holds, how often, and the row each one
//! is compared by.
use vstd::prelude::*;
use crate::csv::{Text, Record, field_at};
use crate::diff::{texts, keys_view};
use crate::order::{
    key_lt, strictly_sorted, chars_view, compare_key, Order, lemma_key_lt_transitive,
    lemma_key_lt_irreflexive,
};
use crate::text::chars_of;

verus! {

/// A row's key: the field under each key column, missing fields read as empty.
pub open spec fn key_of(row: Record, kidx: Seq<int>) -> Record {
    Seq::new(kidx.len(), |j: int| field_at(row, kidx[j]))
}

/// How many rows carry key `k`.
pub open spec fn count_key(rows: Seq<Record>, kidx: Seq<int>, k: Record) -> nat
    decreases rows.len(),
{
    if rows.len() == 0 {
        0
    } else {
        count_key(rows.drop_last(), kidx, k) + if key_of(rows.last(), kidx) == k {
            1nat
        } else {
            0nat
        }
    }
}

/// Index of the last row carrying key `k`, or -1 when none does. With a
/// repeated key this is the row the comparison uses.
pub open spec fn last_with_key(rows: Seq<Record>, kidx: Seq<int>, k: Record) -> int
    decreases rows.len(),
{
    if rows.len() == 0 {
        -1
    } else if key_of(rows.last(), kidx) == k {
        rows.len() - 1
    } else {
        last_with_key(rows.drop_last(), kidx, k)
    }
}

/// The keys a table holds.
pub open spec fn keys_of(rows: Seq<Record>, kidx: Seq<int>) -> Set<Record> {
    Set::new(|k: Record| count_key(rows, kidx, k) > 0)
}

/// The keys carried by more than one row.
pub open spec fn repeated_keys(rows: Seq<Record>, kidx: Seq<int>) -> Set<Record> {
    Set::new(|k: Record| count_key(rows, kidx, k) >= 2)
}

/// A key that occurs has a row, and that row carries it.
pub proof fn lemma_last_with_key(rows: Seq<Record>, kidx: Seq<int>, k: Record)
    ensures
        count_key(rows, kidx, k) > 0 <==> last_with_key(rows, kidx, k) >= 0,
        last_with_key(rows, kidx, k) < rows.len(),
        last_with_key(rows, kidx, k) >= 0 ==> key_of(rows[last_with_key(rows, kidx, k)], kidx) == k,
    decreases rows.len(),
{
    if rows.len() > 0 {
        lemma_last_with_key(rows.drop_last(), kidx, k);
    }
}

/// A key occurs exactly when some row carries it.
pub proof fn lemma_count_key_positive(rows: Seq<Record>, kidx: Seq<int>, k: Record)
    ensures
        count_key(rows, kidx, k) > 0 <==> exists|i: int|
            0 <= i < rows.len() && #[trigger] key_of(rows[i], kidx) == k,
    decreases rows.len(),
{
    if rows.len() > 0 {
        lemma_count_key_positive(rows.drop_last(), kidx, k);
        if count_key(rows.drop_last(), kidx, k) > 0 {
            let i = choose|i: int|
                0 <= i < rows.drop_last().len() && #[trigger] key_of(rows.drop_last()[i], kidx) == k;
            assert(key_of(rows[i], kidx) == k);
        }
        if exists|i: int| 0 <= i < rows.len() && #[trigger] key_of(rows[i], kidx) == k {
            let i = choose|i: int| 0 <= i < rows.len() && #[trigger] key_of(rows[i], kidx) == k;
            if i < rows.len() - 1 {
                assert(key_of(rows.drop_last()[i], kidx) == k);
            }
        }
    }
}

/// With a key carried by at most one row, the row that carries it is the
/// one the comparison uses.
pub proof fn lemma_single_row_with_key(rows: Seq<Record>, kidx: Seq<int>, k: Record, i: int)
    requires
        count_key(rows, kidx, k) <= 1,
        0 <= i < rows.len(),
        key_of(rows[i], kidx) == k,
    ensures
        last_with_key(rows, kidx, k) == i,
    decreases rows.len(),
{
    if i < rows.len() - 1 {
        assert(key_of(rows.drop_last()[i], kidx) == k);
        lemma_count_key_positive(rows.drop_last(), kidx, k);
        lemma_single_row_with_key(rows.drop_last(), kidx, k, i);
    }
}

/// No row after the one `last_with_key` picks carries the key.
pub proof fn lemma_no_later_row_with_key(rows: Seq<Record>, kidx: Seq<int>, k: Record)
    ensures
        forall|m: int|
            0 <= m && last_with_key(rows, kidx, k) < m < rows.len() ==> key_of(#[trigger] rows[m], kidx) != k,
    decreases rows.len(),
{
    if rows.len() > 0 && key_of(rows.last(), kidx) != k {
        let init = rows.drop_last();
        lemma_no_later_row_with_key(init, kidx, k);
        assert forall|m: int| 0 <= m && last_with_key(rows, kidx, k) < m < rows.len() implies key_of(
            #[trigger] rows[m],
            kidx,
        ) != k by {
            if m < rows.len() - 1 {
                assert(rows[m] == init[m]);
            }
        }
    }
}

/// The keys carried by more than one row, in the order of the rows that
/// first repeat them.
pub open spec fn repeated_in_order(rows: Seq<Record>, kidx: Seq<int>) -> Seq<Record>
    decreases rows.len(),
{
    if rows.len() == 0 {
        Seq::empty()
    } else {
        let rest = repeated_in_order(rows.drop_last(), kidx);
        let k = key_of(rows.last(), kidx);
        if count_key(rows.drop_last(), kidx, k) == 1 {
            rest.push(k)
        } else {
            rest
        }
    }
}

/// That list names each repeated key once, and nothing else.
pub proof fn lemma_repeated_in_order(rows: Seq<Record>, kidx: Seq<int>)
    ensures
        repeated_in_order(rows, kidx).no_duplicates(),
        repeated_in_order(rows, kidx).to_set() == repeated_keys(rows, kidx),
    decreases rows.len(),
{
    if rows.len() > 0 {
        let init = rows.drop_last();
        let k = key_of(rows.last(), kidx);
        let rest = repeated_in_order(init, kidx);
        lemma_repeated_in_order(init, kidx);
        if count_key(init, kidx, k) == 1 {
            assert(!rest.to_set().contains(k));
            assert forall|a: int, b: int|
                0 <= a < b < rest.push(k).len() implies rest.push(k)[a] != rest.push(k)[b] by {
                if b == rest.len() {
                    assert(rest.to_set().contains(rest[a]));
                } else {
                    assert(rest[a] != rest[b]);
                }
            }
        }
        if count_key(init, kidx, k) == 1 {
            assert forall|x: Record| rest.push(k).to_set().contains(x) <==> (rest.to_set().contains(x) || x == k) by {
                if rest.push(k).to_set().contains(x) {
                    let w = choose|w: int| 0 <= w < rest.push(k).len() && rest.push(k)[w] == x;
                    if w < rest.len() {
                        assert(rest[w] == x);
                    }
                }
                if rest.to_set().contains(x) {
                    let w = choose|w: int| 0 <= w < rest.len() && rest[w] == x;
                    assert(rest.push(k)[w] == x);
                }
                if x == k {
                    assert(rest.push(k)[rest.len() as int] == x);
                }
            }
        }
        assert forall|x: Record| #[trigger] repeated_in_order(rows, kidx).to_set().contains(x) <==> count_key(
            rows,
            kidx,
            x,
        ) >= 2 by {
            assert(rest.to_set().contains(x) <==> count_key(init, kidx, x) >= 2);
        }
        assert(repeated_in_order(rows, kidx).to_set() =~= repeated_keys(rows, kidx));
    }
}

/// One distinct key of a table and where it stands.
pub struct Entry {
    pub key: Vec<String>,
    pub chars: Vec<Vec<char>>,
    /// The last row carrying the key.
    pub row: usize,
    /// Whether more than one row carries it.
    pub dup: bool,
}

pub open spec fn entry_keys(idx: Seq<Entry>) -> Seq<Record> {
    Seq::new(idx.len(), |p: int| texts(idx[p].key@))
}

/// `idx` lists each key of `rows` once, in key order, with the last row that
/// carries it and whether it is repeated.
pub open spec fn index_of_rows(idx: Seq<Entry>, rows: Seq<Record>, kidx: Seq<int>) -> bool {
    &&& strictly_sorted(entry_keys(idx))
    &&& forall|p: int|
        #![trigger idx[p]]
        0 <= p < idx.len() ==> {
            &&& chars_view(idx[p].chars@) == texts(idx[p].key@)
            &&& count_key(rows, kidx, texts(idx[p].key@)) > 0
            &&& idx[p].row as int == last_with_key(rows, kidx, texts(idx[p].key@))
            &&& idx[p].dup == (count_key(rows, kidx, texts(idx[p].key@)) >= 2)
        }
    &&& forall|k: Record| count_key(rows, kidx, k) > 0 ==> #[trigger] entry_keys(idx).contains(k)
}

pub open spec fn indices_view(kidx: Seq<usize>) -> Seq<int> {
    Seq::new(kidx.len(), |j: int| kidx[j] as int)
}

/// The key of one row, as strings and as characters.
fn row_key(row: &Vec<String>, kidx: &Vec<usize>) -> (r: (Vec<String>, Vec<Vec<char>>))
    ensures
        texts(r.0@) == key_of(texts(row@), indices_view(kidx@)),
        chars_view(r.1@) == texts(r.0@),
{
    let mut key: Vec<String> = Vec::new();
    let mut chars: Vec<Vec<char>> = Vec::new();
    let mut j: usize = 0;
    while j < kidx.len()
        invariant
            j <= kidx.len(),
            key@.len() == j,
            chars@.len() == j,
            forall|m: int|
                0 <= m < j ==> #[trigger] key@[m]@ == field_at(texts(row@), kidx@[m] as int),
            forall|m: int| 0 <= m < j ==> #[trigger] chars@[m]@ == key@[m]@,
        decreases kidx.len() - j,
    {
        let i = kidx[j];
        let s = if i < row.len() {
            row[i].clone()
        } else {
            String::new()
        };
        chars.push(chars_of(s.as_str()));
        key.push(s);
        j += 1;
    }
    proof {
        assert(texts(key@) =~= key_of(texts(row@), indices_view(kidx@)));
        assert(chars_view(chars@) =~= texts(key@));
    }
    (key, chars)
}

/// Where `k` stands in `idx`: found at an index, or the index it would be
/// inserted at to keep `idx` sorted.
fn search(idx: &Vec<Entry>, k: &Vec<Vec<char>>) -> (r: Result<usize, usize>)
    requires
        strictly_sorted(entry_keys(idx@)),
        forall|p: int|
            #![trigger idx@[p]]
            0 <= p < idx@.len() ==> chars_view(idx@[p].chars@) == texts(idx@[p].key@),
    ensures
        match r {
            Ok(p) => p < idx@.len() && entry_keys(idx@)[p as int] == chars_view(k@),
            Err(p) => p <= idx@.len() && (forall|q: int|
                0 <= q < p ==> key_lt(#[trigger] entry_keys(idx@)[q], chars_view(k@)))
                && (forall|q: int|
                p <= q < idx@.len() ==> key_lt(chars_view(k@), #[trigger] entry_keys(idx@)[q])),
        },
{
    let ghost ks = entry_keys(idx@);
    let ghost kv = chars_view(k@);
    let mut lo: usize = 0;
    let mut hi: usize = idx.len();
    while lo < hi
        invariant
            lo <= hi <= idx@.len(),
            ks == entry_keys(idx@),
            kv == chars_view(k@),
            strictly_sorted(ks),
            forall|p: int|
                #![trigger idx@[p]]
                0 <= p < idx@.len() ==> chars_view(idx@[p].chars@) == texts(idx@[p].key@),
            forall|q: int| 0 <= q < lo ==> key_lt(#[trigger] ks[q], kv),
            forall|q: int| hi <= q < idx@.len() ==> key_lt(kv, #[trigger] ks[q]),
        decreases hi - lo,
    {
        let mid = lo + (hi - lo) / 2;
        let o = compare_key(&idx[mid].chars, k);
        proof { assert(chars_view(idx@[mid as int].chars@) == ks[mid as int]); }
        match o {
            Order::Equal => {
                return Ok(mid);
            },
            Order::Less => {
                proof {
                    assert forall|q: int| 0 <= q < mid + 1 implies key_lt(#[trigger] ks[q], kv) by {
                        if q < mid {
                            assert(key_lt(ks[q], ks[mid as int]));
                            lemma_key_lt_transitive(ks[q], ks[mid as int], kv);
                        }
                    }
                }
                lo = mid + 1;
            },
            Order::Greater => {
                proof {
                    assert forall|q: int| mid <= q < idx@.len() implies key_lt(kv, #[trigger] ks[q]) by {
                        if q > mid {
                            assert(key_lt(ks[mid as int], ks[q]));
                            lemma_key_lt_transitive(kv, ks[mid as int], ks[q]);
                        }
                    }
                }
                hi = mid;
            },
        }
    }
    Err(lo)
}

/// Index a table's rows by key: each distinct key once, in key order, with
/// its last row and whether it repeats.
///
/// Also the keys that repeat, each once, in the order of the rows that first
/// repeat them, as a reader of the file meets them.
pub fn index(rows: &Vec<Vec<String>>, kidx: &Vec<usize>) -> (r: (Vec<Entry>, Vec<Vec<String>>))
    ensures
        index_of_rows(r.0@, rows.deep_view(), indices_view(kidx@)),
        keys_view(r.1@) == repeated_in_order(rows.deep_view(), indices_view(kidx@)),
        keys_view(r.1@).no_duplicates(),
        keys_view(r.1@).to_set() == repeated_keys(rows.deep_view(), indices_view(kidx@)),
{
    let ghost kv = indices_view(kidx@);
    let ghost all = rows.deep_view();
    let mut idx: Vec<Entry> = Vec::new();
    let mut repeated: Vec<Vec<String>> = Vec::new();
    let mut i: usize = 0;
    proof {
        assert(entry_keys(idx@) =~= Seq::<Record>::empty());
        assert(keys_view(repeated@) =~= repeated_in_order(all.take(0), kv));
        assert forall|k: Record| count_key(all.take(0), kv, k) == 0 by {
            assert(all.take(0).len() == 0);
        }
    }
    while i < rows.len()
        invariant
            i <= rows.len(),
            kv == indices_view(kidx@),
            all == rows.deep_view(),
            index_of_rows(idx@, all.take(i as int), kv),
            keys_view(repeated@) == repeated_in_order(all.take(i as int), kv),
        decreases rows.len() - i,
    {
        let (key, chars) = row_key(&rows[i], kidx);
        let ghost ki = texts(key@);
        let ghost before = all.take(i as int);
        let ghost after = all.take(i + 1);
        let ghost old_idx = idx@;
        proof {
            assert(after.drop_last() =~= before);
            assert(after.last() =~= texts(rows@[i as int]@));
            assert(key_of(after.last(), kv) == ki);
        }
        match search(&idx, &chars) {
            Ok(p) => {
                proof {
                    assert(entry_keys(old_idx)[p as int] == ki);
                    assert(count_key(before, kv, ki) > 0);
                }
                if !idx[p].dup {
                    let ghost old_repeated = keys_view(repeated@);
                    repeated.push(key);
                    proof {
                        assert(keys_view(repeated@) =~= old_repeated.push(ki));
                    }
                }
                let mut e = idx.remove(p);
                e.row = i;
                e.dup = true;
                idx.insert(p, e);
                proof {
                    assert(entry_keys(idx@) =~= entry_keys(old_idx));
                    assert(entry_keys(old_idx)[p as int] == ki);
                    assert forall|q: int|
                        #![trigger idx@[q]]
                        0 <= q < idx@.len() implies {
                            &&& chars_view(idx@[q].chars@) == texts(idx@[q].key@)
                            &&& count_key(after, kv, texts(idx@[q].key@)) > 0
                            &&& idx@[q].row as int == last_with_key(after, kv, texts(idx@[q].key@))
                            &&& idx@[q].dup == (count_key(after, kv, texts(idx@[q].key@)) >= 2)
                        } by {
                        assert(old_idx[q] == idx@[q] || q == p);
                        if q != p {
                            assert(texts(idx@[q].key@) == entry_keys(old_idx)[q]);
                            crate::order::lemma_sorted_distinct(entry_keys(old_idx), q, p as int);
                        }
                    }
                    assert forall|k: Record| count_key(after, kv, k) > 0 implies #[trigger] entry_keys(
                        idx@,
                    ).contains(k) by {
                        if k != ki {
                            assert(count_key(before, kv, k) > 0);
                            assert(entry_keys(old_idx).contains(k));
                        } else {
                            assert(entry_keys(idx@)[p as int] == k);
                        }
                    }
                }
            },
            Err(p) => {
                let ghost new_entry = Entry { key: key, chars: chars, row: i, dup: false };
                proof {
                    if count_key(before, kv, ki) > 0 {
                        assert(entry_keys(old_idx).contains(ki));
                        let q = choose|q: int|
                            0 <= q < entry_keys(old_idx).len() && entry_keys(old_idx)[q] == ki;
                        if q < p {
                            lemma_key_lt_irreflexive(ki);
                        } else {
                            lemma_key_lt_irreflexive(ki);
                        }
                    }
                }
                idx.insert(p, Entry { key, chars, row: i, dup: false });
                proof {
                    let ks = entry_keys(idx@);
                    let oks = entry_keys(old_idx);
                    assert(ks =~= oks.insert(p as int, ki));
                    assert forall|a: int, b: int| 0 <= a < b < ks.len() implies key_lt(
                        #[trigger] ks[a],
                        #[trigger] ks[b],
                    ) by {
                        if a < p && b < p {
                            assert(key_lt(oks[a], oks[b]));
                        } else if a < p && b == p {
                        } else if a < p && b > p {
                            assert(key_lt(oks[a], oks[b - 1]));
                        } else if a == p {
                        } else {
                            assert(key_lt(oks[a - 1], oks[b - 1]));
                        }
                    }
                    assert forall|q: int|
                        #![trigger idx@[q]]
                        0 <= q < idx@.len() implies {
                            &&& chars_view(idx@[q].chars@) == texts(idx@[q].key@)
                            &&& count_key(after, kv, texts(idx@[q].key@)) > 0
                            &&& idx@[q].row as int == last_with_key(after, kv, texts(idx@[q].key@))
                            &&& idx@[q].dup == (count_key(after, kv, texts(idx@[q].key@)) >= 2)
                        } by {
                        if q < p {
                            assert(idx@[q] == old_idx[q]);
                            assert(key_lt(oks[q], ki));
                            lemma_key_lt_irreflexive(ki);
                        } else if q > p {
                            assert(idx@[q] == old_idx[q - 1]);
                            assert(key_lt(ki, oks[q - 1]));
                            lemma_key_lt_irreflexive(ki);
                        } else {
                            assert(count_key(before, kv, ki) == 0);
                        }
                    }
                    assert forall|k: Record| count_key(after, kv, k) > 0 implies #[trigger] ks.contains(
                        k,
                    ) by {
                        if k != ki {
                            assert(count_key(before, kv, k) > 0);
                            assert(oks.contains(k));
                            let q = choose|q: int| 0 <= q < oks.len() && oks[q] == k;
                            if q < p {
                                assert(ks[q] == k);
                            } else {
                                assert(ks[q + 1] == k);
                            }
                        } else {
                            assert(ks[p as int] == k);
                        }
                    }
                }
            },
        }
        i += 1;
    }
    proof {
        assert(all.take(rows@.len() as int) =~= all);
        lemma_repeated_in_order(all, kv);
    }
    (idx, repeated)
}

} // verus!
