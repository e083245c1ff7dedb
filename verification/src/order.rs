//! The order keys are reported in: field by field, each field character by
//! character by code point, a proper prefix first. This is the order of
//! `Vec<String>` in Rust, since UTF-8 byte order is code point order.
use vstd::prelude::*;
use crate::csv::{Text, Record};

verus! {

/// `a` sorts before `b`.
pub open spec fn text_lt(a: Text, b: Text) -> bool
    decreases a.len(),
{
    if a.len() == 0 {
        b.len() > 0
    } else if b.len() == 0 {
        false
    } else if a[0] != b[0] {
        (a[0] as int) < (b[0] as int)
    } else {
        text_lt(a.drop_first(), b.drop_first())
    }
}

/// Key `a` sorts before key `b`.
pub open spec fn key_lt(a: Record, b: Record) -> bool
    decreases a.len(),
{
    if a.len() == 0 {
        b.len() > 0
    } else if b.len() == 0 {
        false
    } else if a[0] != b[0] {
        text_lt(a[0], b[0])
    } else {
        key_lt(a.drop_first(), b.drop_first())
    }
}

/// Each key sorts before the next: ascending with no key twice.
pub open spec fn strictly_sorted(s: Seq<Record>) -> bool {
    forall|i: int, j: int| 0 <= i < j < s.len() ==> key_lt(#[trigger] s[i], #[trigger] s[j])
}

pub proof fn lemma_text_lt_irreflexive(a: Text)
    ensures
        !text_lt(a, a),
    decreases a.len(),
{
    if a.len() > 0 {
        lemma_text_lt_irreflexive(a.drop_first());
    }
}

pub proof fn lemma_text_lt_transitive(a: Text, b: Text, c: Text)
    requires
        text_lt(a, b),
        text_lt(b, c),
    ensures
        text_lt(a, c),
    decreases a.len(),
{
    if a.len() > 0 && b.len() > 0 && c.len() > 0 {
        if a[0] == b[0] && b[0] == c[0] {
            lemma_text_lt_transitive(a.drop_first(), b.drop_first(), c.drop_first());
        }
    }
}

pub proof fn lemma_text_lt_asymmetric(a: Text, b: Text)
    requires
        text_lt(a, b),
    ensures
        !text_lt(b, a),
{
    if text_lt(b, a) {
        lemma_text_lt_transitive(a, b, a);
        lemma_text_lt_irreflexive(a);
    }
}

pub proof fn lemma_key_lt_irreflexive(a: Record)
    ensures
        !key_lt(a, a),
    decreases a.len(),
{
    if a.len() > 0 {
        lemma_key_lt_irreflexive(a.drop_first());
    }
}

pub proof fn lemma_key_lt_transitive(a: Record, b: Record, c: Record)
    requires
        key_lt(a, b),
        key_lt(b, c),
    ensures
        key_lt(a, c),
    decreases a.len(),
{
    if a.len() > 0 && b.len() > 0 && c.len() > 0 {
        if a[0] == b[0] && b[0] == c[0] {
            lemma_key_lt_transitive(a.drop_first(), b.drop_first(), c.drop_first());
        } else if a[0] == b[0] {
        } else if b[0] == c[0] {
        } else {
            lemma_text_lt_transitive(a[0], b[0], c[0]);
            if a[0] == c[0] {
                lemma_text_lt_asymmetric(a[0], b[0]);
            }
        }
    }
}

pub proof fn lemma_key_lt_asymmetric(a: Record, b: Record)
    requires
        key_lt(a, b),
    ensures
        !key_lt(b, a),
{
    if key_lt(b, a) {
        lemma_key_lt_transitive(a, b, a);
        lemma_key_lt_irreflexive(a);
    }
}

/// In a strictly sorted sequence no key occurs twice.
pub proof fn lemma_sorted_distinct(s: Seq<Record>, i: int, j: int)
    requires
        strictly_sorted(s),
        0 <= i < s.len(),
        0 <= j < s.len(),
        i != j,
    ensures
        s[i] != s[j],
{
    if i < j {
        assert(key_lt(s[i], s[j]));
        lemma_key_lt_irreflexive(s[i]);
    } else {
        assert(key_lt(s[j], s[i]));
        lemma_key_lt_irreflexive(s[j]);
    }
}

/// Two strictly sorted sequences with the same elements are the same sequence.
pub proof fn lemma_sorted_unique(s: Seq<Record>, t: Seq<Record>)
    requires
        strictly_sorted(s),
        strictly_sorted(t),
        s.to_set() == t.to_set(),
    ensures
        s == t,
    decreases s.len(),
{
    if s.len() == 0 {
        if t.len() > 0 {
            assert(t.to_set().contains(t[0]));
        }
        assert(t.len() == 0);
        assert(s =~= t);
    } else {
        if t.len() == 0 {
            assert(s.to_set().contains(s[0]));
            assert(false);
        }
        // The first elements are each the least of the same set.
        assert(s.to_set().contains(t[0]));
        assert(t.to_set().contains(s[0]));
        let i = choose|i: int| 0 <= i < s.len() && s[i] == t[0];
        let j = choose|j: int| 0 <= j < t.len() && t[j] == s[0];
        if i > 0 {
            assert(key_lt(s[0], s[i]));
            if j > 0 {
                assert(key_lt(t[0], t[j]));
                lemma_key_lt_asymmetric(s[0], t[0]);
            } else {
                lemma_key_lt_irreflexive(s[0]);
            }
        }
        assert(s[0] == t[0]);
        let s1 = s.drop_first();
        let t1 = t.drop_first();
        assert forall|x: Record| s1.to_set().contains(x) implies t1.to_set().contains(x) by {
            let a = choose|a: int| 0 <= a < s1.len() && s1[a] == x;
            assert(s.to_set().contains(x));
            let b = choose|b: int| 0 <= b < t.len() && t[b] == x;
            lemma_sorted_distinct(s, 0, a + 1);
            assert(b != 0);
            assert(t1[b - 1] == x);
        }
        assert forall|x: Record| t1.to_set().contains(x) implies s1.to_set().contains(x) by {
            let b = choose|b: int| 0 <= b < t1.len() && t1[b] == x;
            assert(t.to_set().contains(x));
            let a = choose|a: int| 0 <= a < s.len() && s[a] == x;
            lemma_sorted_distinct(t, 0, b + 1);
            assert(a != 0);
            assert(s1[a - 1] == x);
        }
        assert(s1.to_set() =~= t1.to_set());
        lemma_sorted_unique(s1, t1);
        assert(s =~= seq![s[0]] + s1);
        assert(t =~= seq![t[0]] + t1);
    }
}

/// Result of comparing two keys.
pub enum Order {
    Less,
    Equal,
    Greater,
}

/// Compare two texts in key order.
pub fn compare_text(a: &Vec<char>, b: &Vec<char>) -> (r: Order)
    ensures
        match r {
            Order::Less => text_lt(a@, b@),
            Order::Equal => a@ == b@,
            Order::Greater => text_lt(b@, a@),
        },
{
    let mut i: usize = 0;
    proof {
        assert(a@.skip(0) =~= a@);
        assert(b@.skip(0) =~= b@);
    }
    while i < a.len() && i < b.len()
        invariant
            i <= a.len(),
            i <= b.len(),
            a@.take(i as int) == b@.take(i as int),
            text_lt(a@, b@) == text_lt(a@.skip(i as int), b@.skip(i as int)),
            text_lt(b@, a@) == text_lt(b@.skip(i as int), a@.skip(i as int)),
        decreases a.len() - i,
    {
        let x = a[i];
        let y = b[i];
        if x != y {
            proof {
                assert(a@.skip(i as int)[0] == x);
                assert(b@.skip(i as int)[0] == y);
            }
            proof {
                let sa = a@.skip(i as int);
                let sb = b@.skip(i as int);
                assert(sa.len() > 0 && sb.len() > 0);
                assert(text_lt(sa, sb) == ((x as int) < (y as int)));
                assert(text_lt(sb, sa) == ((y as int) < (x as int)));
            }
            if x < y {
                return Order::Less;
            } else {
                return Order::Greater;
            }
        }
        proof {
            assert(a@.skip(i as int).drop_first() =~= a@.skip(i + 1));
            assert(b@.skip(i as int).drop_first() =~= b@.skip(i + 1));
            assert(a@.take(i + 1) =~= a@.take(i as int).push(x));
            assert(b@.take(i + 1) =~= b@.take(i as int).push(y));
        }
        i = i + 1;
    }
    if i < b.len() {
        Order::Less
    } else if i < a.len() {
        Order::Greater
    } else {
        proof {
            assert(a@ =~= a@.take(i as int));
            assert(b@ =~= b@.take(i as int));
        }
        Order::Equal
    }
}

/// The characters of each field of a key.
pub open spec fn chars_view(k: Seq<Vec<char>>) -> Record {
    Seq::new(k.len(), |i: int| k[i]@)
}

/// Compare two keys, each given as the characters of its fields.
pub fn compare_key(a: &Vec<Vec<char>>, b: &Vec<Vec<char>>) -> (r: Order)
    ensures
        match r {
            Order::Less => key_lt(chars_view(a@), chars_view(b@)),
            Order::Equal => chars_view(a@) == chars_view(b@),
            Order::Greater => key_lt(chars_view(b@), chars_view(a@)),
        },
{
    let ghost av = chars_view(a@);
    let ghost bv = chars_view(b@);
    let mut i: usize = 0;
    proof {
        assert(av.skip(0) =~= av);
        assert(bv.skip(0) =~= bv);
    }
    while i < a.len() && i < b.len()
        invariant
            i <= a.len(),
            i <= b.len(),
            av == chars_view(a@),
            bv == chars_view(b@),
            av.take(i as int) == bv.take(i as int),
            key_lt(av, bv) == key_lt(av.skip(i as int), bv.skip(i as int)),
            key_lt(bv, av) == key_lt(bv.skip(i as int), av.skip(i as int)),
        decreases a.len() - i,
    {
        let o = compare_text(&a[i], &b[i]);
        proof {
            assert(av.skip(i as int)[0] == a@[i as int]@);
            assert(bv.skip(i as int)[0] == b@[i as int]@);
        }
        match o {
            Order::Less => {
                proof { lemma_text_lt_irreflexive(a@[i as int]@); }
                return Order::Less;
            },
            Order::Greater => {
                proof { lemma_text_lt_irreflexive(a@[i as int]@); }
                return Order::Greater;
            },
            Order::Equal => {},
        }
        proof {
            assert(av.skip(i as int).drop_first() =~= av.skip(i + 1));
            assert(bv.skip(i as int).drop_first() =~= bv.skip(i + 1));
            assert(av.take(i + 1) =~= av.take(i as int).push(av[i as int]));
            assert(bv.take(i + 1) =~= bv.take(i as int).push(bv[i as int]));
        }
        i = i + 1;
    }
    if i < b.len() {
        Order::Less
    } else if i < a.len() {
        Order::Greater
    } else {
        proof {
            assert(av =~= av.take(i as int));
            assert(bv =~= bv.take(i as int));
        }
        Order::Equal
    }
}

} // verus!
