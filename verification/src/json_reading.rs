//! What a JSON reader makes of the report: the grammar of RFC 8259, read
//! from a position, and the proof that the report reads as one object.
use vstd::prelude::*;
use crate::csv::Text;
use crate::json::{
    escaped, escape_char, json_char, json_string, json_array, json_key_array, json_field, json_change,
    json_changes, json_report, listing, member_line, bool_text,
};
use crate::text::{decimal, digit_char};
use crate::diff::{ChangeModel, FieldChange, ReportModel, differs};
use crate::diff::join;
use crate::csv::Record;
use crate::laws::{stands_at, lemma_stands_at_split, lemma_json_char_of_escape};

verus! {

/// A JSON value. A number is kept as the text it was written as.
pub enum Json {
    Null,
    Bool(bool),
    Number(Text),
    Str(Text),
    Array(Seq<Json>),
    Object(Seq<(Text, Json)>),
}

pub open spec fn is_space(c: char) -> bool {
    c == ' ' || c == '\t' || c == '\n' || c == '\r'
}

/// The first position from `i` on that is not white space.
#[verifier::opaque]
pub open spec fn skip_space(t: Text, i: int) -> int
    decreases t.len() - i,
{
    if 0 <= i < t.len() && is_space(t[i]) {
        skip_space(t, i + 1)
    } else {
        i
    }
}

/// The characters of a string from `i` up to its closing quote, and the
/// position after that quote.
#[verifier::opaque]
pub open spec fn read_chars(t: Text, i: int) -> Option<(Text, int)>
    decreases t.len() - i,
{
    if i < 0 || i >= t.len() {
        None
    } else if t[i] == '"' {
        Some((Seq::empty(), i + 1))
    } else {
        match json_char(t.skip(i)) {
            Some((c, n)) => if n >= 1 {
                match read_chars(t, i + n) {
                    Some((s, j)) => Some((seq![c] + s, j)),
                    None => None,
                }
            } else {
                None
            },
            None => None,
        }
    }
}

/// A string starting at `i`.
#[verifier::opaque]
pub open spec fn read_string(t: Text, i: int) -> Option<(Text, int)> {
    if 0 <= i < t.len() && t[i] == '"' {
        read_chars(t, i + 1)
    } else {
        None
    }
}

pub open spec fn is_digit(c: char) -> bool {
    '0' <= c <= '9'
}

/// The first position from `i` on that is not a digit.
#[verifier::opaque]
pub open spec fn skip_digits(t: Text, i: int) -> int
    decreases t.len() - i,
{
    if 0 <= i < t.len() && is_digit(t[i]) {
        skip_digits(t, i + 1)
    } else {
        i
    }
}

/// A character that cannot continue a number.
pub open spec fn ends_number(c: char) -> bool {
    !is_digit(c) && c != '.' && c != 'e' && c != 'E'
}

/// Where a number starting at `i` ends: an optional minus, `0` or a digit
/// run not starting with `0`, then optionally a fraction and an exponent.
#[verifier::opaque]
pub open spec fn number_end(t: Text, i: int) -> Option<int> {
    let a = if 0 <= i < t.len() && t[i] == '-' { i + 1 } else { i };
    let b = if 0 <= a < t.len() && t[a] == '0' {
        Some(a + 1)
    } else if 0 <= a < t.len() && is_digit(t[a]) {
        Some(skip_digits(t, a))
    } else {
        None
    };
    match b {
        None => None,
        Some(b) => {
            let c = if 0 <= b < t.len() && t[b] == '.' {
                if b + 1 < t.len() && is_digit(t[b + 1]) {
                    Some(skip_digits(t, b + 1))
                } else {
                    None
                }
            } else {
                Some(b)
            };
            match c {
                None => None,
                Some(c) => if 0 <= c < t.len() && (t[c] == 'e' || t[c] == 'E') {
                    let d = if c + 1 < t.len() && (t[c + 1] == '+' || t[c + 1] == '-') {
                        c + 2
                    } else {
                        c + 1
                    };
                    if 0 <= d < t.len() && is_digit(t[d]) {
                        Some(skip_digits(t, d))
                    } else {
                        None
                    }
                } else {
                    Some(c)
                },
            }
        },
    }
}

/// Whether `w` is written at `i`.
#[verifier::opaque]
pub open spec fn word_at(t: Text, i: int, w: Text) -> bool {
    0 <= i && i + w.len() <= t.len() && t.subrange(i, i + w.len()) == w
}

/// A value starting at `i`, arrays and objects nested at most `depth` deep,
/// and the position after it.
pub open spec fn read_value(t: Text, i: int, depth: nat) -> Option<(Json, int)>
    decreases depth, 1int, 0int,
{
    if i < 0 || i >= t.len() {
        None
    } else if t[i] == '{' {
        let j = skip_space(t, i + 1);
        if 0 <= j < t.len() && t[j] == '}' {
            Some((Json::Object(Seq::empty()), j + 1))
        } else if depth == 0 {
            None
        } else {
            match read_members(t, j, (depth - 1) as nat) {
                Some((ms, k)) => Some((Json::Object(ms), k)),
                None => None,
            }
        }
    } else if t[i] == '[' {
        let j = skip_space(t, i + 1);
        if 0 <= j < t.len() && t[j] == ']' {
            Some((Json::Array(Seq::empty()), j + 1))
        } else if depth == 0 {
            None
        } else {
            match read_elements(t, j, (depth - 1) as nat) {
                Some((vs, k)) => Some((Json::Array(vs), k)),
                None => None,
            }
        }
    } else if t[i] == '"' {
        match read_string(t, i) {
            Some((s, j)) => Some((Json::Str(s), j)),
            None => None,
        }
    } else if word_at(t, i, "true"@) {
        Some((Json::Bool(true), i + 4))
    } else if word_at(t, i, "false"@) {
        Some((Json::Bool(false), i + 5))
    } else if word_at(t, i, "null"@) {
        Some((Json::Null, i + 4))
    } else {
        match number_end(t, i) {
            Some(j) => Some((Json::Number(t.subrange(i, j)), j)),
            None => None,
        }
    }
}

/// The elements of an array from the value at `i` to the closing bracket.
pub open spec fn read_elements(t: Text, i: int, depth: nat) -> Option<(Seq<Json>, int)>
    decreases depth, 2int, t.len() - i,
{
    match read_value(t, i, depth) {
        Some((v, j)) => {
            let k = skip_space(t, j);
            if 0 <= k < t.len() && t[k] == ',' {
                let m = skip_space(t, k + 1);
                if i < m <= t.len() {
                    match read_elements(t, m, depth) {
                        Some((vs, q)) => Some((seq![v] + vs, q)),
                        None => None,
                    }
                } else {
                    None
                }
            } else if 0 <= k < t.len() && t[k] == ']' {
                Some((seq![v], k + 1))
            } else {
                None
            }
        },
        None => None,
    }
}

/// The members of an object from the name at `i` to the closing brace.
pub open spec fn read_members(t: Text, i: int, depth: nat) -> Option<(Seq<(Text, Json)>, int)>
    decreases depth, 2int, t.len() - i,
{
    match read_string(t, i) {
        Some((name, j)) => {
            let k = skip_space(t, j);
            if 0 <= k < t.len() && t[k] == ':' {
                match read_value(t, skip_space(t, k + 1), depth) {
                    Some((v, p)) => {
                        let q = skip_space(t, p);
                        if 0 <= q < t.len() && t[q] == ',' {
                            let m = skip_space(t, q + 1);
                            if i < m <= t.len() {
                                match read_members(t, m, depth) {
                                    Some((ms, e)) => Some((seq![(name, v)] + ms, e)),
                                    None => None,
                                }
                            } else {
                                None
                            }
                        } else if 0 <= q < t.len() && t[q] == '}' {
                            Some((seq![(name, v)], q + 1))
                        } else {
                            None
                        }
                    },
                    None => None,
                }
            } else {
                None
            }
        },
        None => None,
    }
}

/// A whole JSON text: one value with white space around it.
pub open spec fn read_json(t: Text, depth: nat) -> Option<Json> {
    match read_value(t, skip_space(t, 0), depth) {
        Some((v, j)) => if skip_space(t, j) == t.len() {
            Some(v)
        } else {
            None
        },
        None => None,
    }
}

/// Every character of `w` is white space.
pub open spec fn all_space(w: Text) -> bool {
    forall|j: int| 0 <= j < w.len() ==> is_space(#[trigger] w[j])
}

/// White space written at `i` is skipped up to the next character that is
/// not white space.
proof fn lemma_skip_space(t: Text, i: int, w: Text)
    requires
        stands_at(t, i, w),
        all_space(w),
        i + w.len() < t.len() ==> !is_space(t[i + w.len()]),
    ensures
        skip_space(t, i) == i + w.len(),
    decreases w.len(),
{
    reveal_with_fuel(skip_space, 1);
    if w.len() > 0 {
        assert(w[0] == t[i]);
        lemma_stands_at_split(t, i, seq![w[0]], w.drop_first());
        assert(seq![w[0]] + w.drop_first() =~= w);
        assert forall|j: int| 0 <= j < w.drop_first().len() implies is_space(#[trigger] w.drop_first()[j]) by {
            assert(w.drop_first()[j] == w[j + 1]);
        }
        lemma_skip_space(t, i + 1, w.drop_first());
    }
}

/// Escaping works character by character from the front too.
proof fn lemma_escaped_front(s: Text)
    requires
        s.len() > 0,
    ensures
        escaped(s) == escape_char(s[0]) + escaped(s.drop_first()),
    decreases s.len(),
{
    if s.len() == 1 {
        assert(s.drop_last() =~= Seq::<char>::empty());
        assert(s.drop_first() =~= Seq::<char>::empty());
        assert(escaped(s.drop_first()) =~= Seq::<char>::empty());
        assert(escape_char(s[0]) + escaped(s.drop_first()) =~= escape_char(s[0]));
    } else {
        let init = s.drop_last();
        lemma_escaped_front(init);
        assert(init.drop_first() =~= s.drop_first().drop_last());
        assert(s.drop_first().last() == s.last());
        assert(init[0] == s[0]);
        assert(escaped(s.drop_first()) == escaped(s.drop_first().drop_last()) + escape_char(s.last()));
        assert(escaped(s) =~= escape_char(s[0]) + escaped(s.drop_first()));
    }
}

/// One character read inside a string, then the rest of the string.
proof fn lemma_read_chars_step(t: Text, i: int, c: char, n: int)
    requires
        0 <= i < t.len(),
        t[i] != '"',
        n >= 1,
        json_char(t.skip(i)) == Some((c, n)),
    ensures
        read_chars(t, i) == match read_chars(t, i + n) {
            Some((s, j)) => Some((seq![c] + s, j)),
            None => None,
        },
{
    reveal_with_fuel(read_chars, 1);
}

/// The escaped form of a text, then a closing quote, reads back as the
/// text.
proof fn lemma_read_chars(t: Text, i: int, s: Text)
    requires
        stands_at(t, i, escaped(s) + seq!['"']),
    ensures
        read_chars(t, i) == Some((s, i + escaped(s).len() + 1)),
    decreases s.len(),
{
    if s.len() == 0 {
        reveal_with_fuel(read_chars, 1);
        assert(escaped(s) + seq!['"'] =~= seq!['"']);
        assert(seq!['"'][0] == t[i]);
    } else {
        let c = s[0];
        let e = escape_char(c);
        let rest = s.drop_first();
        lemma_escaped_front(s);
        assert(escaped(s) + seq!['"'] =~= e + (escaped(rest) + seq!['"']));
        lemma_stands_at_split(t, i, e, escaped(rest) + seq!['"']);
        assert(e[0] == t[i]);
        assert(t[i] != '"');
        let tail = t.skip(i + e.len());
        assert(t.skip(i) =~= e + tail);
        lemma_json_char_of_escape(c, tail);
        lemma_read_chars(t, i + e.len(), rest);
        lemma_read_chars_step(t, i, c, e.len() as int);
        assert(seq![c] + rest =~= s);
    }
}

/// A JSON string of a text reads back as that text.
pub proof fn lemma_read_string(t: Text, i: int, s: Text, depth: nat)
    requires
        stands_at(t, i, json_string(s)),
    ensures
        read_string(t, i) == Some((s, i + json_string(s).len())),
        read_value(t, i, depth) == Some((Json::Str(s), i + json_string(s).len())),
{
    reveal(read_string);
    reveal_strlit("\"");
    assert(json_string(s) =~= seq!['"'] + (escaped(s) + seq!['"']));
    lemma_stands_at_split(t, i, seq!['"'], escaped(s) + seq!['"']);
    assert(seq!['"'][0] == t[i]);
    lemma_read_chars(t, i + 1, s);
}

/// Joining from the front: the first item, the separator, the rest joined.
proof fn lemma_join_front(xs: Seq<Text>, sep: Text)
    requires
        xs.len() >= 2,
    ensures
        join(xs, sep) == xs[0] + sep + join(xs.drop_first(), sep),
    decreases xs.len(),
{
    if xs.len() == 2 {
        assert(xs.drop_last().len() == 1);
        assert(xs.drop_first().len() == 1);
        assert(join(xs.drop_last(), sep) == xs[0]);
        assert(join(xs.drop_first(), sep) == xs[1]);
    } else {
        let init = xs.drop_last();
        lemma_join_front(init, sep);
        assert(init.drop_first() =~= xs.drop_first().drop_last());
        assert(xs.drop_first().last() == xs.last());
        assert(join(xs.drop_first(), sep) == join(xs.drop_first().drop_last(), sep) + sep + xs.last());
        assert(join(xs, sep) =~= xs[0] + sep + join(xs.drop_first(), sep));
    }
}

/// Values written one after another with a comma and a space between them,
/// then a closing bracket, read as the elements of an array.
proof fn lemma_read_joined(t: Text, i: int, xs: Seq<Text>, vs: Seq<Json>, depth: nat)
    requires
        xs.len() >= 1,
        xs.len() == vs.len(),
        stands_at(t, i, join(xs, seq![',', ' ']) + seq![']']),
        forall|k: int| 0 <= k < xs.len() ==> #[trigger] xs[k].len() > 0 && !is_space(xs[k][0]),
        forall|k: int, p: int|
            #![trigger stands_at(t, p, xs[k])]
            0 <= k < xs.len() && stands_at(t, p, xs[k]) ==> read_value(t, p, depth) == Some(
                (vs[k], p + xs[k].len()),
            ),
    ensures
        read_elements(t, i, depth) == Some((vs, i + join(xs, seq![',', ' ']).len() + 1)),
    decreases xs.len(),
{
    let sep = seq![',', ' '];
    let x = xs[0];
    assert(xs[0].len() > 0);
    if xs.len() == 1 {
        assert(join(xs, sep) == x);
        lemma_stands_at_split(t, i, x, seq![']']);
        assert(stands_at(t, i, xs[0]));
        assert(seq![']'][0] == t[i + x.len()]);
        lemma_skip_space(t, i + x.len(), Seq::empty());
        assert(seq![vs[0]] =~= vs);
    } else {
        let rest = xs.drop_first();
        lemma_join_front(xs, sep);
        assert(join(xs, sep) + seq![']'] =~= x + (sep + (join(rest, sep) + seq![']'])));
        lemma_stands_at_split(t, i, x, sep + (join(rest, sep) + seq![']']));
        lemma_stands_at_split(t, i + x.len(), sep, join(rest, sep) + seq![']']);
        assert(stands_at(t, i, xs[0]));
        let k = i + x.len();
        assert(sep[0] == t[k]);
        assert(sep[1] == t[k + 1]);
        lemma_skip_space(t, k, Seq::empty());
        assert(rest[0] == xs[1]);
        assert(xs[1].len() > 0 && !is_space(xs[1][0]));
        if rest.len() == 1 {
            assert(join(rest, sep) == rest[0]);
        } else {
            lemma_join_front(rest, sep);
        }
        lemma_stands_at_split(t, k + 2, join(rest, sep), seq![']']);
        assert(join(rest, sep)[0] == rest[0][0]);
        assert(join(rest, sep)[0] == t[k + 2]);
        assert(all_space(seq![' ']));
        lemma_stands_at_split(t, k, seq![','], seq![' '] + (join(rest, sep) + seq![']']));
        lemma_stands_at_split(t, k + 1, seq![' '], join(rest, sep) + seq![']']);
        lemma_skip_space(t, k + 1, seq![' ']);
        assert forall|kk: int| 0 <= kk < rest.len() implies #[trigger] rest[kk].len() > 0 && !is_space(rest[kk][0]) by {
            assert(rest[kk] == xs[kk + 1]);
        }
        assert forall|kk: int, p: int|
            #![trigger stands_at(t, p, rest[kk])]
            0 <= kk < rest.len() && stands_at(t, p, rest[kk]) implies read_value(t, p, depth) == Some(
                (vs.drop_first()[kk], p + rest[kk].len()),
            ) by {
            assert(rest[kk] == xs[kk + 1]);
            assert(stands_at(t, p, xs[kk + 1]));
        }
        lemma_read_joined(t, k + 2, rest, vs.drop_first(), depth);
        assert(seq![vs[0]] + vs.drop_first() =~= vs);
    }
}

/// An array of strings, as the report writes it.
pub open spec fn str_array(items: Seq<Text>) -> Json {
    Json::Array(Seq::new(items.len(), |k: int| Json::Str(items[k])))
}

/// An array of keys, each an array of its parts.
pub open spec fn key_array(keys: Seq<Record>) -> Json {
    Json::Array(Seq::new(keys.len(), |k: int| str_array(keys[k])))
}

pub proof fn lemma_read_str_array(t: Text, i: int, items: Seq<Text>, depth: nat)
    requires
        depth >= 1,
        stands_at(t, i, json_array(items)),
    ensures
        read_value(t, i, depth) == Some((str_array(items), i + json_array(items).len())),
{
    reveal_strlit("[]");
    reveal_strlit("[");
    reveal_strlit("]");
    reveal_strlit(", ");
    if items.len() == 0 {
        let w = json_array(items);
        assert(w == seq!['[', ']']);
        assert(w[0] == t[i]);
        assert(w[1] == t[i + 1]);
        lemma_skip_space(t, i + 1, Seq::empty());
        assert(Seq::new(items.len(), |k: int| Json::Str(items[k])) =~= Seq::<Json>::empty());
    } else {
        let xs = Seq::new(items.len(), |i: int| json_string(items[i]));
        let vs = Seq::new(items.len(), |k: int| Json::Str(items[k]));
        assert(", "@ =~= seq![',', ' ']);
        assert("["@ =~= seq!['[']);
        assert("]"@ =~= seq![']']);
        assert(json_array(items) =~= seq!['['] + (join(xs, seq![',', ' ']) + seq![']']));
        lemma_stands_at_split(t, i, seq!['['], join(xs, seq![',', ' ']) + seq![']']);
        assert(seq!['['][0] == t[i]);
        reveal_strlit("\"");
        assert forall|k: int| 0 <= k < xs.len() implies #[trigger] xs[k].len() > 0 && !is_space(xs[k][0]) by {
            assert(xs[k] =~= seq!['"'] + escaped(items[k]) + seq!['"']);
        }
        assert forall|k: int, p: int|
            #![trigger stands_at(t, p, xs[k])]
            0 <= k < xs.len() && stands_at(t, p, xs[k]) implies read_value(t, p, (depth - 1) as nat) == Some(
                (vs[k], p + xs[k].len()),
            ) by {
            lemma_read_string(t, p, items[k], (depth - 1) as nat);
        }
        if xs.len() == 1 {
            assert(join(xs, seq![',', ' ']) == xs[0]);
        } else {
            lemma_join_front(xs, seq![',', ' ']);
        }
        assert(join(xs, seq![',', ' '])[0] == xs[0][0]);
        assert(xs[0] =~= seq!['"'] + escaped(items[0]) + seq!['"']);
        assert(xs[0][0] == '"');
        assert((join(xs, seq![',', ' ']) + seq![']'])[0] == t[i + 1]);
        lemma_skip_space(t, i + 1, Seq::empty());
        lemma_read_joined(t, i + 1, xs, vs, (depth - 1) as nat);
    }
}

/// Values separated by a comma and white space, white space and the
/// closing bracket after the last.
pub open spec fn array_text(xs: Seq<Text>, gaps: Seq<Text>, post: Text) -> Text
    decreases xs.len(),
{
    if xs.len() == 0 {
        Seq::empty()
    } else if xs.len() == 1 {
        xs[0] + post + seq![']']
    } else {
        xs[0] + seq![','] + gaps[0] + array_text(xs.drop_first(), gaps.drop_first(), post)
    }
}

/// Values written as `array_text` lays them out read as an array's elements.
proof fn lemma_read_array_text(
    t: Text,
    i: int,
    xs: Seq<Text>,
    vs: Seq<Json>,
    gaps: Seq<Text>,
    post: Text,
    depth: nat,
)
    requires
        xs.len() >= 1,
        xs.len() == vs.len(),
        gaps.len() + 1 >= xs.len(),
        forall|k: int| 0 <= k < gaps.len() ==> all_space(#[trigger] gaps[k]),
        all_space(post),
        stands_at(t, i, array_text(xs, gaps, post)),
        forall|k: int| 0 <= k < xs.len() ==> #[trigger] xs[k].len() > 0 && !is_space(xs[k][0]),
        forall|k: int, p: int|
            #![trigger stands_at(t, p, xs[k])]
            0 <= k < xs.len() && stands_at(t, p, xs[k]) ==> read_value(t, p, depth) == Some(
                (vs[k], p + xs[k].len()),
            ),
    ensures
        read_elements(t, i, depth) == Some((vs, i + array_text(xs, gaps, post).len())),
    decreases xs.len(),
{
    let x = xs[0];
    assert(xs[0].len() > 0);
    if xs.len() == 1 {
        assert(array_text(xs, gaps, post) =~= x + (post + seq![']']));
        lemma_stands_at_split(t, i, x, post + seq![']']);
        lemma_stands_at_split(t, i + x.len(), post, seq![']']);
        assert(stands_at(t, i, xs[0]));
        assert(seq![']'][0] == t[i + x.len() + post.len()]);
        lemma_skip_space(t, i + x.len(), post);
        assert(seq![vs[0]] =~= vs);
    } else {
        let rest = xs.drop_first();
        let g = gaps[0];
        let after = array_text(rest, gaps.drop_first(), post);
        assert(array_text(xs, gaps, post) =~= x + (seq![','] + (g + after)));
        lemma_stands_at_split(t, i, x, seq![','] + (g + after));
        lemma_stands_at_split(t, i + x.len(), seq![','], g + after);
        lemma_stands_at_split(t, i + x.len() + 1, g, after);
        assert(stands_at(t, i, xs[0]));
        let k = i + x.len();
        assert(seq![','][0] == t[k]);
        lemma_skip_space(t, k, Seq::empty());
        assert(rest[0] == xs[1]);
        assert(xs[1].len() > 0 && !is_space(xs[1][0]));
        if rest.len() == 1 {
            assert(after =~= rest[0] + (post + seq![']']));
        } else {
            assert(after =~= rest[0] + (seq![','] + (gaps.drop_first()[0] + array_text(rest.drop_first(), gaps.drop_first().drop_first(), post))));
        }
        assert(after[0] == rest[0][0]);
        assert(after[0] == t[k + 1 + g.len()]);
        assert(all_space(gaps[0]));
        lemma_skip_space(t, k + 1, g);
        assert forall|kk: int| 0 <= kk < rest.len() implies #[trigger] rest[kk].len() > 0 && !is_space(rest[kk][0]) by {
            assert(rest[kk] == xs[kk + 1]);
        }
        assert forall|kk: int| 0 <= kk < gaps.drop_first().len() implies all_space(#[trigger] gaps.drop_first()[kk]) by {
            assert(gaps.drop_first()[kk] == gaps[kk + 1]);
        }
        assert forall|kk: int, p: int|
            #![trigger stands_at(t, p, rest[kk])]
            0 <= kk < rest.len() && stands_at(t, p, rest[kk]) implies read_value(t, p, depth) == Some(
                (vs.drop_first()[kk], p + rest[kk].len()),
            ) by {
            assert(rest[kk] == xs[kk + 1]);
            assert(stands_at(t, p, xs[kk + 1]));
        }
        lemma_read_array_text(t, k + 1 + g.len(), rest, vs.drop_first(), gaps.drop_first(), post, depth);
        assert(seq![vs[0]] + vs.drop_first() =~= vs);
    }
}

/// Members written `"name": value`, separated by a comma and white space,
/// white space and the closing brace after the last.
pub open spec fn object_text(names: Seq<Text>, xs: Seq<Text>, gaps: Seq<Text>, post: Text) -> Text
    decreases xs.len(),
{
    if xs.len() == 0 {
        Seq::empty()
    } else if xs.len() == 1 {
        json_string(names[0]) + seq![':', ' '] + xs[0] + post + seq!['}']
    } else {
        json_string(names[0]) + seq![':', ' '] + xs[0] + seq![','] + gaps[0] + object_text(
            names.drop_first(),
            xs.drop_first(),
            gaps.drop_first(),
            post,
        )
    }
}

pub open spec fn members(names: Seq<Text>, vs: Seq<Json>) -> Seq<(Text, Json)> {
    Seq::new(vs.len(), |k: int| (names[k], vs[k]))
}

/// Members written as `object_text` lays them out read as an object's
/// members.
#[verifier::rlimit(40)]
proof fn lemma_read_object_text(
    t: Text,
    i: int,
    names: Seq<Text>,
    xs: Seq<Text>,
    vs: Seq<Json>,
    gaps: Seq<Text>,
    post: Text,
    depth: nat,
)
    requires
        xs.len() >= 1,
        xs.len() == vs.len(),
        names.len() == xs.len(),
        gaps.len() + 1 >= xs.len(),
        forall|k: int| 0 <= k < gaps.len() ==> all_space(#[trigger] gaps[k]),
        all_space(post),
        stands_at(t, i, object_text(names, xs, gaps, post)),
        forall|k: int| 0 <= k < xs.len() ==> #[trigger] xs[k].len() > 0 && !is_space(xs[k][0]),
        forall|k: int, p: int|
            #![trigger stands_at(t, p, xs[k])]
            0 <= k < xs.len() && stands_at(t, p, xs[k]) && p + xs[k].len() < t.len() && ends_number(
                t[p + xs[k].len()],
            ) ==> read_value(t, p, depth) == Some(
                (vs[k], p + xs[k].len()),
            ),
    ensures
        read_members(t, i, depth) == Some((members(names, vs), i + object_text(names, xs, gaps, post).len())),
    decreases xs.len(),
{
    reveal_strlit("\"");
    let x = xs[0];
    let nm = json_string(names[0]);
    assert(xs[0].len() > 0);
    let tail = if xs.len() == 1 {
        post + seq!['}']
    } else {
        seq![','] + gaps[0] + object_text(names.drop_first(), xs.drop_first(), gaps.drop_first(), post)
    };
    assert(object_text(names, xs, gaps, post) =~= nm + (seq![':', ' '] + (x + tail)));
    lemma_stands_at_split(t, i, nm, seq![':', ' '] + (x + tail));
    lemma_stands_at_split(t, i + nm.len(), seq![':', ' '], x + tail);
    lemma_stands_at_split(t, i + nm.len() + 2, x, tail);
    lemma_read_string(t, i, names[0], depth);
    let j = i + nm.len();
    assert(seq![':', ' '][0] == t[j]);
    assert(seq![':', ' '][1] == t[j + 1]);
    lemma_skip_space(t, j, Seq::empty());
    assert(all_space(seq![' ']));
    lemma_stands_at_split(t, j + 1, seq![' '], x + tail);
    assert((x + tail)[0] == t[j + 2]);
    assert(x[0] == t[j + 2]);
    lemma_skip_space(t, j + 1, seq![' ']);
    assert(stands_at(t, j + 2, xs[0]));
    let p = j + 2 + x.len();
    assert(tail[0] == t[p]);
    assert(ends_number(tail[0])) by {
        if xs.len() == 1 {
            if post.len() > 0 {
                assert(is_space(post[0]));
            }
        }
    }
    if xs.len() == 1 {
        lemma_stands_at_split(t, p, post, seq!['}']);
        assert(seq!['}'][0] == t[p + post.len()]);
        lemma_skip_space(t, p, post);
        assert(members(names, vs) =~= seq![(names[0], vs[0])]);
    } else {
        let g = gaps[0];
        let n2 = names.drop_first();
        let rest = xs.drop_first();
        let after = object_text(n2, rest, gaps.drop_first(), post);
        assert(tail =~= seq![','] + (g + after));
        lemma_stands_at_split(t, p, seq![','], g + after);
        lemma_stands_at_split(t, p + 1, g, after);
        assert(seq![','][0] == t[p]);
        lemma_skip_space(t, p, Seq::empty());
        assert(json_string(n2[0]) =~= seq!['"'] + escaped(n2[0]) + seq!['"']);
        if rest.len() == 1 {
            assert(after =~= json_string(n2[0]) + (seq![':', ' '] + rest[0] + post + seq!['}']));
        } else {
            assert(after =~= json_string(n2[0]) + (seq![':', ' '] + rest[0] + seq![','] + gaps.drop_first()[0]
                + object_text(n2.drop_first(), rest.drop_first(), gaps.drop_first().drop_first(), post)));
        }
        assert(after[0] == '"');
        assert(after[0] == t[p + 1 + g.len()]);
        assert(all_space(gaps[0]));
        lemma_skip_space(t, p + 1, g);
        assert forall|kk: int| 0 <= kk < rest.len() implies #[trigger] rest[kk].len() > 0 && !is_space(rest[kk][0]) by {
            assert(rest[kk] == xs[kk + 1]);
        }
        assert forall|kk: int| 0 <= kk < gaps.drop_first().len() implies all_space(#[trigger] gaps.drop_first()[kk]) by {
            assert(gaps.drop_first()[kk] == gaps[kk + 1]);
        }
        assert forall|kk: int, q: int|
            #![trigger stands_at(t, q, rest[kk])]
            0 <= kk < rest.len() && stands_at(t, q, rest[kk]) && q + rest[kk].len() < t.len() && ends_number(
                t[q + rest[kk].len()],
            ) implies read_value(t, q, depth) == Some(
                (vs.drop_first()[kk], q + rest[kk].len()),
            ) by {
            assert(rest[kk] == xs[kk + 1]);
            assert(stands_at(t, q, xs[kk + 1]));
        }
        lemma_read_object_text(t, p + 1 + g.len(), n2, rest, vs.drop_first(), gaps.drop_first(), post, depth);
        assert(seq![(names[0], vs[0])] + members(n2, vs.drop_first()) =~= members(names, vs));
    }
}

/// A character a JSON string holds as it is.
pub open spec fn plain(c: char) -> bool {
    c != '"' && c != '\\' && (c as u32) >= 0x20
}

/// Text of plain characters is its own escaped form.
proof fn lemma_escaped_plain(s: Text)
    requires
        forall|i: int| 0 <= i < s.len() ==> plain(#[trigger] s[i]),
    ensures
        escaped(s) == s,
    decreases s.len(),
{
    if s.len() > 0 {
        assert forall|i: int| 0 <= i < s.drop_last().len() implies plain(#[trigger] s.drop_last()[i]) by {
            assert(s.drop_last()[i] == s[i]);
        }
        lemma_escaped_plain(s.drop_last());
        assert(plain(s[s.len() - 1]));
        assert(escape_char(s.last()) == seq![s.last()]);
        assert(s.drop_last().push(s.last()) =~= s);
    }
}

/// A changed field as JSON.
pub open spec fn field_json(f: FieldChange) -> Json {
    Json::Object(
        seq![
            ("column"@, Json::Str(f.0)),
            ("before"@, Json::Str(f.1)),
            ("after"@, Json::Str(f.2)),
        ],
    )
}

proof fn lemma_field_names()
    ensures
        escaped("column"@) == "column"@,
        escaped("before"@) == "before"@,
        escaped("after"@) == "after"@,
{
    reveal_strlit("column");
    reveal_strlit("before");
    reveal_strlit("after");
    lemma_escaped_plain("column"@);
    lemma_escaped_plain("before"@);
    lemma_escaped_plain("after"@);
}

/// The names, values and gaps of a field object.
pub open spec fn field_names() -> Seq<Text> {
    seq!["column"@, "before"@, "after"@]
}

pub open spec fn field_values(f: FieldChange) -> Seq<Text> {
    seq![json_string(f.0), json_string(f.1), json_string(f.2)]
}

/// The shape of a changed field's line, for any three escaped values.
proof fn lemma_field_shape(a: Text, b: Text, c: Text)
    ensures
        seq![' ', ' ', ' ', ' ', ' ', ' ', ' ', ' ', '{', ' ', '"', 'c', 'o', 'l', 'u', 'm', 'n', '"', ':', ' ', '"']
            + a + seq!['"', ',', ' ', '"', 'b', 'e', 'f', 'o', 'r', 'e', '"', ':', ' ', '"'] + b
            + seq!['"', ',', ' ', '"', 'a', 'f', 't', 'e', 'r', '"', ':', ' ', '"'] + c + seq!['"', ' ', '}']
            == seq![' ', ' ', ' ', ' ', ' ', ' ', ' ', ' '] + (seq!['{', ' '] + (
            seq!['"', 'c', 'o', 'l', 'u', 'm', 'n', '"'] + seq![':', ' '] + (seq!['"'] + a + seq!['"']) + seq![',']
                + seq![' '] + (seq!['"', 'b', 'e', 'f', 'o', 'r', 'e', '"'] + seq![':', ' '] + (seq!['"'] + b
                + seq!['"']) + seq![','] + seq![' '] + (seq!['"', 'a', 'f', 't', 'e', 'r', '"'] + seq![':', ' ']
                + (seq!['"'] + c + seq!['"']) + seq![' '] + seq!['}'])))),
{
    assert(seq![' ', ' ', ' ', ' ', ' ', ' ', ' ', ' ', '{', ' ', '"', 'c', 'o', 'l', 'u', 'm', 'n', '"', ':', ' ', '"']
        + a + seq!['"', ',', ' ', '"', 'b', 'e', 'f', 'o', 'r', 'e', '"', ':', ' ', '"'] + b
        + seq!['"', ',', ' ', '"', 'a', 'f', 't', 'e', 'r', '"', ':', ' ', '"'] + c + seq!['"', ' ', '}']
        =~= seq![' ', ' ', ' ', ' ', ' ', ' ', ' ', ' '] + (seq!['{', ' '] + (
        seq!['"', 'c', 'o', 'l', 'u', 'm', 'n', '"'] + seq![':', ' '] + (seq!['"'] + a + seq!['"']) + seq![',']
            + seq![' '] + (seq!['"', 'b', 'e', 'f', 'o', 'r', 'e', '"'] + seq![':', ' '] + (seq!['"'] + b
            + seq!['"']) + seq![','] + seq![' '] + (seq!['"', 'a', 'f', 't', 'e', 'r', '"'] + seq![':', ' ']
            + (seq!['"'] + c + seq!['"']) + seq![' '] + seq!['}'])))));
}

/// A changed field's line is an indent, then the object.
proof fn lemma_field_text(f: FieldChange)
    ensures
        json_field(f) == seq![' ', ' ', ' ', ' ', ' ', ' ', ' ', ' '] + (seq!['{', ' '] + object_text(
            field_names(),
            field_values(f),
            seq![seq![' '], seq![' ']],
            seq![' '],
        )),
{
    lemma_field_names();
    reveal_strlit("column");
    reveal_strlit("before");
    reveal_strlit("after");
    reveal_strlit("        { \"column\": \"");
    reveal_strlit("\", \"before\": \"");
    reveal_strlit("\", \"after\": \"");
    reveal_strlit("\" }");
    reveal_strlit("\"");
    let names = field_names();
    let xs = field_values(f);
    let gaps = seq![seq![' '], seq![' ']];
    let (a, b, c) = (escaped(f.0), escaped(f.1), escaped(f.2));
    lemma_field_shape(a, b, c);
    assert(json_string("column"@) == seq!['"', 'c', 'o', 'l', 'u', 'm', 'n', '"']);
    assert(json_string("before"@) == seq!['"', 'b', 'e', 'f', 'o', 'r', 'e', '"']);
    assert(json_string("after"@) == seq!['"', 'a', 'f', 't', 'e', 'r', '"']);
    assert(json_string(f.0) == seq!['"'] + a + seq!['"']);
    assert(json_string(f.1) == seq!['"'] + b + seq!['"']);
    assert(json_string(f.2) == seq!['"'] + c + seq!['"']);
    assert(names.drop_first().drop_first() =~= seq!["after"@]);
    assert(xs.drop_first().drop_first() =~= seq![json_string(f.2)]);
    assert(names.drop_first() =~= seq!["before"@, "after"@]);
    assert(xs.drop_first() =~= seq![json_string(f.1), json_string(f.2)]);
    assert(gaps.drop_first() =~= seq![seq![' ']]);
    assert("        { \"column\": \""@ =~= seq![' ', ' ', ' ', ' ', ' ', ' ', ' ', ' ', '{', ' ', '"', 'c', 'o', 'l', 'u', 'm', 'n', '"', ':', ' ', '"']);
    assert("\", \"before\": \""@ =~= seq!['"', ',', ' ', '"', 'b', 'e', 'f', 'o', 'r', 'e', '"', ':', ' ', '"']);
    assert("\", \"after\": \""@ =~= seq!['"', ',', ' ', '"', 'a', 'f', 't', 'e', 'r', '"', ':', ' ', '"']);
    assert("\" }"@ =~= seq!['"', ' ', '}']);
    let r3 = object_text(names.drop_first().drop_first(), xs.drop_first().drop_first(), gaps.drop_first().drop_first(), seq![' ']);
    assert(r3 == json_string("after"@) + seq![':', ' '] + json_string(f.2) + seq![' '] + seq!['}']);
    let r2 = object_text(names.drop_first(), xs.drop_first(), gaps.drop_first(), seq![' ']);
    assert(r2 == json_string("before"@) + seq![':', ' '] + json_string(f.1) + seq![','] + seq![' '] + r3);
    assert(object_text(names, xs, gaps, seq![' ']) == json_string("column"@) + seq![':', ' '] + json_string(f.0) + seq![','] + seq![' '] + r2);
}

/// A changed field's line reads, after its indent, as the field object.
proof fn lemma_read_field(t: Text, i: int, f: FieldChange, depth: nat)
    requires
        depth >= 1,
        stands_at(t, i, json_field(f).skip(8)),
    ensures
        read_value(t, i, depth) == Some((field_json(f), i + json_field(f).len() - 8)),
{
    lemma_field_text(f);
    reveal_strlit("\"");
    let names = field_names();
    let xs = field_values(f);
    let vs = seq![Json::Str(f.0), Json::Str(f.1), Json::Str(f.2)];
    let gaps = seq![seq![' '], seq![' ']];
    let body = object_text(names, xs, gaps, seq![' ']);
    assert(json_field(f).skip(8) =~= seq!['{', ' '] + body);
    lemma_stands_at_split(t, i, seq!['{', ' '], body);
    assert(seq!['{', ' '][0] == t[i]);
    assert(seq!['{', ' '][1] == t[i + 1]);
    assert(json_string(names[0])[0] == '"');
    assert(body[0] == t[i + 2]);
    lemma_skip_space(t, i + 1, seq![' ']);
    assert forall|k: int| 0 <= k < xs.len() implies #[trigger] xs[k].len() > 0 && !is_space(xs[k][0]) by {
        assert(xs[k][0] == '"');
    }
    assert forall|k: int, p: int|
        #![trigger stands_at(t, p, xs[k])]
        0 <= k < xs.len() && stands_at(t, p, xs[k]) implies read_value(t, p, (depth - 1) as nat) == Some(
            (vs[k], p + xs[k].len()),
        ) by {
        if k == 0 {
            lemma_read_string(t, p, f.0, (depth - 1) as nat);
        } else if k == 1 {
            lemma_read_string(t, p, f.1, (depth - 1) as nat);
        } else {
            lemma_read_string(t, p, f.2, (depth - 1) as nat);
        }
    }
    assert forall|k: int| 0 <= k < gaps.len() implies all_space(#[trigger] gaps[k]) by {}
    lemma_read_object_text(t, i + 2, names, xs, vs, gaps, seq![' '], (depth - 1) as nat);
    assert(members(names, vs) =~= field_json(f)->Object_0);
}

pub proof fn lemma_read_key_array(t: Text, i: int, keys: Seq<Record>, depth: nat)
    requires
        depth >= 2,
        stands_at(t, i, json_key_array(keys)),
    ensures
        read_value(t, i, depth) == Some((key_array(keys), i + json_key_array(keys).len())),
{
    reveal_strlit("[]");
    reveal_strlit("[");
    reveal_strlit("]");
    reveal_strlit(", ");
    if keys.len() == 0 {
        let w = json_key_array(keys);
        assert(w == seq!['[', ']']);
        assert(w[0] == t[i]);
        assert(w[1] == t[i + 1]);
        lemma_skip_space(t, i + 1, Seq::empty());
        assert(Seq::new(keys.len(), |k: int| str_array(keys[k])) =~= Seq::<Json>::empty());
    } else {
        let xs = Seq::new(keys.len(), |i: int| json_array(keys[i]));
        let vs = Seq::new(keys.len(), |k: int| str_array(keys[k]));
        assert(", "@ =~= seq![',', ' ']);
        assert("["@ =~= seq!['[']);
        assert("]"@ =~= seq![']']);
        assert(json_key_array(keys) =~= seq!['['] + (join(xs, seq![',', ' ']) + seq![']']));
        lemma_stands_at_split(t, i, seq!['['], join(xs, seq![',', ' ']) + seq![']']);
        assert(seq!['['][0] == t[i]);
        assert forall|k: int| 0 <= k < xs.len() implies #[trigger] xs[k].len() > 0 && !is_space(xs[k][0]) by {
            if keys[k].len() == 0 {
                assert(xs[k] == seq!['[', ']']);
            } else {
                assert(xs[k] =~= seq!['['] + (join(Seq::new(keys[k].len(), |i: int| json_string(keys[k][i])), seq![',', ' ']) + seq![']']));
            }
            assert(xs[k][0] == '[');
        }
        assert forall|k: int, p: int|
            #![trigger stands_at(t, p, xs[k])]
            0 <= k < xs.len() && stands_at(t, p, xs[k]) implies read_value(t, p, (depth - 1) as nat) == Some(
                (vs[k], p + xs[k].len()),
            ) by {
            lemma_read_str_array(t, p, keys[k], (depth - 1) as nat);
        }
        if xs.len() == 1 {
            assert(join(xs, seq![',', ' ']) == xs[0]);
        } else {
            lemma_join_front(xs, seq![',', ' ']);
        }
        assert(join(xs, seq![',', ' '])[0] == xs[0][0]);
        assert(xs[0][0] == '[');
        assert((join(xs, seq![',', ' ']) + seq![']'])[0] == t[i + 1]);
        lemma_skip_space(t, i + 1, Seq::empty());
        lemma_read_joined(t, i + 1, xs, vs, (depth - 1) as nat);
    }
}

/// `listing` from the front: the first item, its comma if more follow, a
/// line feed, then the rest.
proof fn lemma_listing_front(items: Seq<Text>, m: int)
    requires
        1 <= m <= items.len(),
    ensures
        listing(items, m) == items[0] + (if 1 < items.len() { seq![','] } else { Seq::empty() }) + seq!['\n']
            + listing(items.drop_first(), m - 1),
    decreases m,
{
    reveal_strlit(",");
    reveal_strlit("\n");
    assert(","@ =~= seq![',']);
    assert("\n"@ =~= seq!['\n']);
    if m == 1 {
        assert(listing(items.drop_first(), 0) =~= Seq::<char>::empty());
        assert(listing(items, 0) =~= Seq::<char>::empty());
        assert(listing(items, 1) =~= items[0] + (if 1 < items.len() { seq![','] } else { Seq::empty() }) + seq!['\n']
            + listing(items.drop_first(), 0));
    } else {
        lemma_listing_front(items, m - 1);
        let df = items.drop_first();
        assert(df[m - 2] == items[m - 1]);
        assert(listing(df, m - 1) == listing(df, m - 2) + df[m - 2] + (if m - 1 < df.len() { ","@ } else { Seq::empty() }) + "\n"@);
        assert(listing(items, m) =~= items[0] + (if 1 < items.len() { seq![','] } else { Seq::empty() }) + seq!['\n']
            + listing(df, m - 1));
    }
}

/// The gaps of a listing: a line feed and the indent before each item but
/// the first.
pub open spec fn listing_gaps(n: int, indent: Text) -> Seq<Text> {
    Seq::new((if n > 0 { n - 1 } else { 0 }) as nat, |k: int| seq!['\n'] + indent)
}

/// Items written one to a line, each an indent and a value, and an indented
/// closing bracket, lay the values out as an array.
proof fn lemma_listing_array(items: Seq<Text>, xs: Seq<Text>, indent: Text, post: Text)
    requires
        items.len() >= 1,
        items.len() == xs.len(),
        forall|k: int| 0 <= k < items.len() ==> #[trigger] items[k] == indent + xs[k],
    ensures
        listing(items, items.len() as int) + post + seq![']'] == indent + array_text(
            xs,
            listing_gaps(items.len() as int, indent),
            seq!['\n'] + post,
        ),
    decreases items.len(),
{
    lemma_listing_front(items, items.len() as int);
    assert(items[0] == indent + xs[0]);
    if items.len() == 1 {
        assert(listing(items.drop_first(), 0) =~= Seq::<char>::empty());
        assert(listing(items, 1) + post + seq![']'] =~= indent + array_text(
            xs,
            listing_gaps(1, indent),
            seq!['\n'] + post,
        ));
    } else {
        let df = items.drop_first();
        assert forall|k: int| 0 <= k < df.len() implies #[trigger] df[k] == indent + xs.drop_first()[k] by {
            assert(df[k] == items[k + 1]);
        }
        lemma_listing_array(df, xs.drop_first(), indent, post);
        let g = listing_gaps(items.len() as int, indent);
        assert(g.drop_first() =~= listing_gaps(df.len() as int, indent));
        assert(array_text(xs, g, seq!['\n'] + post) == xs[0] + seq![','] + g[0] + array_text(
            xs.drop_first(),
            g.drop_first(),
            seq!['\n'] + post,
        ));
        let rest_text = listing(df, df.len() as int);
        assert(listing(items, items.len() as int) == items[0] + seq![','] + seq!['\n'] + rest_text);
        assert(rest_text + post + seq![']'] == indent + array_text(
            xs.drop_first(),
            g.drop_first(),
            seq!['\n'] + post,
        ));
        assert(g[0] == seq!['\n'] + indent);
        let at = array_text(xs.drop_first(), g.drop_first(), seq!['\n'] + post);
        let a = rest_text + post + seq![']'];
        assert(listing(items, items.len() as int) + post + seq![']'] =~= indent + xs[0] + seq![','] + seq!['\n'] + a);
        assert(a == indent + at);
        assert(indent + xs[0] + seq![','] + seq!['\n'] + (indent + at) =~= indent + (xs[0] + seq![','] + (seq!['\n'] + indent) + at));
        assert(array_text(xs, g, seq!['\n'] + post) == xs[0] + seq![','] + g[0] + at);
    }
}

pub open spec fn field_lines(fields: Seq<FieldChange>) -> Seq<Text> {
    Seq::new(fields.len(), |j: int| json_field(fields[j]))
}

/// A change's fields as they stand after `"fields": `.
pub open spec fn fields_text(fields: Seq<FieldChange>) -> Text {
    seq!['[', '\n'] + listing(field_lines(fields), fields.len() as int) + seq![' ', ' ', ' ', ' ', ' ', ' ', ']']
}

pub open spec fn fields_json(fields: Seq<FieldChange>) -> Json {
    Json::Array(Seq::new(fields.len(), |j: int| field_json(fields[j])))
}

pub open spec fn spaces(n: nat) -> Text {
    Seq::new(n, |k: int| ' ')
}

proof fn lemma_spaces(n: nat)
    ensures
        all_space(spaces(n)),
{
}

/// Each field object, wherever it stands, reads as the field.
proof fn lemma_field_objects(t: Text, fields: Seq<FieldChange>, depth: nat)
    requires
        depth >= 1,
    ensures
        ({
            let objs = Seq::new(fields.len(), |j: int| json_field(fields[j]).skip(8));
            let vs = Seq::new(fields.len(), |j: int| field_json(fields[j]));
            &&& forall|k: int| 0 <= k < objs.len() ==> #[trigger] objs[k].len() > 0 && !is_space(objs[k][0])
            &&& forall|k: int, p: int|
                #![trigger stands_at(t, p, objs[k])]
                0 <= k < objs.len() && stands_at(t, p, objs[k]) ==> read_value(t, p, depth) == Some(
                    (vs[k], p + objs[k].len()),
                )
        }),
{
    let objs = Seq::new(fields.len(), |j: int| json_field(fields[j]).skip(8));
    let vs = Seq::new(fields.len(), |j: int| field_json(fields[j]));
    assert forall|k: int| 0 <= k < objs.len() implies #[trigger] objs[k].len() > 0 && !is_space(objs[k][0]) by {
        lemma_field_text(fields[k]);
        assert(objs[k] =~= seq!['{', ' '] + object_text(field_names(), field_values(fields[k]), seq![seq![' '], seq![' ']], seq![' ']));
    }
    assert forall|k: int, p: int|
        #![trigger stands_at(t, p, objs[k])]
        0 <= k < objs.len() && stands_at(t, p, objs[k]) implies read_value(t, p, depth) == Some(
            (vs[k], p + objs[k].len()),
        ) by {
        lemma_field_text(fields[k]);
        lemma_read_field(t, p, fields[k], depth);
    }
}

proof fn lemma_read_fields(t: Text, i: int, fields: Seq<FieldChange>, depth: nat)
    requires
        depth >= 2,
        stands_at(t, i, fields_text(fields)),
    ensures
        read_value(t, i, depth) == Some((fields_json(fields), i + fields_text(fields).len())),
{
    let n = fields.len();
    let six = seq![' ', ' ', ' ', ' ', ' ', ' '];
    let eight = seq![' ', ' ', ' ', ' ', ' ', ' ', ' ', ' '];
    assert(six =~= spaces(6));
    assert(eight =~= spaces(8));
    lemma_spaces(6);
    lemma_spaces(8);
    assert(fields_text(fields) =~= seq!['['] + (listing(field_lines(fields), n as int) + six + seq![']']).insert(0, '\n'));
    assert(fields_text(fields) =~= seq!['['] + (seq!['\n'] + (listing(field_lines(fields), n as int) + six + seq![']'])));
    lemma_stands_at_split(t, i, seq!['['], seq!['\n'] + (listing(field_lines(fields), n as int) + six + seq![']']));
    assert(seq!['['][0] == t[i]);
    if n == 0 {
        assert(listing(field_lines(fields), 0) =~= Seq::<char>::empty());
        let w = seq!['\n'] + six;
        assert(seq!['\n'] + (listing(field_lines(fields), 0) + six + seq![']']) =~= w + seq![']']);
        lemma_stands_at_split(t, i + 1, w, seq![']']);
        assert(all_space(w));
        assert(seq![']'][0] == t[i + 1 + w.len()]);
        lemma_skip_space(t, i + 1, w);
        assert(Seq::new(fields.len(), |j: int| field_json(fields[j])) =~= Seq::<Json>::empty());
    } else {
        let lines = field_lines(fields);
        let objs = Seq::new(n, |j: int| json_field(fields[j]).skip(8));
        let vs = Seq::new(n, |j: int| field_json(fields[j]));
        assert forall|k: int| 0 <= k < lines.len() implies #[trigger] lines[k] == eight + objs[k] by {
            lemma_field_text(fields[k]);
            assert(json_field(fields[k]) =~= eight + json_field(fields[k]).skip(8));
        }
        lemma_listing_array(lines, objs, eight, six);
        let gaps = listing_gaps(n as int, eight);
        let at = array_text(objs, gaps, seq!['\n'] + six);
        assert(seq!['\n'] + (listing(lines, n as int) + six + seq![']']) =~= (seq!['\n'] + eight) + at);
        lemma_stands_at_split(t, i + 1, seq!['\n'] + eight, at);
        lemma_field_text(fields[0]);
        assert(objs[0] =~= seq!['{', ' '] + object_text(field_names(), field_values(fields[0]), seq![seq![' '], seq![' ']], seq![' ']));
        assert(objs[0][0] == '{');
        if n == 1 {
            assert(at =~= objs[0] + (seq!['\n'] + six) + seq![']']);
        } else {
            assert(at =~= objs[0] + seq![','] + gaps[0] + array_text(objs.drop_first(), gaps.drop_first(), seq!['\n'] + six));
        }
        assert(at[0] == t[i + 1 + 9]);
        assert(all_space(seq!['\n'] + eight));
        lemma_skip_space(t, i + 1, seq!['\n'] + eight);
        assert forall|k: int| 0 <= k < gaps.len() implies all_space(#[trigger] gaps[k]) by {
            assert(gaps[k] == seq!['\n'] + eight);
        }
        assert(all_space(seq!['\n'] + six));
        lemma_field_objects(t, fields, (depth - 1) as nat);
        lemma_read_array_text(t, i + 10, objs, vs, gaps, seq!['\n'] + six, (depth - 1) as nat);
    }
}

pub open spec fn change_names() -> Seq<Text> {
    seq!["key"@, "fields"@]
}

pub open spec fn change_values(c: ChangeModel) -> Seq<Text> {
    seq![json_array(c.key), fields_text(c.fields)]
}

/// A change as JSON: its key parts and its fields.
pub open spec fn change_json(c: ChangeModel) -> Json {
    Json::Object(seq![("key"@, str_array(c.key)), ("fields"@, fields_json(c.fields))])
}

/// A change's lines are an indent, then the object.
#[verifier::rlimit(60)]
proof fn lemma_change_text(c: ChangeModel)
    ensures
        json_change(c) == seq![' ', ' ', ' ', ' '] + (seq!['{', '\n', ' ', ' ', ' ', ' ', ' ', ' '] + object_text(
            change_names(),
            change_values(c),
            seq![seq!['\n', ' ', ' ', ' ', ' ', ' ', ' ']],
            seq!['\n', ' ', ' ', ' ', ' '],
        )),
{
    reveal_strlit("key");
    reveal_strlit("fields");
    reveal_strlit("    {\n");
    reveal_strlit("      \"key\": ");
    reveal_strlit(",\n");
    reveal_strlit("      \"fields\": [\n");
    reveal_strlit("      ]\n    }");
    reveal_strlit("\"");
    lemma_escaped_plain("key"@);
    lemma_escaped_plain("fields"@);
    let ja = json_array(c.key);
    let l = listing(field_lines(c.fields), c.fields.len() as int);
    let last = object_text(seq!["fields"@], seq![fields_text(c.fields)], Seq::empty(), seq!['\n', ' ', ' ', ' ', ' ']);
    assert(last =~= json_string("fields"@) + seq![':', ' '] + fields_text(c.fields) + seq!['\n', ' ', ' ', ' ', ' '] + seq!['}']);
    assert(change_names().drop_first() =~= seq!["fields"@]);
    assert(change_values(c).drop_first() =~= seq![fields_text(c.fields)]);
    assert(seq![seq!['\n', ' ', ' ', ' ', ' ', ' ', ' ']].drop_first() =~= Seq::<Text>::empty());
    let body = object_text(change_names(), change_values(c), seq![seq!['\n', ' ', ' ', ' ', ' ', ' ', ' ']], seq!['\n', ' ', ' ', ' ', ' ']);
    assert(body == json_string("key"@) + seq![':', ' '] + ja + seq![','] + seq!['\n', ' ', ' ', ' ', ' ', ' ', ' '] + last);
    assert(json_string("key"@) =~= seq!['"', 'k', 'e', 'y', '"']);
    assert(json_string("fields"@) =~= seq!['"', 'f', 'i', 'e', 'l', 'd', 's', '"']);
    assert(json_change(c) =~= seq![' ', ' ', ' ', ' '] + (seq!['{', '\n', ' ', ' ', ' ', ' ', ' ', ' '] + body));
}

proof fn lemma_read_change(t: Text, i: int, c: ChangeModel, depth: nat)
    requires
        depth >= 3,
        stands_at(t, i, json_change(c).skip(4)),
    ensures
        read_value(t, i, depth) == Some((change_json(c), i + json_change(c).len() - 4)),
{
    lemma_change_text(c);
    reveal_strlit("\"");
    let names = change_names();
    let xs = change_values(c);
    let vs = seq![str_array(c.key), fields_json(c.fields)];
    let gaps = seq![seq!['\n', ' ', ' ', ' ', ' ', ' ', ' ']];
    let post = seq!['\n', ' ', ' ', ' ', ' '];
    let body = object_text(names, xs, gaps, post);
    let open = seq!['{', '\n', ' ', ' ', ' ', ' ', ' ', ' '];
    assert(json_change(c).skip(4) =~= open + body);
    lemma_stands_at_split(t, i, open, body);
    assert(open[0] == t[i]);
    assert(json_string(names[0])[0] == '"');
    assert(body[0] == t[i + 8]);
    lemma_stands_at_split(t, i, seq!['{'], open.drop_first() + body);
    lemma_stands_at_split(t, i + 1, open.drop_first(), body);
    assert(all_space(open.drop_first()));
    lemma_skip_space(t, i + 1, open.drop_first());
    assert(xs[0] == json_array(c.key));
    assert(json_array(c.key).len() > 0 && json_array(c.key)[0] == '[') by {
        reveal_strlit("[]");
        reveal_strlit("[");
        reveal_strlit("]");
        reveal_strlit(", ");
        if c.key.len() == 0 {
            assert(json_array(c.key) =~= seq!['[', ']']);
        } else {
            assert(json_array(c.key) =~= seq!['['] + (join(Seq::new(c.key.len(), |i: int| json_string(c.key[i])), ", "@) + "]"@));
        }
    }
    assert(xs[1] == fields_text(c.fields));
    assert(xs[1].len() > 0 && xs[1][0] == '[');
    assert forall|k: int| 0 <= k < xs.len() implies #[trigger] xs[k].len() > 0 && !is_space(xs[k][0]) by {}
    assert forall|k: int, p: int|
        #![trigger stands_at(t, p, xs[k])]
        0 <= k < xs.len() && stands_at(t, p, xs[k]) implies read_value(t, p, (depth - 1) as nat) == Some(
            (vs[k], p + xs[k].len()),
        ) by {
        if k == 0 {
            lemma_read_str_array(t, p, c.key, (depth - 1) as nat);
        } else {
            lemma_read_fields(t, p, c.fields, (depth - 1) as nat);
        }
    }
    assert(all_space(gaps[0]));
    assert forall|k: int| 0 <= k < gaps.len() implies all_space(#[trigger] gaps[k]) by {}
    assert(all_space(post));
    lemma_read_object_text(t, i + 8, names, xs, vs, gaps, post, (depth - 1) as nat);
    assert(members(names, vs) =~= change_json(c)->Object_0);
}

pub open spec fn changes_json(cs: Seq<ChangeModel>) -> Json {
    Json::Array(Seq::new(cs.len(), |k: int| change_json(cs[k])))
}

/// Each change object, wherever it stands, reads as the change.
proof fn lemma_change_objects(t: Text, cs: Seq<ChangeModel>, depth: nat)
    requires
        depth >= 3,
    ensures
        ({
            let objs = Seq::new(cs.len(), |j: int| json_change(cs[j]).skip(4));
            let vs = Seq::new(cs.len(), |j: int| change_json(cs[j]));
            &&& forall|k: int| 0 <= k < objs.len() ==> #[trigger] objs[k].len() > 0 && !is_space(objs[k][0])
            &&& forall|k: int, p: int|
                #![trigger stands_at(t, p, objs[k])]
                0 <= k < objs.len() && stands_at(t, p, objs[k]) ==> read_value(t, p, depth) == Some(
                    (vs[k], p + objs[k].len()),
                )
        }),
{
    let objs = Seq::new(cs.len(), |j: int| json_change(cs[j]).skip(4));
    let vs = Seq::new(cs.len(), |j: int| change_json(cs[j]));
    assert forall|k: int| 0 <= k < objs.len() implies #[trigger] objs[k].len() > 0 && !is_space(objs[k][0]) by {
        lemma_change_text(cs[k]);
        let body = object_text(change_names(), change_values(cs[k]), seq![seq!['\n', ' ', ' ', ' ', ' ', ' ', ' ']], seq!['\n', ' ', ' ', ' ', ' ']);
        assert(objs[k] =~= seq!['{', '\n', ' ', ' ', ' ', ' ', ' ', ' '] + body);
    }
    assert forall|k: int, p: int|
        #![trigger stands_at(t, p, objs[k])]
        0 <= k < objs.len() && stands_at(t, p, objs[k]) implies read_value(t, p, depth) == Some(
            (vs[k], p + objs[k].len()),
        ) by {
        lemma_change_text(cs[k]);
        lemma_read_change(t, p, cs[k], depth);
    }
}

pub open spec fn change_objects(cs: Seq<ChangeModel>) -> Seq<Text> {
    Seq::new(cs.len(), |j: int| json_change(cs[j]).skip(4))
}

/// The changes array laid out as `array_text`.
#[verifier::rlimit(40)]
proof fn lemma_changes_text(cs: Seq<ChangeModel>)
    requires
        cs.len() > 0,
    ensures
        json_changes(cs) == seq!['['] + ((seq!['\n', ' ', ' ', ' ', ' ']) + array_text(
            change_objects(cs),
            listing_gaps(cs.len() as int, seq![' ', ' ', ' ', ' ']),
            seq!['\n', ' ', ' '],
        )),
{
    reveal_strlit("[\n");
    reveal_strlit("  ]");
    let n = cs.len();
    let two = seq![' ', ' '];
    let four = seq![' ', ' ', ' ', ' '];
    let lines = Seq::new(n, |i: int| json_change(cs[i]));
    let objs = change_objects(cs);
    assert forall|k: int| 0 <= k < lines.len() implies #[trigger] lines[k] == four + objs[k] by {
        lemma_change_text(cs[k]);
        assert(json_change(cs[k]) =~= four + json_change(cs[k]).skip(4));
    }
    lemma_listing_array(lines, objs, four, two);
    let at = array_text(objs, listing_gaps(n as int, four), seq!['\n'] + two);
    assert(seq!['\n'] + two =~= seq!['\n', ' ', ' ']);
    assert(json_changes(cs) =~= seq!['['] + (seq!['\n'] + (listing(lines, n as int) + two + seq![']'])));
    assert(listing(lines, n as int) + two + seq![']'] == four + at);
    assert(seq!['\n'] + (four + at) =~= seq!['\n', ' ', ' ', ' ', ' '] + at);
}

#[verifier::rlimit(80)]
pub proof fn lemma_read_changes(t: Text, i: int, cs: Seq<ChangeModel>, depth: nat)
    requires
        depth >= 4,
        stands_at(t, i, json_changes(cs)),
    ensures
        read_value(t, i, depth) == Some((changes_json(cs), i + json_changes(cs).len())),
{
    let n = cs.len();
    if n == 0 {
        reveal_strlit("[]");
        let w = json_changes(cs);
        assert(w == seq!['[', ']']);
        assert(w[0] == t[i]);
        assert(w[1] == t[i + 1]);
        lemma_skip_space(t, i + 1, Seq::empty());
        assert(Seq::new(cs.len(), |k: int| change_json(cs[k])) =~= Seq::<Json>::empty());
    } else {
        let two = seq![' ', ' '];
        let four = seq![' ', ' ', ' ', ' '];
        let objs = change_objects(cs);
        let vs = Seq::new(n, |j: int| change_json(cs[j]));
        let gaps = listing_gaps(n as int, four);
        let post = seq!['\n', ' ', ' '];
        let at = array_text(objs, gaps, post);
        let lead = seq!['\n', ' ', ' ', ' ', ' '];
        lemma_changes_text(cs);
        lemma_stands_at_split(t, i, seq!['['], lead + at);
        assert(seq!['['][0] == t[i]);
        lemma_stands_at_split(t, i + 1, lead, at);
        lemma_change_objects(t, cs, (depth - 1) as nat);
        assert(objs[0].len() > 0 && !is_space(objs[0][0]));
        lemma_change_text(cs[0]);
        assert(objs[0][0] == json_change(cs[0])[4]);
        assert(objs[0][0] == '{');
        assert(vs =~= changes_json(cs)->Array_0);
        if n == 1 {
            assert(at =~= objs[0] + post + seq![']']);
        } else {
            assert(at =~= objs[0] + seq![','] + gaps[0] + array_text(objs.drop_first(), gaps.drop_first(), post));
        }
        assert(at[0] == t[i + 1 + 5]);
        assert(all_space(lead));
        lemma_skip_space(t, i + 1, lead);
        assert forall|k: int| 0 <= k < gaps.len() implies all_space(#[trigger] gaps[k]) by {
            assert(gaps[k] == seq!['\n'] + four);
        }
        assert(all_space(post));
        lemma_read_array_text(t, i + 6, objs, vs, gaps, post, (depth - 1) as nat);
    }
}

/// `true` or `false` reads as that truth value.
proof fn lemma_read_bool(t: Text, p: int, b: bool, depth: nat)
    requires
        stands_at(t, p, bool_text(b)),
    ensures
        read_value(t, p, depth) == Some((Json::Bool(b), p + bool_text(b).len())),
{
    reveal(word_at);
    reveal_strlit("true");
    reveal_strlit("false");
    let w = bool_text(b);
    assert(w[0] == t[p]);
    assert(t.subrange(p, p + w.len()) =~= w);
    if !b {
        assert(t.subrange(p, p + 4)[0] == 'f');
    }
}

/// The digits of a number are digits, and only zero starts with `0`.
proof fn lemma_decimal_digits(n: nat)
    ensures
        decimal(n).len() >= 1,
        forall|j: int| 0 <= j < decimal(n).len() ==> is_digit(#[trigger] decimal(n)[j]),
        n > 0 ==> decimal(n)[0] != '0',
        decimal(n)[0] == '0' ==> decimal(n).len() == 1,
    decreases n,
{
    if n >= 10 {
        lemma_decimal_digits(n / 10);
        let d = decimal(n / 10);
        assert(decimal(n) == d.push(digit_char(n % 10)));
        assert forall|j: int| 0 <= j < decimal(n).len() implies is_digit(#[trigger] decimal(n)[j]) by {
            if j < d.len() {
                assert(decimal(n)[j] == d[j]);
            }
        }
        assert(decimal(n)[0] == d[0]);
    }
}

/// A run of digits is skipped up to the next character that is not one.
proof fn lemma_skip_digits(t: Text, i: int, w: Text)
    requires
        stands_at(t, i, w),
        forall|j: int| 0 <= j < w.len() ==> is_digit(#[trigger] w[j]),
        i + w.len() < t.len() ==> !is_digit(t[i + w.len()]),
    ensures
        skip_digits(t, i) == i + w.len(),
    decreases w.len(),
{
    reveal_with_fuel(skip_digits, 1);
    if w.len() > 0 {
        assert(w[0] == t[i]);
        lemma_stands_at_split(t, i, seq![w[0]], w.drop_first());
        assert(seq![w[0]] + w.drop_first() =~= w);
        assert forall|j: int| 0 <= j < w.drop_first().len() implies is_digit(#[trigger] w.drop_first()[j]) by {
            assert(w.drop_first()[j] == w[j + 1]);
        }
        lemma_skip_digits(t, i + 1, w.drop_first());
    }
}

/// A count reads as a number, when what follows cannot continue it.
proof fn lemma_read_decimal(t: Text, p: int, n: nat, depth: nat)
    requires
        stands_at(t, p, decimal(n)),
        p + decimal(n).len() < t.len(),
        ends_number(t[p + decimal(n).len()]),
    ensures
        read_value(t, p, depth) == Some((Json::Number(decimal(n)), p + decimal(n).len())),
{
    reveal(word_at);
    reveal(number_end);
    reveal_strlit("true");
    reveal_strlit("false");
    reveal_strlit("null");
    lemma_decimal_digits(n);
    let w = decimal(n);
    let e = p + w.len();
    assert(w[0] == t[p]);
    assert(is_digit(w[0]));
    if p + 4 <= t.len() {
        assert(t.subrange(p, p + 4)[0] == t[p]);
    }
    if p + 5 <= t.len() {
        assert(t.subrange(p, p + 5)[0] == t[p]);
    }
    if t[p] == '0' {
        assert(w.len() == 1);
    } else {
        lemma_skip_digits(t, p, w);
    }
    assert(t.subrange(p, e) =~= w);
}

/// The last member line of the report: no comma after it.
pub open spec fn last_line(name: Text, value: Text) -> Text {
    "  \""@ + name + "\": "@ + value + "\n"@
}

/// Member lines, each but the last ending in a comma.
pub open spec fn lines_text(names: Seq<Text>, xs: Seq<Text>) -> Text
    decreases xs.len(),
{
    if xs.len() == 0 {
        Seq::empty()
    } else if xs.len() == 1 {
        last_line(names[0], xs[0])
    } else {
        member_line(names[0], xs[0], false) + lines_text(names.drop_first(), xs.drop_first())
    }
}

pub open spec fn line_gaps(n: int) -> Seq<Text> {
    Seq::new((if n > 0 { n - 1 } else { 0 }) as nat, |k: int| seq!['\n', ' ', ' '])
}

/// Member lines lay their members out as `object_text`, when no name needs
/// escaping.
proof fn lemma_lines_object(names: Seq<Text>, xs: Seq<Text>)
    requires
        xs.len() >= 1,
        names.len() == xs.len(),
        forall|k: int| 0 <= k < names.len() ==> escaped(#[trigger] names[k]) == names[k],
    ensures
        lines_text(names, xs) + seq!['}'] == seq![' ', ' '] + object_text(
            names,
            xs,
            line_gaps(xs.len() as int),
            seq!['\n'],
        ),
    decreases xs.len(),
{
    reveal_strlit("  \"");
    reveal_strlit("\": ");
    reveal_strlit("\n");
    reveal_strlit(",\n");
    reveal_strlit("\"");
    assert(escaped(names[0]) == names[0]);
    assert(json_string(names[0]) =~= seq!['"'] + names[0] + seq!['"']);
    if xs.len() == 1 {
        assert(lines_text(names, xs) + seq!['}'] =~= seq![' ', ' '] + object_text(
            names,
            xs,
            line_gaps(1),
            seq!['\n'],
        ));
    } else {
        let n2 = names.drop_first();
        let rest = xs.drop_first();
        assert forall|k: int| 0 <= k < n2.len() implies escaped(#[trigger] n2[k]) == n2[k] by {
            assert(n2[k] == names[k + 1]);
        }
        lemma_lines_object(n2, rest);
        let g = line_gaps(xs.len() as int);
        assert(g.drop_first() =~= line_gaps(rest.len() as int));
        let ot = object_text(n2, rest, g.drop_first(), seq!['\n']);
        assert(object_text(names, xs, g, seq!['\n']) == json_string(names[0]) + seq![':', ' '] + xs[0] + seq![','] + g[0] + ot);
        assert(lines_text(n2, rest) + seq!['}'] == seq![' ', ' '] + ot);
        assert(lines_text(names, xs) == member_line(names[0], xs[0], false) + lines_text(n2, rest));
        assert(member_line(names[0], xs[0], false) =~= seq![' ', ' '] + json_string(names[0]) + seq![':', ' '] + xs[0] + seq![','] + seq!['\n']);
        assert(lines_text(names, xs) + seq!['}'] =~= seq![' ', ' '] + json_string(names[0]) + seq![':', ' '] + xs[0] + seq![','] + seq!['\n'] + (lines_text(n2, rest) + seq!['}']));
    }
}

pub open spec fn report_names() -> Seq<Text> {
    seq!["identical"@, "keys"@, "addedColumns"@, "removedColumns"@, "columnsReordered"@, "addedRows"@, "removedRows"@, "duplicateKeys"@, "changed"@, "unchanged"@]
}

pub open spec fn report_values(r: ReportModel, keys: Seq<Text>) -> Seq<Text> {
    seq![
        bool_text(!differs(r)),
        json_array(keys),
        json_array(r.added_columns),
        json_array(r.removed_columns),
        bool_text(r.reordered),
        json_key_array(r.added_rows),
        json_key_array(r.removed_rows),
        json_key_array(r.duplicate_keys),
        json_changes(r.changed),
        decimal(r.unchanged),
    ]
}

/// What a reader makes of the report: one object with its members in order.
pub open spec fn report_json(r: ReportModel, keys: Seq<Text>) -> Json {
    Json::Object(
        seq![
            ("identical"@, Json::Bool(!differs(r))),
            ("keys"@, str_array(keys)),
            ("addedColumns"@, str_array(r.added_columns)),
            ("removedColumns"@, str_array(r.removed_columns)),
            ("columnsReordered"@, Json::Bool(r.reordered)),
            ("addedRows"@, key_array(r.added_rows)),
            ("removedRows"@, key_array(r.removed_rows)),
            ("duplicateKeys"@, key_array(r.duplicate_keys)),
            ("changed"@, changes_json(r.changed)),
            ("unchanged"@, Json::Number(decimal(r.unchanged))),
        ],
    )
}

proof fn lemma_report_names_plain()
    ensures
        forall|k: int| 0 <= k < report_names().len() ==> escaped(#[trigger] report_names()[k]) == report_names()[k],
{
    reveal_strlit("identical");
    lemma_escaped_plain("identical"@);
    reveal_strlit("keys");
    lemma_escaped_plain("keys"@);
    reveal_strlit("addedColumns");
    lemma_escaped_plain("addedColumns"@);
    reveal_strlit("removedColumns");
    lemma_escaped_plain("removedColumns"@);
    reveal_strlit("columnsReordered");
    lemma_escaped_plain("columnsReordered"@);
    reveal_strlit("addedRows");
    lemma_escaped_plain("addedRows"@);
    reveal_strlit("removedRows");
    lemma_escaped_plain("removedRows"@);
    reveal_strlit("duplicateKeys");
    lemma_escaped_plain("duplicateKeys"@);
    reveal_strlit("changed");
    lemma_escaped_plain("changed"@);
    reveal_strlit("unchanged");
    lemma_escaped_plain("unchanged"@);
}

/// Regrouping a concatenation.
proof fn lemma_regroup(a: Text, m0: Text, m1: Text, m2: Text, m3: Text, m4: Text, m5: Text, m6: Text, m7: Text, m8: Text, l1: Text, l2: Text, l3: Text, z: Text)
    ensures
        a + m0 + m1 + m2 + m3 + m4 + m5 + m6 + m7 + m8 + l1 + l2 + l3 + z == a + (m0 + (m1 + (m2 + (m3 + (m4 + (m5 + (m6 + (m7 + (m8 + (l1 + l2 + l3)))))))))) + z,
{
    assert(a + m0 + m1 + m2 + m3 + m4 + m5 + m6 + m7 + m8 + l1 + l2 + l3 + z =~= a + (m0 + (m1 + (m2 + (m3 + (m4 + (m5 + (m6 + (m7 + (m8 + (l1 + l2 + l3)))))))))) + z);
}

/// One member line off the front of the lines from `k` on.
proof fn lemma_lines_step(names: Seq<Text>, xs: Seq<Text>, k: int)
    requires
        names.len() == xs.len(),
        0 <= k < xs.len(),
    ensures
        k < xs.len() - 1 ==> lines_text(names.subrange(k, xs.len() as int), xs.subrange(k, xs.len() as int))
            == member_line(names[k], xs[k], false) + lines_text(
            names.subrange(k + 1, xs.len() as int),
            xs.subrange(k + 1, xs.len() as int),
        ),
        k == xs.len() - 1 ==> lines_text(names.subrange(k, xs.len() as int), xs.subrange(k, xs.len() as int))
            == last_line(names[k], xs[k]),
{
    let n = xs.len() as int;
    assert(names.subrange(k, n).drop_first() =~= names.subrange(k + 1, n));
    assert(xs.subrange(k, n).drop_first() =~= xs.subrange(k + 1, n));
    assert(names.subrange(k, n)[0] == names[k]);
    assert(xs.subrange(k, n)[0] == xs[k]);
}

/// The shape of the report for any ten values.
proof fn lemma_report_shape(v0: Text, v1: Text, v2: Text, v3: Text, v4: Text, v5: Text, v6: Text, v7: Text, v8: Text, v9: Text)
    ensures
        "{\n"@ + member_line("identical"@, v0, false) + member_line("keys"@, v1, false) + member_line("addedColumns"@, v2, false) + member_line("removedColumns"@, v3, false) + member_line("columnsReordered"@, v4, false) + member_line("addedRows"@, v5, false) + member_line("removedRows"@, v6, false) + member_line("duplicateKeys"@, v7, false) + member_line("changed"@, v8, false) + "  \"unchanged\": "@ + v9 + "\n"@ + "}\n"@ == seq!['{', '\n'] + lines_text(report_names(), seq![v0, v1, v2, v3, v4, v5, v6, v7, v8, v9]) + seq!['}', '\n'],
{
    reveal_strlit("{\n");
    reveal_strlit("}\n");
    reveal_strlit("  \"unchanged\": ");
    reveal_strlit("  \"");
    reveal_strlit("unchanged");
    reveal_strlit("\": ");
    let names = report_names();
    let xs = seq![v0, v1, v2, v3, v4, v5, v6, v7, v8, v9];
    lemma_lines_step(names, xs, 0);
    lemma_lines_step(names, xs, 1);
    lemma_lines_step(names, xs, 2);
    lemma_lines_step(names, xs, 3);
    lemma_lines_step(names, xs, 4);
    lemma_lines_step(names, xs, 5);
    lemma_lines_step(names, xs, 6);
    lemma_lines_step(names, xs, 7);
    lemma_lines_step(names, xs, 8);
    lemma_lines_step(names, xs, 9);
    assert(names.subrange(0, 10) =~= names);
    assert(xs.subrange(0, 10) =~= xs);
    assert("  \""@ + "unchanged"@ + "\": "@ =~= "  \"unchanged\": "@);
    assert(last_line("unchanged"@, v9) == "  \"unchanged\": "@ + v9 + "\n"@);
    lemma_regroup("{\n"@, member_line(names[0], xs[0], false), member_line(names[1], xs[1], false), member_line(names[2], xs[2], false), member_line(names[3], xs[3], false), member_line(names[4], xs[4], false), member_line(names[5], xs[5], false), member_line(names[6], xs[6], false), member_line(names[7], xs[7], false), member_line(names[8], xs[8], false), "  \"unchanged\": "@, v9, "\n"@, "}\n"@);
    assert("{\n"@ == seq!['{', '\n']);
    assert("}\n"@ == seq!['}', '\n']);
}

/// The report is an opening brace, its member lines and a closing brace.
proof fn lemma_report_lines(r: ReportModel, keys: Seq<Text>)
    ensures
        json_report(r, keys) == seq!['{', '\n'] + lines_text(report_names(), report_values(r, keys)) + seq!['}', '\n'],
{
    let xs = report_values(r, keys);
    lemma_report_shape(xs[0], xs[1], xs[2], xs[3], xs[4], xs[5], xs[6], xs[7], xs[8], xs[9]);
    assert(seq![xs[0], xs[1], xs[2], xs[3], xs[4], xs[5], xs[6], xs[7], xs[8], xs[9]] =~= xs);
}

pub open spec fn report_members(r: ReportModel, keys: Seq<Text>) -> Seq<Json> {
    seq![
        Json::Bool(!differs(r)),
        str_array(keys),
        str_array(r.added_columns),
        str_array(r.removed_columns),
        Json::Bool(r.reordered),
        key_array(r.added_rows),
        key_array(r.removed_rows),
        key_array(r.duplicate_keys),
        changes_json(r.changed),
        Json::Number(decimal(r.unchanged)),
    ]
}

proof fn lemma_array_opens(items: Seq<Text>, keys: Seq<Record>, cs: Seq<ChangeModel>)
    ensures
        json_array(items).len() > 0 && json_array(items)[0] == '[',
        json_key_array(keys).len() > 0 && json_key_array(keys)[0] == '[',
        json_changes(cs).len() > 0 && json_changes(cs)[0] == '[',
{
    reveal_strlit("[]");
    reveal_strlit("[");
    reveal_strlit("]");
    reveal_strlit(", ");
    reveal_strlit("[\n");
    reveal_strlit("  ]");
    if items.len() == 0 {
        assert(json_array(items) =~= seq!['[', ']']);
    } else {
        assert(json_array(items) =~= seq!['['] + (join(Seq::new(items.len(), |i: int| json_string(items[i])), ", "@) + "]"@));
    }
    if keys.len() == 0 {
        assert(json_key_array(keys) =~= seq!['[', ']']);
    } else {
        assert(json_key_array(keys) =~= seq!['['] + (join(Seq::new(keys.len(), |i: int| json_array(keys[i])), ", "@) + "]"@));
    }
    if cs.len() == 0 {
        assert(json_changes(cs) =~= seq!['[', ']']);
    } else {
        assert(json_changes(cs) =~= seq!['['] + (seq!['\n'] + listing(Seq::new(cs.len(), |i: int| json_change(cs[i])), cs.len() as int) + "  ]"@));
    }
}

/// Each value of the report, wherever it stands, reads as what it says.
proof fn lemma_report_values(t: Text, r: ReportModel, keys: Seq<Text>, depth: nat)
    requires
        depth >= 4,
    ensures
        ({
            let xs = report_values(r, keys);
            let vs = report_members(r, keys);
            &&& forall|k: int| 0 <= k < xs.len() ==> #[trigger] xs[k].len() > 0 && !is_space(xs[k][0])
            &&& forall|k: int, p: int|
                #![trigger stands_at(t, p, xs[k])]
                0 <= k < xs.len() && stands_at(t, p, xs[k]) && p + xs[k].len() < t.len() && ends_number(
                    t[p + xs[k].len()],
                ) ==> read_value(t, p, depth) == Some((vs[k], p + xs[k].len()))
        }),
{
    let xs = report_values(r, keys);
    let vs = report_members(r, keys);
    reveal_strlit("true");
    reveal_strlit("false");
    assert forall|k: int| 0 <= k < xs.len() implies #[trigger] xs[k].len() > 0 && !is_space(xs[k][0]) by {
        if k == 1 {
            lemma_array_opens(keys, r.added_rows, r.changed);
        } else if k == 2 {
            lemma_array_opens(r.added_columns, r.added_rows, r.changed);
        } else if k == 3 {
            lemma_array_opens(r.removed_columns, r.added_rows, r.changed);
        } else if k == 5 {
            lemma_array_opens(keys, r.added_rows, r.changed);
        } else if k == 6 {
            lemma_array_opens(keys, r.removed_rows, r.changed);
        } else if k == 7 {
            lemma_array_opens(keys, r.duplicate_keys, r.changed);
        } else if k == 8 {
            lemma_array_opens(keys, r.added_rows, r.changed);
        } else if k == 9 {
            lemma_decimal_digits(r.unchanged);
        }
    }
    assert forall|k: int, p: int|
        #![trigger stands_at(t, p, xs[k])]
        0 <= k < xs.len() && stands_at(t, p, xs[k]) && p + xs[k].len() < t.len() && ends_number(
            t[p + xs[k].len()],
        ) implies read_value(t, p, depth) == Some((vs[k], p + xs[k].len())) by {
        if k == 0 {
            lemma_read_bool(t, p, !differs(r), depth);
        } else if k == 1 {
            lemma_read_str_array(t, p, keys, depth);
        } else if k == 2 {
            lemma_read_str_array(t, p, r.added_columns, depth);
        } else if k == 3 {
            lemma_read_str_array(t, p, r.removed_columns, depth);
        } else if k == 4 {
            lemma_read_bool(t, p, r.reordered, depth);
        } else if k == 5 {
            lemma_read_key_array(t, p, r.added_rows, depth);
        } else if k == 6 {
            lemma_read_key_array(t, p, r.removed_rows, depth);
        } else if k == 7 {
            lemma_read_key_array(t, p, r.duplicate_keys, depth);
        } else if k == 8 {
            lemma_read_changes(t, p, r.changed, depth);
        } else {
            lemma_read_decimal(t, p, r.unchanged, depth);
        }
    }
}

/// Member lines between braces lay the members out as an object.
proof fn lemma_lines_braced(xs: Seq<Text>)
    requires
        xs.len() == 10,
    ensures
        seq!['{', '\n'] + lines_text(report_names(), xs) + seq!['}', '\n'] == seq!['{'] + (seq!['\n', ' ', ' '] + (
            object_text(report_names(), xs, line_gaps(10), seq!['\n']) + seq!['\n'])),
{
    let names = report_names();
    lemma_report_names_plain();
    lemma_lines_object(names, xs);
    let ot = object_text(names, xs, line_gaps(10), seq!['\n']);
    let l = lines_text(names, xs);
    assert(l + seq!['}'] == seq![' ', ' '] + ot);
    assert(seq!['{', '\n'] + l + seq!['}', '\n'] =~= seq!['{', '\n'] + (l + seq!['}']) + seq!['\n']);
    assert(seq!['{', '\n'] + (seq![' ', ' '] + ot) + seq!['\n'] =~= seq!['{'] + (seq!['\n', ' ', ' '] + (ot + seq!['\n'])));
}

/// The report laid out as an object of member lines.
proof fn lemma_report_text(r: ReportModel, keys: Seq<Text>)
    ensures
        json_report(r, keys) == seq!['{'] + (seq!['\n', ' ', ' '] + (object_text(
            report_names(),
            report_values(r, keys),
            line_gaps(10),
            seq!['\n'],
        ) + seq!['\n'])),
{
    lemma_report_lines(r, keys);
    lemma_lines_braced(report_values(r, keys));
}

/// Text laid out as the report reads as the report's object.
proof fn lemma_read_report(t: Text, r: ReportModel, keys: Seq<Text>)
    requires
        t == seq!['{'] + (seq!['\n', ' ', ' '] + (object_text(
            report_names(),
            report_values(r, keys),
            line_gaps(10),
            seq!['\n'],
        ) + seq!['\n'])),
    ensures
        read_json(t, 5) == Some(report_json(r, keys)),
{
    let names = report_names();
    let xs = report_values(r, keys);
    let vs = report_members(r, keys);
    let gaps = line_gaps(10);
    let ot = object_text(names, xs, gaps, seq!['\n']);
    let lead = seq!['\n', ' ', ' '];
    assert forall|j: int| 0 <= j < t.len() implies #[trigger] t[j] == t[0 + j] by {}
    assert(stands_at(t, 0, t));
    lemma_stands_at_split(t, 0, seq!['{'], lead + (ot + seq!['\n']));
    lemma_stands_at_split(t, 1, lead, ot + seq!['\n']);
    lemma_stands_at_split(t, 4, ot, seq!['\n']);
    assert(t[0] == '{');
    lemma_skip_space(t, 0, Seq::empty());
    reveal_strlit("\"");
    reveal_strlit("identical");
    assert(json_string(names[0]) =~= seq!['"'] + escaped(names[0]) + seq!['"']);
    assert(ot =~= json_string(names[0]) + (seq![':', ' '] + xs[0] + seq![','] + gaps[0] + object_text(
        names.drop_first(),
        xs.drop_first(),
        gaps.drop_first(),
        seq!['\n'],
    )));
    assert(ot[0] == '"');
    assert(t[4] == '"');
    assert(all_space(lead));
    lemma_skip_space(t, 1, lead);
    lemma_report_values(t, r, keys, 4);
    assert forall|k: int| 0 <= k < gaps.len() implies all_space(#[trigger] gaps[k]) by {}
    assert(all_space(seq!['\n']));
    lemma_read_object_text(t, 4, names, xs, vs, gaps, seq!['\n'], 4);
    let e: int = 4 + ot.len() as int;
    assert(t.len() == e + 1);
    assert(t[e] == '\n');
    lemma_skip_space(t, e, seq!['\n']);
    assert(members(names, vs) =~= report_json(r, keys)->Object_0);
}

/// The JSON report is one valid JSON object, as RFC 8259 reads it, whatever
/// the report holds: its members are `identical`, `keys`, `addedColumns`,
/// `removedColumns`, `columnsReordered`, `addedRows`, `removedRows`,
/// `duplicateKeys`, `changed` and `unchanged`, in that order; every string in
/// it reads back as the text it was written for, and each key is an array
/// of its parts.
pub proof fn law_the_report_reads_as_one_json_object(r: ReportModel, keys: Seq<Text>)
    ensures
        read_json(json_report(r, keys), 5) == Some(report_json(r, keys)),
{
    lemma_report_text(r, keys);
    lemma_read_report(json_report(r, keys), r, keys);
}

} // verus!
