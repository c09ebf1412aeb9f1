//! The orders in which labels and occurrences are listed, and the insertion
//! sort that lists them.

use vstd::prelude::*;
use crate::chars::{chars_of, digit_char, is_digit, lower_of};
use crate::figures::{digit_end, lemma_digit_end};

verus! {

/// Strict lexicographic order of character sequences, by code point.
pub open spec fn seq_lt(a: Seq<char>, b: Seq<char>) -> bool
    decreases a.len(),
{
    if a.len() == 0 {
        b.len() > 0
    } else if b.len() == 0 {
        false
    } else if a[0] != b[0] {
        a[0] < b[0]
    } else {
        seq_lt(a.drop_first(), b.drop_first())
    }
}

pub open spec fn seq_le(a: Seq<char>, b: Seq<char>) -> bool {
    a == b || seq_lt(a, b)
}

pub proof fn lemma_seq_lt_total(a: Seq<char>, b: Seq<char>)
    ensures
        seq_lt(a, b) || a == b || seq_lt(b, a),
    decreases a.len(),
{
    if a.len() > 0 && b.len() > 0 {
        if a[0] == b[0] {
            lemma_seq_lt_total(a.drop_first(), b.drop_first());
            if a.drop_first() == b.drop_first() {
                assert(a =~= seq![a[0]] + a.drop_first());
                assert(b =~= seq![b[0]] + b.drop_first());
            }
        }
    } else if a.len() == 0 && b.len() == 0 {
        assert(a =~= b);
    }
}

/// The number that a run of ASCII digits spells.
pub open spec fn digits_value(d: Seq<char>) -> int
    decreases d.len(),
{
    if d.len() == 0 {
        0
    } else {
        digits_value(d.drop_last()) * 10 + (d.last() as int - '0' as int)
    }
}

/// The leading run of digits of `s`.
pub open spec fn lead_digits(s: Seq<char>) -> Seq<char> {
    s.take(digit_end(s, 0))
}

/// `s` starts with a run of digits whose value fits in an `i32`.
pub open spec fn numeric(s: Seq<char>) -> bool {
    lead_digits(s).len() > 0 && digits_value(lead_digits(s)) <= 2147483647
}

/// The order of labels: two labels that both start with a number (one that
/// fits in an `i32`) go by that number, ties by their text; any other pair
/// goes by text.
pub open spec fn label_le(a: Seq<char>, b: Seq<char>) -> bool {
    if numeric(a) && numeric(b) {
        digits_value(lead_digits(a)) < digits_value(lead_digits(b)) || (digits_value(
            lead_digits(a),
        ) == digits_value(lead_digits(b)) && seq_le(a, b))
    } else {
        seq_le(a, b)
    }
}

pub open spec fn label_order() -> spec_fn(Seq<char>, Seq<char>) -> bool {
    |a: Seq<char>, b: Seq<char>| label_le(a, b)
}

/// The order of occurrences `(word, label)`: by the lower-cased word, then
/// by the label order.
pub open spec fn occ_le(x: (Seq<char>, Seq<char>), y: (Seq<char>, Seq<char>)) -> bool {
    let wx = lower_of(x.0);
    let wy = lower_of(y.0);
    seq_lt(wx, wy) || (wx == wy && label_le(x.1, y.1))
}

pub open spec fn occ_order() -> spec_fn((Seq<char>, Seq<char>), (Seq<char>, Seq<char>)) -> bool {
    |x: (Seq<char>, Seq<char>), y: (Seq<char>, Seq<char>)| occ_le(x, y)
}

pub open spec fn total<A>(le: spec_fn(A, A) -> bool) -> bool {
    forall|a: A, b: A| #[trigger] le(a, b) || le(b, a)
}

/// Each element is at most its successor.
pub open spec fn sorted_adj<A>(r: Seq<A>, le: spec_fn(A, A) -> bool) -> bool {
    forall|j: int| 0 <= j < r.len() - 1 ==> #[trigger] le(r[j], r[j + 1])
}

/// The first position from `j` on whose element is not at most `x`.
pub open spec fn first_above<A>(r: Seq<A>, x: A, le: spec_fn(A, A) -> bool, j: int) -> int
    decreases r.len() - j,
{
    if j >= r.len() {
        r.len() as int
    } else if !le(r[j], x) {
        j
    } else {
        first_above(r, x, le, j + 1)
    }
}

/// Insertion sort: each element goes before the first one it is not above.
pub open spec fn isort<A>(s: Seq<A>, le: spec_fn(A, A) -> bool) -> Seq<A>
    decreases s.len(),
{
    if s.len() == 0 {
        seq![]
    } else {
        let r = isort(s.drop_last(), le);
        r.insert(first_above(r, s.last(), le, 0), s.last())
    }
}

proof fn lemma_first_above<A>(r: Seq<A>, x: A, le: spec_fn(A, A) -> bool, j: int)
    requires
        0 <= j <= r.len(),
    ensures
        j <= first_above(r, x, le, j) <= r.len(),
        forall|k: int| j <= k < first_above(r, x, le, j) ==> le(#[trigger] r[k], x),
        first_above(r, x, le, j) < r.len() ==> !le(r[first_above(r, x, le, j)], x),
    decreases r.len() - j,
{
    if j < r.len() && le(r[j], x) {
        lemma_first_above(r, x, le, j + 1);
    }
}

/// Under a total order, insertion sort yields its input rearranged, each
/// element at most its successor.
pub proof fn lemma_isort<A>(s: Seq<A>, le: spec_fn(A, A) -> bool)
    requires
        total(le),
    ensures
        sorted_adj(isort(s, le), le),
        isort(s, le).to_multiset() == s.to_multiset(),
    decreases s.len(),
{
    broadcast use vstd::seq_lib::group_to_multiset_ensures;

    if s.len() > 0 {
        let r = isort(s.drop_last(), le);
        let x = s.last();
        lemma_isort(s.drop_last(), le);
        let p = first_above(r, x, le, 0);
        lemma_first_above(r, x, le, 0);
        let r2 = r.insert(p, x);
        assert(r2 == isort(s, le));
        r.insert_ensures(p, x);
        assert forall|j: int| 0 <= j < r2.len() - 1 implies #[trigger] le(r2[j], r2[j + 1]) by {
            if j + 1 < p {
                assert(le(r[j], r[j + 1]));
            } else if j + 1 == p {
                assert(le(r[j], x));
            } else if j == p {
                assert(le(r[p], x) || le(x, r[p]));
            } else {
                assert(r2[j] == r[j - 1]);
                assert(r2[j + 1] == r[j]);
                assert(le(r[j - 1], r[j]));
            }
        }
        assert(r2.remove(p) =~= r);
        assert(r2[p] == x);
        assert(r2.contains(x));
        assert(r2.to_multiset() =~= r.to_multiset().insert(x));
        assert(s.drop_last().push(x) =~= s);
    }
}

pub proof fn lemma_label_order_total()
    ensures
        total(label_order()),
{
    assert forall|a: Seq<char>, b: Seq<char>| #[trigger]
        label_order()(a, b) || label_order()(b, a) by {
        lemma_seq_lt_total(a, b);
    }
}

pub proof fn lemma_occ_order_total()
    ensures
        total(occ_order()),
{
    assert forall|x: (Seq<char>, Seq<char>), y: (Seq<char>, Seq<char>)| #[trigger]
        occ_order()(x, y) || occ_order()(y, x) by {
        lemma_seq_lt_total(
            lower_of(x.0),
            lower_of(y.0),
        );
        lemma_seq_lt_total(x.1, y.1);
    }
}

pub fn chars_lt(a: &Vec<char>, b: &Vec<char>) -> (r: bool)
    ensures
        r == seq_lt(a@, b@),
{
    let n = a.len();
    let m = b.len();
    let mut k: usize = 0;
    assert(a@.skip(0) =~= a@);
    assert(b@.skip(0) =~= b@);
    while k < n && k < m
        invariant
            n == a@.len(),
            m == b@.len(),
            k <= n,
            k <= m,
            seq_lt(a@, b@) == seq_lt(a@.skip(k as int), b@.skip(k as int)),
        decreases n - k,
    {
        assert(a@.skip(k as int)[0] == a@[k as int]);
        assert(b@.skip(k as int)[0] == b@[k as int]);
        if a[k] != b[k] {
            return a[k] < b[k];
        }
        assert(a@.skip(k as int).drop_first() =~= a@.skip(k as int + 1));
        assert(b@.skip(k as int).drop_first() =~= b@.skip(k as int + 1));
        k += 1;
    }
    assert(a@.skip(k as int).len() == n - k);
    assert(b@.skip(k as int).len() == m - k);
    k < m
}

proof fn lemma_digits_value_nonneg(d: Seq<char>)
    requires
        forall|k: int| 0 <= k < d.len() ==> is_digit(#[trigger] d[k]),
    ensures
        digits_value(d) >= 0,
    decreases d.len(),
{
    if d.len() > 0 {
        lemma_digits_value_nonneg(d.drop_last());
    }
}

/// The value of the leading number of `s`, where it fits in an `i32`.
pub fn numeric_value(s: &Vec<char>) -> (r: Option<u64>)
    ensures
        r is Some <==> numeric(s@),
        r matches Some(v) ==> v as int == digits_value(lead_digits(s@)),
{
    let n = s.len();
    let mut k: usize = 0;
    let mut v: u64 = 0;
    let mut over = false;
    proof {
        lemma_digit_end(s@, 0);
    }
    while k < n && digit_char(s[k])
        invariant
            n == s@.len(),
            k <= n,
            digit_end(s@, k as int) == digit_end(s@, 0),
            forall|j: int| 0 <= j < k ==> is_digit(#[trigger] s@[j]),
            !over ==> v as int == digits_value(s@.take(k as int)) && v <= 2147483647,
            over ==> digits_value(s@.take(k as int)) > 2147483647,
        decreases n - k,
    {
        assert(s@.take(k as int + 1).drop_last() =~= s@.take(k as int));
        let d = (s[k] as u32 - '0' as u32) as u64;
        if !over {
            let next = v * 10 + d;
            if next > 2147483647 {
                over = true;
            } else {
                v = next;
            }
        }
        k += 1;
    }
    assert(lead_digits(s@) =~= s@.take(k as int));
    if k == 0 || over {
        None
    } else {
        Some(v)
    }
}

/// Whether label `a` comes no later than label `b` (see `label_le`).
pub fn label_le_chars(a: &Vec<char>, b: &Vec<char>) -> (r: bool)
    ensures
        r == label_le(a@, b@),
{
    let va = numeric_value(a);
    let vb = numeric_value(b);
    let same = crate::chars::same_chars(a, b);
    match (va, vb) {
        (Some(x), Some(y)) => x < y || (x == y && (same || chars_lt(a, b))),
        _ => same || chars_lt(a, b),
    }
}

/// Whether label `a` comes no later than label `b` (see `label_le`).
pub fn label_le_str(a: &str, b: &str) -> (r: bool)
    ensures
        r == label_le(a@, b@),
{
    let ca = chars_of(a);
    let cb = chars_of(b);
    label_le_chars(&ca, &cb)
}

pub open spec fn str_views(v: Seq<String>) -> Seq<Seq<char>> {
    v.map_values(|s: String| s@)
}

/// The labels in label order: numbers ascending, other text lexically.
pub fn sort_labels(labels: &Vec<String>) -> (r: Vec<String>)
    ensures
        str_views(r@) == isort(str_views(labels@), label_order()),
        sorted_adj(str_views(r@), label_order()),
        str_views(r@).to_multiset() == str_views(labels@).to_multiset(),
{
    let mut r: Vec<String> = Vec::new();
    let mut k: usize = 0;
    while k < labels.len()
        invariant
            k <= labels@.len(),
            str_views(r@) == isort(str_views(labels@).take(k as int), label_order()),
        decreases labels@.len() - k,
    {
        let ghost sv = str_views(labels@).take(k as int + 1);
        assert(sv.drop_last() =~= str_views(labels@).take(k as int));
        assert(sv.last() == labels@[k as int]@);
        let x = labels[k].clone();
        let mut j: usize = 0;
        while j < r.len() && label_le_str(r[j].as_str(), x.as_str())
            invariant
                j <= r@.len(),
                x@ == labels@[k as int]@,
                first_above(str_views(r@), x@, label_order(), j as int) == first_above(
                    str_views(r@),
                    x@,
                    label_order(),
                    0,
                ),
            decreases r@.len() - j,
        {
            assert(str_views(r@)[j as int] == r@[j as int]@);
            j += 1;
        }
        proof {
            if j < r@.len() {
                assert(str_views(r@)[j as int] == r@[j as int]@);
            }
        }
        let ghost before = str_views(r@);
        r.insert(j, x);
        assert(str_views(r@) =~= before.insert(j as int, labels@[k as int]@));
        k += 1;
    }
    assert(str_views(labels@).take(k as int) =~= str_views(labels@));
    proof {
        lemma_label_order_total();
        lemma_isort(str_views(labels@), label_order());
    }
    r
}

/// Where every label starts with a number, the label order lists them by
/// that number, ascending.
pub proof fn lemma_numeric_labels_ascend(labels: Seq<Seq<char>>)
    requires
        forall|k: int| 0 <= k < labels.len() ==> numeric(#[trigger] labels[k]),
    ensures
        forall|j: int|
            0 <= j < isort(labels, label_order()).len() - 1 ==> digits_value(
                lead_digits(#[trigger] isort(labels, label_order())[j]),
            ) <= digits_value(lead_digits(isort(labels, label_order())[j + 1])),
{
    broadcast use vstd::seq_lib::group_to_multiset_ensures;

    lemma_label_order_total();
    lemma_isort(labels, label_order());
    let r = isort(labels, label_order());
    assert forall|j: int| 0 <= j < r.len() - 1 implies digits_value(lead_digits(#[trigger] r[j]))
        <= digits_value(lead_digits(r[j + 1])) by {
        assert(r.contains(r[j]));
        assert(r.contains(r[j + 1]));
        assert(r.to_multiset().count(r[j]) > 0);
        assert(r.to_multiset().count(r[j + 1]) > 0);
        assert(labels.contains(r[j]));
        assert(labels.contains(r[j + 1]));
        assert(label_order()(r[j], r[j + 1]));
    }
}

} // verus!
