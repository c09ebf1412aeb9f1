//! Figure references: "FIG" or "FIGURE" in any case, an optional period,
//! optional whitespace, one or more digits and an optional letter, rendered
//! as "FIG. <digits><letter>".
//!
//! The marker must start a word. After the digits, optional whitespace may
//! be followed by a single letter that ends a word; that letter belongs to
//! the reference. Otherwise the digits must end a word.

use vstd::prelude::*;
use crate::chars::{
    chars_of, dedup, dedup_chars, digit_char, is_digit, is_letter, is_space, is_word_char,
    string_of, strings_of, views, word_char,
};
use crate::labels::{fig_at, lemma_skip_spaces, skip_spaces};

verus! {

/// The end of the run of digits that starts at `p`.
pub open spec fn digit_end(s: Seq<char>, p: int) -> int
    decreases s.len() - p,
{
    if 0 <= p < s.len() && is_digit(s[p]) {
        digit_end(s, p + 1)
    } else {
        p
    }
}

/// No word character stands right before `i`.
pub open spec fn word_start(s: Seq<char>, i: int) -> bool {
    i == 0 || !is_word_char(s[i - 1])
}

/// `s` holds "ure" at `p`, in any case.
pub open spec fn ure_at(s: Seq<char>, p: int) -> bool {
    0 <= p && p + 3 <= s.len() && (s[p] == 'u' || s[p] == 'U') && (s[p + 1] == 'r' || s[p + 1]
        == 'R') && (s[p + 2] == 'e' || s[p + 2] == 'E')
}

/// Where the marker that starts at `i` ends: "FIG" or "FIGURE", then an
/// optional period.
pub open spec fn marker_end(s: Seq<char>, i: int) -> int {
    let p = if ure_at(s, i + 3) {
        i + 6
    } else {
        i + 3
    };
    if p < s.len() && s[p] == '.' {
        p + 1
    } else {
        p
    }
}

pub open spec fn fig_digits_start(s: Seq<char>, i: int) -> int {
    skip_spaces(s, marker_end(s, i))
}

pub open spec fn fig_digits_end(s: Seq<char>, i: int) -> int {
    digit_end(s, fig_digits_start(s, i))
}

/// Where a trailing letter of the reference at `i` would stand.
pub open spec fn fig_letter_pos(s: Seq<char>, i: int) -> int {
    skip_spaces(s, fig_digits_end(s, i))
}

/// The reference at `i` ends in a letter: after the digits and optional
/// whitespace a single letter stands that ends a word.
pub open spec fn fig_has_letter(s: Seq<char>, i: int) -> bool {
    let w = fig_letter_pos(s, i);
    w < s.len() && is_letter(s[w]) && (w + 1 == s.len() || !is_word_char(s[w + 1]))
}

/// A figure reference starts at `i`.
pub open spec fn fig_match_at(s: Seq<char>, i: int) -> bool {
    let e = fig_digits_end(s, i);
    fig_at(s, i) && word_start(s, i) && fig_digits_start(s, i) < e && (fig_has_letter(s, i) || e
        == s.len() || !is_word_char(s[e]))
}

/// Where the reference that starts at `i` ends.
pub open spec fn fig_match_end(s: Seq<char>, i: int) -> int {
    if fig_has_letter(s, i) {
        fig_letter_pos(s, i) + 1
    } else {
        fig_digits_end(s, i)
    }
}

/// The digits and the optional letter of the reference at `i`.
pub open spec fn fig_payload(s: Seq<char>, i: int) -> Seq<char> {
    s.subrange(fig_digits_start(s, i), fig_digits_end(s, i)) + if fig_has_letter(s, i) {
        seq![s[fig_letter_pos(s, i)]]
    } else {
        seq![]
    }
}

pub open spec fn fig_prefix() -> Seq<char> {
    seq!['F', 'I', 'G', '.', ' ']
}

/// The references of `s` from `i` on, left to right and without overlap:
/// no reference starts before `until`, the end of the previous one.
pub open spec fn fig_scan(s: Seq<char>, i: int, until: int) -> Seq<Seq<char>>
    decreases s.len() - i,
{
    if i >= s.len() {
        seq![]
    } else if i >= until && fig_match_at(s, i) {
        seq![fig_payload(s, i)] + fig_scan(s, i + 1, fig_match_end(s, i))
    } else {
        fig_scan(s, i + 1, until)
    }
}

/// The digits and letters of all figure references in `s`, in order.
pub open spec fn fig_payloads(s: Seq<char>) -> Seq<Seq<char>> {
    fig_scan(s, 0, 0)
}

pub open spec fn render_all(ps: Seq<Seq<char>>) -> Seq<Seq<char>> {
    ps.map_values(|p: Seq<char>| fig_prefix() + p)
}

pub(crate) proof fn lemma_digit_end(s: Seq<char>, p: int)
    requires
        0 <= p <= s.len(),
    ensures
        p <= digit_end(s, p) <= s.len(),
        forall|k: int| p <= k < digit_end(s, p) ==> is_digit(#[trigger] s[k]),
    decreases s.len() - p,
{
    if p < s.len() && is_digit(s[p]) {
        lemma_digit_end(s, p + 1);
    }
}

fn skip_space_from(s: &Vec<char>, p: usize) -> (r: usize)
    requires
        p <= s@.len(),
    ensures
        r as int == skip_spaces(s@, p as int),
        p <= r <= s@.len(),
{
    let mut q = p;
    while q < s.len() && crate::chars::space_char(s[q])
        invariant
            p <= q <= s@.len(),
            skip_spaces(s@, q as int) == skip_spaces(s@, p as int),
        decreases s@.len() - q,
    {
        q += 1;
    }
    q
}

fn digit_end_from(s: &Vec<char>, p: usize) -> (r: usize)
    requires
        p <= s@.len(),
    ensures
        r as int == digit_end(s@, p as int),
        p <= r <= s@.len(),
{
    let mut q = p;
    while q < s.len() && digit_char(s[q])
        invariant
            p <= q <= s@.len(),
            digit_end(s@, q as int) == digit_end(s@, p as int),
        decreases s@.len() - q,
    {
        q += 1;
    }
    q
}

fn is_fig_at(s: &Vec<char>, i: usize) -> (r: bool)
    ensures
        r == fig_at(s@, i as int),
{
    i < s.len() && s.len() - i >= 3 && (s[i] == 'f' || s[i] == 'F') && (s[i + 1] == 'i' || s[i
        + 1] == 'I') && (s[i + 2] == 'g' || s[i + 2] == 'G')
}

/// The figure reference that starts at `i`, if any: its digits and letter,
/// and where it ends.
fn match_fig(s: &Vec<char>, i: usize) -> (r: Option<(Vec<char>, usize)>)
    requires
        i < s@.len(),
    ensures
        r is Some <==> fig_match_at(s@, i as int),
        r matches Some(m) ==> m.0@ == fig_payload(s@, i as int) && m.1 as int == fig_match_end(
            s@,
            i as int,
        ),
{
    let n = s.len();
    if !is_fig_at(s, i) {
        return None;
    }
    if i > 0 && word_char(s[i - 1]) {
        return None;
    }
    let mut p = i + 3;
    if n - p >= 3 && (s[p] == 'u' || s[p] == 'U') && (s[p + 1] == 'r' || s[p + 1] == 'R') && (
    s[p + 2] == 'e' || s[p + 2] == 'E') {
        p = p + 3;
    }
    if p < n && s[p] == '.' {
        p = p + 1;
    }
    assert(p as int == marker_end(s@, i as int));
    let ds = skip_space_from(s, p);
    let de = digit_end_from(s, ds);
    if ds == de {
        return None;
    }
    let w = skip_space_from(s, de);
    let has_letter = w < n && (('a' <= s[w] && s[w] <= 'z') || ('A' <= s[w] && s[w] <= 'Z')) && (
    w + 1 == n || !word_char(s[w + 1]));
    if !has_letter && de < n && word_char(s[de]) {
        return None;
    }
    let mut payload = crate::labels::sub_chars(s, ds, de);
    let end = if has_letter {
        payload.push(s[w]);
        w + 1
    } else {
        de
    };
    assert(payload@ =~= fig_payload(s@, i as int));
    Some((payload, end))
}

/// The digits and letters of the figure references of `s` (see `fig_scan`).
pub fn fig_payloads_of(s: &Vec<char>) -> (r: Vec<Vec<char>>)
    ensures
        views(r@) == fig_payloads(s@),
{
    let mut r: Vec<Vec<char>> = Vec::new();
    let mut i: usize = 0;
    let mut until: usize = 0;
    while i < s.len()
        invariant
            i <= s@.len(),
            views(r@) + fig_scan(s@, i as int, until as int) == fig_payloads(s@),
        decreases s@.len() - i,
    {
        let ghost before = views(r@);
        if i >= until {
            match match_fig(s, i) {
                Some((payload, end)) => {
                    r.push(payload);
                    assert(views(r@) =~= before + seq![fig_payload(s@, i as int)]);
                    assert(views(r@) + fig_scan(s@, i as int + 1, end as int) =~= before + fig_scan(
                        s@,
                        i as int,
                        until as int,
                    ));
                    until = end;
                },
                None => {},
            }
        }
        i += 1;
    }
    assert(views(r@) =~= fig_payloads(s@));
    r
}

/// The figure references of `text` as "FIG. <digits><letter>", in order of
/// appearance, each rendering once.
pub fn find_figure_references(text: &str) -> (r: Vec<String>)
    ensures
        r@.map_values(|x: String| x@) == dedup(render_all(fig_payloads(text@))),
{
    let s = chars_of(text);
    let payloads = fig_payloads_of(&s);
    let mut rendered: Vec<Vec<char>> = Vec::new();
    let mut k: usize = 0;
    while k < payloads.len()
        invariant
            k <= payloads@.len(),
            rendered@.len() == k,
            forall|j: int| 0 <= j < k ==> rendered@[j]@ == fig_prefix() + payloads@[j]@,
        decreases payloads@.len() - k,
    {
        let mut one: Vec<char> = vec!['F', 'I', 'G', '.', ' '];
        let mut j: usize = 0;
        while j < payloads[k].len()
            invariant
                k < payloads@.len(),
                j <= payloads@[k as int]@.len(),
                one@ == fig_prefix() + payloads@[k as int]@.take(j as int),
            decreases payloads@[k as int]@.len() - j,
        {
            one.push(payloads[k][j]);
            j += 1;
            assert(one@ =~= fig_prefix() + payloads@[k as int]@.take(j as int));
        }
        assert(payloads@[k as int]@.take(j as int) =~= payloads@[k as int]@);
        rendered.push(one);
        k += 1;
    }
    assert(views(rendered@) =~= render_all(views(payloads@)));
    let unique = dedup_chars(&rendered);
    strings_of(&unique)
}

/// A payload as the grammar yields it: a non-empty run of digits, then at
/// most one letter.
pub open spec fn payload_shaped(p: Seq<char>, dl: int) -> bool {
    0 < dl <= p.len() && (forall|k: int| 0 <= k < dl ==> is_digit(#[trigger] p[k])) && (p.len()
        == dl || (p.len() == dl + 1 && is_letter(p[dl])))
}

proof fn lemma_first_payload(s: Seq<char>, i: int, until: int)
    requires
        0 <= i,
        fig_scan(s, i, until).len() > 0,
    ensures
        exists|j: int|
            0 <= j < s.len() && fig_match_at(s, j) && fig_scan(s, i, until)[0] == fig_payload(s, j),
    decreases s.len() - i,
{
    if i < s.len() {
        if i >= until && fig_match_at(s, i) {
            assert(fig_scan(s, i, until)[0] == fig_payload(s, i));
        } else {
            lemma_first_payload(s, i + 1, until);
        }
    }
}

proof fn lemma_payload_shape(s: Seq<char>, j: int)
    requires
        0 <= j < s.len(),
        fig_match_at(s, j),
    ensures
        payload_shaped(fig_payload(s, j), fig_digits_end(s, j) - fig_digits_start(s, j)),
{
    let m = marker_end(s, j);
    lemma_skip_spaces(s, m);
    let ds = fig_digits_start(s, j);
    lemma_digit_end(s, ds);
    let de = fig_digits_end(s, j);
    let p = fig_payload(s, j);
    assert forall|k: int| 0 <= k < de - ds implies is_digit(#[trigger] p[k]) by {
        assert(p[k] == s[ds + k]);
    }
    if fig_has_letter(s, j) {
        lemma_skip_spaces(s, de);
    }
}

proof fn lemma_digit_end_exact(s: Seq<char>, p: int, q: int)
    requires
        0 <= p <= q <= s.len(),
        forall|k: int| p <= k < q ==> is_digit(#[trigger] s[k]),
        q == s.len() || !is_digit(s[q]),
    ensures
        digit_end(s, p) == q,
    decreases q - p,
{
    if p < q {
        lemma_digit_end_exact(s, p + 1, q);
    }
}

/// A rendered reference reads back as itself: the first reference of
/// "FIG. " followed by a payload is that payload.
pub proof fn lemma_render_reparses(p: Seq<char>, dl: int)
    requires
        payload_shaped(p, dl),
    ensures
        fig_payloads(fig_prefix() + p).len() > 0,
        fig_payloads(fig_prefix() + p)[0] == p,
{
    let r = fig_prefix() + p;
    assert(r[0] == 'F' && r[1] == 'I' && r[2] == 'G' && r[3] == '.' && r[4] == ' ');
    assert(fig_at(r, 0));
    assert(!ure_at(r, 3));
    assert(marker_end(r, 0) == 4);
    assert(r[5] == p[0]);
    assert(is_digit(p[0]));
    assert(skip_spaces(r, 5) == 5);
    assert(skip_spaces(r, 4) == 5);
    let q = 5 + dl;
    assert forall|k: int| 5 <= k < q implies is_digit(#[trigger] r[k]) by {
        assert(r[k] == p[k - 5]);
    }
    if p.len() > dl {
        assert(r[q] == p[dl]);
    }
    lemma_digit_end_exact(r, 5, q);
    assert(fig_digits_end(r, 0) == q);
    if p.len() > dl {
        assert(skip_spaces(r, q) == q);
        assert(fig_has_letter(r, 0));
    } else {
        assert(q == r.len());
        assert(!fig_has_letter(r, 0));
    }
    assert(fig_match_at(r, 0));
    assert(fig_payload(r, 0) =~= p);
    assert(fig_scan(r, 0, 0) == seq![fig_payload(r, 0)] + fig_scan(r, 1, fig_match_end(r, 0)));
}

/// The first reference of a text that has one has the shape the grammar
/// gives: digits, then at most one letter.
pub proof fn lemma_first_payload_shaped(s: Seq<char>)
    requires
        fig_payloads(s).len() > 0,
    ensures
        exists|dl: int| payload_shaped(fig_payloads(s)[0], dl),
{
    lemma_first_payload(s, 0, 0);
    let j = choose|j: int|
        0 <= j < s.len() && fig_match_at(s, j) && fig_scan(s, 0, 0)[0] == fig_payload(s, j);
    lemma_payload_shape(s, j);
}

} // verus!
