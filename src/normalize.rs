//! The text normaliser: case folding and plural stemming, with figure
//! references kept whole.

use vstd::prelude::*;
use crate::chars::{chars_of, is_space, lower_of, lowercase, space_char, string_of, views};
use crate::figures::{fig_payloads, fig_payloads_of, fig_prefix};

verus! {

/// The words of `s[..]` read so far, and the word being read.
pub open spec fn split_state(s: Seq<char>) -> (Seq<Seq<char>>, Seq<char>)
    decreases s.len(),
{
    if s.len() == 0 {
        (seq![], seq![])
    } else {
        let (ws, cur) = split_state(s.drop_last());
        let c = s.last();
        if is_space(c) {
            if cur.len() > 0 {
                (ws.push(cur), seq![])
            } else {
                (ws, cur)
            }
        } else {
            (ws, cur.push(c))
        }
    }
}

/// The maximal runs of non-whitespace characters of `s`, in order.
pub open spec fn words(s: Seq<char>) -> Seq<Seq<char>> {
    let (ws, cur) = split_state(s);
    if cur.len() > 0 {
        ws.push(cur)
    } else {
        ws
    }
}

/// Plural stemming of one word: words under three characters stay; "ies"
/// becomes "y" where something precedes it; otherwise "es" is dropped; a
/// final "s" is dropped unless the word ends in "ss".
pub open spec fn stem(w: Seq<char>) -> Seq<char> {
    let n = w.len();
    if n < 3 {
        w
    } else if n > 3 && w[n - 3] == 'i' && w[n - 2] == 'e' && w[n - 1] == 's' {
        w.take(n - 3).push('y')
    } else if w[n - 2] == 'e' && w[n - 1] == 's' {
        w.take(n - 2)
    } else if w[n - 1] == 's' && w[n - 2] != 's' {
        w.take(n - 1)
    } else {
        w
    }
}

/// The words joined by single spaces.
pub open spec fn join_words(ws: Seq<Seq<char>>) -> Seq<char>
    decreases ws.len(),
{
    if ws.len() == 0 {
        seq![]
    } else if ws.len() == 1 {
        ws[0]
    } else {
        join_words(ws.drop_last()) + seq![' '] + ws.last()
    }
}

pub open spec fn stem_all(ws: Seq<Seq<char>>) -> Seq<Seq<char>> {
    ws.map_values(|w: Seq<char>| stem(w))
}

/// Normalised text: the first figure reference of `s`, rendered as
/// "FIG. <digits><letter>", where there is one; otherwise the words of the
/// lower-cased text, each stemmed, joined by single spaces.
pub open spec fn normalized(s: Seq<char>) -> Seq<char> {
    let refs = fig_payloads(s);
    if refs.len() > 0 {
        fig_prefix() + refs[0]
    } else {
        join_words(stem_all(words(lower_of(s))))
    }
}

pub fn words_of(s: &Vec<char>) -> (r: Vec<Vec<char>>)
    ensures
        views(r@) == words(s@),
{
    let mut ws: Vec<Vec<char>> = Vec::new();
    let mut cur: Vec<char> = Vec::new();
    let mut k: usize = 0;
    while k < s.len()
        invariant
            k <= s@.len(),
            (views(ws@), cur@) == split_state(s@.take(k as int)),
        decreases s@.len() - k,
    {
        assert(s@.take(k as int + 1).drop_last() =~= s@.take(k as int));
        assert(s@.take(k as int + 1).last() == s@[k as int]);
        let c = s[k];
        if space_char(c) {
            if cur.len() > 0 {
                let done = cur;
                cur = Vec::new();
                ws.push(done);
                assert(views(ws@) =~= split_state(s@.take(k as int)).0.push(done@));
            }
        } else {
            cur.push(c);
        }
        k += 1;
    }
    assert(s@.take(k as int) =~= s@);
    if cur.len() > 0 {
        ws.push(cur);
        assert(views(ws@) =~= split_state(s@).0.push(split_state(s@).1));
    }
    ws
}

pub fn stem_chars(w: &Vec<char>) -> (r: Vec<char>)
    ensures
        r@ == stem(w@),
{
    let n = w.len();
    if n < 3 {
        return crate::chars::copy_chars(w);
    }
    let r = if n > 3 && w[n - 3] == 'i' && w[n - 2] == 'e' && w[n - 1] == 's' {
        let mut r = crate::labels::sub_chars(w, 0, n - 3);
        r.push('y');
        r
    } else if w[n - 2] == 'e' && w[n - 1] == 's' {
        crate::labels::sub_chars(w, 0, n - 2)
    } else if w[n - 1] == 's' && w[n - 2] != 's' {
        crate::labels::sub_chars(w, 0, n - 1)
    } else {
        crate::chars::copy_chars(w)
    };
    assert(r@ =~= stem(w@));
    r
}

pub fn join_chars(ws: &Vec<Vec<char>>) -> (r: Vec<char>)
    ensures
        r@ == join_words(views(ws@)),
{
    let mut r: Vec<char> = Vec::new();
    let mut k: usize = 0;
    while k < ws.len()
        invariant
            k <= ws@.len(),
            r@ == join_words(views(ws@).take(k as int)),
        decreases ws@.len() - k,
    {
        let ghost before = r@;
        assert(views(ws@).take(k as int + 1).drop_last() =~= views(ws@).take(k as int));
        assert(views(ws@).take(k as int + 1).last() == ws@[k as int]@);
        if k > 0 {
            r.push(' ');
        }
        let mut j: usize = 0;
        while j < ws[k].len()
            invariant
                k < ws@.len(),
                j <= ws@[k as int]@.len(),
                r@ == (if k > 0 {
                    before + seq![' ']
                } else {
                    before
                }) + ws@[k as int]@.take(j as int),
            decreases ws@[k as int]@.len() - j,
        {
            r.push(ws[k][j]);
            j += 1;
            assert(r@ =~= (if k > 0 {
                before + seq![' ']
            } else {
                before
            }) + ws@[k as int]@.take(j as int));
        }
        assert(ws@[k as int]@.take(j as int) =~= ws@[k as int]@);
        if k == 0 {
            assert(before =~= Seq::<char>::empty());
            assert(r@ =~= join_words(views(ws@).take(1)));
        }
        k += 1;
    }
    assert(views(ws@).take(k as int) =~= views(ws@));
    r
}

/// The lower-case mapping of the characters (see `lower_of`).
pub fn lower_chars(s: &Vec<char>) -> (r: Vec<char>)
    ensures
        r@ == lower_of(s@),
{
    let text = string_of(s);
    let lower = lowercase(text.as_str());
    chars_of(lower.as_str())
}

/// `normalized` on characters.
pub fn normalize_chars(s: &Vec<char>) -> (r: Vec<char>)
    ensures
        r@ == normalized(s@),
{
    let refs = fig_payloads_of(s);
    if refs.len() > 0 {
        assert(views(refs@)[0] == refs@[0]@);
        let mut r: Vec<char> = vec!['F', 'I', 'G', '.', ' '];
        let mut j: usize = 0;
        while j < refs[0].len()
            invariant
                refs@.len() > 0,
                j <= refs@[0]@.len(),
                r@ == fig_prefix() + refs@[0]@.take(j as int),
            decreases refs@[0]@.len() - j,
        {
            r.push(refs[0][j]);
            j += 1;
            assert(r@ =~= fig_prefix() + refs@[0]@.take(j as int));
        }
        assert(refs@[0]@.take(j as int) =~= refs@[0]@);
        return r;
    }
    let lower = lower_chars(s);
    let ws = words_of(&lower);
    let mut stemmed: Vec<Vec<char>> = Vec::new();
    let mut k: usize = 0;
    while k < ws.len()
        invariant
            k <= ws@.len(),
            stemmed@.len() == k,
            forall|j: int| 0 <= j < k ==> stemmed@[j]@ == stem(ws@[j]@),
        decreases ws@.len() - k,
    {
        stemmed.push(stem_chars(&ws[k]));
        k += 1;
    }
    assert(views(stemmed@) =~= stem_all(views(ws@)));
    join_chars(&stemmed)
}

/// Normalize text: the first figure reference where there is one, else
/// lower-cased text with each word plural-stemmed (see `normalized`).
pub fn normalize_text(text: &str) -> (r: String)
    ensures
        r@ == normalized(text@),
{
    let s = chars_of(text);
    let r = normalize_chars(&s);
    string_of(&r)
}

/// No whitespace in `w`.
pub open spec fn solid(w: Seq<char>) -> bool {
    forall|k: int| 0 <= k < w.len() ==> !is_space(#[trigger] w[k])
}

proof fn lemma_split_state_words(s: Seq<char>)
    ensures
        forall|i: int| 0 <= i < split_state(s).0.len() ==> #[trigger] split_state(s).0[i].len() > 0,
        forall|i: int| 0 <= i < split_state(s).0.len() ==> solid(#[trigger] split_state(s).0[i]),
        solid(split_state(s).1),
    decreases s.len(),
{
    if s.len() > 0 {
        let p = s.drop_last();
        lemma_split_state_words(p);
        let (ws, cur) = split_state(p);
        let c = s.last();
        if !is_space(c) {
            assert(solid(cur.push(c))) by {
                assert forall|k: int| 0 <= k < cur.push(c).len() implies !is_space(
                    #[trigger] cur.push(c)[k],
                ) by {
                    if k < cur.len() {
                        assert(cur.push(c)[k] == cur[k]);
                    }
                }
            }
        }
    }
}

proof fn lemma_words_props(s: Seq<char>)
    ensures
        forall|i: int| 0 <= i < words(s).len() ==> #[trigger] words(s)[i].len() > 0,
        forall|i: int| 0 <= i < words(s).len() ==> solid(#[trigger] words(s)[i]),
{
    lemma_split_state_words(s);
    let (ws, cur) = split_state(s);
    if cur.len() > 0 {
        assert forall|i: int| 0 <= i < words(s).len() implies #[trigger] words(s)[i].len() > 0
            && solid(words(s)[i]) by {
            if i < ws.len() {
                assert(words(s)[i] == ws[i]);
            }
        }
    }
}

proof fn lemma_stem_props(w: Seq<char>)
    requires
        w.len() > 0,
        solid(w),
    ensures
        stem(w).len() > 0,
        solid(stem(w)),
{
    let r = stem(w);
    let n = w.len();
    assert forall|k: int| 0 <= k < r.len() implies !is_space(#[trigger] r[k]) by {
        if k < n && r[k] == w[k] {
        } else {
            assert(r[k] == 'y');
        }
    }
}

proof fn lemma_split_append_solid(p: Seq<char>, w: Seq<char>)
    requires
        solid(w),
    ensures
        split_state(p + w) == (split_state(p).0, split_state(p).1 + w),
    decreases w.len(),
{
    if w.len() == 0 {
        assert(p + w =~= p);
        assert(split_state(p).1 + w =~= split_state(p).1);
    } else {
        assert((p + w).drop_last() =~= p + w.drop_last());
        assert((p + w).last() == w[w.len() - 1]);
        lemma_split_append_solid(p, w.drop_last());
        assert(split_state(p).1 + w.drop_last() + seq![w.last()] =~= split_state(p).1 + w);
        assert((split_state(p).1 + w.drop_last()).push(w.last()) =~= split_state(p).1 + w);
    }
}

proof fn lemma_split_join(ws: Seq<Seq<char>>)
    requires
        ws.len() > 0,
        forall|i: int| 0 <= i < ws.len() ==> #[trigger] ws[i].len() > 0,
        forall|i: int| 0 <= i < ws.len() ==> solid(#[trigger] ws[i]),
    ensures
        split_state(join_words(ws)) == (ws.drop_last(), ws.last()),
    decreases ws.len(),
{
    if ws.len() == 1 {
        assert(solid(ws[0]));
        lemma_split_append_solid(seq![], ws[0]);
        assert(Seq::<char>::empty() + ws[0] =~= ws[0]);
        assert(Seq::<char>::empty() + ws[0] =~= ws[0]);
        assert(ws.drop_last() =~= Seq::<Seq<char>>::empty());
    } else {
        let front = ws.drop_last();
        assert forall|i: int| 0 <= i < front.len() implies #[trigger] front[i].len() > 0 && solid(
            front[i],
        ) by {
            assert(front[i] == ws[i]);
        }
        lemma_split_join(front);
        let p = join_words(front);
        let q = p + seq![' '];
        assert(q.drop_last() =~= p);
        assert(front.drop_last().push(front.last()) =~= front);
        assert(split_state(q) == (front, Seq::<char>::empty()));
        assert(solid(ws.last()));
        lemma_split_append_solid(q, ws.last());
        assert(Seq::<char>::empty() + ws.last() =~= ws.last());
    }
}

proof fn lemma_words_join(ws: Seq<Seq<char>>)
    requires
        forall|i: int| 0 <= i < ws.len() ==> #[trigger] ws[i].len() > 0,
        forall|i: int| 0 <= i < ws.len() ==> solid(#[trigger] ws[i]),
    ensures
        words(join_words(ws)) == ws,
{
    if ws.len() == 0 {
        assert(words(join_words(ws)) =~= ws);
    } else {
        lemma_split_join(ws);
        assert(ws.last().len() > 0);
        assert(ws.drop_last().push(ws.last()) =~= ws);
    }
}

/// Normalising is stable on `x`: either `x` holds a figure reference, or
/// its normalised text holds none, lower-casing leaves that text as it is,
/// and stemming each of the lower-cased words of `x` a second time changes
/// nothing. Outside this set normalising twice can differ: "buses" gives
/// "bus" and then "bu"; "figs 6" gives "fig 6" and then "FIG. 6".
pub open spec fn normalize_stable(x: Seq<char>) -> bool {
    fig_payloads(x).len() > 0 || (fig_payloads(normalized(x)).len() == 0 && lower_of(
        normalized(x),
    ) == normalized(x) && forall|i: int|
        0 <= i < words(lower_of(x)).len() ==> stem(stem(#[trigger] words(lower_of(x))[i]))
            == stem(words(lower_of(x))[i]))
}

/// Normalising already normalised text changes nothing:
/// `normalized(normalized(x)) == normalized(x)` wherever normalising is
/// stable on `x`.
pub proof fn lemma_normalize_idempotent(x: Seq<char>)
    requires
        normalize_stable(x),
    ensures
        normalized(normalized(x)) == normalized(x),
{
    if fig_payloads(x).len() > 0 {
        crate::figures::lemma_first_payload_shaped(x);
        let dl = choose|dl: int| crate::figures::payload_shaped(fig_payloads(x)[0], dl);
        crate::figures::lemma_render_reparses(fig_payloads(x)[0], dl);
    } else {
        let lx = lower_of(x);
        let ws = words(lx);
        let ss = stem_all(ws);
        lemma_words_props(lx);
        assert forall|i: int| 0 <= i < ss.len() implies #[trigger] ss[i].len() > 0 && solid(
            ss[i],
        ) by {
            lemma_stem_props(ws[i]);
        }
        lemma_words_join(ss);
        assert(stem_all(ss) =~= ss);
    }
}

} // verus!
