//! Occurrences of labels after words, their deduplication and ordering, and
//! the two entry points: document paragraphs and OCR lines.

use vstd::prelude::*;
use crate::chars::{
    chars_of, copy_chars, dedup, dedup_chars, is_digit, is_word_char, same_chars, string_of,
    strings_of, views, word_char,
};
use crate::figures::{fig_payloads, fig_payloads_of, fig_prefix};
use crate::labels::{
    accepted, accepts, clean, clean_chars, flag_formats, formats_from_flags, has_fig, split_chars,
    split_parts, trim, LabelFormat,
};
use crate::chars::lower_of;
use crate::normalize::{join_chars, join_words, lower_chars, normalize_chars, normalized, words, words_of};
use crate::order::{
    chars_lt, isort, label_le_chars, lemma_isort, lemma_occ_order_total, occ_order, sort_labels,
    sorted_adj, str_views,
};

verus! {

/// A label found after a word: the word it is attributed to and the label.
pub struct Occurrence {
    pub word: String,
    pub label: String,
}

impl View for Occurrence {
    type V = (Seq<char>, Seq<char>);

    open spec fn view(&self) -> (Seq<char>, Seq<char>) {
        (self.word@, self.label@)
    }
}

/// What a document yields: its occurrences as "word label" lines, its
/// distinct labels, and its non-blank paragraphs, trimmed.
pub struct DocxResult {
    pub full_matches: Vec<String>,
    pub numbers: Vec<String>,
    pub paragraphs: Vec<String>,
}

/// Occurrences as "word label" lines, and the distinct labels.
pub struct ExtractionResult {
    pub occurrences: Vec<String>,
    pub labels: Vec<String>,
}

pub open spec fn occ_views(os: Seq<Occurrence>) -> Seq<(Seq<char>, Seq<char>)> {
    os.map_values(|o: Occurrence| o@)
}

/// The word that figure references are attributed to.
pub open spec fn fig_marker() -> Seq<char> {
    seq!['F', 'I', 'G', '.']
}

/// Where the trailing run of word characters of `t[..j]` starts.
pub open spec fn word_run_start(t: Seq<char>, j: int) -> int
    decreases j,
{
    if 0 < j <= t.len() && is_word_char(t[j - 1]) {
        word_run_start(t, j - 1)
    } else {
        j
    }
}

/// The run of word characters that ends token `t` (empty where `t` ends in
/// another character).
pub open spec fn trailing_word(t: Seq<char>) -> Seq<char> {
    t.skip(word_run_start(t, t.len() as int))
}

/// The end of the last word character of `t[..j]` (0 where there is none).
pub open spec fn last_word_end(t: Seq<char>, j: int) -> int
    decreases j,
{
    if 0 < j <= t.len() && !is_word_char(t[j - 1]) {
        last_word_end(t, j - 1)
    } else {
        j
    }
}

/// The number-bearing part of token `t`: up to its last word character.
pub open spec fn number_part(t: Seq<char>) -> Seq<char> {
    t.take(last_word_end(t, t.len() as int))
}

pub open spec fn has_digit(t: Seq<char>) -> bool {
    exists|k: int| 0 <= k < t.len() && is_digit(#[trigger] t[k])
}

/// Token `i` ends in a word and token `i + 1` holds a digit.
pub open spec fn pair_at(toks: Seq<Seq<char>>, i: int) -> bool {
    0 <= i && i + 1 < toks.len() && trailing_word(toks[i]).len() > 0 && has_digit(toks[i + 1])
}

/// The labels that a cleaned token stands for: itself where it is accepted,
/// else its split.
pub open spec fn token_labels(c: Seq<char>, fs: Seq<LabelFormat>) -> Seq<Seq<char>> {
    if accepted(c, fs) {
        seq![c]
    } else {
        split_parts(c, fs)
    }
}

/// The labels after a word: none for a figure reference, which the figure
/// pass records; else those of the cleaned text.
pub open spec fn pair_labels(raw: Seq<char>, fs: Seq<LabelFormat>) -> Seq<Seq<char>> {
    if has_fig(raw) {
        seq![]
    } else {
        token_labels(clean(raw), fs)
    }
}

/// Words that never head an occurrence.
pub open spec fn is_stop(w: Seq<char>) -> bool {
    w == seq!['a', 'b', 'o', 'u', 't'] || w == seq!['o', 'f'] || w == seq!['f', 'i', 'g'] || w
        == seq!['f', 'i', 'g', 'u', 'r', 'e']
}

pub open spec fn is_conj(w: Seq<char>) -> bool {
    w == seq!['a', 'n', 'd'] || w == seq!['o', 'r']
}

/// The occurrences of word/number pairs from token `i` on, where `last` is
/// the last word seen that was neither "and" nor "or" (empty if none).
///
/// A pair is a token that ends in a word followed by a token that holds a
/// digit; both tokens are used up. The word is normalised; a stop word, or a
/// number that yields no label, drops the pair. After "and" or "or" the
/// labels go to `last`, where there is one.
pub open spec fn pair_scan(
    toks: Seq<Seq<char>>,
    fs: Seq<LabelFormat>,
    i: int,
    last: Seq<char>,
) -> Seq<(Seq<char>, Seq<char>)>
    decreases toks.len() - i,
{
    if i < 0 || i + 1 >= toks.len() {
        seq![]
    } else if pair_at(toks, i) {
        let w = normalized(trailing_word(toks[i]));
        let labels = pair_labels(number_part(toks[i + 1]), fs);
        if is_stop(w) || labels.len() == 0 {
            pair_scan(toks, fs, i + 2, last)
        } else {
            let eff = if is_conj(w) && last.len() > 0 {
                last
            } else {
                w
            };
            let next = if is_conj(w) {
                last
            } else {
                w
            };
            labels.map_values(|l: Seq<char>| (eff, l)) + pair_scan(toks, fs, i + 2, next)
        }
    } else {
        pair_scan(toks, fs, i + 1, last)
    }
}

/// The whitespace-separated tokens of all paragraphs, in order.
pub open spec fn all_words(ps: Seq<Seq<char>>) -> Seq<Seq<char>>
    decreases ps.len(),
{
    if ps.len() == 0 {
        seq![]
    } else {
        all_words(ps.drop_last()) + words(ps.last())
    }
}

/// The figure references of each paragraph, as occurrences of the word
/// "FIG." with label "FIG. <digits><letter>".
pub open spec fn fig_occurrences(ps: Seq<Seq<char>>) -> Seq<(Seq<char>, Seq<char>)>
    decreases ps.len(),
{
    if ps.len() == 0 {
        seq![]
    } else {
        fig_occurrences(ps.drop_last()) + fig_payloads(ps.last()).map_values(
            |p: Seq<char>| (fig_marker(), fig_prefix() + p),
        )
    }
}

/// All occurrences of a document: figure references first, then the pairs.
pub open spec fn all_occurrences(ps: Seq<Seq<char>>, fs: Seq<LabelFormat>) -> Seq<
    (Seq<char>, Seq<char>),
> {
    fig_occurrences(ps) + pair_scan(all_words(ps), fs, 0, seq![])
}

/// Occurrences are the same where their lower-cased words and their labels
/// are.
pub open spec fn occ_key(o: (Seq<char>, Seq<char>)) -> (Seq<char>, Seq<char>) {
    (lower_of(o.0), o.1)
}

pub open spec fn occ_keys(os: Seq<(Seq<char>, Seq<char>)>) -> Seq<(Seq<char>, Seq<char>)> {
    os.map_values(|o: (Seq<char>, Seq<char>)| occ_key(o))
}

/// `os` with every occurrence whose key came before dropped.
pub open spec fn dedup_occ(os: Seq<(Seq<char>, Seq<char>)>) -> Seq<(Seq<char>, Seq<char>)>
    decreases os.len(),
{
    if os.len() == 0 {
        seq![]
    } else {
        let d = dedup_occ(os.drop_last());
        if occ_keys(d).contains(occ_key(os.last())) {
            d
        } else {
            d.push(os.last())
        }
    }
}

/// How an occurrence is shown: "word label", or the label alone for a
/// figure reference.
pub open spec fn display(o: (Seq<char>, Seq<char>)) -> Seq<char> {
    if o.0 == fig_marker() {
        o.1
    } else {
        o.0 + seq![' '] + o.1
    }
}

pub open spec fn displays(os: Seq<(Seq<char>, Seq<char>)>) -> Seq<Seq<char>> {
    os.map_values(|o: (Seq<char>, Seq<char>)| display(o))
}

pub open spec fn labels_of(os: Seq<(Seq<char>, Seq<char>)>) -> Seq<Seq<char>> {
    os.map_values(|o: (Seq<char>, Seq<char>)| o.1)
}

/// The displayed occurrences of `os`: deduplicated, then in occurrence order.
pub open spec fn final_occurrences(os: Seq<(Seq<char>, Seq<char>)>) -> Seq<Seq<char>> {
    displays(isort(dedup_occ(os), occ_order()))
}

/// The label set of `os`: the labels of the surviving occurrences, each once,
/// in label order.
pub open spec fn final_labels(os: Seq<(Seq<char>, Seq<char>)>) -> Seq<Seq<char>> {
    isort(dedup(labels_of(dedup_occ(os))), crate::order::label_order())
}

/// The non-blank paragraphs, trimmed.
pub open spec fn kept_paragraphs(ps: Seq<Seq<char>>) -> Seq<Seq<char>>
    decreases ps.len(),
{
    if ps.len() == 0 {
        seq![]
    } else if trim(ps.last()).len() > 0 {
        kept_paragraphs(ps.drop_last()).push(trim(ps.last()))
    } else {
        kept_paragraphs(ps.drop_last())
    }
}

fn trailing_word_of(t: &Vec<char>) -> (r: Vec<char>)
    ensures
        r@ == trailing_word(t@),
{
    let n = t.len();
    let mut j = n;
    while j > 0 && word_char(t[j - 1])
        invariant
            j <= n == t@.len(),
            word_run_start(t@, j as int) == word_run_start(t@, n as int),
        decreases j,
    {
        j -= 1;
    }
    let r = crate::labels::sub_chars(t, j, n);
    assert(r@ =~= trailing_word(t@));
    r
}

fn number_part_of(t: &Vec<char>) -> (r: Vec<char>)
    ensures
        r@ == number_part(t@),
{
    let n = t.len();
    let mut j = n;
    while j > 0 && !word_char(t[j - 1])
        invariant
            j <= n == t@.len(),
            last_word_end(t@, j as int) == last_word_end(t@, n as int),
        decreases j,
    {
        j -= 1;
    }
    let r = crate::labels::sub_chars(t, 0, j);
    assert(r@ =~= number_part(t@));
    r
}

fn holds_digit(t: &Vec<char>) -> (r: bool)
    ensures
        r == has_digit(t@),
{
    let mut k: usize = 0;
    while k < t.len()
        invariant
            k <= t@.len(),
            forall|j: int| 0 <= j < k ==> !is_digit(#[trigger] t@[j]),
        decreases t@.len() - k,
    {
        if crate::chars::digit_char(t[k]) {
            return true;
        }
        k += 1;
    }
    false
}

/// The labels of a cleaned token (see `token_labels`).
fn token_labels_of(c: &Vec<char>, fs: &[LabelFormat]) -> (r: Vec<Vec<char>>)
    ensures
        views(r@) == token_labels(c@, fs@),
{
    if accepts(c, fs) {
        let mut r: Vec<Vec<char>> = Vec::new();
        r.push(copy_chars(c));
        assert(views(r@) =~= token_labels(c@, fs@));
        r
    } else {
        let r = split_chars(c, fs);
        assert(views(r@) =~= r@.map_values(|p: Vec<char>| p@));
        r
    }
}

fn pair_labels_of(raw: &Vec<char>, fs: &[LabelFormat]) -> (r: Vec<Vec<char>>)
    ensures
        views(r@) == pair_labels(raw@, fs@),
{
    if crate::labels::mentions_fig(raw) {
        let r: Vec<Vec<char>> = Vec::new();
        assert(views(r@) =~= pair_labels(raw@, fs@));
        return r;
    }
    let c = clean_chars(raw);
    token_labels_of(&c, fs)
}

fn stop_word(w: &Vec<char>) -> (r: bool)
    ensures
        r == is_stop(w@),
{
    let about = vec!['a', 'b', 'o', 'u', 't'];
    let of = vec!['o', 'f'];
    let fig = vec!['f', 'i', 'g'];
    let figure = vec!['f', 'i', 'g', 'u', 'r', 'e'];
    same_chars(w, &about) || same_chars(w, &of) || same_chars(w, &fig) || same_chars(w, &figure)
}

fn conjunction(w: &Vec<char>) -> (r: bool)
    ensures
        r == is_conj(w@),
{
    let and = vec!['a', 'n', 'd'];
    let or = vec!['o', 'r'];
    same_chars(w, &and) || same_chars(w, &or)
}

/// The occurrences of word/number pairs in the tokens (see `pair_scan`).
pub fn scan_pairs(toks: &Vec<Vec<char>>, fs: &[LabelFormat]) -> (r: Vec<Occurrence>)
    ensures
        occ_views(r@) == pair_scan(views(toks@), fs@, 0, seq![]),
{
    let ghost tv = views(toks@);
    let n = toks.len();
    let mut out: Vec<Occurrence> = Vec::new();
    let mut last: Vec<char> = Vec::new();
    let mut i: usize = 0;
    while i < n && n - i >= 2
        invariant
            n == toks@.len(),
            tv == views(toks@),
            i <= n,
            occ_views(out@) + pair_scan(tv, fs@, i as int, last@) == pair_scan(tv, fs@, 0, seq![]),
        decreases n - i,
    {
        assert(tv[i as int] == toks@[i as int]@);
        assert(tv[i as int + 1] == toks@[i as int + 1]@);
        let tw = trailing_word_of(&toks[i]);
        if tw.len() > 0 && holds_digit(&toks[i + 1]) {
            let w = normalize_chars(&tw);
            let raw = number_part_of(&toks[i + 1]);
            let labels = pair_labels_of(&raw, fs);
            if !stop_word(&w) && labels.len() > 0 {
                let conj = conjunction(&w);
                let eff = if conj && last.len() > 0 {
                    copy_chars(&last)
                } else {
                    copy_chars(&w)
                };
                let ghost before = occ_views(out@);
                let ghost lv = views(labels@);
                let ghost bl = before.len();
                let mut k: usize = 0;
                while k < labels.len()
                    invariant
                        k <= labels@.len(),
                        lv == views(labels@),
                        bl == before.len(),
                        out@.len() == bl + k,
                        forall|j: int| 0 <= j < bl ==> #[trigger] out@[j]@ == before[j],
                        forall|j: int| bl <= j < bl + k ==> #[trigger] out@[j]@ == (eff@, lv[j - bl]),
                    decreases labels@.len() - k,
                {
                    let o = Occurrence { word: string_of(&eff), label: string_of(&labels[k]) };
                    out.push(o);
                    k += 1;
                }
                assert(occ_views(out@) =~= before + lv.map_values(|l: Seq<char>| (eff@, l)));
                if !conj {
                    last = w;
                }
            }
            i += 2;
        } else {
            i += 1;
        }
    }
    assert(occ_views(out@) + pair_scan(tv, fs@, i as int, last@) =~= occ_views(out@));
    out
}

fn append_all(r: &mut Vec<Vec<char>>, ws: &Vec<Vec<char>>)
    ensures
        views(final(r)@) == views(old(r)@) + views(ws@),
{
    let ghost before = views(r@);
    let ghost bl = before.len();
    let mut j: usize = 0;
    while j < ws.len()
        invariant
            j <= ws@.len(),
            bl == before.len(),
            before == views(old(r)@),
            r@.len() == bl + j,
            forall|i: int| 0 <= i < bl ==> #[trigger] r@[i]@ == before[i],
            forall|i: int| bl <= i < bl + j ==> #[trigger] r@[i]@ == ws@[i - bl]@,
        decreases ws@.len() - j,
    {
        r.push(copy_chars(&ws[j]));
        j += 1;
    }
    assert(views(r@) =~= before + views(ws@));
}

fn document_tokens(ps: &Vec<String>) -> (r: Vec<Vec<char>>)
    ensures
        views(r@) == all_words(str_views(ps@)),
{
    let ghost pv = str_views(ps@);
    let mut r: Vec<Vec<char>> = Vec::new();
    let mut k: usize = 0;
    while k < ps.len()
        invariant
            k <= ps@.len(),
            pv == str_views(ps@),
            views(r@) == all_words(pv.take(k as int)),
        decreases ps@.len() - k,
    {
        assert(pv.take(k as int + 1).drop_last() =~= pv.take(k as int));
        assert(pv.take(k as int + 1).last() == ps@[k as int]@);
        let cs = chars_of(ps[k].as_str());
        let ws = words_of(&cs);
        append_all(&mut r, &ws);
        k += 1;
    }
    assert(pv.take(k as int) =~= pv);
    r
}

fn document_figures(ps: &Vec<String>) -> (r: Vec<Occurrence>)
    ensures
        occ_views(r@) == fig_occurrences(str_views(ps@)),
{
    let ghost pv = str_views(ps@);
    let mut r: Vec<Occurrence> = Vec::new();
    let mut k: usize = 0;
    while k < ps.len()
        invariant
            k <= ps@.len(),
            pv == str_views(ps@),
            occ_views(r@) == fig_occurrences(pv.take(k as int)),
        decreases ps@.len() - k,
    {
        assert(pv.take(k as int + 1).drop_last() =~= pv.take(k as int));
        assert(pv.take(k as int + 1).last() == ps@[k as int]@);
        let cs = chars_of(ps[k].as_str());
        let payloads = fig_payloads_of(&cs);
        let ghost before = occ_views(r@);
        let ghost bl = before.len();
        let ghost fv = views(payloads@).map_values(|p: Seq<char>| (fig_marker(), fig_prefix() + p));
        let mut j: usize = 0;
        while j < payloads.len()
            invariant
                j <= payloads@.len(),
                bl == before.len(),
                fv == views(payloads@).map_values(|p: Seq<char>| (fig_marker(), fig_prefix() + p)),
                r@.len() == bl + j,
                forall|i: int| 0 <= i < bl ==> #[trigger] r@[i]@ == before[i],
                forall|i: int| bl <= i < bl + j ==> #[trigger] r@[i]@ == fv[i - bl],
            decreases payloads@.len() - j,
        {
            let mut label: Vec<char> = vec!['F', 'I', 'G', '.', ' '];
            let mut q: usize = 0;
            while q < payloads[j].len()
                invariant
                    j < payloads@.len(),
                    q <= payloads@[j as int]@.len(),
                    label@ == fig_prefix() + payloads@[j as int]@.take(q as int),
                decreases payloads@[j as int]@.len() - q,
            {
                label.push(payloads[j][q]);
                q += 1;
                assert(label@ =~= fig_prefix() + payloads@[j as int]@.take(q as int));
            }
            assert(payloads@[j as int]@.take(q as int) =~= payloads@[j as int]@);
            let marker = vec!['F', 'I', 'G', '.'];
            assert(marker@ =~= fig_marker());
            r.push(Occurrence { word: string_of(&marker), label: string_of(&label) });
            j += 1;
        }
        assert(occ_views(r@) =~= before + fv);
        k += 1;
    }
    assert(pv.take(k as int) =~= pv);
    r
}

fn same_key(a: &Occurrence, b: &Occurrence) -> (r: bool)
    ensures
        r == (occ_key(a@) == occ_key(b@)),
{
    let wa = lower_chars(&chars_of(a.word.as_str()));
    let wb = lower_chars(&chars_of(b.word.as_str()));
    let la = chars_of(a.label.as_str());
    let lb = chars_of(b.label.as_str());
    same_chars(&wa, &wb) && same_chars(&la, &lb)
}

fn clone_occurrence(o: &Occurrence) -> (r: Occurrence)
    ensures
        r@ == o@,
{
    Occurrence { word: o.word.clone(), label: o.label.clone() }
}

fn key_seen(r: &Vec<Occurrence>, o: &Occurrence) -> (b: bool)
    ensures
        b == occ_keys(occ_views(r@)).contains(occ_key(o@)),
{
    let mut j: usize = 0;
    while j < r.len()
        invariant
            j <= r@.len(),
            forall|i: int| 0 <= i < j ==> occ_key(#[trigger] r@[i]@) != occ_key(o@),
        decreases r@.len() - j,
    {
        if same_key(&r[j], o) {
            assert(occ_keys(occ_views(r@))[j as int] == occ_key(o@));
            return true;
        }
        j += 1;
    }
    assert forall|i: int| 0 <= i < occ_keys(occ_views(r@)).len() implies occ_keys(occ_views(r@))[i]
        != occ_key(o@) by {
        assert(occ_keys(occ_views(r@))[i] == occ_key(r@[i]@));
    }
    false
}

/// The occurrences with every one whose key (lower-cased word, label) came
/// before dropped; the survivors keep their order.
pub fn dedup_occurrences(os: &Vec<Occurrence>) -> (r: Vec<Occurrence>)
    ensures
        occ_views(r@) == dedup_occ(occ_views(os@)),
{
    let ghost ov = occ_views(os@);
    let mut r: Vec<Occurrence> = Vec::new();
    let mut k: usize = 0;
    while k < os.len()
        invariant
            k <= os@.len(),
            ov == occ_views(os@),
            occ_views(r@) == dedup_occ(ov.take(k as int)),
        decreases os@.len() - k,
    {
        assert(ov.take(k as int + 1).drop_last() =~= ov.take(k as int));
        assert(ov.take(k as int + 1).last() == os@[k as int]@);
        let ghost d = occ_views(r@);
        if !key_seen(&r, &os[k]) {
            r.push(clone_occurrence(&os[k]));
            assert(occ_views(r@) =~= d.push(os@[k as int]@));
        }
        k += 1;
    }
    assert(ov.take(k as int) =~= ov);
    r
}

fn occ_le_exec(x: &Occurrence, y: &Occurrence) -> (r: bool)
    ensures
        r == occ_order()(x@, y@),
{
    let wx = lower_chars(&chars_of(x.word.as_str()));
    let wy = lower_chars(&chars_of(y.word.as_str()));
    let lx = chars_of(x.label.as_str());
    let ly = chars_of(y.label.as_str());
    chars_lt(&wx, &wy) || (same_chars(&wx, &wy) && label_le_chars(&lx, &ly))
}

/// The occurrences in occurrence order: by lower-cased word, then by label.
pub fn sort_occurrences(os: &Vec<Occurrence>) -> (r: Vec<Occurrence>)
    ensures
        occ_views(r@) == isort(occ_views(os@), occ_order()),
        sorted_adj(occ_views(r@), occ_order()),
        occ_views(r@).to_multiset() == occ_views(os@).to_multiset(),
{
    let ghost ov = occ_views(os@);
    let mut r: Vec<Occurrence> = Vec::new();
    let mut k: usize = 0;
    while k < os.len()
        invariant
            k <= os@.len(),
            ov == occ_views(os@),
            occ_views(r@) == isort(ov.take(k as int), occ_order()),
        decreases os@.len() - k,
    {
        assert(ov.take(k as int + 1).drop_last() =~= ov.take(k as int));
        assert(ov.take(k as int + 1).last() == os@[k as int]@);
        let x = clone_occurrence(&os[k]);
        let mut j: usize = 0;
        while j < r.len() && occ_le_exec(&r[j], &x)
            invariant
                j <= r@.len(),
                x@ == os@[k as int]@,
                crate::order::first_above(occ_views(r@), x@, occ_order(), j as int)
                    == crate::order::first_above(occ_views(r@), x@, occ_order(), 0),
            decreases r@.len() - j,
        {
            assert(occ_views(r@)[j as int] == r@[j as int]@);
            j += 1;
        }
        proof {
            if j < r@.len() {
                assert(occ_views(r@)[j as int] == r@[j as int]@);
            }
        }
        let ghost before = occ_views(r@);
        r.insert(j, x);
        assert(occ_views(r@) =~= before.insert(j as int, os@[k as int]@));
        k += 1;
    }
    assert(ov.take(k as int) =~= ov);
    proof {
        lemma_occ_order_total();
        lemma_isort(ov, occ_order());
    }
    r
}

fn display_of(o: &Occurrence) -> (r: String)
    ensures
        r@ == display(o@),
{
    let w = chars_of(o.word.as_str());
    let l = chars_of(o.label.as_str());
    let marker = vec!['F', 'I', 'G', '.'];
    if same_chars(&w, &marker) {
        return o.label.clone();
    }
    let mut r = copy_chars(&w);
    r.push(' ');
    let mut k: usize = 0;
    while k < l.len()
        invariant
            k <= l@.len(),
            r@ == w@ + seq![' '] + l@.take(k as int),
        decreases l@.len() - k,
    {
        r.push(l[k]);
        k += 1;
        assert(r@ =~= w@ + seq![' '] + l@.take(k as int));
    }
    assert(l@.take(k as int) =~= l@);
    string_of(&r)
}

/// Deduplicate the occurrences, then list them (as "word label", or the
/// label alone for a figure reference) in occurrence order, and their
/// distinct labels in label order.
pub fn finalize(occurrences: &Vec<Occurrence>) -> (r: ExtractionResult)
    ensures
        str_views(r.occurrences@) == final_occurrences(occ_views(occurrences@)),
        str_views(r.labels@) == final_labels(occ_views(occurrences@)),
{
    let unique = dedup_occurrences(occurrences);
    let sorted = sort_occurrences(&unique);
    let mut shown: Vec<String> = Vec::new();
    let mut k: usize = 0;
    while k < sorted.len()
        invariant
            k <= sorted@.len(),
            shown@.len() == k,
            forall|j: int| 0 <= j < k ==> #[trigger] shown@[j]@ == display(sorted@[j]@),
        decreases sorted@.len() - k,
    {
        shown.push(display_of(&sorted[k]));
        k += 1;
    }
    assert(str_views(shown@) =~= displays(occ_views(sorted@)));
    let mut labels: Vec<Vec<char>> = Vec::new();
    let mut k: usize = 0;
    while k < unique.len()
        invariant
            k <= unique@.len(),
            labels@.len() == k,
            forall|j: int| 0 <= j < k ==> #[trigger] labels@[j]@ == unique@[j]@.1,
        decreases unique@.len() - k,
    {
        labels.push(chars_of(unique[k].label.as_str()));
        k += 1;
    }
    assert(views(labels@) =~= labels_of(occ_views(unique@)));
    let distinct = dedup_chars(&labels);
    let distinct_strings = strings_of(&distinct);
    let ordered = sort_labels(&distinct_strings);
    ExtractionResult { occurrences: shown, labels: ordered }
}

/// The occurrences of a document, before deduplication: the figure
/// references of each paragraph, then the word/number pairs of the whole
/// text (see `all_occurrences`).
pub fn extract_occurrences(paragraphs: &Vec<String>, formats: &[LabelFormat]) -> (r: Vec<
    Occurrence,
>)
    ensures
        occ_views(r@) == all_occurrences(str_views(paragraphs@), formats@),
{
    let mut figures = document_figures(paragraphs);
    let toks = document_tokens(paragraphs);
    let mut pairs = scan_pairs(&toks, formats);
    let ghost fv = occ_views(figures@);
    let ghost pv = occ_views(pairs@);
    figures.append(&mut pairs);
    assert(occ_views(figures@) =~= fv + pv);
    figures
}

fn kept_paragraphs_of(ps: &Vec<String>) -> (r: Vec<String>)
    ensures
        str_views(r@) == kept_paragraphs(str_views(ps@)),
{
    let ghost pv = str_views(ps@);
    let mut r: Vec<String> = Vec::new();
    let mut k: usize = 0;
    while k < ps.len()
        invariant
            k <= ps@.len(),
            pv == str_views(ps@),
            str_views(r@) == kept_paragraphs(pv.take(k as int)),
        decreases ps@.len() - k,
    {
        assert(pv.take(k as int + 1).drop_last() =~= pv.take(k as int));
        assert(pv.take(k as int + 1).last() == ps@[k as int]@);
        let cs = chars_of(ps[k].as_str());
        let t = crate::labels::trimmed(&cs);
        if t.len() > 0 {
            let ghost before = str_views(r@);
            r.push(string_of(&t));
            assert(str_views(r@) =~= before.push(t@));
        }
        k += 1;
    }
    assert(pv.take(k as int) =~= pv);
    r
}

/// Extract the occurrences and labels of a document from its paragraphs,
/// with the label formats that the five switches enable.
pub fn extract_from_document_text(
    paragraphs: &Vec<String>,
    allow_2: bool,
    allow_3: bool,
    allow_4: bool,
    allow_letters: bool,
    allow_hyphen: bool,
) -> (r: DocxResult)
    ensures
        ({
            let os = all_occurrences(
                str_views(paragraphs@),
                flag_formats(allow_2, allow_3, allow_4, allow_letters, allow_hyphen),
            );
            &&& str_views(r.full_matches@) == final_occurrences(os)
            &&& str_views(r.numbers@) == final_labels(os)
        }),
        str_views(r.paragraphs@) == kept_paragraphs(str_views(paragraphs@)),
{
    let formats = formats_from_flags(allow_2, allow_3, allow_4, allow_letters, allow_hyphen);
    let os = extract_occurrences(paragraphs, formats.as_slice());
    let result = finalize(&os);
    DocxResult {
        full_matches: result.occurrences,
        numbers: result.labels,
        paragraphs: kept_paragraphs_of(paragraphs),
    }
}

/// The labels of each token of `ws`, cleaned, in order.
pub open spec fn number_labels(ws: Seq<Seq<char>>, fs: Seq<LabelFormat>) -> Seq<Seq<char>>
    decreases ws.len(),
{
    if ws.len() == 0 {
        seq![]
    } else {
        number_labels(ws.drop_last(), fs) + token_labels(clean(ws.last()), fs)
    }
}

/// The labels that `s` holds, as one string: its first figure reference as
/// "FIG. <digits><letter>" where it has one; otherwise the labels of its
/// whitespace-separated tokens, each once, joined by single spaces.
pub open spec fn normalized_number(s: Seq<char>, fs: Seq<LabelFormat>) -> Seq<char> {
    let refs = fig_payloads(s);
    if refs.len() > 0 {
        fig_prefix() + refs[0]
    } else {
        join_words(dedup(number_labels(words(s), fs)))
    }
}

fn number_string(s: &Vec<char>, fs: &[LabelFormat]) -> (r: Vec<char>)
    ensures
        r@ == normalized_number(s@, fs@),
{
    let refs = fig_payloads_of(s);
    if refs.len() > 0 {
        assert(views(refs@)[0] == refs@[0]@);
        let mut r: Vec<char> = vec!['F', 'I', 'G', '.', ' '];
        let mut j: usize = 0;
        while j < refs[0].len()
            invariant
                refs@.len() > 0,
                j <= refs@[0]@.len(),
                r@ == fig_prefix() + refs@[0]@.take(j as int),
            decreases refs@[0]@.len() - j,
        {
            r.push(refs[0][j]);
            j += 1;
            assert(r@ =~= fig_prefix() + refs@[0]@.take(j as int));
        }
        assert(refs@[0]@.take(j as int) =~= refs@[0]@);
        return r;
    }
    let ws = words_of(s);
    let mut labels: Vec<Vec<char>> = Vec::new();
    let mut k: usize = 0;
    while k < ws.len()
        invariant
            k <= ws@.len(),
            views(labels@) == number_labels(views(ws@).take(k as int), fs@),
        decreases ws@.len() - k,
    {
        assert(views(ws@).take(k as int + 1).drop_last() =~= views(ws@).take(k as int));
        assert(views(ws@).take(k as int + 1).last() == ws@[k as int]@);
        let c = clean_chars(&ws[k]);
        let found = token_labels_of(&c, fs);
        append_all(&mut labels, &found);
        k += 1;
    }
    assert(views(ws@).take(k as int) =~= views(ws@));
    let distinct = dedup_chars(&labels);
    join_chars(&distinct)
}

/// The labels in `num` as one string (see `normalized_number`), with the
/// label formats that the five switches enable.
pub fn normalize_number(
    num: &str,
    allow_2: bool,
    allow_3: bool,
    allow_4: bool,
    allow_letters: bool,
    allow_hyphen: bool,
) -> (r: String)
    ensures
        r@ == normalized_number(
            num@,
            flag_formats(allow_2, allow_3, allow_4, allow_letters, allow_hyphen),
        ),
{
    let formats = formats_from_flags(allow_2, allow_3, allow_4, allow_letters, allow_hyphen);
    let s = chars_of(num);
    let r = number_string(&s, formats.as_slice());
    string_of(&r)
}

/// The label that an OCR line resolves to, given its normalised text: where
/// the text holds a digit and yields labels, those labels as one string.
pub open spec fn ocr_label(n: Seq<char>, fs: Seq<LabelFormat>) -> Option<Seq<char>> {
    if has_digit(n) && normalized_number(n, fs).len() > 0 {
        Some(normalized_number(n, fs))
    } else {
        None
    }
}

pub open spec fn opt_view(o: Option<String>) -> Option<Seq<char>> {
    match o {
        Some(s) => Some(s@),
        None => None,
    }
}

/// One OCR line's entry: its normalised text and the label it resolves to.
pub open spec fn ocr_entry_ok(e: (String, Option<String>), line: Seq<char>, fs: Seq<LabelFormat>) -> bool {
    e.0@ == normalized(line) && opt_view(e.1) == ocr_label(normalized(line), fs)
}

fn ocr_line(line: &String, formats: &[LabelFormat]) -> (r: (String, Option<String>))
    ensures
        ocr_entry_ok(r, line@, formats@),
{
    let cs = chars_of(line.as_str());
    let n = normalize_chars(&cs);
    let label = if holds_digit(&n) {
        let l = number_string(&n, formats);
        if l.len() > 0 {
            Some(string_of(&l))
        } else {
            None
        }
    } else {
        None
    };
    (string_of(&n), label)
}

/// For each OCR line, its normalised text and the label it resolves to, if
/// any (see `ocr_label`).
pub fn extract_from_ocr_lines(lines: &Vec<String>, formats: &[LabelFormat]) -> (r: Vec<
    (String, Option<String>),
>)
    ensures
        r@.len() == lines@.len(),
        forall|i: int| 0 <= i < lines@.len() ==> ocr_entry_ok(#[trigger] r@[i], lines@[i]@, formats@),
{
    let mut r: Vec<(String, Option<String>)> = Vec::new();
    let mut k: usize = 0;
    while k < lines.len()
        invariant
            k <= lines@.len(),
            r@.len() == k,
            forall|i: int| 0 <= i < k ==> ocr_entry_ok(#[trigger] r@[i], lines@[i]@, formats@),
        decreases lines@.len() - k,
    {
        let e = ocr_line(&lines[k], formats);
        r.push(e);
        k += 1;
    }
    r
}

proof fn lemma_pair_scan_no_stop(
    toks: Seq<Seq<char>>,
    fs: Seq<LabelFormat>,
    i: int,
    last: Seq<char>,
)
    requires
        !is_stop(last),
    ensures
        forall|k: int|
            0 <= k < pair_scan(toks, fs, i, last).len() ==> !is_stop(
                #[trigger] pair_scan(toks, fs, i, last)[k].0,
            ),
    decreases toks.len() - i,
{
    if i < 0 || i + 1 >= toks.len() {
        assert(pair_scan(toks, fs, i, last).len() == 0);
    } else if pair_at(toks, i) {
        let w = normalized(trailing_word(toks[i]));
        let labels = pair_labels(number_part(toks[i + 1]), fs);
        if is_stop(w) || labels.len() == 0 {
            lemma_pair_scan_no_stop(toks, fs, i + 2, last);
            assert(pair_scan(toks, fs, i, last) == pair_scan(toks, fs, i + 2, last));
        } else {
            let eff = if is_conj(w) && last.len() > 0 {
                last
            } else {
                w
            };
            let next = if is_conj(w) {
                last
            } else {
                w
            };
            lemma_pair_scan_no_stop(toks, fs, i + 2, next);
            let head = labels.map_values(|l: Seq<char>| (eff, l));
            let rest = pair_scan(toks, fs, i + 2, next);
            assert(pair_scan(toks, fs, i, last) == head + rest);
            assert forall|k: int| 0 <= k < (head + rest).len() implies !is_stop(
                #[trigger] (head + rest)[k].0,
            ) by {
                if k < head.len() {
                    assert((head + rest)[k] == head[k]);
                    assert(head[k] == (eff, labels[k]));
                } else {
                    assert((head + rest)[k] == rest[k - head.len()]);
                }
            }
        }
    } else {
        lemma_pair_scan_no_stop(toks, fs, i + 1, last);
        assert(pair_scan(toks, fs, i, last) == pair_scan(toks, fs, i + 1, last));
    }
}

proof fn lemma_fig_occurrences_marker(ps: Seq<Seq<char>>)
    ensures
        forall|k: int|
            0 <= k < fig_occurrences(ps).len() ==> #[trigger] fig_occurrences(ps)[k].0
                == fig_marker(),
    decreases ps.len(),
{
    if ps.len() > 0 {
        lemma_fig_occurrences_marker(ps.drop_last());
        let a = fig_occurrences(ps.drop_last());
        let b = fig_payloads(ps.last()).map_values(
            |p: Seq<char>| (fig_marker(), fig_prefix() + p),
        );
        assert forall|k: int| 0 <= k < (a + b).len() implies #[trigger] (a + b)[k].0
            == fig_marker() by {
            if k < a.len() {
                assert((a + b)[k] == a[k]);
            } else {
                assert((a + b)[k] == b[k - a.len()]);
            }
        }
    }
}

/// Stop words never head an occurrence: whatever the paragraphs and the
/// formats, no occurrence is attributed to "about", "of", "fig" or "figure".
pub proof fn lemma_stop_words_head_nothing(ps: Seq<Seq<char>>, fs: Seq<LabelFormat>)
    ensures
        forall|k: int|
            0 <= k < all_occurrences(ps, fs).len() ==> !is_stop(
                #[trigger] all_occurrences(ps, fs)[k].0,
            ),
{
    let a = fig_occurrences(ps);
    let b = pair_scan(all_words(ps), fs, 0, seq![]);
    lemma_fig_occurrences_marker(ps);
    assert(!is_stop(Seq::<char>::empty())) by {
        assert(seq!['a', 'b', 'o', 'u', 't'].len() == 5);
        assert(seq!['o', 'f'].len() == 2);
        assert(seq!['f', 'i', 'g'].len() == 3);
        assert(seq!['f', 'i', 'g', 'u', 'r', 'e'].len() == 6);
    }
    lemma_pair_scan_no_stop(all_words(ps), fs, 0, seq![]);
    assert forall|k: int| 0 <= k < (a + b).len() implies !is_stop(#[trigger] (a + b)[k].0) by {
        if k < a.len() {
            assert((a + b)[k] == a[k]);
            assert(a[k].0 == fig_marker());
            assert(fig_marker().len() == 4);
            assert(seq!['a', 'b', 'o', 'u', 't'].len() == 5);
            assert(seq!['o', 'f'].len() == 2);
            assert(seq!['f', 'i', 'g'].len() == 3);
            assert(seq!['f', 'i', 'g', 'u', 'r', 'e'].len() == 6);
        } else {
            assert((a + b)[k] == b[k - a.len()]);
        }
    }
}

/// Deduplication is key-exact: the surviving occurrences have distinct keys
/// (lower-cased word, label), the key of every occurrence is among them,
/// and every survivor is one of the occurrences.
pub proof fn lemma_dedup_occ_keys(os: Seq<(Seq<char>, Seq<char>)>)
    ensures
        occ_keys(dedup_occ(os)).no_duplicates(),
        forall|k: int|
            0 <= k < os.len() ==> occ_keys(dedup_occ(os)).contains(occ_key(#[trigger] os[k])),
        forall|j: int| 0 <= j < dedup_occ(os).len() ==> os.contains(#[trigger] dedup_occ(os)[j]),
    decreases os.len(),
{
    if os.len() > 0 {
        let p = os.drop_last();
        let x = os.last();
        lemma_dedup_occ_keys(p);
        let d = dedup_occ(p);
        assert forall|j: int| 0 <= j < d.len() implies os.contains(#[trigger] d[j]) by {
            assert(p.contains(d[j]));
            let i = choose|i: int| 0 <= i < p.len() && p[i] == d[j];
            assert(os[i] == d[j]);
        }
        if occ_keys(d).contains(occ_key(x)) {
            assert forall|k: int| 0 <= k < os.len() implies occ_keys(d).contains(
                occ_key(#[trigger] os[k]),
            ) by {
                if k < p.len() {
                    assert(os[k] == p[k]);
                }
            }
        } else {
            let e = d.push(x);
            assert(occ_keys(e) =~= occ_keys(d).push(occ_key(x)));
            assert forall|a: int, b: int|
                0 <= a < occ_keys(e).len() && 0 <= b < occ_keys(e).len() && a != b implies occ_keys(
                e,
            )[a] != occ_keys(e)[b] by {
                if a < d.len() && b < d.len() {
                    assert(occ_keys(e)[a] == occ_keys(d)[a]);
                    assert(occ_keys(e)[b] == occ_keys(d)[b]);
                } else if a < d.len() {
                    assert(occ_keys(e)[a] == occ_keys(d)[a]);
                } else {
                    assert(occ_keys(e)[b] == occ_keys(d)[b]);
                }
            }
            assert forall|k: int| 0 <= k < os.len() implies occ_keys(e).contains(
                occ_key(#[trigger] os[k]),
            ) by {
                if k < p.len() {
                    assert(os[k] == p[k]);
                    let i = choose|i: int| 0 <= i < occ_keys(d).len() && occ_keys(d)[i] == occ_key(p[k]);
                    assert(occ_keys(e)[i] == occ_keys(d)[i]);
                } else {
                    assert(occ_keys(e)[d.len() as int] == occ_key(x));
                }
            }
            assert forall|j: int| 0 <= j < e.len() implies os.contains(#[trigger] e[j]) by {
                if j < d.len() {
                    assert(e[j] == d[j]);
                } else {
                    assert(os[os.len() - 1] == x);
                }
            }
        }
    }
}

/// The texts one after the other.
pub open spec fn concat_all(ts: Seq<Seq<char>>) -> Seq<char>
    decreases ts.len(),
{
    if ts.len() == 0 {
        seq![]
    } else {
        concat_all(ts.drop_last()) + ts.last()
    }
}

/// The text of a paragraph given as runs of texts: the texts of each run
/// joined directly, the runs joined by single spaces.
pub open spec fn runs_text(runs: Seq<Seq<Seq<char>>>) -> Seq<char> {
    join_words(runs.map_values(|r: Seq<Seq<char>>| concat_all(r)))
}

pub open spec fn run_views(runs: Seq<Vec<String>>) -> Seq<Seq<Seq<char>>> {
    runs.map_values(|r: Vec<String>| str_views(r@))
}

fn concat_texts(texts: &Vec<String>) -> (r: Vec<char>)
    ensures
        r@ == concat_all(str_views(texts@)),
{
    let ghost tv = str_views(texts@);
    let mut r: Vec<char> = Vec::new();
    let mut k: usize = 0;
    while k < texts.len()
        invariant
            k <= texts@.len(),
            tv == str_views(texts@),
            r@ == concat_all(tv.take(k as int)),
        decreases texts@.len() - k,
    {
        assert(tv.take(k as int + 1).drop_last() =~= tv.take(k as int));
        assert(tv.take(k as int + 1).last() == texts@[k as int]@);
        let t = chars_of(texts[k].as_str());
        let ghost before = r@;
        let mut j: usize = 0;
        while j < t.len()
            invariant
                j <= t@.len(),
                r@ == before + t@.take(j as int),
            decreases t@.len() - j,
        {
            r.push(t[j]);
            j += 1;
            assert(r@ =~= before + t@.take(j as int));
        }
        assert(t@.take(j as int) =~= t@);
        k += 1;
    }
    assert(tv.take(k as int) =~= tv);
    r
}

/// The text of a document paragraph from the texts of its runs (see
/// `runs_text`).
pub fn paragraph_text(runs: &Vec<Vec<String>>) -> (r: String)
    ensures
        r@ == runs_text(run_views(runs@)),
{
    let mut parts: Vec<Vec<char>> = Vec::new();
    let mut k: usize = 0;
    while k < runs.len()
        invariant
            k <= runs@.len(),
            parts@.len() == k,
            forall|j: int| 0 <= j < k ==> #[trigger] parts@[j]@ == concat_all(str_views(runs@[j]@)),
        decreases runs@.len() - k,
    {
        parts.push(concat_texts(&runs[k]));
        k += 1;
    }
    assert(views(parts@) =~= run_views(runs@).map_values(|r: Seq<Seq<char>>| concat_all(r)));
    let r = join_chars(&parts);
    string_of(&r)
}

/// The label set of a document lists all-numeric labels in ascending
/// numeric order: where every distinct label of the occurrences starts with
/// a number, each entry of `final_labels` is at most the next by that number.
pub proof fn lemma_document_numbers_ascend(os: Seq<(Seq<char>, Seq<char>)>)
    requires
        forall|k: int|
            0 <= k < dedup(labels_of(dedup_occ(os))).len() ==> crate::order::numeric(
                #[trigger] dedup(labels_of(dedup_occ(os)))[k],
            ),
    ensures
        forall|j: int|
            0 <= j < final_labels(os).len() - 1 ==> crate::order::digits_value(
                crate::order::lead_digits(#[trigger] final_labels(os)[j]),
            ) <= crate::order::digits_value(crate::order::lead_digits(final_labels(os)[j + 1])),
{
    crate::order::lemma_numeric_labels_ascend(dedup(labels_of(dedup_occ(os))));
}

/// The occurrences that a document lists are key-exact: after
/// deduplication and ordering, no two of them share a key (lower-cased word,
/// label).
pub proof fn lemma_listed_keys_distinct(os: Seq<(Seq<char>, Seq<char>)>)
    ensures
        occ_keys(isort(dedup_occ(os), occ_order())).no_duplicates(),
{
    broadcast use vstd::seq_lib::group_to_multiset_ensures;

    let d = dedup_occ(os);
    let r = isort(d, occ_order());
    lemma_dedup_occ_keys(os);
    lemma_occ_order_total();
    lemma_isort(d, occ_order());
    assert(d.no_duplicates()) by {
        assert forall|i: int, j: int| 0 <= i < d.len() && 0 <= j < d.len() && i != j implies d[i]
            != d[j] by {
            assert(occ_keys(d)[i] == occ_key(d[i]));
            assert(occ_keys(d)[j] == occ_key(d[j]));
        }
    }
    d.lemma_multiset_has_no_duplicates();
    r.lemma_multiset_has_no_duplicates_conv();
    assert forall|a: int, b: int|
        0 <= a < occ_keys(r).len() && 0 <= b < occ_keys(r).len() && a != b implies occ_keys(r)[a]
        != occ_keys(r)[b] by {
        assert(r.contains(r[a]));
        assert(r.contains(r[b]));
        assert(r.to_multiset().count(r[a]) > 0);
        assert(r.to_multiset().count(r[b]) > 0);
        assert(d.contains(r[a]));
        assert(d.contains(r[b]));
        let i = choose|i: int| 0 <= i < d.len() && d[i] == r[a];
        let j = choose|j: int| 0 <= j < d.len() && d[j] == r[b];
        assert(r[a] != r[b]);
        assert(occ_keys(d)[i] == occ_key(d[i]));
        assert(occ_keys(d)[j] == occ_key(d[j]));
        assert(occ_keys(r)[a] == occ_key(r[a]));
        assert(occ_keys(r)[b] == occ_key(r[b]));
    }
}

} // verus!
