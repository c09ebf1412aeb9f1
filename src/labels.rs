//! Label shapes, the format matcher, token cleaning and the splitting of
//! run-together tokens.

use vstd::prelude::*;
use crate::chars::{
    alnum_char, chars_of, digit_char, is_alnum, is_digit, is_lower, is_space, space_char,
    string_of,
};

verus! {

/// The accepted shapes of a reference label.
#[derive(Debug, Clone, Copy, PartialEq, Eq, Hash)]
pub enum LabelFormat {
    /// three digits: `130`
    ThreeDigit,
    /// two digits: `13`
    TwoDigit,
    /// three digits and a lower-case letter: `130a`
    ThreeDigitLetter,
    /// two digits and a lower-case letter: `13a`
    TwoDigitLetter,
    /// three digits, a hyphen and one or more digits: `130-1`
    ThreeDigitDash,
    /// four digits: `1104`
    FourDigit,
    /// four digits and a lower-case letter: `1104a`
    FourDigitLetter,
    /// four digits, a hyphen and one digit: `1104-2`
    FourDigitDash,
}

/// What follows the leading digits of a shape.
pub enum ShapeTail {
    Nothing,
    Letter,
    Dash,
    DashDigit,
}

impl LabelFormat {
    /// The number of leading digits of the shape.
    pub open spec fn width(self) -> int {
        match self {
            LabelFormat::TwoDigit | LabelFormat::TwoDigitLetter => 2,
            LabelFormat::ThreeDigit | LabelFormat::ThreeDigitLetter | LabelFormat::ThreeDigitDash => 3,
            LabelFormat::FourDigit | LabelFormat::FourDigitLetter | LabelFormat::FourDigitDash => 4,
        }
    }

    pub open spec fn tail(self) -> ShapeTail {
        match self {
            LabelFormat::TwoDigit | LabelFormat::ThreeDigit | LabelFormat::FourDigit => ShapeTail::Nothing,
            LabelFormat::TwoDigitLetter | LabelFormat::ThreeDigitLetter | LabelFormat::FourDigitLetter => ShapeTail::Letter,
            LabelFormat::ThreeDigitDash => ShapeTail::Dash,
            LabelFormat::FourDigitDash => ShapeTail::DashDigit,
        }
    }

    fn exec_width(self) -> (r: usize)
        ensures
            r as int == self.width(),
    {
        match self {
            LabelFormat::TwoDigit | LabelFormat::TwoDigitLetter => 2,
            LabelFormat::ThreeDigit | LabelFormat::ThreeDigitLetter | LabelFormat::ThreeDigitDash => 3,
            LabelFormat::FourDigit | LabelFormat::FourDigitLetter | LabelFormat::FourDigitDash => 4,
        }
    }
}

/// Every character of `t` in `lo..hi` is an ASCII digit.
pub open spec fn digit_run(t: Seq<char>, lo: int, hi: int) -> bool {
    forall|k: int| lo <= k < hi ==> #[trigger] is_digit(t[k])
}

/// `t` has exactly the shape of `f`, as a whole.
pub open spec fn shape_ok(t: Seq<char>, f: LabelFormat) -> bool {
    let n = f.width();
    match f.tail() {
        ShapeTail::Nothing => t.len() == n && digit_run(t, 0, n),
        ShapeTail::Letter => t.len() == n + 1 && digit_run(t, 0, n) && is_lower(t[n]),
        ShapeTail::Dash => t.len() >= n + 2 && digit_run(t, 0, n) && t[n] == '-' && digit_run(
            t,
            n + 1,
            t.len() as int,
        ),
        ShapeTail::DashDigit => t.len() == n + 2 && digit_run(t, 0, n) && t[n] == '-' && is_digit(
            t[n + 1],
        ),
    }
}

/// `s` holds "fig" at `i`, in any case.
pub open spec fn fig_at(s: Seq<char>, i: int) -> bool {
    0 <= i && i + 3 <= s.len() && (s[i] == 'f' || s[i] == 'F') && (s[i + 1] == 'i' || s[i + 1]
        == 'I') && (s[i + 2] == 'g' || s[i + 2] == 'G')
}

/// `s` mentions a figure: it holds "fig" somewhere, in any case.
pub open spec fn has_fig(s: Seq<char>) -> bool {
    exists|i: int| fig_at(s, i)
}

/// The index of the first character at or after `i` that is not whitespace.
pub open spec fn skip_spaces(s: Seq<char>, i: int) -> int
    decreases s.len() - i,
{
    if 0 <= i < s.len() && is_space(s[i]) {
        skip_spaces(s, i + 1)
    } else {
        i
    }
}

/// The end of `s[..j]` once trailing whitespace is taken off.
pub open spec fn back_spaces(s: Seq<char>, j: int) -> int
    decreases j,
{
    if 0 < j <= s.len() && is_space(s[j - 1]) {
        back_spaces(s, j - 1)
    } else {
        j
    }
}

/// `s` without leading and trailing whitespace.
pub open spec fn trim(s: Seq<char>) -> Seq<char> {
    let lo = skip_spaces(s, 0);
    let hi = back_spaces(s, s.len() as int);
    if lo < hi {
        s.subrange(lo, hi)
    } else {
        seq![]
    }
}

/// Whether `s` is accepted as a label of format `f`: a figure reference always
/// is; anything else must have the shape of `f` once trimmed.
pub open spec fn label_matches(s: Seq<char>, f: LabelFormat) -> bool {
    has_fig(s) || shape_ok(trim(s), f)
}

/// Whether `s` is accepted by the matcher under the format set `fs`: figure
/// references pass even where `fs` is empty.
pub open spec fn accepted(s: Seq<char>, fs: Seq<LabelFormat>) -> bool {
    has_fig(s) || exists|i: int| 0 <= i < fs.len() && shape_ok(trim(s), #[trigger] fs[i])
}

fn digits_between(t: &Vec<char>, lo: usize, hi: usize) -> (r: bool)
    requires
        lo <= hi <= t@.len(),
    ensures
        r == digit_run(t@, lo as int, hi as int),
{
    let mut k = lo;
    while k < hi
        invariant
            lo <= k <= hi <= t@.len(),
            digit_run(t@, lo as int, k as int),
        decreases hi - k,
    {
        if !digit_char(t[k]) {
            return false;
        }
        k += 1;
    }
    true
}

fn shape_matches(t: &Vec<char>, f: LabelFormat) -> (r: bool)
    ensures
        r == shape_ok(t@, f),
{
    let n = f.exec_width();
    let len = t.len();
    match f {
        LabelFormat::TwoDigit | LabelFormat::ThreeDigit | LabelFormat::FourDigit => {
            len == n && digits_between(t, 0, n)
        },
        LabelFormat::TwoDigitLetter | LabelFormat::ThreeDigitLetter | LabelFormat::FourDigitLetter => {
            len == n + 1 && digits_between(t, 0, n) && 'a' <= t[n] && t[n] <= 'z'
        },
        LabelFormat::ThreeDigitDash => {
            len >= n + 2 && digits_between(t, 0, n) && t[n] == '-' && digits_between(t, n + 1, len)
        },
        LabelFormat::FourDigitDash => {
            len == n + 2 && digits_between(t, 0, n) && t[n] == '-' && digit_char(t[n + 1])
        },
    }
}

pub fn mentions_fig(s: &Vec<char>) -> (r: bool)
    ensures
        r == has_fig(s@),
{
    let n = s.len();
    if n < 3 {
        assert(!has_fig(s@));
        return false;
    }
    let mut i: usize = 0;
    while i < n - 2
        invariant
            n == s@.len(),
            n >= 3,
            i <= n - 2,
            forall|j: int| 0 <= j < i ==> !fig_at(s@, j),
        decreases n - i,
    {
        if (s[i] == 'f' || s[i] == 'F') && (s[i + 1] == 'i' || s[i + 1] == 'I') && (s[i + 2] == 'g'
            || s[i + 2] == 'G') {
            assert(fig_at(s@, i as int));
            return true;
        }
        i += 1;
    }
    assert forall|j: int| !fig_at(s@, j) by {
        if 0 <= j && j < i {
        }
    }
    false
}

/// The bounds `lo..hi` of `s` once leading and trailing whitespace are taken off.
fn trim_bounds(s: &Vec<char>) -> (r: (usize, usize))
    ensures
        r.0 as int == skip_spaces(s@, 0),
        r.1 as int == back_spaces(s@, s@.len() as int),
        r.0 <= s@.len(),
        r.1 <= s@.len(),
{
    let n = s.len();
    let mut lo: usize = 0;
    while lo < n && space_char(s[lo])
        invariant
            lo <= n == s@.len(),
            skip_spaces(s@, lo as int) == skip_spaces(s@, 0),
        decreases n - lo,
    {
        lo += 1;
    }
    let mut hi: usize = n;
    while hi > 0 && space_char(s[hi - 1])
        invariant
            hi <= n == s@.len(),
            back_spaces(s@, hi as int) == back_spaces(s@, n as int),
        decreases hi,
    {
        hi -= 1;
    }
    (lo, hi)
}

pub fn trimmed(s: &Vec<char>) -> (r: Vec<char>)
    ensures
        r@ == trim(s@),
{
    let (lo, hi) = trim_bounds(s);
    let mut r: Vec<char> = Vec::new();
    if lo < hi {
        let mut k = lo;
        while k < hi
            invariant
                lo <= k <= hi <= s@.len(),
                r@ == s@.subrange(lo as int, k as int),
            decreases hi - k,
        {
            r.push(s[k]);
            k += 1;
            assert(r@ =~= s@.subrange(lo as int, k as int));
        }
    }
    r
}

/// The matcher on characters: `true` exactly when `s` is accepted under `fs`.
pub fn accepts(s: &Vec<char>, fs: &[LabelFormat]) -> (r: bool)
    ensures
        r == accepted(s@, fs@),
{
    if mentions_fig(s) {
        return true;
    }
    let t = trimmed(s);
    let mut i: usize = 0;
    while i < fs.len()
        invariant
            i <= fs@.len(),
            t@ == trim(s@),
            !has_fig(s@),
            forall|j: int| 0 <= j < i ==> !shape_ok(t@, #[trigger] fs@[j]),
        decreases fs@.len() - i,
    {
        if shape_matches(&t, fs[i]) {
            return true;
        }
        i += 1;
    }
    false
}

/// Check if text matches a specific label format.
///
/// Text that mentions a figure ("fig", in any case) always matches; other
/// text must, once trimmed, have exactly the shape of `format`.
pub fn matches_format(text: &str, format: LabelFormat) -> (r: bool)
    ensures
        r == label_matches(text@, format),
{
    let s = chars_of(text);
    if mentions_fig(&s) {
        return true;
    }
    let t = trimmed(&s);
    shape_matches(&t, format)
}

/// Whether `text` is a label under the format set `formats`: it mentions a
/// figure, or once trimmed it has exactly the shape of one of `formats`.
pub fn matches_any(text: &str, formats: &[LabelFormat]) -> (r: bool)
    ensures
        r == accepted(text@, formats@),
{
    let s = chars_of(text);
    accepts(&s, formats)
}

/// Characters taken off the end of OCR text before it is read as a label:
/// whitespace and the period that closes a sentence.
pub open spec fn is_tail_junk(c: char) -> bool {
    is_space(c) || c == '.'
}

/// The end of `s[..j]` once trailing whitespace and periods are taken off.
pub open spec fn back_junk(s: Seq<char>, j: int) -> int
    decreases j,
{
    if 0 < j <= s.len() && is_tail_junk(s[j - 1]) {
        back_junk(s, j - 1)
    } else {
        j
    }
}

/// The usual OCR confusions: a lower-case `l` read for `1`, an upper-case `O`
/// read for `0`.
pub open spec fn ocr_fix(c: char) -> char {
    if c == 'l' {
        '1'
    } else if c == 'O' {
        '0'
    } else {
        c
    }
}

/// OCR text as it is read as a label: a figure reference is kept verbatim;
/// other text loses leading whitespace and trailing whitespace and periods,
/// and has `l` and `O` read as `1` and `0`.
pub open spec fn cleaned_text(s: Seq<char>) -> Seq<char> {
    if has_fig(s) {
        s
    } else {
        let lo = skip_spaces(s, 0);
        let hi = back_junk(s, s.len() as int);
        if lo < hi {
            s.subrange(lo, hi).map_values(|c: char| ocr_fix(c))
        } else {
            seq![]
        }
    }
}

/// Clean and normalize text from OCR (see `cleaned_text`).
pub fn clean_text(text: &str) -> (r: String)
    ensures
        r@ == cleaned_text(text@),
{
    let s = chars_of(text);
    if mentions_fig(&s) {
        return string_of(&s);
    }
    let (lo, _) = trim_bounds(&s);
    let n = s.len();
    let mut hi: usize = n;
    while hi > 0 && (space_char(s[hi - 1]) || s[hi - 1] == '.')
        invariant
            hi <= n == s@.len(),
            back_junk(s@, hi as int) == back_junk(s@, n as int),
        decreases hi,
    {
        hi -= 1;
    }
    let mut r: Vec<char> = Vec::new();
    if lo < hi {
        let mut k = lo;
        while k < hi
            invariant
                lo <= k <= hi <= s@.len(),
                r@ == s@.subrange(lo as int, k as int).map_values(|c: char| ocr_fix(c)),
            decreases hi - k,
        {
            let c = s[k];
            let fixed = if c == 'l' {
                '1'
            } else if c == 'O' {
                '0'
            } else {
                c
            };
            r.push(fixed);
            k += 1;
            assert(r@ =~= s@.subrange(lo as int, k as int).map_values(|c: char| ocr_fix(c)));
        }
    }
    string_of(&r)
}

/// Check if text is a valid label according to selected formats.
///
/// Blank text is rejected; otherwise the text is cleaned (`clean_text`) and
/// returned when the matcher accepts it: it mentions a figure, or it has the
/// shape of one of `allowed_formats`.
pub fn is_valid_label(text: &str, allowed_formats: &[LabelFormat]) -> (r: Option<String>)
    ensures
        r is Some <==> trim(text@).len() > 0 && accepted(cleaned_text(text@), allowed_formats@),
        r matches Some(c) ==> c@ == cleaned_text(text@),
{
    let s = chars_of(text);
    let t = trimmed(&s);
    if t.len() == 0 {
        return None;
    }
    let cleaned = clean_text(text);
    let cleaned_chars = chars_of(cleaned.as_str());
    if accepts(&cleaned_chars, allowed_formats) {
        Some(cleaned)
    } else {
        None
    }
}

/// The characters that survive token cleaning: alphanumeric characters
/// (`char::is_alphanumeric`) and the hyphen.
pub open spec fn is_kept(c: char) -> bool {
    is_alnum(c) || c == '-'
}

/// A token with everything but alphanumeric characters and hyphens dropped.
pub open spec fn clean(s: Seq<char>) -> Seq<char>
    decreases s.len(),
{
    if s.len() == 0 {
        seq![]
    } else if is_kept(s.last()) {
        clean(s.drop_last()).push(s.last())
    } else {
        clean(s.drop_last())
    }
}

pub fn clean_chars(s: &Vec<char>) -> (r: Vec<char>)
    ensures
        r@ == clean(s@),
{
    let mut r: Vec<char> = Vec::new();
    let mut k: usize = 0;
    while k < s.len()
        invariant
            k <= s@.len(),
            r@ == clean(s@.take(k as int)),
        decreases s@.len() - k,
    {
        assert(s@.take(k as int + 1).drop_last() =~= s@.take(k as int));
        let c = s[k];
        if alnum_char(c) || c == '-' {
            r.push(c);
        }
        k += 1;
    }
    assert(s@.take(s@.len() as int) =~= s@);
    r
}

/// Clean a token by removing all characters but alphanumeric ones and
/// hyphens.
pub fn clean_token(raw: &str) -> (r: String)
    ensures
        r@ == clean(raw@),
{
    let s = chars_of(raw);
    let c = clean_chars(&s);
    string_of(&c)
}

/// Splitting `t` at `i` leaves two accepted labels.
pub open spec fn split_ok(t: Seq<char>, fs: Seq<LabelFormat>, i: int) -> bool {
    accepted(t.take(i), fs) && accepted(t.skip(i), fs)
}

/// The first split point of `t` at or after `i` and at most `t.len() - 2`
/// that leaves two accepted labels.
pub open spec fn first_split(t: Seq<char>, fs: Seq<LabelFormat>, i: int) -> Option<int>
    decreases t.len() - i,
{
    if i + 2 > t.len() {
        None
    } else if split_ok(t, fs, i) {
        Some(i)
    } else {
        first_split(t, fs, i + 1)
    }
}

/// What a merged token splits into: the two halves at the first split point
/// from 2 on, or nothing.
pub open spec fn split_parts(t: Seq<char>, fs: Seq<LabelFormat>) -> Seq<Seq<char>> {
    match first_split(t, fs, 2) {
        Some(i) => seq![t.take(i), t.skip(i)],
        None => seq![],
    }
}

pub fn sub_chars(v: &Vec<char>, lo: usize, hi: usize) -> (r: Vec<char>)
    requires
        lo <= hi <= v@.len(),
    ensures
        r@ == v@.subrange(lo as int, hi as int),
{
    let mut r: Vec<char> = Vec::new();
    let mut k = lo;
    while k < hi
        invariant
            lo <= k <= hi <= v@.len(),
            r@ == v@.subrange(lo as int, k as int),
        decreases hi - k,
    {
        r.push(v[k]);
        k += 1;
        assert(r@ =~= v@.subrange(lo as int, k as int));
    }
    r
}

/// The split of an already cleaned token `t` (see `split_parts`).
pub fn split_chars(t: &Vec<char>, fs: &[LabelFormat]) -> (r: Vec<Vec<char>>)
    ensures
        r@.map_values(|p: Vec<char>| p@) == split_parts(t@, fs@),
{
    let n = t.len();
    let mut i: usize = 2;
    while n >= 2 && i <= n - 2
        invariant
            n == t@.len(),
            2 <= i,
            first_split(t@, fs@, i as int) == first_split(t@, fs@, 2),
        decreases n - i,
    {
        let left = sub_chars(t, 0, i);
        let right = sub_chars(t, i, n);
        assert(left@ =~= t@.take(i as int));
        assert(right@ =~= t@.skip(i as int));
        if accepts(&left, fs) && accepts(&right, fs) {
            let mut r: Vec<Vec<char>> = Vec::new();
            r.push(left);
            r.push(right);
            assert(r@.map_values(|p: Vec<char>| p@) =~= split_parts(t@, fs@));
            return r;
        }
        i += 1;
    }
    let r: Vec<Vec<char>> = Vec::new();
    assert(r@.map_values(|p: Vec<char>| p@) =~= split_parts(t@, fs@));
    r
}

/// Try to split a merged label into two valid parts.
///
/// The token is cleaned first; the split points 2 to `len - 2` are tried in
/// turn and the first that leaves two accepted labels wins. Where none does,
/// the result is empty.
pub fn split_merged_label(token: &str, formats: &[LabelFormat]) -> (r: Vec<String>)
    ensures
        r@.map_values(|p: String| p@) == split_parts(clean(token@), formats@),
{
    let s = chars_of(token);
    let c = clean_chars(&s);
    let parts = split_chars(&c, formats);
    let mut r: Vec<String> = Vec::new();
    let mut k: usize = 0;
    while k < parts.len()
        invariant
            k <= parts@.len(),
            r@.len() == k,
            forall|j: int| 0 <= j < k ==> r@[j]@ == parts@[j]@,
        decreases parts@.len() - k,
    {
        r.push(string_of(&parts[k]));
        k += 1;
    }
    assert(r@.map_values(|p: String| p@) =~= parts@.map_values(|p: Vec<char>| p@));
    r
}

/// The format set that the five switches of a document run enable: two,
/// three and four digits each bring their plain shape, and the letter and
/// hyphen switches add the lettered shapes and (for three and four digits)
/// the hyphenated ones.
pub open spec fn flag_formats(
    allow_2: bool,
    allow_3: bool,
    allow_4: bool,
    allow_letters: bool,
    allow_hyphen: bool,
) -> Seq<LabelFormat> {
    let two = if allow_2 {
        if allow_letters { seq![LabelFormat::TwoDigit, LabelFormat::TwoDigitLetter] } else { seq![LabelFormat::TwoDigit] }
    } else {
        seq![]
    };
    let three = if allow_3 {
        seq![LabelFormat::ThreeDigit] + (if allow_letters { seq![LabelFormat::ThreeDigitLetter] } else { seq![] }) + (if allow_hyphen { seq![LabelFormat::ThreeDigitDash] } else { seq![] })
    } else {
        seq![]
    };
    let four = if allow_4 {
        seq![LabelFormat::FourDigit] + (if allow_letters { seq![LabelFormat::FourDigitLetter] } else { seq![] }) + (if allow_hyphen { seq![LabelFormat::FourDigitDash] } else { seq![] })
    } else {
        seq![]
    };
    two + three + four
}

/// The formats enabled by the five switches (see `flag_formats`).
pub fn formats_from_flags(
    allow_2: bool,
    allow_3: bool,
    allow_4: bool,
    allow_letters: bool,
    allow_hyphen: bool,
) -> (r: Vec<LabelFormat>)
    ensures
        r@ == flag_formats(allow_2, allow_3, allow_4, allow_letters, allow_hyphen),
{
    let mut r: Vec<LabelFormat> = Vec::new();
    if allow_2 {
        r.push(LabelFormat::TwoDigit);
        if allow_letters {
            r.push(LabelFormat::TwoDigitLetter);
        }
    }
    if allow_3 {
        r.push(LabelFormat::ThreeDigit);
        if allow_letters {
            r.push(LabelFormat::ThreeDigitLetter);
        }
        if allow_hyphen {
            r.push(LabelFormat::ThreeDigitDash);
        }
    }
    if allow_4 {
        r.push(LabelFormat::FourDigit);
        if allow_letters {
            r.push(LabelFormat::FourDigitLetter);
        }
        if allow_hyphen {
            r.push(LabelFormat::FourDigitDash);
        }
    }
    assert(r@ =~= flag_formats(allow_2, allow_3, allow_4, allow_letters, allow_hyphen));
    r
}

proof fn lemma_clean_append(a: Seq<char>, b: Seq<char>)
    ensures
        clean(a + b) == clean(a) + clean(b),
    decreases b.len(),
{
    if b.len() == 0 {
        assert(a + b =~= a);
        assert(clean(a) + clean(b) =~= clean(a));
    } else {
        assert((a + b).drop_last() =~= a + b.drop_last());
        assert((a + b).last() == b.last());
        lemma_clean_append(a, b.drop_last());
        if is_kept(b.last()) {
            assert(clean(a) + clean(b.drop_last()).push(b.last()) =~= (clean(a) + clean(
                b.drop_last(),
            )).push(b.last()));
        }
    }
}

proof fn lemma_clean_all_kept(s: Seq<char>)
    requires
        forall|k: int| 0 <= k < s.len() ==> is_kept(#[trigger] s[k]),
    ensures
        clean(s) == s,
    decreases s.len(),
{
    if s.len() > 0 {
        lemma_clean_all_kept(s.drop_last());
        assert(s.drop_last().push(s.last()) =~= s);
    }
}

proof fn lemma_clean_none_kept(s: Seq<char>)
    requires
        forall|k: int| 0 <= k < s.len() ==> is_space(#[trigger] s[k]),
    ensures
        clean(s) == Seq::<char>::empty(),
    decreases s.len(),
{
    if s.len() > 0 {
        lemma_clean_none_kept(s.drop_last());
    }
}

proof fn lemma_clean_only_kept(s: Seq<char>)
    ensures
        forall|k: int| 0 <= k < clean(s).len() ==> is_kept(#[trigger] clean(s)[k]),
    decreases s.len(),
{
    if s.len() > 0 {
        lemma_clean_only_kept(s.drop_last());
        let c = clean(s.drop_last());
        assert forall|k: int| 0 <= k < clean(s).len() implies is_kept(#[trigger] clean(s)[k]) by {
            if k < c.len() {
                assert(clean(s)[k] == c[k]);
            }
        }
    }
}

pub(crate) proof fn lemma_skip_spaces(s: Seq<char>, i: int)
    requires
        0 <= i <= s.len(),
    ensures
        i <= skip_spaces(s, i) <= s.len(),
        forall|k: int| i <= k < skip_spaces(s, i) ==> is_space(#[trigger] s[k]),
    decreases s.len() - i,
{
    if i < s.len() && is_space(s[i]) {
        lemma_skip_spaces(s, i + 1);
    }
}

pub(crate) proof fn lemma_back_spaces(s: Seq<char>, j: int)
    requires
        0 <= j <= s.len(),
    ensures
        0 <= back_spaces(s, j) <= j,
        forall|k: int| back_spaces(s, j) <= k < j ==> is_space(#[trigger] s[k]),
    decreases j,
{
    if 0 < j && is_space(s[j - 1]) {
        lemma_back_spaces(s, j - 1);
    }
}

proof fn lemma_clean_keeps_fig(t: Seq<char>)
    requires
        has_fig(t),
    ensures
        has_fig(clean(t)),
{
    let i = choose|i: int| fig_at(t, i);
    let a = t.take(i);
    let m = t.subrange(i, i + 3);
    let b = t.skip(i + 3);
    assert(t =~= a + m + b);
    lemma_clean_append(a + m, b);
    lemma_clean_append(a, m);
    lemma_clean_all_kept(m);
    let c = clean(t);
    let p = clean(a).len() as int;
    assert(c[p] == m[0] && c[p + 1] == m[1] && c[p + 2] == m[2]);
    assert(fig_at(c, p));
}

proof fn lemma_shape_kept(m: Seq<char>, f: LabelFormat)
    requires
        shape_ok(m, f),
    ensures
        forall|k: int| 0 <= k < m.len() ==> is_kept(#[trigger] m[k]),
{
    assert forall|k: int| 0 <= k < m.len() implies is_kept(#[trigger] m[k]) by {
        let n = f.width();
        match f.tail() {
            ShapeTail::Nothing => {
                assert(is_digit(m[k]));
            },
            ShapeTail::Letter => {
                if k < n {
                    assert(is_digit(m[k]));
                }
            },
            ShapeTail::Dash => {
                if k != n {
                    assert(is_digit(m[k]));
                }
            },
            ShapeTail::DashDigit => {
                if k < n {
                    assert(is_digit(m[k]));
                }
            },
        }
    }
}

proof fn lemma_clean_keeps_shape(t: Seq<char>, f: LabelFormat)
    requires
        shape_ok(trim(t), f),
    ensures
        clean(t) == trim(t),
        trim(clean(t)) == clean(t),
{
    let lo = skip_spaces(t, 0);
    let hi = back_spaces(t, t.len() as int);
    lemma_skip_spaces(t, 0);
    lemma_back_spaces(t, t.len() as int);
    let m = t.subrange(lo, hi);
    assert(m == trim(t));
    lemma_shape_kept(m, f);
    let a = t.take(lo);
    let b = t.skip(hi);
    assert(t =~= a + m + b);
    lemma_clean_append(a + m, b);
    lemma_clean_append(a, m);
    lemma_clean_none_kept(a);
    lemma_clean_none_kept(b);
    lemma_clean_all_kept(m);
    assert(clean(t) =~= m);
    assert(is_kept(m[0]));
    assert(is_kept(m[m.len() - 1]));
    assert(skip_spaces(m, 0) == 0);
    assert(back_spaces(m, m.len() as int) == m.len());
    assert(trim(m) =~= m);
}

/// Cleaning an accepted token keeps it accepted, and cleaning it once more
/// changes nothing: `clean` followed by the matcher is idempotent on every
/// token the matcher accepts, under every format set.
pub proof fn lemma_clean_then_match(t: Seq<char>, fs: Seq<LabelFormat>)
    requires
        accepted(t, fs),
    ensures
        accepted(clean(t), fs),
        clean(clean(t)) == clean(t),
{
    lemma_clean_only_kept(t);
    lemma_clean_all_kept(clean(t));
    if has_fig(t) {
        lemma_clean_keeps_fig(t);
    } else {
        let j = choose|j: int| 0 <= j < fs.len() && shape_ok(trim(t), #[trigger] fs[j]);
        lemma_clean_keeps_shape(t, fs[j]);
        assert(shape_ok(trim(clean(t)), fs[j]));
    }
}

/// Figure references pass the matcher whatever formats are configured, the
/// empty set included.
pub proof fn lemma_figures_always_match(s: Seq<char>, fs: Seq<LabelFormat>)
    requires
        has_fig(s),
    ensures
        accepted(s, fs),
{
}

} // verus!
