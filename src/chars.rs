//! Character classes and the conversions between `&str`, `String` and
//! `Vec<char>` that the label grammar is written over.

use vstd::prelude::*;

verus! {

/// What `char::is_whitespace` says of `c` (the Unicode `White_Space`
/// property).
pub uninterp spec fn whitespace_of(c: char) -> bool;

/// What `char::is_alphanumeric` says of `c` (Unicode alphabetic or numeric).
pub uninterp spec fn alnum_of(c: char) -> bool;

/// The lower-case mapping of `s` that `str::to_lowercase` gives.
pub uninterp spec fn lower_of(s: Seq<char>) -> Seq<char>;

/// The ASCII whitespace characters: space, tab, line feed, carriage return,
/// vertical tab and form feed.
pub open spec fn is_ascii_space(c: char) -> bool {
    c == ' ' || c == '\t' || c == '\n' || c == '\r' || c == '\x0B' || c == '\x0C'
}

pub open spec fn is_digit(c: char) -> bool {
    '0' <= c && c <= '9'
}

pub open spec fn is_lower(c: char) -> bool {
    'a' <= c && c <= 'z'
}

pub open spec fn is_upper(c: char) -> bool {
    'A' <= c && c <= 'Z'
}

pub open spec fn is_letter(c: char) -> bool {
    is_lower(c) || is_upper(c)
}

pub open spec fn is_ascii_alnum(c: char) -> bool {
    is_letter(c) || is_digit(c)
}

/// Whitespace: the characters `char::is_whitespace` accepts (ASCII
/// whitespace among them; never an ASCII letter, digit or hyphen).
pub open spec fn is_space(c: char) -> bool {
    is_ascii_space(c) || (whitespace_of(c) && !is_ascii_alnum(c) && c != '-')
}

/// Alphanumeric: the characters `char::is_alphanumeric` accepts (ASCII
/// letters and digits among them; never whitespace).
pub open spec fn is_alnum(c: char) -> bool {
    is_ascii_alnum(c) || (alnum_of(c) && !is_space(c))
}

/// Word characters: alphanumeric characters and the underscore.
pub open spec fn is_word_char(c: char) -> bool {
    is_alnum(c) || c == '_'
}

/// Relies on `char::is_whitespace`: ASCII whitespace is whitespace; ASCII
/// letters, digits and the hyphen are not.
#[verifier::external_body]
fn whitespace(c: char) -> (r: bool)
    ensures
        r == whitespace_of(c),
        is_ascii_space(c) ==> r,
        is_ascii_alnum(c) || c == '-' ==> !r,
{
    c.is_whitespace()
}

/// Relies on `char::is_alphanumeric`: ASCII letters and digits are
/// alphanumeric; no whitespace character is.
#[verifier::external_body]
fn alphanumeric(c: char) -> (r: bool)
    ensures
        r == alnum_of(c),
        is_ascii_alnum(c) ==> r,
        r ==> !whitespace_of(c) && !is_ascii_space(c),
{
    c.is_alphanumeric()
}

/// Relies on `str::to_lowercase`: the lower-case mapping of the whole text.
#[verifier::external_body]
pub(crate) fn lowercase(s: &str) -> (r: String)
    ensures
        r@ == lower_of(s@),
{
    s.to_lowercase()
}

pub fn space_char(c: char) -> (r: bool)
    ensures
        r == is_space(c),
{
    whitespace(c)
}

pub fn digit_char(c: char) -> (r: bool)
    ensures
        r == is_digit(c),
{
    '0' <= c && c <= '9'
}

pub fn alnum_char(c: char) -> (r: bool)
    ensures
        r == is_alnum(c),
{
    alphanumeric(c)
}

pub fn word_char(c: char) -> (r: bool)
    ensures
        r == is_word_char(c),
{
    alnum_char(c) || c == '_'
}

/// The characters of `s`, in order.
pub fn chars_of(s: &str) -> (r: Vec<char>)
    ensures
        r@ == s@,
{
    let n = s.unicode_len();
    let mut r: Vec<char> = Vec::new();
    let mut i: usize = 0;
    while i < n
        invariant
            n == s@.len(),
            i <= n,
            r@ == s@.take(i as int),
        decreases n - i,
    {
        r.push(s.get_char(i));
        i += 1;
        assert(r@ =~= s@.take(i as int));
    }
    assert(r@ =~= s@);
    r
}

/// Relies on `String::from_iter` over `&char`s: the string holds exactly the
/// given characters, in order.
#[verifier::external_body]
pub(crate) fn string_of(v: &Vec<char>) -> (r: String)
    ensures
        r@ == v@,
{
    String::from_iter(v)
}

/// `xs` with every repeated element dropped: the first occurrence of each
/// value stays, in its place.
pub open spec fn dedup<A>(xs: Seq<A>) -> Seq<A>
    decreases xs.len(),
{
    if xs.len() == 0 {
        seq![]
    } else {
        let d = dedup(xs.drop_last());
        if d.contains(xs.last()) {
            d
        } else {
            d.push(xs.last())
        }
    }
}

pub fn same_chars(a: &Vec<char>, b: &Vec<char>) -> (r: bool)
    ensures
        r == (a@ == b@),
{
    if a.len() != b.len() {
        return false;
    }
    let mut k: usize = 0;
    while k < a.len()
        invariant
            a@.len() == b@.len(),
            k <= a@.len(),
            forall|j: int| 0 <= j < k ==> a@[j] == b@[j],
        decreases a@.len() - k,
    {
        if a[k] != b[k] {
            return false;
        }
        k += 1;
    }
    assert(a@ =~= b@);
    true
}

pub open spec fn views(v: Seq<Vec<char>>) -> Seq<Seq<char>> {
    v.map_values(|x: Vec<char>| x@)
}

pub fn contains_chars(v: &Vec<Vec<char>>, x: &Vec<char>) -> (r: bool)
    ensures
        r == views(v@).contains(x@),
{
    let mut k: usize = 0;
    while k < v.len()
        invariant
            k <= v@.len(),
            forall|j: int| 0 <= j < k ==> v@[j]@ != x@,
        decreases v@.len() - k,
    {
        if same_chars(&v[k], x) {
            assert(views(v@)[k as int] == x@);
            return true;
        }
        k += 1;
    }
    assert forall|j: int| 0 <= j < views(v@).len() implies views(v@)[j] != x@ by {
        assert(views(v@)[j] == v@[j]@);
    }
    false
}

/// `v` without repeats, first occurrences kept in order (see `dedup`).
pub fn dedup_chars(v: &Vec<Vec<char>>) -> (r: Vec<Vec<char>>)
    ensures
        views(r@) == dedup(views(v@)),
{
    let mut r: Vec<Vec<char>> = Vec::new();
    let mut k: usize = 0;
    while k < v.len()
        invariant
            k <= v@.len(),
            views(r@) == dedup(views(v@).take(k as int)),
        decreases v@.len() - k,
    {
        assert(views(v@).take(k as int + 1).drop_last() =~= views(v@).take(k as int));
        assert(views(v@).take(k as int + 1).last() == v@[k as int]@);
        if !contains_chars(&r, &v[k]) {
            let x = copy_chars(&v[k]);
            r.push(x);
            assert(views(r@) =~= dedup(views(v@).take(k as int)).push(v@[k as int]@));
        }
        k += 1;
    }
    assert(views(v@).take(v@.len() as int) =~= views(v@));
    r
}

pub fn copy_chars(v: &Vec<char>) -> (r: Vec<char>)
    ensures
        r@ == v@,
{
    let mut r: Vec<char> = Vec::new();
    let mut k: usize = 0;
    while k < v.len()
        invariant
            k <= v@.len(),
            r@ == v@.take(k as int),
        decreases v@.len() - k,
    {
        r.push(v[k]);
        k += 1;
        assert(r@ =~= v@.take(k as int));
    }
    assert(r@ =~= v@);
    r
}

pub fn strings_of(v: &Vec<Vec<char>>) -> (r: Vec<String>)
    ensures
        r@.map_values(|x: String| x@) == views(v@),
{
    let mut r: Vec<String> = Vec::new();
    let mut k: usize = 0;
    while k < v.len()
        invariant
            k <= v@.len(),
            r@.len() == k,
            forall|j: int| 0 <= j < k ==> r@[j]@ == v@[j]@,
        decreases v@.len() - k,
    {
        r.push(string_of(&v[k]));
        k += 1;
    }
    assert(r@.map_values(|x: String| x@) =~= views(v@));
    r
}

} // verus!
