//! What a processed upload is reported with: the hash that identifies the
//! file, the paragraphs of a document as HTML, a page image as a data URL,
//! and the digits of a number.

use vstd::prelude::*;
use crate::chars::{chars_of, is_digit, string_of};
use crate::order::str_views;

verus! {

/// The SHA-256 digest of `data`.
pub uninterp spec fn sha256_of(data: Seq<u8>) -> Seq<u8>;

/// The standard base64 encoding (with padding) of `data`.
pub uninterp spec fn base64_of(data: Seq<u8>) -> Seq<char>;

/// Relies on `sha2::Sha256`: the digest of the bytes fed to `update`.
#[verifier::external_body]
fn sha256_digest(data: &[u8]) -> (r: Vec<u8>)
    ensures
        r@ == sha256_of(data@),
{
    let mut hasher = <sha2::Sha256 as sha2::Digest>::new();
    sha2::Digest::update(&mut hasher, data);
    sha2::Digest::finalize(hasher).to_vec()
}

/// Relies on `base64::engine::general_purpose::STANDARD.encode`: the
/// standard base64 encoding of the bytes.
#[verifier::external_body]
fn base64_encode(data: &[u8]) -> (r: String)
    ensures
        r@ == base64_of(data@),
{
    base64::Engine::encode(&base64::engine::general_purpose::STANDARD, data)
}

/// What `html_escape::encode_text` makes of one character.
pub open spec fn escape_char(c: char) -> Seq<char> {
    if c == '&' {
        seq!['&', 'a', 'm', 'p', ';']
    } else if c == '<' {
        seq!['&', 'l', 't', ';']
    } else if c == '>' {
        seq!['&', 'g', 't', ';']
    } else {
        seq![c]
    }
}

/// Text made safe to stand between HTML tags: `&`, `<` and `>` escaped.
pub open spec fn html_text(s: Seq<char>) -> Seq<char>
    decreases s.len(),
{
    if s.len() == 0 {
        seq![]
    } else {
        html_text(s.drop_last()) + escape_char(s.last())
    }
}

/// Relies on `html_escape::encode_text`: `&`, `<` and `>` become `&amp;`,
/// `&lt;` and `&gt;`, every other character stays.
#[verifier::external_body]
fn escape_html(s: &str) -> (r: String)
    ensures
        r@ == html_text(s@),
{
    html_escape::encode_text(s).into_owned()
}

pub open spec fn div_open() -> Seq<char> {
    seq![
        '<', 'd', 'i', 'v', ' ', 'c', 'l', 'a', 's', 's', '=', '\'', 'd', 'o', 'c', 'x', '-', 'c',
        'o', 'n', 't', 'e', 'n', 't', '\'', '>',
    ]
}

pub open spec fn div_close() -> Seq<char> {
    seq!['<', '/', 'd', 'i', 'v', '>']
}

pub open spec fn p_open() -> Seq<char> {
    seq!['<', 'p', '>']
}

pub open spec fn p_close() -> Seq<char> {
    seq!['<', '/', 'p', '>']
}

/// Each paragraph escaped and wrapped in `<p>` and `</p>`, in order.
pub open spec fn html_paragraphs(ps: Seq<Seq<char>>) -> Seq<char>
    decreases ps.len(),
{
    if ps.len() == 0 {
        seq![]
    } else {
        html_paragraphs(ps.drop_last()) + p_open() + html_text(ps.last()) + p_close()
    }
}

/// The paragraphs of a document as an HTML fragment.
pub open spec fn document_html(ps: Seq<Seq<char>>) -> Seq<char> {
    div_open() + html_paragraphs(ps) + div_close()
}

fn push_all(r: &mut Vec<char>, s: &Vec<char>)
    ensures
        final(r)@ == old(r)@ + s@,
{
    let ghost start = r@;
    let mut k: usize = 0;
    while k < s.len()
        invariant
            k <= s@.len(),
            start == old(r)@,
            r@ == start + s@.take(k as int),
        decreases s@.len() - k,
    {
        r.push(s[k]);
        k += 1;
        assert(r@ =~= start + s@.take(k as int));
    }
    assert(s@.take(k as int) =~= s@);
}

/// The paragraphs as `<div class='docx-content'><p>...</p>...</div>`, each
/// escaped for HTML.
pub fn paragraphs_html(paragraphs: &Vec<String>) -> (r: String)
    ensures
        r@ == document_html(str_views(paragraphs@)),
{
    let ghost pv = str_views(paragraphs@);
    let mut body: Vec<char> = Vec::new();
    let mut k: usize = 0;
    while k < paragraphs.len()
        invariant
            k <= paragraphs@.len(),
            pv == str_views(paragraphs@),
            body@ == html_paragraphs(pv.take(k as int)),
        decreases paragraphs@.len() - k,
    {
        assert(pv.take(k as int + 1).drop_last() =~= pv.take(k as int));
        assert(pv.take(k as int + 1).last() == paragraphs@[k as int]@);
        let escaped = escape_html(paragraphs[k].as_str());
        let text = chars_of(escaped.as_str());
        push_all(&mut body, &vec!['<', 'p', '>']);
        push_all(&mut body, &text);
        push_all(&mut body, &vec!['<', '/', 'p', '>']);
        k += 1;
    }
    assert(pv.take(k as int) =~= pv);
    let mut r: Vec<char> = vec![
        '<', 'd', 'i', 'v', ' ', 'c', 'l', 'a', 's', 's', '=', '\'', 'd', 'o', 'c', 'x', '-', 'c',
        'o', 'n', 't', 'e', 'n', 't', '\'', '>',
    ];
    push_all(&mut r, &body);
    push_all(&mut r, &vec!['<', '/', 'd', 'i', 'v', '>']);
    assert(r@ =~= document_html(pv));
    string_of(&r)
}

/// The lower-case hexadecimal digit of `n` (below 16).
pub open spec fn hex_digit(n: u8) -> char {
    if n < 10 {
        (n + 48) as u8 as char
    } else {
        (n + 87) as u8 as char
    }
}

/// Two lower-case hexadecimal digits per byte, high nibble first.
pub open spec fn hex_lower(b: Seq<u8>) -> Seq<char>
    decreases b.len(),
{
    if b.len() == 0 {
        seq![]
    } else {
        hex_lower(b.drop_last()) + seq![hex_digit(b.last() / 16), hex_digit(b.last() % 16)]
    }
}

fn hex_char(n: u8) -> (r: char)
    requires
        n < 16,
    ensures
        r == hex_digit(n),
{
    if n < 10 {
        (n + 48) as char
    } else {
        (n + 87) as char
    }
}

/// The bytes as lower-case hexadecimal text.
pub fn hex_of(bytes: &[u8]) -> (r: String)
    ensures
        r@ == hex_lower(bytes@),
{
    let mut r: Vec<char> = Vec::new();
    let mut k: usize = 0;
    while k < bytes.len()
        invariant
            k <= bytes@.len(),
            r@ == hex_lower(bytes@.take(k as int)),
        decreases bytes@.len() - k,
    {
        assert(bytes@.take(k as int + 1).drop_last() =~= bytes@.take(k as int));
        let b = bytes[k];
        r.push(hex_char(b / 16));
        r.push(hex_char(b % 16));
        k += 1;
        assert(r@ =~= hex_lower(bytes@.take(k as int)));
    }
    assert(bytes@.take(k as int) =~= bytes@);
    string_of(&r)
}

/// The hash that identifies an uploaded file: its SHA-256 digest in
/// lower-case hexadecimal.
pub fn file_hash(data: &[u8]) -> (r: String)
    ensures
        r@ == hex_lower(sha256_of(data@)),
{
    let digest = sha256_digest(data);
    hex_of(digest.as_slice())
}

pub open spec fn png_url_prefix() -> Seq<char> {
    seq![
        'd', 'a', 't', 'a', ':', 'i', 'm', 'a', 'g', 'e', '/', 'p', 'n', 'g', ';', 'b', 'a', 's',
        'e', '6', '4', ',',
    ]
}

/// A data URL for PNG bytes already encoded in base64.
pub fn data_url(encoded: &str) -> (r: String)
    ensures
        r@ == png_url_prefix() + encoded@,
{
    let mut r: Vec<char> = vec![
        'd', 'a', 't', 'a', ':', 'i', 'm', 'a', 'g', 'e', '/', 'p', 'n', 'g', ';', 'b', 'a', 's',
        'e', '6', '4', ',',
    ];
    let text = chars_of(encoded);
    push_all(&mut r, &text);
    assert(r@ =~= png_url_prefix() + encoded@);
    string_of(&r)
}

/// A data URL that embeds PNG bytes: "data:image/png;base64," and their
/// base64 encoding.
pub fn png_data_url(png: &[u8]) -> (r: String)
    ensures
        r@ == png_url_prefix() + base64_of(png@),
{
    let encoded = base64_encode(png);
    data_url(encoded.as_str())
}

/// Whether the character at `i` of `s` is kept by `digits_only`: a digit,
/// or a hyphen between two digits.
pub open spec fn digit_kept(s: Seq<char>, i: int) -> bool {
    is_digit(s[i]) || (s[i] == '-' && 0 < i < s.len() - 1 && is_digit(s[i - 1]) && is_digit(
        s[i + 1],
    ))
}

/// The characters of `s[..n]` that `digits_only` keeps, in order.
pub open spec fn digits_kept(s: Seq<char>, n: int) -> Seq<char>
    decreases n,
{
    if n <= 0 {
        seq![]
    } else if digit_kept(s, n - 1) {
        digits_kept(s, n - 1).push(s[n - 1])
    } else {
        digits_kept(s, n - 1)
    }
}

/// A number reduced to its digits, and the hyphens that stand between two
/// digits.
pub fn digits_only(num: &str) -> (r: String)
    ensures
        r@ == digits_kept(num@, num@.len() as int),
{
    let s = chars_of(num);
    let n = s.len();
    let mut r: Vec<char> = Vec::new();
    let mut i: usize = 0;
    while i < n
        invariant
            n == s@.len(),
            s@ == num@,
            i <= n,
            r@ == digits_kept(s@, i as int),
        decreases n - i,
    {
        let c = s[i];
        if crate::chars::digit_char(c) {
            r.push(c);
        } else if c == '-' && i > 0 && i + 1 < n && crate::chars::digit_char(s[i - 1])
            && crate::chars::digit_char(s[i + 1]) {
            r.push(c);
        }
        i += 1;
    }
    string_of(&r)
}

} // verus!
