//! Character and string primitives of std that the indexing and parsing logic relies on.
use vstd::prelude::*;
use vstd::utf8::{decode_utf8, encode_utf8, valid_utf8};
use crate::text_ops::{ascii_lower_seq, is_ascii_text};

verus! {

/// The Unicode `Alphabetic`-or-`Numeric` property of a character beyond ASCII, as
/// `char::is_alphanumeric` computes it.
pub uninterp spec fn spec_non_ascii_alphanumeric(c: char) -> bool;

/// Whether `c` is alphanumeric, as `char::is_alphanumeric` decides: among ASCII characters
/// exactly the letters and digits, beyond ASCII the named Unicode property.
pub open spec fn spec_is_alphanumeric(c: char) -> bool {
    if (c as u32) < 128 {
        ('a' <= c && c <= 'z') || ('A' <= c && c <= 'Z') || ('0' <= c && c <= '9')
    } else {
        spec_non_ascii_alphanumeric(c)
    }
}

/// The Unicode `White_Space` property, which `char::is_whitespace` decides: the controls
/// U+0009 to U+000D, space, next line, no-break space, ogham space mark, the spaces U+2000 to
/// U+200A, line and paragraph separator, narrow no-break space, medium mathematical space and
/// ideographic space.
pub open spec fn spec_is_whitespace(c: char) -> bool {
    ('\u{9}' <= c && c <= '\u{d}') || c == ' ' || c == '\u{85}' || c == '\u{a0}' || c == '\u{1680}'
        || ('\u{2000}' <= c && c <= '\u{200a}') || c == '\u{2028}' || c == '\u{2029}' || c == '\u{202f}'
        || c == '\u{205f}' || c == '\u{3000}'
}

/// The full Unicode lowercase mapping of a string, as `str::to_lowercase` computes it.
pub uninterp spec fn spec_to_lowercase(s: Seq<char>) -> Seq<char>;

/// The text `String::from_utf8_lossy` makes of `b`: invalid sequences become U+FFFD.
pub uninterp spec fn spec_utf8_lossy(b: Seq<u8>) -> Seq<char>;

/// Byte offset of the `k`-th character of `t` in the UTF-8 encoding of `t`.
pub open spec fn byte_offset(t: Seq<char>, k: int) -> int {
    encode_utf8(t.take(k)).len() as int
}

/// Calls `char::is_alphanumeric`: true for ASCII letters and digits and false for other ASCII
/// characters; beyond ASCII, the named Unicode property of `c`.
#[verifier::external_body]
pub(crate) fn is_alphanumeric(c: char) -> (r: bool)
    ensures
        r == spec_is_alphanumeric(c),
        (c as u32) >= 128 ==> r == spec_non_ascii_alphanumeric(c),
{
    c.is_alphanumeric()
}

/// Whether `c` is whitespace, as `char::is_whitespace` decides.
pub(crate) fn is_whitespace(c: char) -> (r: bool)
    ensures
        r == spec_is_whitespace(c),
{
    ('\u{9}' <= c && c <= '\u{d}') || c == ' ' || c == '\u{85}' || c == '\u{a0}' || c == '\u{1680}'
        || ('\u{2000}' <= c && c <= '\u{200a}') || c == '\u{2028}' || c == '\u{2029}' || c == '\u{202f}'
        || c == '\u{205f}' || c == '\u{3000}'
}

/// Calls `str::to_lowercase`; the result is the named Unicode lowercase mapping of `s`, which
/// for ASCII text lowers exactly the capital letters `A` to `Z`.
#[verifier::external_body]
pub(crate) fn to_lowercase(s: &str) -> (r: String)
    ensures
        r@ == spec_to_lowercase(s@),
        is_ascii_text(s@) ==> r@ == ascii_lower_seq(s@),
{
    s.to_lowercase()
}

/// Calls `String::from_utf8_lossy`; the result is the named decoding of `b`, which for valid
/// UTF-8 is the decoded text itself.
#[verifier::external_body]
pub(crate) fn utf8_lossy(b: &[u8]) -> (r: String)
    ensures
        r@ == spec_utf8_lossy(b@),
        valid_utf8(b@) ==> r@ == decode_utf8(b@),
{
    String::from_utf8_lossy(b).into_owned()
}

/// Calls `str::char_indices`: each character of `s` in order, paired with the byte
/// offset at which its UTF-8 encoding starts.
#[verifier::external_body]
pub(crate) fn char_indices(s: &str) -> (r: Vec<(usize, char)>)
    ensures
        r@.len() == s@.len(),
        forall|k: int|
            0 <= k < s@.len() ==> (#[trigger] r@[k]).1 == s@[k] && r@[k].0 as int == byte_offset(
                s@,
                k,
            ),
{
    s.char_indices().collect()
}

/// Whether two string slices hold the same characters, as `==` on `str` decides.
pub(crate) fn str_eq(a: &str, b: &str) -> (r: bool)
    ensures
        r == (a@ == b@),
{
    let x = crate::text_ops::chars_of(a);
    let y = crate::text_ops::chars_of(b);
    if x.len() != y.len() {
        return false;
    }
    let mut i: usize = 0;
    while i < x.len()
        invariant
            x@ == a@,
            y@ == b@,
            x@.len() == y@.len(),
            i <= x@.len(),
            forall|j: int| 0 <= j < i ==> x@[j] == y@[j],
        decreases x@.len() - i,
    {
        if x[i] != y[i] {
            return false;
        }
        i = i + 1;
    }
    assert(a@ =~= b@);
    true
}

/// Calls `String::push`: appends one character.
#[verifier::external_body]
pub(crate) fn string_push(s: &mut String, c: char)
    ensures
        final(s)@ == old(s)@.push(c),
{
    s.push(c)
}

} // verus!
