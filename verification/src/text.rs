use vstd::prelude::*;
use vstd::utf8::*;

verus! {

/// The text that the standard library's lossy UTF-8 decoding makes of `bytes`.
pub uninterp spec fn utf8_lossy_text(bytes: Seq<u8>) -> Seq<char>;

/// The text that the standard library's Unicode lowercasing makes of `text`.
pub uninterp spec fn lowercase_text(text: Seq<char>) -> Seq<char>;

/// `c` with the letters `A` to `Z` turned into `a` to `z`.
pub open spec fn ascii_lower(c: char) -> char {
    if 'A' <= c <= 'Z' {
        ((c as u8) + 32) as char
    } else {
        c
    }
}

/// `text` with each character put through `ascii_lower`.
pub open spec fn ascii_lowercase(text: Seq<char>) -> Seq<char> {
    Seq::new(text.len(), |i: int| ascii_lower(text[i]))
}

/// Calls `String::from_utf8_lossy` and takes the result as a `String`.
///
/// Trusted: the result is a function of the bytes alone, and bytes that are
/// valid UTF-8 come back as the characters they encode, as the standard
/// library documents (only invalid sequences are replaced).
#[verifier::external_body]
pub(crate) fn utf8_lossy(bytes: &[u8]) -> (text: String)
    ensures
        text@ == utf8_lossy_text(bytes@),
        valid_utf8(bytes@) ==> text@ == decode_utf8(bytes@),
{
    String::from_utf8_lossy(bytes).into_owned()
}

/// Calls `str::to_lowercase`.
///
/// Trusted: the result is a function of the text alone, and in ASCII text
/// exactly the letters `A` to `Z` change, each to its lower-case letter.
#[verifier::external_body]
pub(crate) fn lowercase(text: &str) -> (lower: String)
    ensures
        lower@ == lowercase_text(text@),
        is_ascii_chars(text@) ==> lower@ == ascii_lowercase(text@),
{
    text.to_lowercase()
}

} // verus!
