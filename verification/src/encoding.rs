//! Texts that stand for bytes.
use base64::Engine;
use vstd::prelude::*;

verus! {

/// The bytes that a text in the standard alphabet with padding stands for, if it
/// is one.
pub uninterp spec fn standard_decoded(s: Seq<char>) -> Option<Seq<u8>>;

/// Calls `decode` of the engine `STANDARD` of the crate `base64`: the bytes that a
/// text in the standard alphabet with padding stands for, or nothing where the
/// text is not one. What the text has to look like is not said here.
#[verifier::external_body]
pub(crate) fn decode_standard(s: &str) -> (r: Option<Vec<u8>>)
    ensures
        opt_bytes(r) == standard_decoded(s@),
{
    base64::engine::general_purpose::STANDARD.decode(s).ok()
}

/// The view of optional bytes.
pub open spec fn opt_bytes(r: Option<Vec<u8>>) -> Option<Seq<u8>> {
    match r {
        Some(v) => Some(v@),
        None => None,
    }
}

/// The text in the URL-safe alphabet without padding that stands for bytes.
pub uninterp spec fn url_safe(bytes: Seq<u8>) -> Seq<char>;

/// The bytes that a text in the URL-safe alphabet without padding stands for, if
/// it is one.
pub uninterp spec fn url_safe_decoded(s: Seq<char>) -> Option<Seq<u8>>;

/// The letters, the digits, `-` and `_`.
pub open spec fn is_url_safe(c: char) -> bool {
    'A' <= c <= 'Z' || 'a' <= c <= 'z' || '0' <= c <= '9' || c == '-' || c == '_'
}

/// Calls `encode` of the engine `URL_SAFE_NO_PAD` of the crate `base64`. The text
/// is made of the 64 letters of the alphabet, has four of them for every three
/// bytes, rounded up to the letters that the last bytes need, and decodes to the
/// bytes.
#[verifier::external_body]
pub(crate) fn encode_url_safe(bytes: &[u8]) -> (r: String)
    requires
        bytes@.len() <= usize::MAX / 3,
    ensures
        r@ == url_safe(bytes@),
        r@.len() == (bytes@.len() * 4 + 2) / 3,
        forall|i: int| 0 <= i < r@.len() ==> is_url_safe(#[trigger] r@[i]),
        url_safe_decoded(r@) == Some(bytes@),
{
    base64::engine::general_purpose::URL_SAFE_NO_PAD.encode(bytes)
}

/// Calls `decode` of the engine `URL_SAFE_NO_PAD` of the crate `base64`: the bytes
/// that a text in the URL-safe alphabet without padding stands for, or nothing
/// where the text is not one. What the text has to look like is not said here.
#[verifier::external_body]
pub(crate) fn decode_url_safe(s: &str) -> (r: Option<Vec<u8>>)
    ensures
        opt_bytes(r) == url_safe_decoded(s@),
{
    base64::engine::general_purpose::URL_SAFE_NO_PAD.decode(s).ok()
}

} // verus!
