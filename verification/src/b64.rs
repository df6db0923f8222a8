//! The base64 codec of the `base64` crate.

use vstd::prelude::*;

verus! {

/// What the standard engine of `base64` decodes a text to; where it rejects the text, what it says of
/// the fault.
pub uninterp spec fn base64_decoded(s: Seq<char>) -> Result<Seq<u8>, Seq<char>>;

/// What the unpadded URL-safe engine of `base64` encodes bytes to.
pub uninterp spec fn base64_url_encoded(b: Seq<u8>) -> Seq<char>;

/// The bytes of a decoded text, or what is said of the fault in it.
pub open spec fn decoded_view(r: Result<Vec<u8>, String>) -> Result<Seq<u8>, Seq<char>> {
    match r {
        Ok(b) => Ok(b@),
        Err(e) => Err(e@),
    }
}

/// Calls `Engine::decode` of the standard engine of `base64`. An error is handed on as the text that
/// it displays, which like the bytes depends on the text alone.
#[verifier::external_body]
pub(crate) fn decode_standard(s: &str) -> (r: Result<Vec<u8>, String>)
    ensures
        decoded_view(r) == base64_decoded(s@),
{
    match base64::Engine::decode(&base64::engine::general_purpose::STANDARD, s) {
        Ok(b) => Ok(b),
        Err(e) => Err(e.to_string()),
    }
}

/// Calls `Engine::encode` of the unpadded URL-safe engine of `base64`.
#[verifier::external_body]
pub(crate) fn encode_url(b: &[u8]) -> (r: String)
    ensures
        r@ == base64_url_encoded(b@),
{
    base64::Engine::encode(&base64::engine::general_purpose::URL_SAFE_NO_PAD, b)
}

} // verus!
