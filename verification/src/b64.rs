//! Base64 (URL-safe alphabet) encoding and decoding, through the `base64`
//! crate.  Node identities travel as base64 text in directory records and
//! as raw bytes inside packets; these are the only two places the library
//! crosses between the two.

use vstd::prelude::*;

verus! {

/// The base64 encoding of a byte sequence, URL-safe alphabet with padding.
pub uninterp spec fn b64url_of(bytes: Seq<u8>) -> Seq<char>;

/// What base64 decoding with the URL-safe alphabet yields on a character
/// sequence: the decoded bytes, or nothing when the text is not base64.
pub uninterp spec fn b64url_decode_of(s: Seq<char>) -> Option<Seq<u8>>;

/// Relies on base64::encode_config with the URL_SAFE config: the encoding
/// depends on the input bytes alone, and decode_config with the same config
/// recovers them.
#[verifier::external_body]
pub(crate) fn b64url_encode(bytes: &Vec<u8>) -> (r: String)
    ensures
        r@ == b64url_of(bytes@),
        b64url_decode_of(r@) == Some(bytes@),
{
    base64::encode_config(bytes, base64::URL_SAFE)
}

/// Relies on base64::decode_config with the URL_SAFE config: the decoding
/// depends on the input characters alone.
#[verifier::external_body]
pub(crate) fn b64url_decode(s: &String) -> (r: Option<Vec<u8>>)
    ensures
        match r {
            Some(v) => b64url_decode_of(s@) == Some(v@),
            None => b64url_decode_of(s@) is None,
        },
{
    match base64::decode_config(s, base64::URL_SAFE) {
        Ok(v) => Some(v),
        Err(_) => None,
    }
}

} // verus!
