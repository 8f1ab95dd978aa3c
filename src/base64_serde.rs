//! Standard base64 text for digests and signatures.
use base64::engine::general_purpose::STANDARD;
use base64::Engine;
use vstd::prelude::*;

verus! {

/// The standard base64 text of a byte string.
pub uninterp spec fn base64_of(data: Seq<u8>) -> Seq<char>;

/// The bytes that a standard base64 text stands for, if it is valid.
pub uninterp spec fn base64_decoded(text: Seq<char>) -> Option<Seq<u8>>;

/// Relies on `base64::engine::general_purpose::STANDARD.encode`: the padded
/// standard base64 text of the bytes, which depends on the bytes alone.
#[verifier::external_body]
pub fn encode(data: &[u8]) -> (r: String)
    ensures
        r@ == base64_of(data@),
{
    STANDARD.encode(data)
}

/// Relies on `base64::engine::general_purpose::STANDARD.decode`: the bytes
/// that a padded standard base64 text stands for, or nothing when the text is
/// not valid; either depends on the text alone.
#[verifier::external_body]
pub fn decode(text: &str) -> (r: Option<Vec<u8>>)
    ensures
        match r {
            Some(b) => base64_decoded(text@) == Some(b@),
            None => base64_decoded(text@) is None,
        },
{
    STANDARD.decode(text).ok()
}

} // verus!
