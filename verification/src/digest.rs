//! The content digest: 160-bit SHA-1, rendered as lowercase hex.

use vstd::prelude::*;

use crypto::digest::Digest;

verus! {

/// The hex-rendered SHA-1 digest of a byte string. The digest is a pure
/// function of the input, so it is given a name here rather than a body.
pub uninterp spec fn sha1_hex_of(data: Seq<u8>) -> Seq<u8>;

/// A lowercase hexadecimal digit.
pub open spec fn is_hex_digit(b: u8) -> bool {
    48 <= b <= 57 || 97 <= b <= 102
}

/// Relies on crypto::sha1::Sha1 (through crypto::digest::Digest): the
/// digest depends on the input bytes alone, and `result_str` renders the
/// 20-byte digest as 40 lowercase hexadecimal characters.
#[verifier::external_body]
pub fn sha1_hex(data: &[u8]) -> (r: Vec<u8>)
    ensures
        r@ == sha1_hex_of(data@),
        r@.len() == 40,
        forall|i: int| 0 <= i < r@.len() ==> is_hex_digit(r@[i]),
{
    let mut hasher = crypto::sha1::Sha1::new();
    hasher.input(data);
    hasher.result_str().into_bytes()
}

} // verus!
