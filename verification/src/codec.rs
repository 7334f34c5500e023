//! Object compression: raw deflate at the lowest effort level.

use vstd::prelude::*;

verus! {

/// The deflate encoding of a byte string at the effort level the store
/// uses. A pure function of the input, so it is given a name here.
pub uninterp spec fn deflate_of(data: Seq<u8>) -> Seq<u8>;

/// What decompressing a byte string yields: the decoded bytes, or
/// nothing if the input is not valid compressed data. A pure function
/// of the input.
pub uninterp spec fn inflate_of(data: Seq<u8>) -> Option<Seq<u8>>;

/// Relies on miniz_oxide::deflate::compress_to_vec at level 0: the output
/// depends on the input bytes alone, and
/// miniz_oxide::inflate::decompress_to_vec decodes it back.
#[verifier::external_body]
pub fn deflate(data: &[u8]) -> (r: Vec<u8>)
    ensures
        r@ == deflate_of(data@),
        inflate_of(r@) == Some(data@),
{
    miniz_oxide::deflate::compress_to_vec(data, 0)
}

/// Relies on miniz_oxide::inflate::decompress_to_vec: success and the
/// decoded bytes depend on the input bytes alone.
#[verifier::external_body]
pub fn inflate(data: &[u8]) -> (r: Option<Vec<u8>>)
    ensures
        match r {
            Some(v) => inflate_of(data@) == Some(v@),
            None => inflate_of(data@) is None,
        },
{
    match miniz_oxide::inflate::decompress_to_vec(data) {
        Ok(v) => Some(v),
        Err(_) => None,
    }
}

} // verus!
