//! BLAKE2b-256 digests of parachain head data.

use vstd::prelude::*;

verus! {

/// The BLAKE2b digest of `data` with a 32-byte output and an empty key.
pub uninterp spec fn blake2b_256_of(data: Seq<u8>) -> Seq<u8>;

/// Relies on `blake2_rfc::blake2b::blake2b` with output length 32 and an
/// empty key: the digest depends on the input bytes alone and is exactly as
/// long as the requested output length.
#[verifier::external_body]
pub(crate) fn blake2b_256(data: &Vec<u8>) -> (r: Vec<u8>)
    ensures
        r@ == blake2b_256_of(data@),
        r@.len() == 32,
{
    blake2_rfc::blake2b::blake2b(32, &[], data).as_bytes().to_vec()
}

} // verus!
