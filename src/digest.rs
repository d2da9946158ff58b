//! The 128-bit fingerprint that addresses a block.

use vstd::prelude::*;

verus! {

/// The canonical XXH3-128 fingerprint of a byte string.
pub uninterp spec fn xxh3_128_of(data: Seq<u8>) -> u128;

/// Relies on `xxhash_rust::xxh3::xxh3_128`: a seedless hash of the bytes alone.
#[verifier::external_body]
pub fn calculate_xxh3_128(data: &[u8]) -> (r: u128)
    ensures
        r == xxh3_128_of(data@),
{
    xxhash_rust::xxh3::xxh3_128(data)
}

} // verus!
