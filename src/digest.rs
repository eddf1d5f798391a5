//! Content digests: the 128-bit XXH3 hash of a file's bytes, in upper-case hex.
use vstd::prelude::*;
use crate::hex::{hex_of, hex_upper};

verus! {

/// The 128-bit XXH3 hash (seed 0) of `bytes`.
pub uninterp spec fn xxh3_128_of(bytes: Seq<u8>) -> u128;

/// Relies on `xxhash_rust::xxh3::xxh3_128`: the default 128-bit XXH3 hash,
/// which depends on the bytes alone and returns for every input.
#[verifier::external_body]
fn xxh3_128(bytes: &[u8]) -> (r: u128)
    ensures
        r == xxh3_128_of(bytes@),
{
    xxhash_rust::xxh3::xxh3_128(bytes)
}

/// The digest text of `bytes`.
pub open spec fn digest_spec(bytes: Seq<u8>) -> Seq<char> {
    hex_of(xxh3_128_of(bytes) as nat)
}

/// The digest of `bytes`: their XXH3-128 hash in upper-case hex.
pub fn content_digest(bytes: &[u8]) -> (r: String)
    ensures
        r@ == digest_spec(bytes@),
{
    hex_upper(xxh3_128(bytes))
}

} // verus!
