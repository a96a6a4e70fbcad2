//! Content hashes.

use vstd::prelude::*;

verus! {

/// The 64-bit XXH3 hash of `data`, with the default secret and no seed.
pub uninterp spec fn xxh3(data: Seq<u8>) -> u64;

/// `xxhash_rust::xxh3::xxh3_64` hashes the bytes it is given and depends on nothing else.
#[verifier::external_body]
fn xxh3_64(data: &[u8]) -> (h: u64)
    ensures
        h == xxh3(data@),
{
    xxhash_rust::xxh3::xxh3_64(data)
}

/// The hash by which the contents of files are compared.
pub fn hash_content(data: &[u8]) -> (h: u64)
    ensures
        h == xxh3(data@),
{
    xxh3_64(data)
}

} // verus!
