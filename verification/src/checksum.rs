//! The checksum that closes every snapshot.

use vstd::prelude::*;
use xxhash_rust::xxh64::xxh64;

verus! {

/// The xxHash64 digest of `data` under seed zero.
pub uninterp spec fn xxh64_digest(data: Seq<u8>) -> u64;

/// Calls `xxhash_rust::xxh64::xxh64` with seed zero. The digest is a fixed
/// function of the bytes; the contract names it and says nothing more of it.
#[verifier::external_body]
pub(crate) fn xxh64_seed_zero(data: &[u8]) -> (digest: u64)
    ensures
        digest == xxh64_digest(data@),
{
    xxh64(data, 0)
}

} // verus!
