use vstd::prelude::*;

verus! {

/// Seed of the 64-bit hash that guards block payloads and the footer.
pub const CHECKSUM_SEED: u64 = 4321;

/// A 64-bit checksum of a byte range.
#[derive(Debug, Clone, Copy, PartialEq, Eq, Hash, Structural)]
pub struct Checksum(pub u64);

/// The value of the seeded 64-bit xxHash of `data`.
pub uninterp spec fn xxh64(seed: u64, data: Seq<u8>) -> u64;

/// The checksum that the container stores for `data`.
pub open spec fn checksum_of(data: Seq<u8>) -> u64 {
    xxh64(CHECKSUM_SEED, data)
}

/// Relies on twox_hash::XxHash64::oneshot: the seeded xxHash64 of `data`,
/// a function of the seed and the bytes alone.
#[verifier::external_body]
fn xxhash64_oneshot(seed: u64, data: &[u8]) -> (r: u64)
    ensures
        r == xxh64(seed, data@),
{
    twox_hash::XxHash64::oneshot(seed, data)
}

/// Computes the container checksum of `data`.
pub fn calc_checksum(data: &[u8]) -> (r: Checksum)
    ensures
        r.0 == checksum_of(data@),
{
    Checksum(xxhash64_oneshot(CHECKSUM_SEED, data))
}

} // verus!
