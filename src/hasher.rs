//! Hashing of names into 32-bit identifiers.

use vstd::prelude::*;

verus! {

/// The 32-bit xxHash (XXH32) of the UTF-8 bytes of `s` with `seed`.
pub uninterp spec fn xxh32_utf8_of(s: Seq<char>, seed: u32) -> u32;

/// Relies on xxhash_rust::const_xxh32::xxh32, the XXH32 digest of a byte
/// slice with a seed.
#[verifier::external_body]
fn xxh32_str(s: &str, seed: u32) -> (r: u32)
    ensures
        r == xxh32_utf8_of(s@, seed),
{
    xxhash_rust::const_xxh32::xxh32(s.as_bytes(), seed)
}

/// The seed of the name hash; 0 is a valid seed.
pub const XXH32_SEED: u32 = 0;

/// Hashes names into 32-bit identifiers.
pub struct ConstHasher;

impl ConstHasher {
    /// The XXH32 digest of the UTF-8 bytes of `s`, seeded with 0.
    pub fn hash(s: &str) -> (r: u32)
        ensures
            r == xxh32_utf8_of(s@, XXH32_SEED),
    {
        xxh32_str(s, XXH32_SEED)
    }
}

} // verus!
