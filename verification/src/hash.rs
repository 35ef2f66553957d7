//! Hashing of keys. The table stores a 64-bit seed; a key's hash is a
//! multiplicative mix of the seed and the key, deterministic for the
//! table's lifetime. The seed is a constructor parameter, so tests can
//! supply a fixed one; the default constructors draw a randomized seed.

use std::collections::hash_map::RandomState;
use std::hash::BuildHasher;
use std::hash::Hasher;
use vstd::prelude::*;

verus! {

/// Odd multiplier for multiplicative hashing (Knuth's golden-ratio constant).
pub const HASH_MULTIPLIER: u64 = 0x9E37_79B9_7F4A_7C15;

/// The hash of `key` under `seed`: the exclusive-or of the two, spread by a
/// wrapping multiplication with an odd constant.
pub open spec fn spec_hash(seed: u64, key: u64) -> u64 {
    vstd::wrapping::u64_specs::wrapping_mul(seed ^ key, HASH_MULTIPLIER)
}

/// Computes the hash of `key` under `seed`.
pub fn hash_key(seed: u64, key: u64) -> (h: u64)
    ensures
        h == spec_hash(seed, key),
{
    (seed ^ key).wrapping_mul(HASH_MULTIPLIER)
}

/// Relies on std's `RandomState::new`, which initializes a hash builder
/// with random per-instance keys. Nothing is promised of the result.
#[verifier::external_body]
fn fresh_random_state() -> RandomState {
    RandomState::new()
}

/// Relies on std's `BuildHasher::build_hasher` for `RandomState`, which
/// returns a hasher seeded from the state's random keys. Nothing is
/// promised of the result.
#[verifier::external_body]
fn state_hasher(state: &RandomState) -> std::collections::hash_map::DefaultHasher {
    state.build_hasher()
}

/// Draws a randomized hash seed. The value depends on process-wide
/// randomness, so nothing is promised of it.
pub fn random_seed() -> u64 {
    let state = fresh_random_state();
    let hasher = state_hasher(&state);
    hasher.finish()
}

} // verus!
