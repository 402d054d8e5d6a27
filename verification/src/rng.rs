//! The seeded ChaCha8 generator that drives model generation, and the
//! integer draws the library makes from it.

use vstd::prelude::*;

use rand::{Rng, SeedableRng};
use rand_chacha::ChaCha8Rng;

verus! {

#[verifier::external_type_specification]
#[verifier::external_body]
pub struct ExChaCha8Rng(ChaCha8Rng);

/// The ChaCha8 generator that `SeedableRng::seed_from_u64` makes from
/// `seed`.
pub uninterp spec fn seeded_generator(seed: u64) -> ChaCha8Rng;

/// `SeedableRng::seed_from_u64`: a ChaCha8 generator seeded from `seed`.
/// The seed is expanded by PCG32 in 64-bit arithmetic into the 32-byte
/// ChaCha key, so the same seed gives the same generator on every machine.
#[verifier::external_body]
pub(crate) fn seeded_rng(seed: u64) -> (r: ChaCha8Rng)
    ensures
        r == seeded_generator(seed),
{
    ChaCha8Rng::seed_from_u64(seed)
}

/// `Rng::gen_range(lo..=hi)` on `usize`: a value between `lo` and `hi`
/// inclusive.  rand panics on an empty range.
#[verifier::external_body]
pub(crate) fn draw_inclusive(rng: &mut ChaCha8Rng, lo: usize, hi: usize) -> (r: usize)
    requires
        lo <= hi,
    ensures
        lo <= r <= hi,
{
    rng.gen_range(lo..=hi)
}

/// `Rng::gen_range(0..n)` on `usize`: a value below `n`.  rand panics on
/// an empty range.
#[verifier::external_body]
pub(crate) fn draw_below(rng: &mut ChaCha8Rng, n: usize) -> (r: usize)
    requires
        0 < n,
    ensures
        r < n,
{
    rng.gen_range(0..n)
}

} // verus!
