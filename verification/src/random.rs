//! The engine's pseudo-random source.
//!
//! Evolution draws gene picks, coin flips and weight perturbations from a
//! seeded generator, so runs are reproducible: the same seed gives the same
//! population history. Contracts state only what holds of every draw (its
//! bounds), never which value comes out.

use vstd::prelude::*;
use crate::fixed::UNIT;

verus! {

#[verifier::external_type_specification]
#[verifier::external_body]
pub struct ExStdRng(rand::rngs::StdRng);

/// The seed that [`rng`] uses, so that simulation runs are repeatable.
pub const RNG_SEED: u64 = 294367;

/// A seeded pseudo-random generator behind a verified interface.
pub struct RandomSource {
    rng: rand::rngs::StdRng,
}

impl RandomSource {
    /// Relies on `rand::SeedableRng::seed_from_u64` for `rand::rngs::StdRng`:
    /// builds a deterministic generator from the seed.
    #[verifier::external_body]
    fn seeded(seed: u64) -> RandomSource {
        RandomSource { rng: <rand::rngs::StdRng as rand::SeedableRng>::seed_from_u64(seed) }
    }

    /// Relies on `rand::Rng::gen_range` over `0..n`: a uniform draw, which is
    /// below `n`; the range is non-empty, so the call does not panic.
    #[verifier::external_body]
    fn below_raw(&mut self, n: u64) -> (r: u64)
        requires
            n > 0,
        ensures
            r < n,
    {
        rand::Rng::gen_range(&mut self.rng, 0..n)
    }

    /// A source seeded with `seed`: the way a host injects its own seed.
    pub fn new(seed: u64) -> RandomSource {
        RandomSource::seeded(seed)
    }

    /// A uniform draw below `n`.
    pub fn below(&mut self, n: u64) -> (r: u64)
        requires
            n > 0,
        ensures
            r < n,
    {
        self.below_raw(n)
    }

    /// A uniform index into a collection of `n` elements.
    pub fn index_below(&mut self, n: usize) -> (r: usize)
        requires
            n > 0,
        ensures
            r < n,
    {
        let d: u64 = self.below_raw(n as u64);
        d as usize
    }

    /// A uniform fixed-point draw in `[lo, hi)`.
    pub fn range_i64(&mut self, lo: i64, hi: i64) -> (r: i64)
        requires
            lo < hi,
        ensures
            lo <= r < hi,
    {
        let span: i128 = (hi as i128) - (lo as i128);
        let d: u64 = self.below_raw(span as u64);
        ((lo as i128) + (d as i128)) as i64
    }

    /// A coin that comes up `true` with probability `rate` (in millionths).
    pub fn coin(&mut self, rate: i64) -> (b: bool)
        ensures
            rate <= 0 ==> !b,
    {
        let d: u64 = self.below_raw(UNIT as u64);
        (d as i64) < rate
    }

    /// A fair coin.
    pub fn flip(&mut self) -> bool {
        let d: u64 = self.below_raw(2);
        d == 1
    }
}

/// A source seeded with the engine's fixed seed.
pub fn rng() -> RandomSource {
    RandomSource::new(RNG_SEED)
}

} // verus!
