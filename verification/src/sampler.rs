//! Source of randomness for Monte Carlo sampling.
//!
//! The generator is seeded once and passed explicitly to every operation that
//! draws from it, so a render with a fixed seed is reproducible and samples
//! never share hidden global state.

use vstd::prelude::*;
use rand::RngExt;
use rand::SeedableRng;

verus! {

#[verifier::external_type_specification]
#[verifier::external_body]
pub struct ExStdRng(rand::rngs::StdRng);

/// A pseudo-random sampler. Every function that draws randomness takes one
/// of these by `&mut`, so the caller decides the seed and owns the stream.
pub struct Sampler {
    rng: rand::rngs::StdRng,
}

impl Sampler {
    /// Relies on rand's `StdRng::seed_from_u64`: constructs a generator whose
    /// stream depends on the seed alone, so equal seeds give equal streams
    /// within one build of the library.
    #[verifier::external_body]
    pub fn from_seed(seed: u64) -> Sampler {
        Sampler { rng: rand::rngs::StdRng::seed_from_u64(seed) }
    }

    /// Relies on rand's `RngExt::random_range` over `lo..hi`: the result is
    /// drawn uniformly from the half-open range, and the call panics only on
    /// an empty range, which the precondition rules out.
    #[verifier::external_body]
    pub fn next_in(&mut self, lo: i64, hi: i64) -> (r: i64)
        requires
            lo < hi,
        ensures
            lo <= r < hi,
    {
        self.rng.random_range(lo..hi)
    }
}

} // verus!
