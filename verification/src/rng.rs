//! A private source of randomness for one traversal task.
//!
//! Each parallel traversal owns its own generator, so no synchronization is
//! needed for randomness, and a run can be replayed from a fixed seed. Nothing
//! beyond the range of a draw is ever promised of a random value.

use vstd::prelude::*;

verus! {

#[verifier::external_type_specification]
#[verifier::external_body]
pub struct ExStdRng(rand::rngs::StdRng);

/// One task's random generator.
pub struct RandomSource {
    rng: rand::rngs::StdRng,
}

impl RandomSource {
    /// Relies on `rand::SeedableRng::seed_from_u64`: a generator built from
    /// the seed. No property of the stream is promised.
    #[verifier::external_body]
    pub fn from_seed(seed: u64) -> (r: RandomSource) {
        RandomSource { rng: <rand::rngs::StdRng as rand::SeedableRng>::seed_from_u64(seed) }
    }

    /// Relies on `rand::RngExt::random_range` over `0..bound`: a draw below
    /// the bound. Nothing more can be promised of a random value.
    #[verifier::external_body]
    pub fn random_below(&mut self, bound: u64) -> (r: u64)
        requires
            bound >= 1,
        ensures
            r < bound,
    {
        rand::RngExt::random_range(&mut self.rng, 0..bound)
    }
}

} // verus!
