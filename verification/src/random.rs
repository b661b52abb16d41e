//! Source of randomness for the level generators.
//!
//! The generators consume uniform draws from a seeded pseudo-random
//! generator of the `rand` crate. The draws are opaque to verification:
//! every contract downstream holds for every value the generator can hand
//! back, so the only fact stated here is the range of a draw.

use vstd::prelude::*;

verus! {

#[verifier::external_type_specification]
#[verifier::external_body]
pub struct ExStdRng(rand::rngs::StdRng);

/// A seeded pseudo-random generator, injected into the level generators so
/// that a run can be reproduced from its seed.
pub struct RandomSource {
    inner: rand::rngs::StdRng,
}

impl RandomSource {
    /// Relies on `rand::rngs::StdRng::seed_from_u64`: builds a generator
    /// from a 64-bit seed. Nothing is assumed about the stream it yields.
    #[verifier::external_body]
    pub fn from_seed(seed: u64) -> RandomSource {
        RandomSource { inner: <rand::rngs::StdRng as rand::SeedableRng>::seed_from_u64(seed) }
    }

    /// Relies on `rand::Rng::gen_range`: yields a value in `[low, high)`,
    /// and panics only when `low >= high`, which the precondition rules out.
    #[verifier::external_body]
    pub fn gen_range(&mut self, low: i32, high: i32) -> (r: i32)
        requires
            low < high,
        ensures
            low <= r < high,
    {
        rand::Rng::gen_range(&mut self.inner, low, high)
    }
}

} // verus!
