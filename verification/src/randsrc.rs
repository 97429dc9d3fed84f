//! The injectable random source feeding the traversal: a seedable
//! generator, so that a run can be reproduced by reusing its seed.

use vstd::prelude::*;

use rand::RngCore;
use rand::SeedableRng;

verus! {

#[verifier::external_type_specification]
#[verifier::external_body]
pub struct ExStdRng(rand::rngs::StdRng);

/// A seedable source of random draws for the walk generator.
pub struct RandomSource {
    rng: rand::rngs::StdRng,
}

impl RandomSource {
    /// Relies on rand's `SeedableRng::seed_from_u64` for `StdRng`: builds
    /// a generator from a 64-bit seed.
    #[verifier::external_body]
    pub fn from_seed(seed: u64) -> (r: RandomSource) {
        RandomSource { rng: rand::rngs::StdRng::seed_from_u64(seed) }
    }

    /// Relies on rand's `RngCore::next_u64` for `StdRng`: returns the
    /// generator's next 64-bit value.  Nothing is promised of the value.
    #[verifier::external_body]
    fn next_u64(&mut self) -> (r: u64) {
        self.rng.next_u64()
    }

    /// Draws `n` values from the source, in order.
    pub fn draw(&mut self, n: usize) -> (r: Vec<u64>)
        ensures
            r@.len() == n,
    {
        let mut r: Vec<u64> = Vec::new();
        let mut i: usize = 0;
        while i < n
            invariant
                0 <= i <= n,
                r@.len() == i,
            decreases n - i,
        {
            r.push(self.next_u64());
            i = i + 1;
        }
        r
    }
}

} // verus!
