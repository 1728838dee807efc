//! The random source for generation: a seedable generator passed in
//! explicitly, so runs are reproducible. The outside calls stand behind
//! trusted wrappers; nothing is assumed of a draw beyond its range.

use vstd::prelude::*;
use rand::Rng;
use rand::SeedableRng;

verus! {

#[verifier::external_type_specification]
#[verifier::external_body]
pub struct ExStdRng(rand::rngs::StdRng);

/// A pseudo-random source for maze generation, seeded deterministically.
pub struct MazeRng {
    inner: rand::rngs::StdRng,
}

impl MazeRng {
    /// Relies on rand::rngs::StdRng::seed_from_u64 to build a generator
    /// from a seed; nothing is claimed of the values it will produce.
    #[verifier::external_body]
    pub fn from_seed(seed: u64) -> (r: MazeRng) {
        MazeRng { inner: rand::rngs::StdRng::seed_from_u64(seed) }
    }

    /// Relies on rand::Rng::gen_range over `0..n`: it returns a value of
    /// the range, and panics only on an empty range, which the
    /// precondition rules out. Which value comes back is not claimed.
    #[verifier::external_body]
    pub fn below(&mut self, n: usize) -> (r: usize)
        requires
            n >= 1,
        ensures
            r < n,
    {
        self.inner.gen_range(0..n)
    }
}

} // verus!
