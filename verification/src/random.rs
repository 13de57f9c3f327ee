//! Sources of random indices.
//!
//! Every random choice the engine makes — which cell to collapse among the
//! ties, and which weighted ticket wins inside a cell — goes through the
//! [`RandomSource`] trait, so that a host can run generation from the
//! process-wide generator while tests replay it from a seed.

use vstd::prelude::*;

verus! {

/// A source of indices below a caller-given bound.
///
/// Nothing is promised about the distribution; the engine's contracts hold
/// for every sequence of draws.
pub trait RandomSource {
    /// An index in `0 .. bound`.
    fn random_below(&mut self, bound: usize) -> (r: usize)
        requires
            1 <= bound,
        ensures
            r < bound,
    ;
}

#[verifier::external_type_specification]
#[verifier::external_body]
pub struct ExThreadRng(rand::rngs::ThreadRng);

/// Randomness drawn from the process-wide generator of the `rand` crate.
pub struct ThreadRandom {
    rng: rand::rngs::ThreadRng,
}

impl ThreadRandom {
    /// Relies on rand::thread_rng: a handle to the thread-local generator.
    #[verifier::external_body]
    pub fn new() -> (r: ThreadRandom) {
        ThreadRandom { rng: rand::thread_rng() }
    }

    /// Relies on rand::Rng::gen_range: a draw from `0..bound` lies below
    /// `bound`; the range is non-empty, so the call does not panic.
    #[verifier::external_body]
    fn draw_below(&mut self, bound: usize) -> (r: usize)
        requires
            1 <= bound,
        ensures
            r < bound,
    {
        rand::Rng::gen_range(&mut self.rng, 0..bound)
    }
}

impl RandomSource for ThreadRandom {
    fn random_below(&mut self, bound: usize) -> (r: usize) {
        self.draw_below(bound)
    }
}

/// A deterministic generator: a linear congruential sequence folded down to
/// the requested bound, so that a generation run can be replayed from its
/// seed.
pub struct SeededRandom {
    pub state: u64,
}

impl SeededRandom {
    pub fn new(seed: u64) -> (r: SeededRandom)
        ensures
            r.state == seed,
    {
        SeededRandom { state: seed }
    }
}

impl RandomSource for SeededRandom {
    fn random_below(&mut self, bound: usize) -> (r: usize) {
        let mixed: u128 = (self.state as u128) * 6364136223846793005u128 + 1442695040888963407u128;
        #[verifier::truncate]
        let next: u64 = mixed as u64;
        self.state = next;
        let drawn: u64 = (next >> 33) % (bound as u64);
        drawn as usize
    }
}

} // verus!
