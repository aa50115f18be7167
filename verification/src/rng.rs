//! The single pseudo-random source the generators draw from: an
//! explicit, seedable object, so identical seeds reproduce identical
//! mazes.

use vstd::prelude::*;

verus! {

/// Declares rand's standard generator type so a value of it can sit
/// in a field; Verus sees nothing inside it.
#[verifier::external_type_specification]
#[verifier::external_body]
pub struct ExStdRng(rand::rngs::StdRng);

/// A seedable pseudo-random source. All randomness the generators
/// consume is drawn from one of these, owned by the caller.
pub struct Prng {
    inner: rand::rngs::StdRng,
}

impl Prng {
    /// Relies on rand::SeedableRng::seed_from_u64 to build the
    /// generator from a seed. Nothing is assumed of the values the
    /// source will later yield.
    #[verifier::external_body]
    pub fn from_seed(seed: u64) -> Prng {
        Prng { inner: <rand::rngs::StdRng as rand::SeedableRng>::seed_from_u64(seed) }
    }

    /// Relies on rand::Rng::gen to draw one machine word. Nothing is
    /// assumed of the value: every caller is verified for every
    /// possible outcome.
    #[verifier::external_body]
    pub fn next_usize(&mut self) -> usize {
        rand::Rng::gen::<usize>(&mut self.inner)
    }

    /// Draws a value below `bound`, by reducing a raw draw.
    pub fn next_below(&mut self, bound: usize) -> (r: usize)
        requires
            1 <= bound,
        ensures
            r < bound,
    {
        self.next_usize() % bound
    }
}

} // verus!
