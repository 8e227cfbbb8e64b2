//! The pseudorandom source threaded through seeding and growth.
//!
//! Every random decision in the library draws from an explicit [`RngSource`]
//! value, so a run is reproducible given the seed it started from.

use vstd::prelude::*;

verus! {

#[verifier::external_type_specification]
#[verifier::external_body]
pub struct ExChaCha8Rng(rand_chacha::ChaCha8Rng);

/// A caller-seedable pseudorandom source backed by the ChaCha stream cipher
/// with 8 rounds.
pub struct RngSource {
    inner: rand_chacha::ChaCha8Rng,
}

impl RngSource {
    /// Relies on rand_core::SeedableRng::seed_from_u64: builds the generator
    /// deterministically from a 64-bit seed.
    #[verifier::external_body]
    pub fn from_seed(seed: u64) -> RngSource {
        RngSource { inner: rand::SeedableRng::seed_from_u64(seed) }
    }

    /// Relies on rand_core::SeedableRng::from_entropy: builds the generator
    /// from operating-system entropy. The call panics only if the operating
    /// system's entropy source fails, an environmental condition that no
    /// argument could rule out.
    #[verifier::external_body]
    pub fn from_entropy() -> RngSource {
        RngSource { inner: rand::SeedableRng::from_entropy() }
    }

    /// Relies on rand::Rng::gen_range over `0..bound`: a value uniform in
    /// `[0, bound)`. The call panics on an empty range, which the `requires`
    /// rules out.
    #[verifier::external_body]
    pub(crate) fn gen_index(&mut self, bound: usize) -> (r: usize)
        requires
            bound > 0,
        ensures
            r < bound,
    {
        rand::Rng::gen_range(&mut self.inner, 0..bound)
    }

    /// Relies on rand::Rng::gen::<u8>: a uniformly drawn byte.
    #[verifier::external_body]
    pub(crate) fn gen_u8(&mut self) -> u8 {
        rand::Rng::gen(&mut self.inner)
    }
}

} // verus!
