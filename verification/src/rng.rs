//! The board's random-number generator, held behind trusted declarations:
//! the generator type is opaque here, and each call states only what rand's
//! own source and documentation promise of it.

use vstd::prelude::*;

verus! {

/// Declares rand's StdRng so a board can hold one; the verifier sees the
/// generator as an opaque value and believes nothing about its draws beyond
/// what the functions below state.
#[verifier::external_type_specification]
#[verifier::external_body]
pub struct ExStdRng(rand::rngs::StdRng);

/// Relies on rand's SeedableRng::seed_from_u64 for StdRng: builds a
/// generator deterministically from a 64-bit seed.
#[verifier::external_body]
pub(crate) fn rng_from_seed(seed: u64) -> rand::rngs::StdRng {
    <rand::rngs::StdRng as rand::SeedableRng>::seed_from_u64(seed)
}

/// Relies on rand's SeedableRng::from_entropy for StdRng: builds a
/// generator from operating-system entropy.
#[verifier::external_body]
pub(crate) fn rng_from_entropy() -> rand::rngs::StdRng {
    <rand::rngs::StdRng as rand::SeedableRng>::from_entropy()
}

/// Relies on StdRng's derived Clone: duplicates the generator state.
#[verifier::external_body]
pub(crate) fn rng_clone(rng: &rand::rngs::StdRng) -> rand::rngs::StdRng {
    rng.clone()
}

/// Relies on rand's Rng::sample with rand_distr's Uniform over the half-open
/// range [0, n): the sample is uniform there, so in particular below n.
/// Uniform::new panics on an empty range, hence the bound on n.
#[verifier::external_body]
pub(crate) fn rand_below(rng: &mut rand::rngs::StdRng, n: usize) -> (r: usize)
    requires
        n >= 1,
    ensures
        r < n,
{
    rand::Rng::sample(rng, rand_distr::Uniform::new(0usize, n))
}

/// Relies on rand's Rng::sample with rand_distr's Bernoulli built by
/// from_ratio(num, den): true with a num-in-den chance; from_ratio only
/// errs when den is 0 or num exceeds den, which the bounds rule out.
#[verifier::external_body]
pub(crate) fn rand_ratio(rng: &mut rand::rngs::StdRng, num: u32, den: u32) -> (r: bool)
    requires
        1 <= den,
        num <= den,
    ensures
        num == 0 ==> !r,
        num == den ==> r,
{
    rand::Rng::sample(rng, rand_distr::Bernoulli::from_ratio(num, den).unwrap())
}

} // verus!
