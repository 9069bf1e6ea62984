//! The random source that picks the slot to evict and the bucket to start from.
//!
//! Nothing that the filter promises depends on which values are drawn: the draws only
//! decide where a fingerprint ends up among the places where it may be.
use rand::rngs::StdRng;
use rand::Rng;
use rand::SeedableRng;
use vstd::prelude::*;

verus! {

/// `rand::rngs::StdRng`: a generator whose state the library hands on and never reads.
#[verifier::external_type_specification]
#[verifier::external_body]
pub struct ExStdRng(StdRng);

/// Default random number generator.
pub type DefaultRng = StdRng;

/// Calls `rand::Rng::random::<bool>`. Nothing is claimed of the coin.
#[verifier::external_body]
pub(crate) fn random_bool(rng: &mut StdRng) -> (coin: bool) {
    rng.random::<bool>()
}

/// Calls `rand::Rng::random_range` on `0..bound`, which panics on an empty range and
/// otherwise returns a value of the range: the index is below `bound`.
#[verifier::external_body]
pub(crate) fn random_index(rng: &mut StdRng, bound: usize) -> (index: usize)
    requires
        bound > 0,
    ensures
        index < bound,
{
    rng.random_range(0..bound)
}

/// Calls `rand::rng` for the generator of the thread and seeds a `StdRng` from it with
/// `rand::SeedableRng::from_rng`. Nothing is claimed of the generator.
#[verifier::external_body]
pub(crate) fn fresh_rng() -> (rng: StdRng) {
    StdRng::from_rng(&mut rand::rng())
}

/// Calls `Clone::clone` of `rand::rngs::StdRng`.
#[verifier::external_body]
pub(crate) fn clone_rng(rng: &StdRng) -> (copy: StdRng) {
    rng.clone()
}

} // verus!
