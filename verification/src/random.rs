//! The random source that picks eviction victims and sample keys.

use rand::rngs::StdRng;
use rand::Rng;
use rand::SeedableRng;
use vstd::prelude::*;

verus! {

#[verifier::external_type_specification]
#[verifier::external_body]
pub struct ExStdRng(StdRng);

/// `StdRng::from_entropy`: a generator seeded by the operating system.
/// Nothing is claimed of it.
#[verifier::external_body]
pub(crate) fn fresh_rng() -> StdRng {
    StdRng::from_entropy()
}

/// `StdRng::seed_from_u64`: a generator whose stream is fixed by `seed`.
/// Nothing is claimed of it.
#[verifier::external_body]
pub(crate) fn seeded_rng(seed: u64) -> StdRng {
    StdRng::seed_from_u64(seed)
}

/// `Rng::gen_range` on `low..high`: claims only that the draw lies in the
/// range. The range must not be empty.
#[verifier::external_body]
pub(crate) fn random_between(rng: &mut StdRng, low: u64, high: u64) -> (draw: u64)
    requires
        low < high,
    ensures
        low <= draw < high,
{
    rng.gen_range(low..high)
}

/// A random index below `bound`.
pub(crate) fn random_below(rng: &mut StdRng, bound: usize) -> (index: usize)
    requires
        bound > 0,
    ensures
        index < bound,
{
    random_between(rng, 0, bound as u64) as usize
}

} // verus!
