//! The random number generator that the generators and the braiding draw from.

use rand::rngs::StdRng;
use rand::seq::IteratorRandom;
use rand::Rng;
use rand::SeedableRng;
use vstd::prelude::*;

verus! {

/// `rand::rngs::StdRng`, carried through the library as an opaque value.
#[verifier::external_type_specification]
#[verifier::external_body]
pub struct ExStdRng(rand::rngs::StdRng);

/// `SeedableRng::seed_from_u64` on `StdRng`. Nothing is claimed of the generator that
/// comes back.
#[verifier::external_body]
pub(crate) fn rng_from_seed(seed: u64) -> StdRng {
    StdRng::seed_from_u64(seed)
}

/// `SeedableRng::from_rng` on the thread's generator, `rand::rng()`. Nothing is claimed
/// of the generator that comes back.
#[verifier::external_body]
pub(crate) fn rng_from_entropy() -> StdRng {
    StdRng::from_rng(&mut rand::rng())
}

/// `Rng::random_range` on `0..bound`. The call panics on an empty range, which the
/// precondition rules out; the draw lies in the range, and no more is claimed of it.
#[verifier::external_body]
pub(crate) fn random_below(rng: &mut StdRng, bound: usize) -> (r: usize)
    requires
        bound > 0,
    ensures
        r < bound,
{
    rng.random_range(0..bound)
}

/// `IteratorRandom::choose` on the range `0..len`. A range knows its length, so the
/// call gives `None` exactly when the range is empty and one of its numbers otherwise.
#[verifier::external_body]
pub(crate) fn choose_index(rng: &mut StdRng, len: usize) -> (r: Option<usize>)
    ensures
        len == 0 ==> r is None,
        len > 0 ==> r is Some && r.unwrap() < len,
{
    (0..len).choose(rng)
}

} // verus!
