//! The random number generator of the `rand` crate from which the process
//! draws, and what is taken of it on trust.

use rand::rngs::StdRng;
use rand::Rng;
use vstd::prelude::*;

verus! {

/// The standard generator of the `rand` crate. Verus sees nothing inside it.
#[verifier::external_type_specification]
#[verifier::external_body]
pub struct ExStdRng(StdRng);

/// `Rng::gen_range` from zero up to `bound`, which is left out.
///
/// Trusted: the number drawn is below `bound`. Nothing else is said of it: two
/// draws from one generator may differ. The method panics on an empty range,
/// which `requires` leaves out.
#[verifier::external_body]
pub(crate) fn draw_below(rng: &mut StdRng, bound: usize) -> (draw: usize)
    requires
        bound >= 1,
    ensures
        draw < bound,
{
    rng.gen_range(0, bound)
}

/// `Clone::clone` of a `StdRng`.
///
/// Trusted: the copy is in the state of the generator it was made from.
#[verifier::external_body]
pub(crate) fn clone_rng(rng: &StdRng) -> (copy: StdRng)
    ensures
        copy == *rng,
{
    rng.clone()
}

} // verus!
