//! The random source the sampler draws whole numbers from.

use vstd::prelude::*;

verus! {

/// `rand::rngs::StdRng`, the standard seedable generator of the `rand`
/// crate. Nothing of its state is visible here.
#[verifier::external_type_specification]
#[verifier::external_body]
pub struct ExStdRng(rand::rngs::StdRng);

/// `rand::Rng::gen_range` on the half-open range `0..bound`: some value of
/// that range. Which one depends on the state of the generator, of which
/// nothing is said. An empty range makes the call panic, so `bound` must not
/// be zero.
#[verifier::external_body]
pub(crate) fn uniform_below(rng: &mut rand::rngs::StdRng, bound: u64) -> (value: u64)
    requires
        bound > 0,
    ensures
        value < bound,
{
    rand::Rng::gen_range(rng, 0..bound)
}

} // verus!
