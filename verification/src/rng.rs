//! Randomness for the genetic operators: a seedable generator from the
//! rand crate behind trusted wrappers. Each wrapper states only what holds
//! of every draw; nothing about the distribution is assumed, so every
//! caller is verified for every possible outcome.

use vstd::prelude::*;

verus! {

/// rand's standard seedable generator, used opaquely: the library never
/// reads its state, it only asks for draws.
#[verifier::external_type_specification]
#[verifier::external_body]
pub struct ExStdRng(rand::rngs::StdRng);

/// Relies on rand's `Rng::random_range` over `0..bound`: the draw lies in
/// the range. The call panics only on an empty range, which the
/// precondition rules out.
#[verifier::external_body]
pub(crate) fn rng_below(rng: &mut rand::rngs::StdRng, bound: usize) -> (r: usize)
    requires
        bound > 0,
    ensures
        r < bound,
{
    rand::Rng::random_range(rng, 0..bound)
}

/// Relies on rand's `Rng::random::<u32>`: some 32-bit value. Nothing is
/// assumed of it.
#[verifier::external_body]
pub(crate) fn rng_word(rng: &mut rand::rngs::StdRng) -> u32 {
    rand::Rng::random::<u32>(rng)
}

} // verus!
