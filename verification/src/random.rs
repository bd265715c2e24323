//! The random source of the engine and the three draws it makes from it.

use rand::rngs::StdRng;
use rand::seq::SliceRandom;
use rand::Rng;
use vstd::prelude::*;

use crate::direction::Direction;

verus! {

/// `rand::rngs::StdRng`, carried through the engine as an opaque value.
#[verifier::external_type_specification]
#[verifier::external_body]
pub struct ExStdRng(StdRng);

/// Calls `Rng::gen_range(0..bound)` on a `usize` range.
///
/// The call panics on an empty range, so `bound` must be positive. Its result
/// lies in the half-open range; nothing else is claimed of it.
#[verifier::external_body]
pub(crate) fn draw_index(rng: &mut StdRng, bound: usize) -> (drawn: usize)
    requires
        bound > 0,
    ensures
        drawn < bound,
{
    rng.gen_range(0..bound)
}

/// Calls `Rng::gen_range(0..bound)` on a `u32` range.
///
/// The call panics on an empty range, so `bound` must be positive. Its result
/// lies in the half-open range; nothing else is claimed of it.
#[verifier::external_body]
pub(crate) fn draw_weight(rng: &mut StdRng, bound: u32) -> (drawn: u32)
    requires
        bound > 0,
    ensures
        drawn < bound,
{
    rng.gen_range(0..bound)
}

/// Calls `SliceRandom::choose` on a slice of directions.
///
/// An empty slice gives `None`; any other gives one of its elements.
#[verifier::external_body]
pub(crate) fn choose_direction(directions: &[Direction], rng: &mut StdRng) -> (chosen: Option<
    Direction,
>)
    ensures
        directions@.len() == 0 ==> chosen is None,
        directions@.len() > 0 ==> chosen is Some && directions@.contains(chosen->0),
{
    directions.choose(rng).copied()
}

} // verus!
