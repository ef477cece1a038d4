//! The random choices the solver makes, drawn from a seedable generator.

use crate::state::State;
use rand::rngs::StdRng;
use rand::seq::SliceRandom;
use vstd::prelude::*;

verus! {

#[verifier::external_type_specification]
#[verifier::external_body]
pub struct ExStdRng(StdRng);

/// Relies on rand's `SliceRandom::choose_weighted` for slices: with positive
/// integer weights it fails only on an empty slice, and otherwise returns one
/// of the slice's items. The weights here are at most 5 each, so with at most
/// twelve items their `u32` total cannot overflow.
#[verifier::external_body]
pub(crate) fn choose_candidate(candidates: &Vec<State>, rng: &mut StdRng) -> (r: Option<State>)
    requires
        candidates@.len() <= 12,
    ensures
        candidates@.len() == 0 <==> r is None,
        r matches Some(t) ==> candidates@.contains(t),
{
    candidates.choose_weighted(rng, |s| s.weight()).ok().copied()
}

/// Relies on rand's `SliceRandom::choose` for slices: `None` on an empty slice,
/// otherwise one of its items, picked uniformly.
#[verifier::external_body]
pub(crate) fn choose_index(indices: &Vec<usize>, rng: &mut StdRng) -> (r: Option<usize>)
    ensures
        indices@.len() == 0 <==> r is None,
        r matches Some(i) ==> indices@.contains(i),
{
    indices.choose(rng).copied()
}

} // verus!
