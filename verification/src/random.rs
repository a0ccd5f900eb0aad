//! The source of randomness that the partitioners and the director draw on.
//!
//! Nothing here is proved: each function hands its work to the `rand` crate,
//! and its contract states what holds of every outcome.

use rand::rngs::StdRng;
use rand::seq::SliceRandom;
use rand::Rng;
use vstd::prelude::*;

verus! {

/// `rand::rngs::StdRng`, the generator that callers hand in; its state is
/// opaque here.
#[verifier::external_type_specification]
#[verifier::external_body]
pub struct ExStdRng(StdRng);

/// Calls `SliceRandom::shuffle` on the slice of `indices`, which swaps
/// elements in place: afterwards the vector holds the same elements, each as
/// often as before, in some order.
#[verifier::external_body]
pub(crate) fn shuffle(indices: &mut Vec<usize>, rng: &mut StdRng)
    ensures
        final(indices)@.to_multiset() == old(indices)@.to_multiset(),
{
    indices.shuffle(rng);
}

/// Calls `Rng::gen_range` with the half-open range from zero to `bound`,
/// which panics on an empty range and else returns a member of it.
#[verifier::external_body]
pub(crate) fn gen_below(bound: usize, rng: &mut StdRng) -> (drawn: usize)
    requires
        bound > 0,
    ensures
        drawn < bound,
{
    rng.gen_range(0..bound)
}

/// Calls `SliceRandom::choose` on the slice of `items`, which returns none
/// of an empty slice and else one of its elements.
#[verifier::external_body]
pub(crate) fn choose_from(items: &Vec<usize>, rng: &mut StdRng) -> (chosen: Option<usize>)
    ensures
        items@.len() == 0 ==> chosen is None,
        items@.len() > 0 ==> chosen is Some && items@.contains(chosen.unwrap()),
{
    items.choose(rng).copied()
}

} // verus!
