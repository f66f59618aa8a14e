//! Random draws, taken from the `rand` crate.

use rand::rngs::StdRng;
use rand::seq::SliceRandom;
use vstd::prelude::*;

verus! {

#[verifier::external_type_specification]
#[verifier::external_body]
pub struct ExStdRng(StdRng);

/// Relies on rand's `SliceRandom::choose`: `None` exactly for an empty
/// slice, otherwise one of its elements, drawn from `rng`.
#[verifier::external_body]
pub(crate) fn choose_from<T: Copy>(items: &Vec<T>, rng: &mut StdRng) -> (r: Option<T>)
    ensures
        r is None <==> items@.len() == 0,
        r matches Some(x) ==> items@.contains(x),
{
    items.as_slice().choose(rng).copied()
}

} // verus!
