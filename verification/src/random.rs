//! The random draws that the generators make, taken from the `rand` crate's
//! thread-local generator.
//!
//! Nothing here is proved: each function states what holds of every outcome
//! of the call it makes.

use rand::seq::IteratorRandom;
use rand::seq::SliceRandom;
use rand::Rng;
use vstd::prelude::*;

verus! {

/// Calls `rand::random` for a `bool`. Nothing is known of the outcome.
#[verifier::external_body]
pub(crate) fn random_bool() -> (heads: bool) {
    rand::random()
}

/// Calls `Rng::gen_range` on the half-open range from `low` to `high`, which
/// must not be empty: the outcome lies in the range.
#[verifier::external_body]
pub(crate) fn random_range(low: usize, high: usize) -> (r: usize)
    requires
        low < high,
    ensures
        low <= r < high,
{
    rand::thread_rng().gen_range(low..high)
}

/// Calls `IteratorRandom::choose` on the indices below `len`: one of them, or
/// nothing exactly when there is none.
#[verifier::external_body]
pub(crate) fn choose_index(len: usize) -> (r: Option<usize>)
    ensures
        r is None <==> len == 0,
        r is Some ==> r->Some_0 < len,
{
    (0..len).choose(&mut rand::thread_rng())
}

/// Calls `SliceRandom::shuffle`: the same items, each as often as before, in
/// some order.
#[verifier::external_body]
pub(crate) fn shuffle<T>(items: &mut Vec<T>)
    ensures
        final(items)@.to_multiset() == old(items)@.to_multiset(),
{
    items.shuffle(&mut rand::thread_rng());
}

} // verus!
