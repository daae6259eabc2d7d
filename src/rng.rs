//! The random source: draws and shuffles made through the `rand` crate.

use vstd::prelude::*;
use rand::seq::SliceRandom;
use rand::Rng;

verus! {

/// Relies on rand's `thread_rng` and `Rng::gen_range` on the non-empty range
/// `0..100`: the draw lies in that range.
#[verifier::external_body]
pub(crate) fn roll_percent() -> (r: usize)
    ensures
        r < 100,
{
    rand::thread_rng().gen_range(0..100)
}

/// Relies on rand's `SliceRandom::shuffle` with `thread_rng`: the items are
/// permuted in place, none added or lost.
#[verifier::external_body]
pub(crate) fn shuffle_points(v: &mut Vec<(usize, usize)>)
    ensures
        final(v)@.to_multiset() == old(v)@.to_multiset(),
{
    v.shuffle(&mut rand::thread_rng());
}

} // verus!
