//! The random source: a seedable generator of the `rand` crate, and the two
//! things this library asks of it.

use rand::rngs::StdRng;
use rand::Rng;
use vstd::prelude::*;

verus! {

/// `rand::rngs::StdRng`, the generator that the callers hand in. Nothing is
/// known of its state: no contract speaks of what it will give next.
#[verifier::external_type_specification]
#[verifier::external_body]
pub struct ExStdRng(StdRng);

/// Draws an integer below `bound`.
///
/// Calls `rand::Rng::gen_range(0, bound)`, which samples uniformly from the
/// half-open range and panics when the range is empty. The contract claims
/// only that the value lies in the range.
#[verifier::external_body]
pub(crate) fn draw_below(rng: &mut StdRng, bound: u64) -> (n: u64)
    requires
        bound > 0,
    ensures
        n < bound,
{
    rng.gen_range(0, bound)
}

/// Reorders `cells` at random.
///
/// Calls `rand::Rng::shuffle`, which walks the slice once and swaps each
/// element with one at or before it. The contract claims that the cells
/// after the call are a rearrangement of the cells before it.
#[verifier::external_body]
pub(crate) fn shuffle_cells(rng: &mut StdRng, cells: &mut Vec<(usize, usize)>)
    ensures
        final(cells)@.to_multiset() == old(cells)@.to_multiset(),
{
    rng.shuffle(cells.as_mut_slice())
}

} // verus!
