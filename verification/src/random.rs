//! The random source. Every draw the library makes goes through this module,
//! so the contracts here are the only facts about randomness the rest of the
//! library relies on.

use rand::Rng;
use rand::StdRng;
use vstd::prelude::*;

verus! {

/// The generator of `rand` that callers seed and hand to the library.
#[verifier::external_type_specification]
#[verifier::external_body]
pub struct ExStdRng(StdRng);

/// Draws an integer with `Rng::gen_range`.
///
/// `gen_range` samples the half-open interval `[low, high)` and panics when
/// `low >= high`; the contract excludes that case and promises only the
/// bounds, which hold of every draw.
#[verifier::external_body]
pub(crate) fn draw_range(rng: &mut StdRng, low: u32, high: u32) -> (drawn: u32)
    requires
        low < high,
    ensures
        low <= drawn < high,
{
    rng.gen_range(low, high)
}

/// Reorders a vector with `Rng::shuffle`.
///
/// `shuffle` only swaps elements of the slice, so the vector afterwards holds
/// the same values, each as often as before.
#[verifier::external_body]
pub(crate) fn shuffle(rng: &mut StdRng, values: &mut Vec<u32>)
    ensures
        final(values)@.to_multiset() == old(values)@.to_multiset(),
{
    rng.shuffle(values.as_mut_slice());
}

} // verus!
