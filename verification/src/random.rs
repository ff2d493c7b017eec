//! The random source. These are the only places where the library calls the
//! `rand` crate; their contracts are taken on trust from its documentation.

use crate::cell::Direction;
use rand::rngs::StdRng;
use rand::seq::SliceRandom;
use rand::Rng;
use rand::SeedableRng;
use vstd::prelude::*;

verus! {

/// `rand::rngs::StdRng`, carried through as an opaque value.
#[verifier::external_type_specification]
#[verifier::external_body]
pub struct ExStdRng(rand::rngs::StdRng);

/// Calls `SeedableRng::seed_from_u64` for `StdRng`. Nothing is claimed about
/// the generator that comes back.
#[verifier::external_body]
pub(crate) fn seeded(seed: u64) -> StdRng {
    StdRng::seed_from_u64(seed)
}

/// Calls `SliceRandom::shuffle`, which swaps elements of the slice in place:
/// afterwards the vector holds the same elements, each as often as before, in
/// an order that depends on the generator.
#[verifier::external_body]
pub(crate) fn shuffle(directions: &mut Vec<Direction>, rng: &mut StdRng)
    ensures
        final(directions)@.len() == old(directions)@.len(),
        final(directions)@.to_multiset() == old(directions)@.to_multiset(),
{
    directions.shuffle(rng)
}

/// Calls `Rng::gen_ratio`, which answers `true` with probability
/// `numerator / denominator`. It panics for a zero denominator and for a
/// numerator above the denominator, so both are excluded. The only outcomes
/// that are certain are those of the two extreme ratios.
#[verifier::external_body]
pub(crate) fn ratio(rng: &mut StdRng, numerator: u32, denominator: u32) -> (hit: bool)
    requires
        denominator > 0,
        numerator <= denominator,
    ensures
        numerator == denominator ==> hit,
        numerator == 0 ==> !hit,
{
    rng.gen_ratio(numerator, denominator)
}

/// Calls `Rng::gen` for a `usize`. Any value may come back.
#[verifier::external_body]
pub(crate) fn next_usize(rng: &mut StdRng) -> usize {
    rng.gen::<usize>()
}

} // verus!
