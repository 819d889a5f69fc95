use vstd::prelude::*;
use rand::seq::IndexedRandom;

verus! {

/// An index below `n`, drawn by `rand::random_range` from the thread's
/// generator. Only the range of the result is claimed; the draw itself is
/// left open, so two calls may differ.
#[verifier::external_body]
pub(crate) fn random_index(n: usize) -> (r: usize)
    requires
        n > 0,
    ensures
        r < n,
{
    rand::random_range(0..n)
}

/// A coin that `rand::random_ratio` throws, true with a chance of
/// `numerator` in `denominator`. Nothing is claimed of the outcome.
#[verifier::external_body]
pub(crate) fn random_chance(numerator: u32, denominator: u32) -> bool
    requires
        denominator > 0,
        numerator <= denominator,
{
    rand::random_ratio(numerator, denominator)
}

/// One element of `items`, drawn by `IndexedRandom::choose` with the
/// thread's generator: some element of the list, and none only where the
/// list is empty.
#[verifier::external_body]
pub(crate) fn random_pick(items: &Vec<i16>) -> (r: Option<i16>)
    ensures
        r is None <==> items@.len() == 0,
        r matches Some(m) ==> items@.contains(m),
{
    items.choose(&mut rand::rng()).copied()
}

} // verus!
