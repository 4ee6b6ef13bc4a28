//! The random draws of the game.
use rand::seq::IteratorRandom;
use rand::Rng;
use vstd::prelude::*;

verus! {

/// `IteratorRandom::choose` of the `rand` crate, on the range `0..count` and
/// with the thread's generator `rand::rng()`.
///
/// The contract claims of it that the draw is `None` exactly when the range is
/// empty, and that a number drawn lies in the range. Which number is drawn is
/// left open. The generator is seeded by the operating system when a thread
/// first uses it, and gives up where that fails.
#[verifier::external_body]
pub(crate) fn choose_below(count: usize) -> (r: Option<usize>)
    ensures
        count == 0 ==> r is None,
        count > 0 ==> r is Some && r->0 < count,
{
    (0..count).choose(&mut rand::rng())
}

/// `Rng::random_range` of the `rand` crate, on the range `0..=max` and with
/// the thread's generator `rand::rng()`.
///
/// The contract claims of it that the number drawn lies in the range, which is
/// never empty. Which number is drawn is left open. The generator is seeded
/// by the operating system when a thread first uses it, and gives up where
/// that fails.
#[verifier::external_body]
pub(crate) fn random_upto(max: u8) -> (r: u8)
    ensures
        r <= max,
{
    rand::rng().random_range(0..=max)
}

} // verus!
