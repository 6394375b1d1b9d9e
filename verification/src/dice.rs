//! The random numbers the simulation draws, from the generator that the
//! whole game shares.

use vstd::prelude::*;
use macroquad::rand::{gen_range, srand};

verus! {

/// Draws a number with `macroquad::rand::gen_range`, which scales the next
/// number of the shared generator from the unit interval, one excluded,
/// onto the way from `low` to `high` and cuts off the fraction. Between
/// bounds of moderate size, with `high` above zero, the draw is at least
/// `low` and below `high`; with both bounds equal it is that bound.
#[verifier::external_body]
pub(crate) fn roll(low: i32, high: i32) -> (drawn: i32)
    ensures
        -0x1_0000 <= low < high <= 0x1_0000 && 0 < high ==> low <= drawn < high,
        low == high ==> drawn == low,
{
    gen_range(low, high)
}

/// Restarts the shared generator from `seed` with `macroquad::rand::srand`.
/// Nothing is claimed of the numbers that follow.
#[verifier::external_body]
pub(crate) fn reseed(seed: u64) {
    srand(seed)
}

} // verus!
