//! The library's one source of randomness.

use vstd::prelude::*;

verus! {

/// Relies on rand::random: draws a value from the thread-local generator.
/// Nothing is promised of the value; every caller must cope with any result.
pub assume_specification<T>[ rand::random::<T> ]() -> (r: T)
    where
        rand::distributions::Standard: rand::distributions::Distribution<T>,
;

/// Draws an integer below `bound`, by reducing one random machine word.
pub fn draw_below(bound: u64) -> (r: u64)
    requires
        bound > 0,
    ensures
        r < bound,
{
    let raw: u64 = rand::random();
    raw % bound
}

} // verus!
