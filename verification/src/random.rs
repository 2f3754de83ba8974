//! Random whole numbers.

use vstd::prelude::*;

verus! {

/// Draws a number from `low ..= high` with `Rng::random_range` of the crate
/// `rand`, on the generator that `rand::rng` hands to the calling thread.
///
/// Claimed of it: the number lies in the range. An empty range, on which
/// `random_range` panics, is left out.
#[verifier::external_body]
fn sample_inclusive(low: i32, high: i32) -> (r: i32)
    requires
        low <= high,
    ensures
        low <= r <= high,
{
    rand::Rng::random_range(&mut rand::rng(), low..=high)
}

/// A random number between `min` and `max`, both included.
///
/// Where the bounds come in the wrong order, with `min` above `max`, the
/// number lies above `max` and not above `min`.
pub fn random_int_range(min: i32, max: i32) -> (r: i32)
    ensures
        min <= max ==> min <= r <= max,
        min > max ==> max < r <= min,
{
    if min <= max {
        sample_inclusive(min, max)
    } else {
        sample_inclusive(max + 1, min)
    }
}

} // verus!
