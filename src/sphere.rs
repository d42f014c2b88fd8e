//! The decisions of the sphere test that need only the order of values: which
//! radii are acceptable, and which root of the quadratic is the hit.
use crate::interval::{holds, Interval};
use crate::keys::POSITIVE_INFINITY_BITS;
use crate::RtwError;
use vstd::prelude::*;

verus! {

/// Whether an IEEE-754 encoding stands for a positive number (infinity
/// included): the sign bit is clear, it is not zero and not a NaN.
pub open spec fn is_positive(bits: u64) -> bool {
    0 < bits <= POSITIVE_INFINITY_BITS
}

/// Accepts a positive radius, given by its encoding, and refuses any other.
pub fn validate_radius(radius_bits: u64) -> (r: Result<u64, RtwError>)
    ensures
        is_positive(radius_bits) ==> r == Ok::<u64, RtwError>(radius_bits),
        !is_positive(radius_bits) ==> r == Err::<u64, RtwError>(
            RtwError::InvalidRadius(radius_bits),
        ),
{
    if 0 < radius_bits && radius_bits <= POSITIVE_INFINITY_BITS {
        Ok(radius_bits)
    } else {
        Err(RtwError::InvalidRadius(radius_bits))
    }
}

/// The root that a hit is reported at: the nearer one when the interval holds
/// it, else the farther one when the interval holds that, else none.
pub open spec fn chosen_root(near: i64, far: i64, interval: Interval) -> Option<i64> {
    if holds(interval, near as int) {
        Some(near)
    } else if holds(interval, far as int) {
        Some(far)
    } else {
        None
    }
}

/// Picks the root of the quadratic, given as keys of the ray parameter, at
/// which the ray is taken to hit the sphere within the interval.
pub fn select_root(near: i64, far: i64, interval: &Interval) -> (r: Option<i64>)
    ensures
        r == chosen_root(near, far, *interval),
{
    if interval.start <= near && near < interval.end {
        Some(near)
    } else if interval.start <= far && far < interval.end {
        Some(far)
    } else {
        None
    }
}

} // verus!
