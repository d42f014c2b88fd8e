//! Half-open intervals `start..end` over integer coordinates.
use crate::RtwError;
use std::ops::Range;
use vstd::prelude::*;

verus! {

/// An interval of coordinates; a well-formed one has `start < end`.
pub type Interval = Range<i64>;

/// Widening an interval on both sides.
pub trait Pad<T>: Sized {
    /// Whether both padded bounds are representable.
    spec fn can_pad(&self, delta: T) -> bool;

    fn pad(&self, delta: T) -> Self
        requires
            self.can_pad(delta),
    ;
}

impl Pad<i64> for Range<i64> {
    open spec fn can_pad(&self, delta: i64) -> bool {
        i64::MIN <= self.start - delta <= i64::MAX && i64::MIN <= self.end + delta <= i64::MAX
    }

    /// `start - delta .. end + delta`.
    fn pad(&self, delta: i64) -> (r: Self)
        ensures
            r.start == self.start - delta,
            r.end == self.end + delta,
    {
        (self.start - delta)..(self.end + delta)
    }
}

/// The smallest interval that covers two intervals.
pub open spec fn merged(a: Interval, b: Interval) -> Interval {
    Range {
        start: if a.start < b.start { a.start } else { b.start },
        end: if a.end > b.end { a.end } else { b.end },
    }
}

/// Whether `x` lies in the half-open interval.
pub open spec fn holds(i: Interval, x: int) -> bool {
    i.start <= x < i.end
}

pub trait IntervalExtend<T>: Sized {
    fn from_ranges(a: &Self, b: &Self) -> Self;
}

impl IntervalExtend<i64> for Range<i64> {
    /// The lower of the two starts and the higher of the two ends.
    fn from_ranges(a: &Self, b: &Self) -> (r: Self)
        ensures
            r == merged(*a, *b),
    {
        (if a.start < b.start { a.start } else { b.start })..(if a.end > b.end {
            a.end
        } else {
            b.end
        })
    }
}

pub trait New<T>: Sized {
    fn new(a: T, b: T) -> Result<Self, RtwError>;
}

/// The interval between two distinct bounds given in either order.
pub open spec fn sorted(a: i64, b: i64) -> Interval {
    if a < b {
        Range { start: a, end: b }
    } else {
        Range { start: b, end: a }
    }
}

impl New<i64> for Range<i64> {
    /// Orders the two bounds; equal bounds are refused.
    fn new(a: i64, b: i64) -> (r: Result<Self, RtwError>)
        ensures
            a == b ==> r == Err::<Self, RtwError>(RtwError::InvalidInterval),
            a != b ==> r == Ok::<Self, RtwError>(sorted(a, b)),
    {
        if a < b {
            Ok(a..b)
        } else if a > b {
            Ok(b..a)
        } else {
            Err(RtwError::InvalidInterval)
        }
    }
}

/// Building an interval from two distinct bounds does not depend on their
/// order, the result is well formed and holds both bounds' span; equal
/// bounds give no interval.
pub proof fn lemma_new_ignores_order(a: i64, b: i64)
    ensures
        a != b ==> sorted(a, b) == sorted(b, a),
        a != b ==> sorted(a, b).start < sorted(a, b).end,
        a != b ==> sorted(a, b).start == if a < b { a } else { b },
{
}

/// Merging an interval with itself gives it back, and the merge of two
/// intervals holds every point that either of them holds.
pub proof fn lemma_merge_covers(a: Interval, b: Interval, x: int)
    ensures
        merged(a, a) == a,
        holds(a, x) || holds(b, x) ==> holds(merged(a, b), x),
{
}

} // verus!
