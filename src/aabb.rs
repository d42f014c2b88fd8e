//! Axis-aligned bounding boxes over coordinate keys.
use crate::interval::{merged, sorted, Interval, IntervalExtend, New};
use crate::RtwError;
use rand::Rng;
use std::ops::Range;
use vstd::prelude::*;

verus! {

/// One of the three coordinate axes.
#[derive(Clone, Copy, Debug, PartialEq, Eq, Structural)]
pub enum Axis {
    X,
    Y,
    Z,
}

/// Relies on rand's `Rng::random_range` on the thread-local generator
/// (`rand::rng`): for the non-empty range `0..3` it returns a value in it.
#[verifier::external_body]
fn random_axis_index() -> (r: u8)
    ensures
        r < 3,
{
    rand::rng().random_range(0u8..3)
}

impl Axis {
    /// An axis drawn at random.
    pub fn random() -> Axis {
        let i = random_axis_index();
        if i == 0 {
            Axis::X
        } else if i == 1 {
            Axis::Y
        } else {
            Axis::Z
        }
    }
}

/// A point, one key per axis.
#[derive(Clone, Copy, Debug, PartialEq, Eq, Structural)]
pub struct Point3 {
    pub x: i64,
    pub y: i64,
    pub z: i64,
}

/// A box given by one interval per axis.
#[derive(Debug, PartialEq, Eq)]
pub struct Aabb {
    pub x: Interval,
    pub y: Interval,
    pub z: Interval,
}

/// The box that covers two boxes, axis by axis.
pub open spec fn merged_box(a: Aabb, b: Aabb) -> Aabb {
    Aabb { x: merged(a.x, b.x), y: merged(a.y, b.y), z: merged(a.z, b.z) }
}

/// Whether a box holds a point: each axis' interval holds that coordinate.
pub open spec fn box_holds(b: Aabb, p: Point3) -> bool {
    b.x.start <= p.x < b.x.end && b.y.start <= p.y < b.y.end && b.z.start <= p.z < b.z.end
}

/// The empty box: its intervals run from the greatest key down to the least,
/// so that merging it with a box gives that box back.
pub open spec fn empty_box() -> Aabb {
    Aabb {
        x: Range { start: i64::MAX, end: i64::MIN },
        y: Range { start: i64::MAX, end: i64::MIN },
        z: Range { start: i64::MAX, end: i64::MIN },
    }
}

/// Where a ray crosses the two bounding planes of a box on each axis: the
/// keys of the two ray parameters, in either order.
#[derive(Clone, Copy, Debug)]
pub struct SlabCrossings {
    pub x: (i64, i64),
    pub y: (i64, i64),
    pub z: (i64, i64),
}

pub open spec fn min_of(a: i64, b: i64) -> i64 {
    if a < b { a } else { b }
}

pub open spec fn max_of(a: i64, b: i64) -> i64 {
    if a > b { a } else { b }
}

/// The parameter at which the ray enters a slab.
pub open spec fn entry(c: (i64, i64)) -> i64 {
    min_of(c.0, c.1)
}

/// The parameter at which the ray leaves a slab.
pub open spec fn exit(c: (i64, i64)) -> i64 {
    max_of(c.0, c.1)
}

/// The latest entry into the interval and the three slabs.
pub open spec fn clip_start(c: SlabCrossings, i: Interval) -> i64 {
    max_of(max_of(max_of(i.start, entry(c.x)), entry(c.y)), entry(c.z))
}

/// The earliest exit from the interval and the three slabs.
pub open spec fn clip_end(c: SlabCrossings, i: Interval) -> i64 {
    min_of(min_of(min_of(i.end, exit(c.x)), exit(c.y)), exit(c.z))
}

/// The part of the interval in which the ray is inside the box, if any.
pub open spec fn clipped(c: SlabCrossings, i: Interval) -> Option<Interval> {
    if clip_end(c, i) <= clip_start(c, i) {
        None
    } else {
        Some(Range { start: clip_start(c, i), end: clip_end(c, i) })
    }
}

/// Narrows `t_start..t_end` to one slab.
fn narrow(t_start: i64, t_end: i64, c: (i64, i64)) -> (r: (i64, i64))
    ensures
        r.0 == max_of(t_start, entry(c)),
        r.1 == min_of(t_end, exit(c)),
{
    let (t0, t1) = c;
    let mut s = t_start;
    let mut e = t_end;
    if t0 < t1 {
        if t0 > s {
            s = t0;
        }
        if t1 < e {
            e = t1;
        }
    } else {
        if t1 > s {
            s = t1;
        }
        if t0 < e {
            e = t0;
        }
    }
    (s, e)
}

impl Aabb {
    /// The slab test: clips the interval of ray parameters to the three
    /// slabs of a box, one axis after the other, and stops as soon as
    /// nothing is left.
    pub fn hit(crossings: &SlabCrossings, interval: Interval) -> (r: Option<Interval>)
        ensures
            r == clipped(*crossings, interval),
    {
        let (s, e) = narrow(interval.start, interval.end, crossings.x);
        if e <= s {
            return None;
        }
        let (s, e) = narrow(s, e, crossings.y);
        if e <= s {
            return None;
        }
        let (s, e) = narrow(s, e, crossings.z);
        if e <= s {
            return None;
        }
        Some(s..e)
    }

    /// The interval of one axis.
    pub open spec fn axis(self, axis: Axis) -> Interval {
        match axis {
            Axis::X => self.x,
            Axis::Y => self.y,
            Axis::Z => self.z,
        }
    }

    pub fn new(x: Interval, y: Interval, z: Interval) -> (r: Self)
        ensures
            r == (Aabb { x, y, z }),
    {
        Aabb { x, y, z }
    }

    /// The box with two opposite corners; fails when the corners share a
    /// coordinate on some axis.
    pub fn from_points(a: Point3, b: Point3) -> (r: Result<Self, RtwError>)
        ensures
            (a.x == b.x || a.y == b.y || a.z == b.z) ==> r == Err::<Self, RtwError>(
                RtwError::InvalidInterval,
            ),
            (a.x != b.x && a.y != b.y && a.z != b.z) ==> r == Ok::<Self, RtwError>(
                Aabb { x: sorted(a.x, b.x), y: sorted(a.y, b.y), z: sorted(a.z, b.z) },
            ),
    {
        let x = match <Interval as New<i64>>::new(a.x, b.x) {
            Ok(i) => i,
            Err(e) => return Err(e),
        };
        let y = match <Interval as New<i64>>::new(a.y, b.y) {
            Ok(i) => i,
            Err(e) => return Err(e),
        };
        let z = match <Interval as New<i64>>::new(a.z, b.z) {
            Ok(i) => i,
            Err(e) => return Err(e),
        };
        Ok(Self::new(x, y, z))
    }

    /// The smallest box that covers both boxes.
    pub fn from_aabbs(box1: &Self, box2: &Self) -> (r: Self)
        ensures
            r == merged_box(*box1, *box2),
    {
        Self::new(
            <Interval as IntervalExtend<i64>>::from_ranges(&box1.x, &box2.x),
            <Interval as IntervalExtend<i64>>::from_ranges(&box1.y, &box2.y),
            <Interval as IntervalExtend<i64>>::from_ranges(&box1.z, &box2.z),
        )
    }

    pub fn interval(&self, axis: Axis) -> (r: Interval)
        ensures
            r == self.axis(axis),
    {
        match axis {
            Axis::X => self.x.start..self.x.end,
            Axis::Y => self.y.start..self.y.end,
            Axis::Z => self.z.start..self.z.end,
        }
    }
}

impl Clone for Aabb {
    fn clone(&self) -> (r: Self)
        ensures
            r == *self,
    {
        Aabb {
            x: self.x.start..self.x.end,
            y: self.y.start..self.y.end,
            z: self.z.start..self.z.end,
        }
    }
}

impl Default for Aabb {
    /// The empty box.
    fn default() -> (r: Self)
        ensures
            r == empty_box(),
    {
        Aabb { x: i64::MAX..i64::MIN, y: i64::MAX..i64::MIN, z: i64::MAX..i64::MIN }
    }
}

/// Merging a box with itself or with the empty box gives it back, the empty
/// box holds no point, and the merge of two boxes holds every point that
/// either of them holds.
pub proof fn lemma_merge_box_covers(a: Aabb, b: Aabb, p: Point3)
    ensures
        merged_box(a, a) == a,
        merged_box(empty_box(), a) == a,
        merged_box(a, empty_box()) == a,
        !box_holds(empty_box(), p),
        box_holds(a, p) || box_holds(b, p) ==> box_holds(merged_box(a, b), p),
{
}

} // verus!
