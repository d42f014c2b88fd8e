//! The world's objects, known here by their bounding boxes, and the nearest
//! hit of a ray among them. An object is named by its index in the list; the
//! geometry behind each index lives with the caller, which answers for it
//! through a probe.
use crate::aabb::{merged_box, empty_box, Aabb, SlabCrossings};
use crate::interval::Interval;
use std::ops::Range;
use vstd::prelude::*;

verus! {

/// The smallest box that covers every box of a sequence; the empty box for
/// none.
pub open spec fn covering(boxes: Seq<Aabb>) -> Aabb
    decreases boxes.len(),
{
    if boxes.len() == 0 {
        empty_box()
    } else {
        merged_box(covering(boxes.drop_last()), boxes.last())
    }
}

/// What the caller's geometry tells about one ray: where it crosses the slabs
/// of a box, and at which parameter (by key) it hits an object within an
/// interval. The geometry implements it; its promise is that an answer
/// depends on the arguments alone.
pub trait RayProbe {
    spec fn spec_crossings(&self, bbox: Aabb) -> SlabCrossings;

    spec fn spec_hit(&self, id: usize, interval: Interval) -> Option<i64>;

    fn crossings(&self, bbox: &Aabb) -> (r: SlabCrossings)
        ensures
            r == self.spec_crossings(*bbox),
    ;

    fn hit(&self, id: usize, interval: &Interval) -> (r: Option<i64>)
        ensures
            r == self.spec_hit(id, *interval),
    ;
}

/// The upper end of the search once a hit has been found: its parameter.
pub open spec fn closest(found: Option<(usize, i64)>, end: i64) -> i64 {
    match found {
        Some(h) => h.1,
        None => end,
    }
}

/// A scan over the first `k` objects that keeps the latest hit, each object
/// being asked only for hits before the best one so far.
pub open spec fn scan_hits<P: RayProbe>(p: P, k: nat, start: i64, end: i64) -> Option<(usize, i64)>
    decreases k,
{
    if k == 0 {
        None
    } else {
        let before = scan_hits(p, (k - 1) as nat, start, end);
        match p.spec_hit((k - 1) as usize, Range { start, end: closest(before, end) }) {
            Some(t) => Some(((k - 1) as usize, t)),
            None => before,
        }
    }
}

/// An unordered collection of objects and the box that covers them all.
#[derive(Debug)]
pub struct HittableList {
    objects: Vec<Aabb>,
    bbox: Aabb,
}

impl HittableList {
    /// The boxes of the objects, by index.
    pub closed spec fn boxes(&self) -> Seq<Aabb> {
        self.objects@
    }

    pub closed spec fn spec_bbox(&self) -> Aabb {
        self.bbox
    }

    /// The list's box is the smallest box that covers its objects' boxes.
    pub open spec fn wf(&self) -> bool {
        self.spec_bbox() == covering(self.boxes())
    }

    /// The empty list.
    pub fn new() -> (r: Self)
        ensures
            r.boxes() == Seq::<Aabb>::empty(),
            r.spec_bbox() == empty_box(),
            r.wf(),
    {
        HittableList { objects: Vec::new(), bbox: Aabb::default() }
    }

    /// Adds an object by its box; it gets the next index.
    pub fn add(&mut self, obj: Aabb)
        ensures
            final(self).boxes() == old(self).boxes().push(obj),
            final(self).spec_bbox() == merged_box(old(self).spec_bbox(), obj),
            old(self).wf() ==> final(self).wf(),
    {
        self.bbox = Aabb::from_aabbs(&self.bbox, &obj);
        self.objects.push(obj);
        proof {
            assert(self.objects@.drop_last() =~= old(self).objects@);
        }
    }

    /// The objects' boxes, to be read or rearranged; the list's box stays
    /// as it was.
    pub fn objects_mut(&mut self) -> (r: &mut Vec<Aabb>)
        ensures
            r@ == old(self).boxes(),
            final(self).boxes() == final(r)@,
            final(self).spec_bbox() == old(self).spec_bbox(),
    {
        &mut self.objects
    }

    /// The boxes of the objects, by index.
    pub fn objects(&self) -> (r: &Vec<Aabb>)
        ensures
            r@ == self.boxes(),
    {
        &self.objects
    }

    /// The number of objects.
    pub fn size(&self) -> (r: usize)
        ensures
            r == self.boxes().len(),
    {
        self.objects.len()
    }

    /// The nearest hit among the objects within the interval: the object's
    /// index and the parameter.
    pub fn hit<P: RayProbe>(&self, probe: &P, interval: &Interval) -> (r: Option<(usize, i64)>)
        ensures
            r == scan_hits(*probe, self.boxes().len(), interval.start, interval.end),
    {
        let mut found: Option<(usize, i64)> = None;
        let mut k: usize = 0;
        while k < self.objects.len()
            invariant
                k <= self.objects@.len(),
                found == scan_hits(*probe, k as nat, interval.start, interval.end),
            decreases self.objects@.len() - k,
        {
            let upper = match found {
                Some(h) => h.1,
                None => interval.end,
            };
            match probe.hit(k, &(interval.start..upper)) {
                Some(t) => {
                    found = Some((k, t));
                },
                None => {},
            }
            k = k + 1;
        }
        found
    }

    /// The box that covers every object.
    pub fn bounding_box(&self) -> (r: Aabb)
        ensures
            r == self.spec_bbox(),
    {
        self.bbox.clone()
    }
}

/// The nearer of two hits; on a tie, the first.
pub open spec fn nearer(l: Option<(usize, i64)>, r: Option<(usize, i64)>) -> Option<(usize, i64)> {
    match (l, r) {
        (Some(a), Some(b)) => if b.1 < a.1 { Some(b) } else { Some(a) },
        (Some(a), None) => Some(a),
        (None, Some(b)) => Some(b),
        (None, None) => None,
    }
}


/// The probe answers for the objects of `ids` as a search for the nearest
/// point within an interval does: a hit lies in the interval; with the same
/// start, a narrower interval that still holds the hit gives the same hit,
/// and a hit within a narrower interval is matched or bettered by the wider.
pub open spec fn probe_consistent<P: RayProbe>(p: P, ids: Set<usize>) -> bool {
    &&& forall|id: usize, i: Interval|
        ids.contains(id) && #[trigger] p.spec_hit(id, i) is Some ==> i.start <= p.spec_hit(
            id,
            i,
        )->Some_0 < i.end
    &&& forall|id: usize, i: Interval, j: Interval|
        ids.contains(id) && #[trigger] p.spec_hit(id, i) is Some && j.start == i.start
            && p.spec_hit(id, i)->Some_0 < j.end <= i.end ==> #[trigger] p.spec_hit(id, j)
            == p.spec_hit(id, i)
    &&& forall|id: usize, i: Interval, j: Interval|
        ids.contains(id) && #[trigger] p.spec_hit(id, j) is Some && j.start == i.start && j.end
            <= i.end ==> #[trigger] p.spec_hit(id, i) is Some && p.spec_hit(id, i)->Some_0
            <= p.spec_hit(id, j)->Some_0
}


/// Whether `found` is the nearest hit among the objects of `ids` within
/// `start..end`: none of them hits when it is `None`; otherwise it names one
/// of them and its hit, and no other hit is nearer.
pub open spec fn nearest_among<P: RayProbe>(
    p: P,
    ids: Set<usize>,
    start: i64,
    end: i64,
    found: Option<(usize, i64)>,
) -> bool {
    match found {
        None => forall|id: usize|
            ids.contains(id) ==> #[trigger] p.spec_hit(id, Range { start, end }) is None,
        Some(h) => ids.contains(h.0) && p.spec_hit(h.0, Range { start, end }) == Some(h.1)
            && forall|id: usize|
            ids.contains(id) && #[trigger] p.spec_hit(id, Range { start, end }) is Some ==> h.1
                <= p.spec_hit(id, Range { start, end })->Some_0,
    }
}


/// Searching the right side only before the left side's hit, and keeping
/// the nearer of the two, finds the nearest hit among both sides.
pub(crate) proof fn lemma_nearer_of_sides<P: RayProbe>(
    p: P,
    left: Set<usize>,
    right: Set<usize>,
    start: i64,
    end: i64,
    l: Option<(usize, i64)>,
    r: Option<(usize, i64)>,
)
    requires
        probe_consistent(p, left.union(right)),
        nearest_among(p, left, start, end, l),
        nearest_among(p, right, start, closest(l, end), r),
    ensures
        nearest_among(p, left.union(right), start, end, nearer(l, r)),
{
    let all = Range { start, end };
    let upper = closest(l, end);
    let part = Range { start, end: upper };
    match l {
        None => {
            assert(part == all);
        },
        Some(hl) => {
            assert(p.spec_hit(hl.0, all) is Some);
            assert(hl.1 < end);
            assert forall|id: usize|
                right.contains(id) && #[trigger] p.spec_hit(id, all) is Some implies hl.1
                <= p.spec_hit(id, all)->Some_0 || (p.spec_hit(id, part) == p.spec_hit(id, all)) by {
                if p.spec_hit(id, all)->Some_0 < hl.1 {
                    assert(p.spec_hit(id, part) == p.spec_hit(id, all));
                }
            }
            match r {
                None => {
                    assert forall|id: usize|
                        left.union(right).contains(id) && #[trigger] p.spec_hit(id, all) is Some implies hl.1
                        <= p.spec_hit(id, all)->Some_0 by {
                        if right.contains(id) && p.spec_hit(id, all)->Some_0 < hl.1 {
                            assert(p.spec_hit(id, part) == p.spec_hit(id, all));
                            assert(p.spec_hit(id, part) is None);
                        }
                    }
                },
                Some(hr) => {
                    assert(p.spec_hit(hr.0, part) is Some);
                    assert(hr.1 < hl.1);
                    assert(p.spec_hit(hr.0, all) is Some);
                    assert(p.spec_hit(hr.0, all)->Some_0 <= hr.1);
                    assert(p.spec_hit(hr.0, part) == p.spec_hit(hr.0, all));
                    assert forall|id: usize|
                        left.union(right).contains(id) && #[trigger] p.spec_hit(id, all) is Some implies hr.1
                        <= p.spec_hit(id, all)->Some_0 by {
                        if left.contains(id) {
                            assert(hl.1 <= p.spec_hit(id, all)->Some_0);
                        } else if p.spec_hit(id, all)->Some_0 < hl.1 {
                            assert(p.spec_hit(id, part) == p.spec_hit(id, all));
                        }
                    }
                },
            }
        },
    }
}


/// The scan over the first `k` objects finds the nearest hit among them,
/// for a probe that answers as a nearest-point search.
pub proof fn lemma_scan_nearest<P: RayProbe>(p: P, k: nat, start: i64, end: i64)
    requires
        probe_consistent(p, Set::new(|id: usize| id < k)),
    ensures
        nearest_among(p, Set::new(|id: usize| id < k), start, end, scan_hits(p, k, start, end)),
    decreases k,
{
    if k > 0 {
        let before = Set::new(|id: usize| id < k - 1);
        let this = set![(k - 1) as usize];
        assert(Set::new(|id: usize| id < k) =~= before.union(this));
        assert(probe_consistent(p, before));
        lemma_scan_nearest(p, (k - 1) as nat, start, end);
        let prev = scan_hits(p, (k - 1) as nat, start, end);
        let id = (k - 1) as usize;
        let upper = closest(prev, end);
        let all = Range { start, end };
        let part = Range { start, end: upper };
        match p.spec_hit(id, part) {
            Some(t) => {
                assert(t < upper);
                assert(p.spec_hit(id, all) is Some);
                assert(p.spec_hit(id, part) == p.spec_hit(id, all));
            },
            None => {
                if p.spec_hit(id, all) is Some {
                    if p.spec_hit(id, all)->Some_0 < upper {
                        assert(p.spec_hit(id, part) == p.spec_hit(id, all));
                    }
                }
            },
        }
        lemma_nearer_of_sides(p, before, this, start, end, prev, match p.spec_hit(id, part) {
            Some(t) => Some((id, t)),
            None => None,
        });
    }
}


/// The list's scan reports the nearest hit among all its objects, for a probe
/// that answers as a nearest-point search.
pub proof fn lemma_list_hit_nearest<P: RayProbe>(p: P, list: HittableList, start: i64, end: i64)
    requires
        probe_consistent(p, Set::new(|id: usize| id < list.boxes().len())),
    ensures
        nearest_among(
            p,
            Set::new(|id: usize| id < list.boxes().len()),
            start,
            end,
            scan_hits(p, list.boxes().len(), start, end),
        ),
{
    lemma_scan_nearest(p, list.boxes().len(), start, end);
}

} // verus!
