//! A bounding-volume hierarchy over a world's objects: a binary tree whose
//! leaves name objects and whose every node holds the box that covers its two
//! children. It is built by median splits along randomly chosen axes.
use crate::aabb::{clipped, merged_box, Aabb, Axis};
use crate::hittable::{
    closest, lemma_nearer_of_sides, lemma_scan_nearest, nearer, nearest_among, probe_consistent,
    scan_hits, HittableList, RayProbe,
};
use crate::interval::Interval;
use std::ops::Range;
use vstd::prelude::*;

verus! {

/// The key by which objects are ordered along an axis: where the object's
/// box starts on it.
pub open spec fn sort_key(boxes: Seq<Aabb>, axis: Axis, id: usize) -> i64 {
    boxes[id as int].axis(axis).start
}

/// The objects named in `order[start..end]`.
pub open spec fn ids_in(order: Seq<usize>, start: int, end: int) -> Set<usize> {
    Set::new(|id: usize| exists|k: int| start <= k < end && order[k] == id)
}

/// Whether every id in `order[start..end]` names an object.
pub open spec fn ids_valid(order: Seq<usize>, start: int, end: int, n: int) -> bool {
    forall|k: int| start <= k < end ==> order[k] < n
}

/// Whether `order[start..end]` is ordered by the key along `axis`.
pub open spec fn sorted_by_key(
    boxes: Seq<Aabb>,
    axis: Axis,
    order: Seq<usize>,
    start: int,
    end: int,
) -> bool {
    forall|a: int, b: int|
        start <= a < b < end ==> #[trigger] sort_key(boxes, axis, order[a]) <= #[trigger] sort_key(
            boxes,
            axis,
            order[b],
        )
}

/// Whether every object of `left` starts no later along `axis` than every
/// object of `right`.
pub open spec fn split_along(boxes: Seq<Aabb>, axis: Axis, left: Set<usize>, right: Set<usize>) -> bool {
    forall|l: usize, r: usize|
        left.contains(l) && right.contains(r) ==> #[trigger] sort_key(boxes, axis, l) <= #[trigger] sort_key(
            boxes,
            axis,
            r,
        )
}

/// Exchanging two entries inside a range keeps the ids that it holds.
proof fn lemma_swap_keeps_ids(s: Seq<usize>, t: Seq<usize>, i: int, j: int, start: int, end: int)
    requires
        start <= i < end,
        start <= j < end,
        s.len() == t.len(),
        0 <= start <= end <= s.len(),
        t[i] == s[j],
        t[j] == s[i],
        forall|k: int| 0 <= k < s.len() && k != i && k != j ==> t[k] == s[k],
    ensures
        ids_in(t, start, end) == ids_in(s, start, end),
{
    assert forall|id: usize| ids_in(s, start, end).contains(id) implies ids_in(
        t,
        start,
        end,
    ).contains(id) by {
        let k = choose|k: int| start <= k < end && s[k] == id;
        if k == i {
            assert(t[j] == id);
        } else if k == j {
            assert(t[i] == id);
        } else {
            assert(t[k] == id);
        }
    }
    assert forall|id: usize| ids_in(t, start, end).contains(id) implies ids_in(
        s,
        start,
        end,
    ).contains(id) by {
        let k = choose|k: int| start <= k < end && t[k] == id;
        if k == i {
            assert(s[j] == id);
        } else if k == j {
            assert(s[i] == id);
        } else {
            assert(s[k] == id);
        }
    }
    assert(ids_in(t, start, end) =~= ids_in(s, start, end));
}

/// Exchanging two entries inside a range keeps what the range holds, counted
/// with repetition.
proof fn lemma_swap_keeps_span(s: Seq<usize>, t: Seq<usize>, i: int, j: int, start: int, end: int)
    requires
        start <= i < end,
        start <= j < end,
        i != j,
        s.len() == t.len(),
        0 <= start <= end <= s.len(),
        t[i] == s[j],
        t[j] == s[i],
        forall|k: int| 0 <= k < s.len() && k != i && k != j ==> t[k] == s[k],
    ensures
        t.subrange(start, end).to_multiset() == s.subrange(start, end).to_multiset(),
{
    broadcast use vstd::seq_lib::to_multiset_update, vstd::seq_lib::to_multiset_contains;
    broadcast use vstd::multiset::group_multiset_axioms;

    let a = s.subrange(start, end);
    let a1 = a.update(i - start, s[j]);
    let a2 = a1.update(j - start, s[i]);
    assert(t.subrange(start, end) =~= a2);
    assert(a.contains(s[i])) by {
        assert(a[i - start] == s[i]);
    }
    assert(a1.contains(s[j])) by {
        assert(a1[i - start] == s[j]);
    }
    assert(a2.to_multiset() =~= a.to_multiset());
}

/// What a range holds, counted with repetition, is what its two halves hold.
proof fn lemma_span_split(s: Seq<usize>, start: int, mid: int, end: int)
    requires
        0 <= start <= mid <= end <= s.len(),
    ensures
        s.subrange(start, end).to_multiset() == s.subrange(start, mid).to_multiset().add(
            s.subrange(mid, end).to_multiset(),
        ),
{
    assert(s.subrange(start, end) =~= s.subrange(start, mid) + s.subrange(mid, end));
    vstd::seq_lib::lemma_multiset_commutative(s.subrange(start, mid), s.subrange(mid, end));
}

fn key_at(boxes: &Vec<Aabb>, axis: Axis, id: usize) -> (r: i64)
    requires
        id < boxes@.len(),
    ensures
        r == sort_key(boxes@, axis, id),
{
    match axis {
        Axis::X => boxes[id].x.start,
        Axis::Y => boxes[id].y.start,
        Axis::Z => boxes[id].z.start,
    }
}

/// Orders `order[start..end]` by where each object's box starts along
/// `axis`; what stands outside the range is left alone.
fn sort_range(boxes: &Vec<Aabb>, axis: Axis, order: &mut Vec<usize>, start: usize, end: usize)
    requires
        start <= end <= old(order)@.len(),
        ids_valid(old(order)@, start as int, end as int, boxes@.len() as int),
    ensures
        final(order)@.len() == old(order)@.len(),
        forall|k: int|
            0 <= k < old(order)@.len() && !(start <= k < end) ==> final(order)@[k] == old(
                order,
            )@[k],
        ids_in(final(order)@, start as int, end as int) == ids_in(
            old(order)@,
            start as int,
            end as int,
        ),
        ids_valid(final(order)@, start as int, end as int, boxes@.len() as int),
        sorted_by_key(boxes@, axis, final(order)@, start as int, end as int),
        final(order)@.subrange(start as int, end as int).to_multiset() == old(
            order,
        )@.subrange(start as int, end as int).to_multiset(),
{
    if end - start < 2 {
        return;
    }
    let ghost initial = order@;
    let mut i: usize = start + 1;
    while i < end
        invariant
            start < i <= end,
            end <= order@.len(),
            order@.len() == initial.len(),
            forall|k: int|
                0 <= k < initial.len() && !(start <= k < end) ==> order@[k] == initial[k],
            ids_in(order@, start as int, end as int) == ids_in(initial, start as int, end as int),
            order@.subrange(start as int, end as int).to_multiset() == initial.subrange(
                start as int,
                end as int,
            ).to_multiset(),
            ids_valid(order@, start as int, end as int, boxes@.len() as int),
            sorted_by_key(boxes@, axis, order@, start as int, i as int),
        decreases end - i,
    {
        let mut j: usize = i;
        while j > start && key_at(boxes, axis, order[j - 1]) > key_at(boxes, axis, order[j])
            invariant
                start <= j <= i < end,
                end <= order@.len(),
                order@.len() == initial.len(),
                forall|k: int|
                    0 <= k < initial.len() && !(start <= k < end) ==> order@[k] == initial[k],
                ids_in(order@, start as int, end as int) == ids_in(
                    initial,
                    start as int,
                    end as int,
                ),
                order@.subrange(start as int, end as int).to_multiset() == initial.subrange(
                    start as int,
                    end as int,
                ).to_multiset(),
                ids_valid(order@, start as int, end as int, boxes@.len() as int),
                sorted_by_key(boxes@, axis, order@, start as int, j as int),
                sorted_by_key(boxes@, axis, order@, j as int, i + 1),
                forall|a: int, b: int|
                    start <= a < j < b <= i ==> #[trigger] sort_key(boxes@, axis, order@[a])
                        <= #[trigger] sort_key(boxes@, axis, order@[b]),
            decreases j,
        {
            let ghost before = order@;
            let moving = order[j];
            let passed = order[j - 1];
            order[j] = passed;
            order[j - 1] = moving;
            proof {
                lemma_swap_keeps_ids(
                    before,
                    order@,
                    j - 1,
                    j as int,
                    start as int,
                    end as int,
                );
                lemma_swap_keeps_span(
                    before,
                    order@,
                    j - 1,
                    j as int,
                    start as int,
                    end as int,
                );
                assert forall|a: int, b: int|
                    j - 1 <= a < b < i + 1 implies #[trigger] sort_key(boxes@, axis, order@[a])
                    <= #[trigger] sort_key(boxes@, axis, order@[b]) by {
                    if a == j - 1 && b > j {
                        assert(sort_key(boxes@, axis, before[j as int]) <= sort_key(
                            boxes@,
                            axis,
                            before[b],
                        ));
                    } else if a == j && b > j {
                        assert(sort_key(boxes@, axis, before[j - 1]) <= sort_key(
                            boxes@,
                            axis,
                            before[b],
                        ));
                    }
                }
                assert forall|a: int, b: int|
                    start <= a < j - 1 < b <= i implies #[trigger] sort_key(
                        boxes@,
                        axis,
                        order@[a],
                    ) <= #[trigger] sort_key(boxes@, axis, order@[b]) by {
                    if b == j {
                        assert(sort_key(boxes@, axis, before[a]) <= sort_key(
                            boxes@,
                            axis,
                            before[j - 1],
                        ));
                    } else if b > j {
                        assert(sort_key(boxes@, axis, before[a]) <= sort_key(
                            boxes@,
                            axis,
                            before[b],
                        ));
                    }
                }
            }
            j = j - 1;
        }
        proof {
            assert forall|a: int, b: int|
                start <= a < b < i + 1 implies #[trigger] sort_key(boxes@, axis, order@[a])
                <= #[trigger] sort_key(boxes@, axis, order@[b]) by {
                if a < j && b == j {
                    assert(sort_key(boxes@, axis, order@[a]) <= sort_key(
                        boxes@,
                        axis,
                        order@[j - 1],
                    ));
                }
            }
        }
        i = i + 1;
    }
}


/// One side of a node: an object of the world, or a subtree.
#[derive(Debug)]
pub enum BvhChild {
    Object(usize),
    Node(Box<BvhNode>),
}

/// A node of the hierarchy. A node over a single object names it on both
/// sides, so that every node has two children.
#[derive(Debug)]
pub struct BvhNode {
    pub left: BvhChild,
    pub right: BvhChild,
    pub bbox: Aabb,
}

/// The objects below a child.
pub open spec fn child_ids(c: BvhChild) -> Set<usize>
    decreases c,
{
    match c {
        BvhChild::Object(id) => set![id],
        BvhChild::Node(n) => child_ids(n.left).union(child_ids(n.right)),
    }
}

/// The objects below a node.
pub open spec fn node_ids(n: BvhNode) -> Set<usize> {
    child_ids(n.left).union(child_ids(n.right))
}

/// The box of a child: its object's box, or the subtree's box.
pub open spec fn child_box(c: BvhChild, boxes: Seq<Aabb>) -> Aabb {
    match c {
        BvhChild::Object(id) => boxes[id as int],
        BvhChild::Node(n) => n.bbox,
    }
}

/// Whether every object below a child exists and every node below it holds
/// the merge of its children's boxes.
pub open spec fn child_wf(c: BvhChild, boxes: Seq<Aabb>) -> bool
    decreases c,
{
    match c {
        BvhChild::Object(id) => id < boxes.len(),
        BvhChild::Node(n) => child_wf(n.left, boxes) && child_wf(n.right, boxes) && n.bbox
            == merged_box(child_box(n.left, boxes), child_box(n.right, boxes)),
    }
}

/// The hit that the traversal of a child reports within `start..end`: an
/// object is asked directly; a node is skipped when the ray misses its box,
/// else its left side is searched over the whole interval and its right side
/// only before the left side's hit.
pub open spec fn child_hit<P: RayProbe>(p: P, c: BvhChild, start: i64, end: i64) -> Option<
    (usize, i64),
>
    decreases c,
{
    match c {
        BvhChild::Object(id) => match p.spec_hit(id, Range { start, end }) {
            Some(t) => Some((id, t)),
            None => None,
        },
        BvhChild::Node(n) => if clipped(p.spec_crossings(n.bbox), Range { start, end }) is None {
            None
        } else {
            let l = child_hit(p, n.left, start, end);
            let upper = match l {
                Some(h) => h.1,
                None => end,
            };
            nearer(l, child_hit(p, n.right, start, upper))
        },
    }
}

/// The hit that the traversal of a node reports.
pub open spec fn node_hit<P: RayProbe>(p: P, n: BvhNode, start: i64, end: i64) -> Option<
    (usize, i64),
> {
    if clipped(p.spec_crossings(n.bbox), Range { start, end }) is None {
        None
    } else {
        let l = child_hit(p, n.left, start, end);
        let upper = match l {
            Some(h) => h.1,
            None => end,
        };
        nearer(l, child_hit(p, n.right, start, upper))
    }
}

/// Whether a node is the tree that the build makes over `order[start..end]`:
/// one object is named on both sides; two objects are named one on each side,
/// in order; more are split at the midpoint of the range, each half under a
/// subtree built the same way. So each position of the range is one leaf (a
/// range of one gives two), and the depth grows with the logarithm of the
/// range's length.
pub open spec fn built_over(n: BvhNode, order: Seq<usize>, start: int, end: int) -> bool
    decreases end - start,
{
    if end - start <= 1 {
        n.left == BvhChild::Object(order[start]) && n.right == BvhChild::Object(order[start])
    } else if end - start == 2 {
        n.left == BvhChild::Object(order[start]) && n.right == BvhChild::Object(order[start + 1])
    } else {
        let mid = start + (end - start) / 2;
        match (n.left, n.right) {
            (BvhChild::Node(l), BvhChild::Node(r)) => built_over(*l, order, start, mid) && built_over(
                *r,
                order,
                mid,
                end,
            ),
            _ => false,
        }
    }
}

/// The tree built over a range depends only on what the range holds.
proof fn lemma_built_over_frame(n: BvhNode, s: Seq<usize>, t: Seq<usize>, start: int, end: int)
    requires
        built_over(n, s, start, end),
        0 <= start < end <= s.len(),
        s.len() == t.len(),
        forall|k: int| start <= k < end ==> s[k] == t[k],
    ensures
        built_over(n, t, start, end),
    decreases end - start,
{
    if end - start > 2 {
        let mid = start + (end - start) / 2;
        match (n.left, n.right) {
            (BvhChild::Node(l), BvhChild::Node(r)) => {
                lemma_built_over_frame(*l, s, t, start, mid);
                lemma_built_over_frame(*r, s, t, mid, end);
            },
            _ => {},
        }
    }
}

impl BvhChild {
    /// The nearest hit below the child within the interval.
    pub fn hit<P: RayProbe>(&self, probe: &P, interval: &Interval) -> (r: Option<(usize, i64)>)
        ensures
            r == child_hit(*probe, *self, interval.start, interval.end),
        decreases self,
    {
        match self {
            BvhChild::Object(id) => match probe.hit(*id, interval) {
                Some(t) => Some((*id, t)),
                None => None,
            },
            BvhChild::Node(n) => n.hit(probe, interval),
        }
    }
}

impl BvhNode {
    /// The nearest hit below the node within the interval: the object's
    /// index and the parameter. The ray is first tested against the node's
    /// box; the right side is only searched for hits before the left side's.
    pub fn hit<P: RayProbe>(&self, probe: &P, interval: &Interval) -> (r: Option<(usize, i64)>)
        ensures
            r == node_hit(*probe, *self, interval.start, interval.end),
        decreases self,
    {
        let crossings = probe.crossings(&self.bbox);
        if Aabb::hit(&crossings, interval.start..interval.end).is_none() {
            return None;
        }
        let hr_left = self.left.hit(probe, interval);
        let right_interval = match hr_left {
            Some(l) => interval.start..l.1,
            None => interval.start..interval.end,
        };
        let hr_right = self.right.hit(probe, &right_interval);
        match (hr_left, hr_right) {
            (Some(l), Some(r)) => if r.1 < l.1 {
                Some(r)
            } else {
                Some(l)
            },
            (Some(l), None) => Some(l),
            (None, Some(r)) => Some(r),
            (None, None) => None,
        }
    }

    /// Whether the node and everything below it is well formed over the
    /// objects' boxes.
    pub open spec fn wf(self, boxes: Seq<Aabb>) -> bool {
        child_wf(self.left, boxes) && child_wf(self.right, boxes) && self.bbox == merged_box(
            child_box(self.left, boxes),
            child_box(self.right, boxes),
        )
    }

    /// The objects below the node.
    pub open spec fn ids(self) -> Set<usize> {
        node_ids(self)
    }

    /// Builds the hierarchy over the objects named in `objects[start..end]`,
    /// reordering that range along a randomly chosen axis at each split.
    pub fn from_hittables(
        boxes: &Vec<Aabb>,
        objects: &mut Vec<usize>,
        start: usize,
        end: usize,
    ) -> (r: BvhNode)
        requires
            start < end <= old(objects)@.len(),
            ids_valid(old(objects)@, start as int, end as int, boxes@.len() as int),
        ensures
            r.wf(boxes@),
            r.ids() == ids_in(old(objects)@, start as int, end as int),
            final(objects)@.len() == old(objects)@.len(),
            forall|k: int|
                0 <= k < old(objects)@.len() && !(start <= k < end) ==> final(objects)@[k] == old(
                    objects,
                )@[k],
            ids_in(final(objects)@, start as int, end as int) == ids_in(
                old(objects)@,
                start as int,
                end as int,
            ),
            ids_valid(final(objects)@, start as int, end as int, boxes@.len() as int),
            end - start > 2 ==> exists|axis: Axis|
                split_along(boxes@, axis, child_ids(r.left), child_ids(r.right)),
            final(objects)@.subrange(start as int, end as int).to_multiset() == old(
                objects,
            )@.subrange(start as int, end as int).to_multiset(),
            built_over(r, final(objects)@, start as int, end as int),
        decreases end - start,
    {
        let axis = Axis::random();
        let object_span = end - start;
        if object_span == 1 {
            let id = objects[start];
            let bbox = Aabb::from_aabbs(&boxes[id], &boxes[id]);
            proof {
                assert(ids_in(objects@, start as int, end as int) =~= set![id]);
            }
            BvhNode { left: BvhChild::Object(id), right: BvhChild::Object(id), bbox }
        } else if object_span == 2 {
            let l = objects[start];
            let r = objects[start + 1];
            let bbox = Aabb::from_aabbs(&boxes[l], &boxes[r]);
            proof {
                assert(ids_in(objects@, start as int, end as int) =~= set![l].union(set![r])) by {
                    assert(objects@[start as int] == l);
                    assert(objects@[start + 1] == r);
                }
            }
            BvhNode { left: BvhChild::Object(l), right: BvhChild::Object(r), bbox }
        } else {
            sort_range(boxes, axis, objects, start, end);
            let ghost sorted = objects@;
            let mid = start + object_span / 2;
            let left = BvhNode::from_hittables(boxes, objects, start, mid);
            let ghost after_left = objects@;
            let right = BvhNode::from_hittables(boxes, objects, mid, end);
            let bbox = Aabb::from_aabbs(&left.bbox, &right.bbox);
            proof {
                lemma_ids_split(sorted, start as int, mid as int, end as int);
                lemma_ids_split(objects@, start as int, mid as int, end as int);
                lemma_ids_same_range(after_left, objects@, start as int, mid as int);
                lemma_ids_same_range(sorted, after_left, mid as int, end as int);
                lemma_span_split(sorted, start as int, mid as int, end as int);
                lemma_span_split(objects@, start as int, mid as int, end as int);
                assert(objects@.subrange(start as int, mid as int) =~= after_left.subrange(
                    start as int,
                    mid as int,
                ));
                assert(sorted.subrange(mid as int, end as int) =~= after_left.subrange(
                    mid as int,
                    end as int,
                ));
                lemma_built_over_frame(left, after_left, objects@, start as int, mid as int);
                assert forall|l: usize, r: usize|
                    ids_in(sorted, start as int, mid as int).contains(l) && ids_in(
                        sorted,
                        mid as int,
                        end as int,
                    ).contains(r) implies #[trigger] sort_key(boxes@, axis, l) <= #[trigger] sort_key(
                    boxes@,
                    axis,
                    r,
                ) by {
                    let a = choose|k: int| start <= k < mid && sorted[k] == l;
                    let b = choose|k: int| mid <= k < end && sorted[k] == r;
                    assert(sort_key(boxes@, axis, sorted[a]) <= sort_key(boxes@, axis, sorted[b]));
                }
                assert(split_along(
                    boxes@,
                    axis,
                    child_ids(BvhChild::Node(Box::new(left))),
                    child_ids(BvhChild::Node(Box::new(right))),
                ));
            }
            BvhNode {
                left: BvhChild::Node(Box::new(left)),
                right: BvhChild::Node(Box::new(right)),
                bbox,
            }
        }
    }

    /// Builds the hierarchy over every object of a non-empty list.
    pub fn from_list(list: &HittableList) -> (r: BvhNode)
        requires
            list.boxes().len() > 0,
        ensures
            r.wf(list.boxes()),
            r.ids() == Set::new(|id: usize| id < list.boxes().len()),
            exists|order: Seq<usize>|
                order.to_multiset() == Seq::new(list.boxes().len(), |i: int| i as usize).to_multiset()
                    && built_over(r, order, 0, list.boxes().len() as int),
    {
        let boxes = list.objects();
        let size = list.size();
        let mut objects: Vec<usize> = Vec::new();
        let mut i: usize = 0;
        while i < size
            invariant
                i <= size,
                size == boxes@.len(),
                objects@.len() == i,
                forall|k: int| 0 <= k < i ==> objects@[k] == k,
            decreases size - i,
        {
            objects.push(i);
            i = i + 1;
        }
        let ghost initial = objects@;
        proof {
            assert forall|id: usize| id < size implies #[trigger] ids_in(
                initial,
                0,
                size as int,
            ).contains(id) by {
                assert(initial[id as int] == id);
            }
            assert(ids_in(initial, 0, size as int) =~= Set::new(|id: usize| id < size));
        }
        let r = BvhNode::from_hittables(boxes, &mut objects, 0, size);
        proof {
            assert(objects@.subrange(0, size as int) =~= objects@);
            assert(initial.subrange(0, size as int) =~= initial);
            assert(initial =~= Seq::new(size as nat, |i: int| i as usize));
        }
        r
    }

    /// The box that covers every object below the node.
    pub fn bounding_box(&self) -> (r: Aabb)
        ensures
            r == self.bbox,
    {
        self.bbox.clone()
    }
}

/// The ids of a range are those of its two halves.
proof fn lemma_ids_split(order: Seq<usize>, start: int, mid: int, end: int)
    requires
        0 <= start <= mid <= end <= order.len(),
    ensures
        ids_in(order, start, end) == ids_in(order, start, mid).union(ids_in(order, mid, end)),
{
    assert(ids_in(order, start, end) =~= ids_in(order, start, mid).union(ids_in(order, mid, end)));
}

/// Two orders that agree on a range hold the same ids there.
proof fn lemma_ids_same_range(s: Seq<usize>, t: Seq<usize>, start: int, end: int)
    requires
        0 <= start <= end <= s.len(),
        s.len() == t.len(),
        forall|k: int| start <= k < end ==> s[k] == t[k],
    ensures
        ids_in(s, start, end) == ids_in(t, start, end),
{
    assert(ids_in(s, start, end) =~= ids_in(t, start, end));
}

/// Every node at or below a child has a box in which the ray is found
/// whenever it hits an object below that node.
pub open spec fn boxes_enclose<P: RayProbe>(p: P, c: BvhChild) -> bool
    decreases c,
{
    match c {
        BvhChild::Object(_) => true,
        BvhChild::Node(n) => boxes_enclose(p, n.left) && boxes_enclose(p, n.right) && forall|
            id: usize,
            i: Interval,
        |
            #![trigger child_ids(c).contains(id), p.spec_hit(id, i)]
            child_ids(c).contains(id) && p.spec_hit(id, i) is Some ==> clipped(
                p.spec_crossings(n.bbox),
                i,
            ) is Some,
    }
}

/// The traversal of a child finds the nearest hit among the objects below it,
/// for a probe that answers as a nearest-point search and whose box tests
/// find every hit below each node.
pub proof fn lemma_child_hit_nearest<P: RayProbe>(p: P, c: BvhChild, start: i64, end: i64)
    requires
        probe_consistent(p, child_ids(c)),
        boxes_enclose(p, c),
    ensures
        nearest_among(p, child_ids(c), start, end, child_hit(p, c, start, end)),
    decreases c,
{
    match c {
        BvhChild::Object(id) => {
            assert(child_ids(c) =~= set![id]);
        },
        BvhChild::Node(n) => {
            let all = Range { start, end };
            if clipped(p.spec_crossings(n.bbox), all) is None {
                assert forall|id: usize| child_ids(c).contains(id) implies #[trigger] p.spec_hit(
                    id,
                    all,
                ) is None by {
                    if p.spec_hit(id, all) is Some {
                        assert(clipped(p.spec_crossings(n.bbox), all) is Some);
                    }
                }
            } else {
                let l = child_hit(p, n.left, start, end);
                lemma_child_hit_nearest(p, n.left, start, end);
                lemma_child_hit_nearest(p, n.right, start, closest(l, end));
                lemma_nearer_of_sides(
                    p,
                    child_ids(n.left),
                    child_ids(n.right),
                    start,
                    end,
                    l,
                    child_hit(p, n.right, start, closest(l, end)),
                );
            }
        },
    }
}

/// The traversal of a node reports the nearest hit among the objects below
/// it, for a probe that answers as a nearest-point search and whose box tests
/// find every hit below each node.
pub proof fn lemma_bvh_hit_nearest<P: RayProbe>(p: P, bvh: BvhNode, start: i64, end: i64)
    requires
        probe_consistent(p, bvh.ids()),
        boxes_enclose(p, BvhChild::Node(Box::new(bvh))),
    ensures
        nearest_among(p, bvh.ids(), start, end, node_hit(p, bvh, start, end)),
{
    let c = BvhChild::Node(Box::new(bvh));
    assert(child_ids(c) == bvh.ids());
    lemma_child_hit_nearest(p, c, start, end);
    assert(child_hit(p, c, start, end) == node_hit(p, bvh, start, end));
}

/// The hierarchy changes how a hit is searched for, not what is found: over
/// the same objects, the traversal and the scan of the list report a hit at
/// the same parameter, or both report none. This holds for a probe that
/// answers as a nearest-point search and whose box tests find every hit
/// below each node.
pub proof fn lemma_bvh_matches_list<P: RayProbe>(
    p: P,
    list: HittableList,
    bvh: BvhNode,
    start: i64,
    end: i64,
)
    requires
        bvh.ids() == Set::new(|id: usize| id < list.boxes().len()),
        probe_consistent(p, bvh.ids()),
        boxes_enclose(p, BvhChild::Node(Box::new(bvh))),
    ensures
        node_hit(p, bvh, start, end) is None <==> scan_hits(
            p,
            list.boxes().len(),
            start,
            end,
        ) is None,
        node_hit(p, bvh, start, end) is Some ==> node_hit(p, bvh, start, end)->Some_0.1
            == scan_hits(p, list.boxes().len(), start, end)->Some_0.1,
{
    let c = BvhChild::Node(Box::new(bvh));
    assert(child_ids(c) == bvh.ids());
    lemma_child_hit_nearest(p, c, start, end);
    assert(child_hit(p, c, start, end) == node_hit(p, bvh, start, end));
    lemma_scan_nearest(p, list.boxes().len(), start, end);
    let a = node_hit(p, bvh, start, end);
    let b = scan_hits(p, list.boxes().len(), start, end);
    let all = Range { start, end };
    if a is Some && b is Some {
        assert(p.spec_hit(a->Some_0.0, all) is Some);
        assert(p.spec_hit(b->Some_0.0, all) is Some);
    } else if a is Some {
        assert(p.spec_hit(a->Some_0.0, all) is Some);
    } else if b is Some {
        assert(p.spec_hit(b->Some_0.0, all) is Some);
    }
}

} // verus!
