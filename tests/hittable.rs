use rtw::aabb::{Aabb, Axis, SlabCrossings};
use rtw::bvh::{BvhChild, BvhNode};
use rtw::hittable::{HittableList, RayProbe};
use rtw::interval::Interval;

/// Objects on a line, each hit at one parameter; every box is crossed over
/// the whole line.
struct LineProbe {
    hits: Vec<i64>,
}

impl RayProbe for LineProbe {
    fn spec_crossings(&self, bbox: Aabb) -> SlabCrossings {
        self.crossings(&bbox)
    }

    fn spec_hit(&self, id: usize, interval: Interval) -> Option<i64> {
        self.hit(id, &interval)
    }

    fn crossings(&self, _bbox: &Aabb) -> SlabCrossings {
        SlabCrossings { x: (i64::MIN, i64::MAX), y: (i64::MIN, i64::MAX), z: (i64::MIN, i64::MAX) }
    }

    fn hit(&self, id: usize, interval: &Interval) -> Option<i64> {
        let t = self.hits[id];
        if interval.contains(&t) { Some(t) } else { None }
    }
}

/// A probe whose every box test misses.
struct BlindProbe;

impl RayProbe for BlindProbe {
    fn spec_crossings(&self, bbox: Aabb) -> SlabCrossings {
        self.crossings(&bbox)
    }

    fn spec_hit(&self, id: usize, interval: Interval) -> Option<i64> {
        self.hit(id, &interval)
    }

    fn crossings(&self, _bbox: &Aabb) -> SlabCrossings {
        SlabCrossings { x: (0, 1), y: (5, 6), z: (0, 10) }
    }

    fn hit(&self, _id: usize, _interval: &Interval) -> Option<i64> {
        Some(0)
    }
}

fn world(n: i64) -> HittableList {
    let mut list = HittableList::new();
    for i in 0..n {
        let lo = 3 * i + 1;
        list.add(Aabb::new(lo..lo + 2, (10 - i)..(12 - i), 0..1));
    }
    list
}

fn leaves(c: &BvhChild, out: &mut Vec<usize>) {
    match c {
        BvhChild::Object(id) => out.push(*id),
        BvhChild::Node(n) => {
            leaves(&n.left, out);
            leaves(&n.right, out);
        }
    }
}

fn check_boxes(n: &BvhNode, boxes: &Vec<Aabb>) {
    let b = |c: &BvhChild| match c {
        BvhChild::Object(id) => boxes[*id].clone(),
        BvhChild::Node(m) => {
            check_boxes(m, boxes);
            m.bbox.clone()
        }
    };
    assert_eq!(n.bbox, Aabb::from_aabbs(&b(&n.left), &b(&n.right)));
}

#[test]
fn list_grows_its_box() {
    let list = world(3);
    assert_eq!(list.size(), 3);
    assert_eq!(list.bounding_box(), Aabb::new(1..9, 8..12, 0..1));
    assert_eq!(HittableList::new().bounding_box(), Aabb::default());
}

#[test]
fn bvh_covers_every_object_once_and_boxes_nest() {
    for n in 1..12 {
        let list = world(n);
        let bvh = BvhNode::from_list(&list);
        let mut ids = Vec::new();
        leaves(&bvh.left, &mut ids);
        leaves(&bvh.right, &mut ids);
        ids.sort();
        ids.dedup();
        assert_eq!(ids, (0..n as usize).collect::<Vec<_>>());
        check_boxes(&bvh, list.objects());
    }
}

#[test]
fn single_object_fills_both_sides() {
    let list = world(1);
    let bvh = BvhNode::from_list(&list);
    assert!(matches!(bvh.left, BvhChild::Object(0)));
    assert!(matches!(bvh.right, BvhChild::Object(0)));
    assert_eq!(bvh.bounding_box(), Aabb::new(1..3, 10..12, 0..1));
}

#[test]
fn list_reports_the_nearest_hit() {
    let list = world(4);
    let probe = LineProbe { hits: vec![40, 15, 30, 15] };
    assert_eq!(list.hit(&probe, &(0..100)), Some((1, 15)));
    assert_eq!(list.hit(&probe, &(20..100)), Some((2, 30)));
    assert_eq!(list.hit(&probe, &(0..10)), None);
}

#[test]
fn bvh_and_list_agree() {
    for n in 1..10 {
        let list = world(n);
        let bvh = BvhNode::from_list(&list);
        let hits: Vec<i64> = (0..n).map(|i| (i * 37 + 11) % 23).collect();
        let probe = LineProbe { hits };
        for (s, e) in [(0, 100), (5, 15), (12, 13), (30, 40), (0, 1)] {
            let a = bvh.hit(&probe, &(s..e)).map(|h| h.1);
            let b = list.hit(&probe, &(s..e)).map(|h| h.1);
            assert_eq!(a, b);
        }
    }
}

#[test]
fn bvh_skips_a_missed_box() {
    let list = world(5);
    let bvh = BvhNode::from_list(&list);
    assert_eq!(bvh.hit(&BlindProbe, &(0..100)), None);
}

fn keys_along(c: &BvhChild, boxes: &Vec<Aabb>, axis: Axis, out: &mut Vec<i64>) {
    let mut ids = Vec::new();
    leaves(c, &mut ids);
    for id in ids {
        out.push(boxes[id].interval(axis).start);
    }
}

#[test]
fn bvh_splits_at_the_median_along_an_axis() {
    for n in 3..12 {
        let list = world(n);
        let bvh = BvhNode::from_list(&list);
        let split = [Axis::X, Axis::Y, Axis::Z].into_iter().any(|axis| {
            let mut l = Vec::new();
            let mut r = Vec::new();
            keys_along(&bvh.left, list.objects(), axis, &mut l);
            keys_along(&bvh.right, list.objects(), axis, &mut r);
            l.iter().all(|a| r.iter().all(|b| a <= b))
        });
        assert!(split);
    }
}

fn depth(c: &BvhChild) -> usize {
    match c {
        BvhChild::Object(_) => 0,
        BvhChild::Node(n) => 1 + depth(&n.left).max(depth(&n.right)),
    }
}

/// The leaves of a node, where a node over one object (named on both sides)
/// counts it once.
fn leaves_once(n: &BvhNode, out: &mut Vec<usize>) {
    match (&n.left, &n.right) {
        (BvhChild::Object(a), BvhChild::Object(b)) if a == b => out.push(*a),
        _ => {
            for c in [&n.left, &n.right] {
                match c {
                    BvhChild::Object(id) => out.push(*id),
                    BvhChild::Node(m) => leaves_once(m, out),
                }
            }
        }
    }
}

#[test]
fn bvh_holds_each_object_once_and_stays_shallow() {
    for n in 2..40usize {
        let list = world(n as i64);
        let bvh = BvhNode::from_list(&list);
        let mut ids = Vec::new();
        leaves_once(&bvh, &mut ids);
        ids.sort();
        assert_eq!(ids, (0..n).collect::<Vec<_>>());
        let levels = 1 + depth(&bvh.left).max(depth(&bvh.right));
        let bound = (usize::BITS - (n - 1).leading_zeros()) as usize;
        assert!(levels <= bound.max(1));
    }
}
