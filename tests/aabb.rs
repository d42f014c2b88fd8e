use rtw::aabb::{Aabb, Axis, Point3, SlabCrossings};
use rtw::RtwError;

fn sample() -> Aabb {
    Aabb::new(0..4, -2..2, 10..20)
}

#[test]
fn from_points_orders_each_axis() {
    let b = Aabb::from_points(Point3 { x: 4, y: 2, z: 10 }, Point3 { x: 0, y: -2, z: 20 }).unwrap();
    assert_eq!(b, sample());
}

#[test]
fn from_points_refuses_a_flat_box() {
    let r = Aabb::from_points(Point3 { x: 1, y: 2, z: 3 }, Point3 { x: 5, y: 2, z: 9 });
    assert_eq!(r, Err(RtwError::InvalidInterval));
}

#[test]
fn merge_with_itself_is_identity() {
    let b = sample();
    assert_eq!(Aabb::from_aabbs(&b, &b), b);
}

#[test]
fn merge_covers_both_boxes() {
    let a = sample();
    let b = Aabb::new(-5..1, 0..7, 12..30);
    let m = Aabb::from_aabbs(&a, &b);
    assert_eq!(m, Aabb::new(-5..4, -2..7, 10..30));
    for axis in [Axis::X, Axis::Y, Axis::Z] {
        for x in -10..40 {
            if a.interval(axis).contains(&x) || b.interval(axis).contains(&x) {
                assert!(m.interval(axis).contains(&x));
            }
        }
    }
}

#[test]
fn interval_selects_the_axis() {
    let b = sample();
    assert_eq!(b.interval(Axis::X), 0..4);
    assert_eq!(b.interval(Axis::Y), -2..2);
    assert_eq!(b.interval(Axis::Z), 10..20);
}

#[test]
fn default_box_is_empty_and_merges_away() {
    let empty = Aabb::default();
    assert_eq!(empty, Aabb::new(i64::MAX..i64::MIN, i64::MAX..i64::MIN, i64::MAX..i64::MIN));
    for axis in [Axis::X, Axis::Y, Axis::Z] {
        assert!(!empty.interval(axis).contains(&0));
    }
    assert_eq!(Aabb::from_aabbs(&empty, &sample()), sample());
    assert_eq!(Aabb::from_aabbs(&sample(), &empty), sample());
}

#[test]
fn slab_test_clips_to_every_axis() {
    let c = SlabCrossings { x: (5, 1), y: (0, 10), z: (2, 8) };
    assert_eq!(Aabb::hit(&c, 0..100), Some(2..5));
    assert_eq!(Aabb::hit(&c, 3..4), Some(3..4));
}

#[test]
fn slab_test_reports_a_miss() {
    let c = SlabCrossings { x: (0, 3), y: (4, 9), z: (0, 10) };
    assert_eq!(Aabb::hit(&c, 0..100), None);
    let inside = SlabCrossings { x: (0, 10), y: (0, 10), z: (0, 10) };
    assert_eq!(Aabb::hit(&inside, 20..30), None);
    assert_eq!(Aabb::hit(&inside, 5..5), None);
}

#[test]
fn random_axis_takes_every_axis() {
    let mut seen = [false; 3];
    for _ in 0..300 {
        match Axis::random() {
            Axis::X => seen[0] = true,
            Axis::Y => seen[1] = true,
            Axis::Z => seen[2] = true,
        }
    }
    assert_eq!(seen, [true, true, true]);
}
