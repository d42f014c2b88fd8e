use rtw::interval::{Interval, IntervalExtend, New, Pad};
use rtw::RtwError;

#[test]
fn new_orders_its_bounds() {
    let a = <Interval as New<i64>>::new(7, -3).unwrap();
    let b = <Interval as New<i64>>::new(-3, 7).unwrap();
    assert_eq!(a, b);
    assert_eq!(a, -3..7);
}

#[test]
fn new_refuses_equal_bounds() {
    assert_eq!(<Interval as New<i64>>::new(4, 4), Err(RtwError::InvalidInterval));
}

#[test]
fn from_ranges_covers_both() {
    let a: Interval = 2..5;
    let b: Interval = -1..3;
    assert_eq!(<Interval as IntervalExtend<i64>>::from_ranges(&a, &b), -1..5);
    assert_eq!(<Interval as IntervalExtend<i64>>::from_ranges(&a, &a), 2..5);
    let m = <Interval as IntervalExtend<i64>>::from_ranges(&a, &b);
    for x in -1..5 {
        assert!(a.contains(&x) || b.contains(&x) || !m.contains(&x));
        if a.contains(&x) || b.contains(&x) {
            assert!(m.contains(&x));
        }
    }
}

#[test]
fn pad_widens_both_ends() {
    let a: Interval = 2..5;
    assert_eq!(a.pad(3), -1..8);
    assert_eq!(a.pad(0), 2..5);
}
