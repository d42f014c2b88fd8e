use rtw::keys::{coordinate_bits, coordinate_key};

#[test]
fn keys_follow_the_total_order() {
    let values = [
        f64::NEG_INFINITY,
        -1.0e300,
        -2.5,
        -1.0,
        -1.0e-300,
        -0.0,
        0.0,
        1.0e-300,
        0.001,
        1.0,
        2.5,
        1.0e300,
        f64::INFINITY,
    ];
    for a in values {
        for b in values {
            let ka = coordinate_key(a.to_bits());
            let kb = coordinate_key(b.to_bits());
            assert_eq!(ka.cmp(&kb), a.total_cmp(&b));
        }
    }
}

#[test]
fn keys_undo_without_loss() {
    for v in [f64::NEG_INFINITY, -3.75, -0.0, 0.0, 0.5, 1.0e10, f64::MAX] {
        let k = coordinate_key(v.to_bits());
        assert_eq!(f64::from_bits(coordinate_bits(k)).to_bits(), v.to_bits());
    }
    assert_eq!(coordinate_key(0.0f64.to_bits()), 0);
    assert_eq!(coordinate_key((-0.0f64).to_bits()), -1);
    assert_eq!(coordinate_bits(i64::MIN), u64::MAX);
}
