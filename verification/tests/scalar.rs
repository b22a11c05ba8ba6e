use atri_elo_common::scalar::Scalar;

fn scalar(x: f64) -> Scalar {
    Scalar::from_bits(x.to_bits())
}

#[test]
fn bits_survive_the_round_trip() {
    for x in [0.0, -0.0, 1.0, -1.0, 1500.0, -10000.0, 8.163265306122448e-6, f64::MAX, f64::MIN,
        f64::MIN_POSITIVE, f64::INFINITY, f64::NEG_INFINITY]
    {
        assert_eq!(scalar(x).to_bits(), x.to_bits());
    }
    assert_eq!(Scalar::from_bits(u64::MAX).to_bits(), u64::MAX);
    assert_eq!(Scalar::from_bits(0x8000_0000_0000_0000).to_bits(), 0x8000_0000_0000_0000);
}

#[test]
fn keys_have_exact_values() {
    assert_eq!(scalar(0.0).key(), 0);
    assert_eq!(scalar(-0.0).key(), -1);
    assert_eq!(scalar(1.0).key(), 0x3FF0_0000_0000_0000);
    assert_eq!(scalar(-1.0).key(), -1 - 0x3FF0_0000_0000_0000);
    assert_eq!(Scalar::from_bits(u64::MAX).key(), i64::MIN);
    assert_eq!(Scalar::from_bits(0x7FFF_FFFF_FFFF_FFFF).key(), i64::MAX);
}

#[test]
fn keys_order_as_the_numbers_do() {
    let ascending = [f64::NEG_INFINITY, -10000.0, -1500.5, -1.0, -1e-300, 0.0, 1e-300, 0.5, 1.0,
        1499.999999, 1500.0, 1500.000001, 10000.0, f64::INFINITY];
    for pair in ascending.windows(2) {
        assert!(pair[0] < pair[1]);
        assert!(scalar(pair[0]).key() < scalar(pair[1]).key());
        assert!(scalar(pair[0]).lt(scalar(pair[1])));
        assert!(!scalar(pair[1]).lt(scalar(pair[0])));
    }
    assert!(!scalar(3.25).lt(scalar(3.25)));
    assert_eq!(scalar(3.25), scalar(3.25));
}
