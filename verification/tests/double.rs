use ggca::double::{
    abs_at_least, abs_bits, is_nan_bits, min_with_one, order_key_of, ONE_BITS, ZERO_BITS,
};

#[test]
fn constants_are_the_patterns_of_one_and_zero() {
    assert_eq!(ONE_BITS, 1.0f64.to_bits());
    assert_eq!(ZERO_BITS, 0.0f64.to_bits());
}

#[test]
fn abs_at_least_agrees_with_the_comparison_of_doubles() {
    let values = [
        0.0,
        -0.0,
        1.0,
        -1.0,
        0.5,
        -0.5,
        0.7,
        1e-310,
        -1e-310,
        f64::MAX,
        f64::MIN,
        f64::INFINITY,
        f64::NEG_INFINITY,
        f64::NAN,
        -f64::NAN,
    ];
    for value in values {
        for threshold in values {
            assert_eq!(
                abs_at_least(value.to_bits(), threshold.to_bits()),
                value.abs() >= threshold,
                "|{}| >= {}",
                value,
                threshold
            );
        }
    }
}

#[test]
fn abs_and_nan_agree_with_doubles() {
    for value in [0.0, -0.0, 2.5, -2.5, f64::INFINITY, f64::NEG_INFINITY, f64::NAN, -f64::NAN] {
        assert_eq!(abs_bits(value.to_bits()), value.abs().to_bits());
        assert_eq!(is_nan_bits(value.to_bits()), value.is_nan());
    }
}

#[test]
fn min_with_one_limits_to_one() {
    assert_eq!(min_with_one(0.25f64.to_bits()), 0.25f64.to_bits());
    assert_eq!(min_with_one(1.0f64.to_bits()), 1.0f64.to_bits());
    assert_eq!(min_with_one(1.0000001f64.to_bits()), 1.0f64.to_bits());
    assert_eq!(min_with_one(f64::INFINITY.to_bits()), 1.0f64.to_bits());
    assert_eq!(min_with_one(f64::NAN.to_bits()), 1.0f64.to_bits());
    assert_eq!(min_with_one(0.0f64.to_bits()), 0.0f64.to_bits());
    assert_eq!(min_with_one((-0.0f64).to_bits()), 0.0f64.to_bits());
    assert_eq!(min_with_one((-0.5f64).to_bits()), 0.0f64.to_bits());
    assert_eq!(min_with_one(f64::NEG_INFINITY.to_bits()), 0.0f64.to_bits());
    assert_eq!(min_with_one((-f64::NAN).to_bits()), 1.0f64.to_bits());
    assert_eq!(min_with_one(1e-320f64.to_bits()), 1e-320f64.to_bits());
}

#[test]
fn order_keys_follow_the_numbers() {
    let values = [
        f64::NEG_INFINITY,
        f64::MIN,
        -1.0,
        -1e-310,
        -0.0,
        0.0,
        1e-310,
        0.5,
        1.0,
        f64::MAX,
        f64::INFINITY,
        f64::NAN,
    ];
    for pair in values.windows(2) {
        assert!(order_key_of(pair[0].to_bits()) < order_key_of(pair[1].to_bits()));
    }
    for a in values {
        for b in values {
            if a < b {
                assert!(order_key_of(a.to_bits()) < order_key_of(b.to_bits()));
            }
        }
    }
    assert_eq!(order_key_of(0), 0x8000_0000_0000_0000);
    assert_eq!(order_key_of(0x8000_0000_0000_0000), 0x7FFF_FFFF_FFFF_FFFF);
}
