use wavelet_index::sample::{
    is_positive, is_significant, magnitude, INFINITY, NEGLIGIBLE, SIGN_BIT,
};

fn samples() -> Vec<f32> {
    vec![
        0.0,
        -0.0,
        1.0,
        -1.0,
        0.001,
        -0.001,
        0.0010001,
        -0.0010001,
        0.00099,
        1.0e-30,
        -1.0e-30,
        f32::MIN_POSITIVE,
        1.0e-45,
        3.5,
        -1234.5678,
        65535.9,
        1.0e20,
        f32::MAX,
        f32::MIN,
        f32::INFINITY,
        f32::NEG_INFINITY,
        f32::NAN,
        -f32::NAN,
    ]
}

#[test]
fn constants_are_the_patterns_they_name() {
    assert_eq!(SIGN_BIT, (-0.0f32).to_bits());
    assert_eq!(INFINITY, f32::INFINITY.to_bits());
    assert_eq!(NEGLIGIBLE, 0.001f32.to_bits());
}

#[test]
fn magnitude_is_the_pattern_of_the_absolute_value() {
    for x in samples() {
        assert_eq!(magnitude(x.to_bits()), x.abs().to_bits(), "{}", x);
    }
}

#[test]
fn magnitude_orders_numbers_by_absolute_value() {
    let all = samples();
    for &x in &all {
        for &y in &all {
            if x.is_nan() || y.is_nan() {
                continue;
            }
            assert_eq!(
                magnitude(x.to_bits()) < magnitude(y.to_bits()),
                x.abs() < y.abs(),
                "{} {}",
                x,
                y
            );
        }
    }
}

#[test]
fn is_positive_is_greater_than_zero() {
    for x in samples() {
        assert_eq!(is_positive(x.to_bits()), x > 0.0, "{}", x);
    }
}

#[test]
fn is_significant_is_above_a_thousandth() {
    for x in samples() {
        assert_eq!(is_significant(x.to_bits()), x.abs() > 0.001f32, "{}", x);
    }
}
