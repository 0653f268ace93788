use pleep::score::{
    bits_greater, bits_is_finite, bits_is_nan, bits_minimum, INFINITY_BITS, SIGN_BIT, ZERO_BITS,
};

fn samples() -> Vec<f32> {
    vec![
        0.0,
        -0.0,
        f32::from_bits(1),
        -f32::from_bits(1),
        f32::MIN_POSITIVE,
        1.0,
        -1.0,
        1.5,
        10.0,
        -10.0,
        f32::MAX,
        f32::MIN,
        f32::INFINITY,
        f32::NEG_INFINITY,
        f32::NAN,
        f32::from_bits(0x7F80_0001),
        f32::from_bits(0xFFC0_0000),
        f32::from_bits(0xFFFF_FFFF),
    ]
}

#[test]
fn constants_are_the_bit_patterns() {
    assert_eq!(INFINITY_BITS, f32::INFINITY.to_bits());
    assert_eq!(ZERO_BITS, 0.0f32.to_bits());
    assert_eq!(SIGN_BIT, (-0.0f32).to_bits());
}

#[test]
fn nan_and_finite_follow_the_values() {
    for value in samples() {
        assert_eq!(bits_is_nan(value.to_bits()), value.is_nan(), "{value:?}");
        assert_eq!(bits_is_finite(value.to_bits()), value.is_finite(), "{value:?}");
    }
}

#[test]
fn greater_follows_the_values() {
    for a in samples() {
        for b in samples() {
            assert_eq!(bits_greater(a.to_bits(), b.to_bits()), a > b, "{a:?} > {b:?}");
        }
    }
}

#[test]
fn minimum_follows_the_values() {
    for a in samples() {
        for b in samples() {
            let least = f32::from_bits(bits_minimum(a.to_bits(), b.to_bits()));
            let expected = a.min(b);
            if expected.is_nan() {
                assert!(least.is_nan());
            } else {
                assert_eq!(least, expected, "min({a:?}, {b:?})");
            }
        }
    }
}

#[test]
fn minimum_does_not_depend_on_the_order() {
    for a in samples() {
        for b in samples() {
            assert_eq!(
                bits_minimum(a.to_bits(), b.to_bits()),
                bits_minimum(b.to_bits(), a.to_bits())
            );
            for c in samples() {
                let (a, b, c) = (a.to_bits(), b.to_bits(), c.to_bits());
                assert_eq!(
                    bits_minimum(bits_minimum(a, b), c),
                    bits_minimum(a, bits_minimum(b, c))
                );
            }
        }
    }
}

#[test]
fn minimum_of_the_two_zeros_is_positive_zero() {
    assert_eq!(bits_minimum(SIGN_BIT, ZERO_BITS), ZERO_BITS);
    assert_eq!(bits_minimum(ZERO_BITS, SIGN_BIT), ZERO_BITS);
}

#[test]
fn minimum_ignores_nan() {
    let nan = f32::NAN.to_bits();
    assert_eq!(bits_minimum(nan, 3.0f32.to_bits()), 3.0f32.to_bits());
    assert_eq!(bits_minimum(INFINITY_BITS, nan), INFINITY_BITS);
}
