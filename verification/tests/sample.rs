use noise_cdf::sample::{is_nan, order_key, INFINITY_BITS, SIGN_BIT, ZERO_BITS};

fn numbers() -> Vec<f32> {
    vec![
        f32::NEG_INFINITY,
        f32::MIN,
        -1.0e10,
        -2.5,
        -1.0,
        -0.75,
        -f32::MIN_POSITIVE,
        -1.0e-45,
        -0.0,
        0.0,
        1.0e-45,
        f32::MIN_POSITIVE,
        0.1,
        0.5,
        0.9,
        1.0,
        1.0 + f32::EPSILON,
        3.0,
        1.0e10,
        f32::MAX,
        f32::INFINITY,
    ]
}

#[test]
fn keys_order_patterns_as_numbers() {
    let xs = numbers();
    for a in &xs {
        for b in &xs {
            let ka = order_key(a.to_bits());
            let kb = order_key(b.to_bits());
            assert_eq!(a < b, ka < kb, "{} < {}", a, b);
            assert_eq!(a == b, ka == kb, "{} == {}", a, b);
            assert_eq!(a > b, ka > kb, "{} > {}", a, b);
        }
    }
}

#[test]
fn both_zeros_have_key_zero() {
    assert_eq!(order_key(ZERO_BITS), 0);
    assert_eq!(order_key(SIGN_BIT), 0);
    assert_eq!(order_key((0.0f32).to_bits()), 0);
    assert_eq!(order_key((-0.0f32).to_bits()), 0);
}

#[test]
fn keys_of_known_patterns() {
    assert_eq!(order_key(1), 1);
    assert_eq!(order_key(SIGN_BIT + 1), -1);
    assert_eq!(order_key(1.0f32.to_bits()), 0x3f80_0000);
    assert_eq!(order_key((-1.0f32).to_bits()), -0x3f80_0000);
    assert_eq!(order_key(INFINITY_BITS), 0x7f80_0000);
    assert_eq!(order_key(f32::NEG_INFINITY.to_bits()), -0x7f80_0000);
    assert_eq!(order_key(0x7fff_ffff), i32::MAX);
    assert_eq!(order_key(0xffff_ffff), -i32::MAX);
}

#[test]
fn nan_patterns_are_recognised() {
    assert!(is_nan(f32::NAN.to_bits()));
    assert!(is_nan((-f32::NAN).to_bits()));
    assert!(is_nan(0x7f80_0001));
    assert!(is_nan(0xff80_0001));
    assert!(is_nan(0x7fff_ffff));
    assert!(is_nan(0xffff_ffff));
    assert!(!is_nan(INFINITY_BITS));
    assert!(!is_nan(f32::NEG_INFINITY.to_bits()));
    for x in numbers() {
        assert_eq!(is_nan(x.to_bits()), x.is_nan());
    }
}
