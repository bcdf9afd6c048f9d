use agg_ticker::number::{Double, INFINITY_BITS, SIGN_BIT};

fn num(x: f64) -> Double {
    Double::from_bits(x.to_bits())
}

fn samples() -> Vec<f64> {
    vec![
        f64::NEG_INFINITY,
        f64::MIN,
        -1.0e300,
        -68000.0,
        -105.0,
        -1.005,
        -1.0,
        -0.5,
        -f64::MIN_POSITIVE,
        -5e-324,
        -0.0,
        0.0,
        5e-324,
        f64::MIN_POSITIVE,
        0.5,
        1.0,
        1.005,
        98.0,
        100.0,
        105.0,
        108.0,
        110.0,
        112.0,
        68000.0,
        1.0e300,
        f64::MAX,
        f64::INFINITY,
    ]
}

#[test]
fn bits_round_trip() {
    for x in samples() {
        let d = num(x);
        assert_eq!(d.to_bits(), x.to_bits());
        assert_eq!(f64::from_bits(d.to_bits()).to_bits(), x.to_bits());
        assert_eq!(d, Double { bits: x.to_bits() });
    }
}

#[test]
fn below_agrees_with_the_numeric_order() {
    let all = samples();
    for &a in &all {
        for &b in &all {
            assert_eq!(num(a).below(num(b)), a < b, "{} < {}", a, b);
            assert_eq!(num(a).order_key() == num(b).order_key(), a == b, "{} == {}", a, b);
        }
    }
}

#[test]
fn order_key_of_chosen_numbers() {
    assert_eq!(num(0.0).order_key(), 0);
    assert_eq!(num(-0.0).order_key(), 0);
    assert_eq!(num(1.0).order_key(), 0x3ff0_0000_0000_0000);
    assert_eq!(num(-1.0).order_key(), -0x3ff0_0000_0000_0000);
    assert_eq!(num(f64::INFINITY).order_key(), 0x7ff0_0000_0000_0000);
    assert_eq!(num(f64::NEG_INFINITY).order_key(), -0x7ff0_0000_0000_0000);
    assert_eq!(Double::from_bits(u64::MAX).order_key(), -0x7fff_ffff_ffff_ffff);
    assert_eq!(Double::from_bits(SIGN_BIT - 1).order_key(), 0x7fff_ffff_ffff_ffff);
}

#[test]
fn abs_bits_clears_the_sign() {
    assert_eq!(num(-1.0).abs_bits(), 1.0f64.to_bits());
    assert_eq!(num(1.0).abs_bits(), 1.0f64.to_bits());
    assert_eq!(num(-0.0).abs_bits(), 0);
    assert_eq!(Double::from_bits(u64::MAX).abs_bits(), SIGN_BIT - 1);
    assert_eq!(num(f64::NEG_INFINITY).abs_bits(), INFINITY_BITS);
}

#[test]
fn nan_is_told_from_numbers() {
    for x in samples() {
        assert!(!num(x).is_nan(), "{}", x);
        assert_eq!(num(x).is_finite(), x.is_finite(), "{}", x);
    }
    assert!(num(f64::NAN).is_nan());
    assert!(num(-f64::NAN).is_nan());
    assert!(!num(f64::NAN).is_finite());
    assert!(Double::from_bits(INFINITY_BITS + 1).is_nan());
    assert!(Double::from_bits(SIGN_BIT + INFINITY_BITS + 1).is_nan());
    assert!(Double::from_bits(u64::MAX).is_nan());
    assert!(!Double::from_bits(INFINITY_BITS).is_nan());
    assert!(!Double::from_bits(INFINITY_BITS).is_finite());
    assert!(Double::from_bits(INFINITY_BITS - 1).is_finite());
}

#[test]
fn zero_is_positive_zero() {
    assert_eq!(Double::zero().to_bits(), 0.0f64.to_bits());
    assert_eq!(f64::from_bits(Double::zero().to_bits()), 0.0);
    assert!(Double::zero().is_finite());
}

#[test]
fn the_sign_bit_is_read() {
    assert!(num(-1.0).is_negative());
    assert!(num(-0.0).is_negative());
    assert!(num(f64::NEG_INFINITY).is_negative());
    assert!(!num(0.0).is_negative());
    assert!(!num(1.0).is_negative());
    assert!(!num(f64::NAN).is_negative());
    assert!(Double::from_bits(u64::MAX).is_negative());
}

#[test]
fn a_finite_number_is_significand_times_power_of_two() {
    assert_eq!(num(1.0).decompose(), (1u64 << 52, -52));
    assert_eq!(num(-1.0).decompose(), (1u64 << 52, -52));
    assert_eq!(num(0.0).decompose(), (0, -1074));
    assert_eq!(num(5e-324).decompose(), (1, -1074));
    assert_eq!(num(f64::MIN_POSITIVE).decompose(), (1u64 << 52, -1074));
    assert_eq!(num(f64::MAX).decompose(), ((1u64 << 53) - 1, 971));
    assert_eq!(num(9007199254740992.0).decompose(), (1u64 << 52, 1));
    assert_eq!(num(68000.0).decompose(), (68000u64 << 36, -36));
    for x in samples() {
        if x.is_finite() {
            let (m, e) = num(x).decompose();
            let half = e / 2;
            assert_eq!((m as f64) * 2f64.powi(half) * 2f64.powi(e - half), x.abs(), "{}", x);
        }
    }
}
