use agg_ticker::decimal::nearest_to;
use agg_ticker::number::Double;
use agg_ticker::shortest::{json_number_of, push_json_number, push_written, shortest_decimal};

fn num(x: f64) -> Double {
    Double::from_bits(x.to_bits())
}

fn written(x: f64) -> String {
    json_number_of(num(x))
}

fn check(x: f64) {
    assert_eq!(written(x), serde_json::to_string(&x).unwrap(), "{:#x}", x.to_bits());
}

fn next(seed: &mut u64) -> u64 {
    *seed ^= *seed << 13;
    *seed ^= *seed >> 7;
    *seed ^= *seed << 17;
    *seed
}

#[test]
fn strikes_and_deltas_as_json_numbers() {
    assert_eq!(written(68000.0), "68000.0");
    assert_eq!(written(0.25), "0.25");
    assert_eq!(written(-0.625), "-0.625");
    assert_eq!(written(150.5), "150.5");
    assert_eq!(written(0.1), "0.1");
    assert_eq!(written(1.0), "1.0");
    assert_eq!(written(-1.0), "-1.0");
    assert_eq!(written(12345.5), "12345.5");
    assert_eq!(written(1.005), "1.005");
    assert_eq!(written(123456789.125), "123456789.125");
    assert_eq!(written(0.30000000000000004), "0.30000000000000004");
}

#[test]
fn zero_and_what_is_not_finite() {
    assert_eq!(written(0.0), "0.0");
    assert_eq!(written(-0.0), "-0.0");
    assert_eq!(written(f64::NAN), "null");
    assert_eq!(written(-f64::NAN), "null");
    assert_eq!(written(f64::INFINITY), "null");
    assert_eq!(written(f64::NEG_INFINITY), "null");
    for x in [0.0, -0.0, f64::NAN, f64::INFINITY, f64::NEG_INFINITY] {
        check(x);
    }
}

#[test]
fn numbers_are_written_plainly_from_five_places_behind_to_fifteen_before_the_point() {
    assert_eq!(written(1e15), "1000000000000000.0");
    assert_eq!(written(1e16), "1e+16");
    assert_eq!(written(9999999999999998.0), "9999999999999998.0");
    assert_eq!(written(1.2345e16), "1.2345e+16");
    assert_eq!(written(1e21), "1e+21");
    assert_eq!(written(1.5e300), "1.5e+300");
    assert_eq!(written(0.00001), "0.00001");
    assert_eq!(written(0.000012345), "0.000012345");
    assert_eq!(written(0.000001), "1e-6");
    assert_eq!(written(1.5e-7), "1.5e-7");
    assert_eq!(written(5e-324), "5e-324");
    assert_eq!(written(f64::MAX), "1.7976931348623157e+308");
    assert_eq!(written(f64::MIN_POSITIVE), "2.2250738585072014e-308");
    for x in [
        1e15, 1e16, 9999999999999998.0, 1.2345e16, 1e21, 1e22, 1e23, 1.5e300, 0.00001, 0.000012345, 0.000001, 1.5e-7,
        5e-324, 1e-323, f64::MAX, f64::MIN, f64::MIN_POSITIVE, 9.5e-7, 999999999999999.9, 123456789012345680.0,
        9007199254740992.0, 9007199254740994.0, 4503599627370496.0, 2.225073858507201e-308, 1e100, 100.0, 1000000.0,
    ] {
        check(x);
        check(-x);
    }
}

#[test]
fn the_shortest_decimal_reads_back() {
    let mut seed: u64 = 0x9e37_79b9_7f4a_7c15;
    for _ in 0..400 {
        let bits = next(&mut seed);
        let x = Double::from_bits(bits);
        if x.is_finite() && x.abs_bits() != 0 {
            let (c, q) = shortest_decimal(x);
            assert_eq!(nearest_to(x.is_negative(), c, q), x);
            assert!(c % 10 != 0);
            assert!(c < 100_000_000_000_000_000);
            let text = format!("{}e{}", c, q);
            assert_eq!(text.parse::<f64>().unwrap().to_bits(), bits & 0x7fff_ffff_ffff_ffff);
        }
    }
    assert_eq!(shortest_decimal(num(68000.0)), (68, 3));
    assert_eq!(shortest_decimal(num(0.25)), (25, -2));
    assert_eq!(shortest_decimal(num(-1.5)), (15, -1));
    assert_eq!(shortest_decimal(num(0.1)), (1, -1));
    assert_eq!(shortest_decimal(num(5e-324)), (5, -324));
    assert_eq!(shortest_decimal(num(f64::MAX)), (17976931348623157, 292));
    assert_eq!(shortest_decimal(num(9007199254740993.0)), (9007199254740992, 0));
}

#[test]
fn a_decimal_as_it_is_written() {
    let mut out = String::from("x=");
    push_written(&mut out, 68, 3);
    assert_eq!(out, "x=68000.0");
    let cases: Vec<(u64, i32, &str)> = vec![
        (1, 0, "1.0"),
        (25, -2, "0.25"),
        (12345, -2, "123.45"),
        (12345, -5, "0.12345"),
        (12345, -9, "0.000012345"),
        (12345, -10, "1.2345e-6"),
        (1, -5, "0.00001"),
        (1, -6, "1e-6"),
        (1, 15, "1000000000000000.0"),
        (1, 16, "1e+16"),
        (12, 15, "1.2e+16"),
        (12, 14, "1200000000000000.0"),
        (17976931348623157, 292, "1.7976931348623157e+308"),
        (5, -324, "5e-324"),
        (1234567890123456, -1, "123456789012345.6"),
        (1234567890123456, 0, "1234567890123456.0"),
        (12345678901234567, 0, "1.2345678901234567e+16"),
    ];
    for (c, q, expected) in cases {
        let mut out = String::new();
        push_written(&mut out, c, q);
        assert_eq!(out, expected);
    }
}

#[test]
fn push_json_number_appends() {
    let mut out = String::from("[");
    push_json_number(&mut out, num(1.5));
    out.push(',');
    push_json_number(&mut out, num(f64::NAN));
    out.push(',');
    push_json_number(&mut out, num(-0.0));
    assert_eq!(out, "[1.5,null,-0.0");
}

#[test]
fn every_power_of_two_is_written_as_serde_json_writes_it() {
    for exponent in 1..2047u64 {
        check(f64::from_bits(exponent << 52));
    }
}

#[test]
fn the_neighbours_of_powers_of_two_are_written_as_serde_json_writes_them() {
    for exponent in (1..2047u64).step_by(3) {
        check(f64::from_bits((exponent << 52) | 1));
        check(f64::from_bits((exponent << 52) - 1));
    }
}

#[test]
fn encodings_at_random_are_written_as_serde_json_writes_them() {
    let mut seed: u64 = 0x2545_f491_4f6c_dd1d;
    for _ in 0..1_500 {
        check(f64::from_bits(next(&mut seed)));
    }
}

#[test]
fn numbers_of_everyday_size_are_written_as_serde_json_writes_them() {
    let mut seed: u64 = 0x1234_5678_9abc_def1;
    for _ in 0..4_000 {
        let s = next(&mut seed);
        check(((s >> 11) % 100_000_000) as f64 / 1000.0);
        check(-(((s >> 20) % 1_000_000) as f64) / 64.0);
        check((s % 200_000) as f64 * 0.5);
        check(f64::from_bits(0x3ff0_0000_0000_0000 | (s >> 12)) - 1.5);
    }
}

#[test]
fn subnormal_numbers_are_written_as_serde_json_writes_them() {
    let mut seed: u64 = 0x0f0f_1234_5678_9abc;
    for _ in 0..600 {
        check(f64::from_bits(next(&mut seed) & 0x000f_ffff_ffff_ffff));
    }
    for bits in 1..200u64 {
        check(f64::from_bits(bits));
    }
}
