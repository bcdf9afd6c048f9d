use agg_ticker::decimal::{chars_of, is_digit, read_number, ReadError};
use agg_ticker::number::Double;

fn read(text: &str) -> Result<u64, String> {
    match read_number(text) {
        Ok(d) => Ok(d.to_bits()),
        Err(ReadError::Empty) => Err("cannot parse float from empty string".to_string()),
        Err(ReadError::Invalid) => Err("invalid float literal".to_string()),
    }
}

fn machine(text: &str) -> Result<u64, String> {
    match text.parse::<f64>() {
        Ok(v) => Ok(v.to_bits()),
        Err(e) => Err(e.to_string()),
    }
}

fn check(text: &str) {
    assert_eq!(read(text), machine(text), "{:?}", text);
}

fn next(seed: &mut u64) -> u64 {
    *seed ^= *seed << 13;
    *seed ^= *seed >> 7;
    *seed ^= *seed << 17;
    *seed
}

#[test]
fn strikes_are_read() {
    assert_eq!(read_number("68000"), Ok(Double::from_bits(68000.0f64.to_bits())));
    assert_eq!(read_number("150.5"), Ok(Double::from_bits(150.5f64.to_bits())));
    assert_eq!(read_number("0"), Ok(Double::from_bits(0)));
    assert_eq!(read_number("0.001"), Ok(Double::from_bits(0.001f64.to_bits())));
    assert_eq!(read_number("1e3"), Ok(Double::from_bits(1000.0f64.to_bits())));
    assert_eq!(read_number("-5"), Ok(Double::from_bits((-5.0f64).to_bits())));
    assert_eq!(read_number("+7.25"), Ok(Double::from_bits(7.25f64.to_bits())));
    assert_eq!(read_number("123456789.125"), Ok(Double::from_bits(123456789.125f64.to_bits())));
    assert_eq!(read_number("0.1"), Ok(Double::from_bits(0x3fb9_9999_9999_999a)));
    assert_eq!(read_number("1.005"), Ok(Double::from_bits(0x3ff0_147a_e147_ae14)));
}

#[test]
fn what_is_no_number_is_refused() {
    assert_eq!(read_number(""), Err(ReadError::Empty));
    for text in [
        "+", "-", ".", "+.", "e5", ".e5", "1e", "1e+", "1e-", " 1", "1 ", "1_0", "0x10", "1,5", "1..2", "1.2.3",
        "1e5e5", "--1", "+-1", "1e5.5", "abc", "68k", "infinit", "infinityx", "nanx", "in", "na", "\u{661}",
        "1\u{e9}", "1e\u{663}", "１２", "1f", "0b1", "1e1.", "1.5.e3", "e", "E", "-e", "+inf+", "n an",
    ] {
        assert_eq!(read_number(text), Err(ReadError::Invalid), "{:?}", text);
        check(text);
    }
}

#[test]
fn every_form_of_a_number_is_read() {
    for text in [
        "1.", ".5", "+.5", "-.5", "1.e5", "1.5e5", "1E5", "1e+5", "1e-5", "1E-5", "-0", "+0", "0.0", "00012",
        "0.000", "000.000e000", "-0e5", "1e0", "1e00000000000000000000005", "0.0000000000000000000000000000001e31",
        "10000000000000000000000000000000e-31",
    ] {
        assert!(read_number(text).is_ok(), "{:?}", text);
        check(text);
    }
}

#[test]
fn the_words_are_read() {
    for text in [
        "inf", "INF", "Inf", "iNf", "+inf", "-inf", "infinity", "INFINITY", "Infinity", "-Infinity", "+INFINITY",
        "nan", "NaN", "NAN", "+nan", "-nan", "-NaN",
    ] {
        check(text);
    }
    assert_eq!(read_number("inf"), Ok(Double::from_bits(0x7ff0_0000_0000_0000)));
    assert_eq!(read_number("-infinity"), Ok(Double::from_bits(0xfff0_0000_0000_0000)));
    assert_eq!(read_number("nan"), Ok(Double::from_bits(0x7ff8_0000_0000_0000)));
    assert_eq!(read_number("-nan"), Ok(Double::from_bits(0xfff8_0000_0000_0000)));
}

#[test]
fn a_number_halfway_between_two_doubles_goes_to_the_even_one() {
    assert_eq!(read("9007199254740992"), Ok(9007199254740992.0f64.to_bits()));
    assert_eq!(read("9007199254740993"), Ok(9007199254740992.0f64.to_bits()));
    assert_eq!(read("9007199254740994"), Ok(9007199254740994.0f64.to_bits()));
    assert_eq!(read("9007199254740995"), Ok(9007199254740996.0f64.to_bits()));
    assert_eq!(read("9007199254740993.0000000000000000000000000001"), Ok(9007199254740994.0f64.to_bits()));
    assert_eq!(read("9007199254740992.99999999999999999999"), Ok(9007199254740992.0f64.to_bits()));
    for text in [
        "9007199254740992", "9007199254740993", "9007199254740994", "9007199254740995", "9007199254740996",
        "9007199254740993.0000000000000000000000000001", "9007199254740992.99999999999999999999",
        "4503599627370496.5", "4503599627370497.5", "4503599627370495.75", "0.5e-323", "1.5e-323",
    ] {
        check(text);
    }
}

#[test]
fn the_smallest_and_the_largest_are_read() {
    assert_eq!(read("5e-324"), Ok(1));
    assert_eq!(read("2.4703282292062327e-324"), Ok(0));
    assert_eq!(read("2.4703282292062328e-324"), Ok(1));
    assert_eq!(read("-2.4703282292062327e-324"), Ok(1u64 << 63));
    assert_eq!(read("2.2250738585072014e-308"), Ok(f64::MIN_POSITIVE.to_bits()));
    assert_eq!(read("1.7976931348623157e308"), Ok(f64::MAX.to_bits()));
    assert_eq!(read("1.7976931348623158e308"), Ok(f64::MAX.to_bits()));
    assert_eq!(read("1.7976931348623159e308"), Ok(f64::INFINITY.to_bits()));
    assert_eq!(read("-1e309"), Ok(f64::NEG_INFINITY.to_bits()));
    for text in [
        "2.2250738585072011e-308", "2.2250738585072012e-308", "2.2250738585072014e-308", "4.9406564584124654e-324",
        "2.4703282292062327e-324", "2.4703282292062328e-324", "2.47032822920623272e-324", "2.4703282292062329e-324",
        "7.4109846876186981e-324", "7.4109846876186982e-324", "1.7976931348623157e308", "1.7976931348623158e308",
        "1.7976931348623159e308",
        "179769313486231580793728971405303415079934132710037826936173778980444968292764750946649017977587207096330286416692887910946555547851940402630657488671505820681908902000708383676273854845817711531764475730270069855571366959622842914819860834936475292719074168444365510704342711559699508093042880177904174497791",
        "179769313486231580793728971405303415079934132710037826936173778980444968292764750946649017977587207096330286416692887910946555547851940402630657488671505820681908902000708383676273854845817711531764475730270069855571366959622842914819860834936475292719074168444365510704342711559699508093042880177904174497792",
        "1e308", "1e309", "1e310", "1e341", "1e342", "1e343", "1e400", "0.1e-1074", "1e-323", "1e-324", "3e-324", "1e-400",
        "1e999999999999999999999999999999999999", "0e999999999999999999999999999999999999",
        "1e-999999999999999999999999999999999999", "0e-999999999999999999999999999999999999",
        "1e1208925819614629174706175", "1e1208925819614629174706176", "1e1208925819614629174706177",
        "1e2417851639229258349412351", "1e2417851639229258349412352", "1e2417851639229258349412353",
        "1e-2417851639229258349412352", "0.0000000001e2417851639229258349412352",
        "123456789012345678901234567890", "1e22", "1e23", "8.5e-7",
        "0.000000000000000000000000000000000000000000000000001", "100000000000000000000000000000000000000000000000000",
    ] {
        check(text);
    }
}

#[test]
fn texts_at_random_are_read_as_the_machine_reads_them() {
    let mut seed: u64 = 0x9e37_79b9_7f4a_7c15;
    let alphabet: Vec<char> = "0123456789012345678901234567890123456789..ee+-E".chars().collect();
    for _ in 0..20_000 {
        let len = (next(&mut seed) % 24) as usize;
        let mut text = String::new();
        for _ in 0..len {
            text.push(alphabet[(next(&mut seed) % alphabet.len() as u64) as usize]);
        }
        check(&text);
    }
}

#[test]
fn what_doubles_are_written_as_is_read_back() {
    let mut seed: u64 = 0x2545_f491_4f6c_dd1d;
    for _ in 0..1_500 {
        let bits = next(&mut seed);
        let x = f64::from_bits(bits);
        if x.is_finite() {
            assert_eq!(read(&format!("{:e}", x)), Ok(bits));
            assert_eq!(read(&format!("{:?}", x)), Ok(bits));
            check(&format!("{:.17e}", x));
            check(&format!("{:.25e}", x));
            check(&format!("{:.3}", x % 1.0e9));
        }
    }
}

#[test]
fn decimals_at_a_double_and_a_hair_beside_it_are_read() {
    let mut seed: u64 = 0x1234_5678_9abc_def1;
    for _ in 0..200 {
        let bits = next(&mut seed) & 0x7fff_ffff_ffff_ffff;
        let exponent = bits >> 52;
        if exponent < 1000 || exponent > 1090 {
            continue;
        }
        let x = f64::from_bits(bits);
        let exact = format!("{:.120}", x);
        assert_eq!(read(&exact), Ok(bits));
        check(&format!("{}1", exact));
        let mut below = exact.clone();
        below.pop();
        check(&below);
    }
}

#[test]
fn characters_and_digits() {
    assert_eq!(chars_of("a-\u{e9}\u{4e2d}"), vec!['a', '-', '\u{e9}', '\u{4e2d}']);
    assert!(chars_of("").is_empty());
    for c in ['0', '1', '5', '9'] {
        assert!(is_digit(c));
    }
    for c in ['/', ':', 'a', ' ', '\u{661}', '\u{ff11}', '.', '-'] {
        assert!(!is_digit(c));
    }
}
