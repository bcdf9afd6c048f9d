use agg_ticker::instrument::{
    classify, parse_instrument_name, read_strike, split_instrument_name, InstrumentKind, ParseError,
};
use agg_ticker::number::Double;

fn num(x: f64) -> Double {
    Double::from_bits(x.to_bits())
}

fn parts_of(name: &str) -> (String, String, String, String) {
    let parts = split_instrument_name(name).unwrap();
    (parts.currency, parts.expiry, parts.strike, parts.option_kind)
}

fn owned(a: &str, b: &str, c: &str, d: &str) -> (String, String, String, String) {
    (a.to_string(), b.to_string(), c.to_string(), d.to_string())
}

fn refused(name: &str) -> String {
    match parse_instrument_name(name) {
        Err(ParseError::InvalidStrike(reason)) => reason,
        other => panic!("{:?} for {:?}", other, name),
    }
}

#[test]
fn a_name_is_cut_into_its_four_segments() {
    assert_eq!(parts_of("BTC-27DEC24-68000-C"), owned("BTC", "27DEC24", "68000", "C"));
    assert_eq!(parts_of("ETH-PERPETUAL-0-spot"), owned("ETH", "PERPETUAL", "0", "spot"));
    assert_eq!(parts_of("SOL-1JAN25-150.5-P"), owned("SOL", "1JAN25", "150.5", "P"));
}

#[test]
fn segments_may_be_empty() {
    assert_eq!(parts_of("---"), owned("", "", "", ""));
    assert_eq!(parts_of("BTC-27DEC24-68000-"), owned("BTC", "27DEC24", "68000", ""));
    assert_eq!(parts_of("-27DEC24-68000-C"), owned("", "27DEC24", "68000", "C"));
    assert_eq!(parts_of("BTC--68000-C"), owned("BTC", "", "68000", "C"));
}

#[test]
fn segments_keep_every_other_character() {
    assert_eq!(parts_of("B T C-27.DEC_24-6 8000-C\u{e9}\u{4e2d}"), owned("B T C", "27.DEC_24", "6 8000", "C\u{e9}\u{4e2d}"));
    assert_eq!(parts_of("\u{2013}-\u{2212}-\u{1f600}-_"), owned("\u{2013}", "\u{2212}", "\u{1f600}", "_"));
}

#[test]
fn a_name_with_too_few_segments_is_malformed() {
    for name in ["", "BTC", "BTC-27DEC24", "BTC-27DEC24-68000", "--"] {
        match split_instrument_name(name) {
            Err(ParseError::MalformedName) => {}
            other => panic!("{:?} for {:?}", other, name),
        }
    }
}

#[test]
fn a_name_with_too_many_segments_is_malformed() {
    for name in ["BTC-27DEC24-68000-C-X", "BTC-27DEC24--5-C", "----", "BTC-27DEC24-68000-C-"] {
        match split_instrument_name(name) {
            Err(ParseError::MalformedName) => {}
            other => panic!("{:?} for {:?}", other, name),
        }
    }
}

#[test]
fn cutting_undoes_joining() {
    let words = ["", "BTC", "27DEC24", "68000", "C", "P", "x y", "1.5e3", "\u{e9}"];
    for a in words {
        for b in words {
            for c in words {
                for d in words {
                    let name = format!("{}-{}-{}-{}", a, b, c, d);
                    assert_eq!(parts_of(&name), owned(a, b, c, d));
                }
            }
        }
    }
}

#[test]
fn an_indicator_with_c_or_p_is_an_option() {
    assert_eq!(classify("C"), InstrumentKind::Opt);
    assert_eq!(classify("P"), InstrumentKind::Opt);
    assert_eq!(classify("xCy"), InstrumentKind::Opt);
    assert_eq!(classify("PERP"), InstrumentKind::Opt);
    assert_eq!(classify("SPOT"), InstrumentKind::Opt);
    assert_eq!(classify("CP"), InstrumentKind::Opt);
}

#[test]
fn an_indicator_without_c_or_p_is_spot() {
    assert_eq!(classify(""), InstrumentKind::Spot);
    assert_eq!(classify("c"), InstrumentKind::Spot);
    assert_eq!(classify("p"), InstrumentKind::Spot);
    assert_eq!(classify("spot"), InstrumentKind::Spot);
    assert_eq!(classify("F"), InstrumentKind::Spot);
    assert_eq!(classify("\u{421}"), InstrumentKind::Spot);
}

#[test]
fn a_well_formed_name_is_parsed() {
    let descriptor = parse_instrument_name("BTC-27DEC24-68000-C").unwrap();
    assert_eq!(descriptor.currency, "BTC");
    assert_eq!(descriptor.expiry, "27DEC24");
    assert_eq!(f64::from_bits(descriptor.strike.to_bits()), 68000.0);
    assert_eq!(descriptor.option_kind, "C");
    assert_eq!(classify(&descriptor.option_kind), InstrumentKind::Opt);
    let copy = descriptor.clone();
    assert_eq!(copy.currency, "BTC");
    assert_eq!(copy.expiry, "27DEC24");
    assert_eq!(copy.strike, descriptor.strike);
    assert_eq!(copy.option_kind, "C");

    let descriptor = parse_instrument_name("ETH_USDC-PERPETUAL-0-F").unwrap();
    assert_eq!(descriptor.currency, "ETH_USDC");
    assert_eq!(descriptor.expiry, "PERPETUAL");
    assert_eq!(descriptor.strike, num(0.0));
    assert_eq!(descriptor.option_kind, "F");
    assert_eq!(classify(&descriptor.option_kind), InstrumentKind::Spot);
}

#[test]
fn the_strike_is_the_number_that_its_segment_says() {
    for text in ["0", "68000", "150.5", "0.001", "1e3", "+7.25", "123456789.125", "0.1", "3.5E2", ".5", "7."] {
        let value: f64 = text.parse().unwrap();
        let descriptor = parse_instrument_name(&format!("BTC-27DEC24-{}-P", text)).unwrap();
        assert_eq!(descriptor.strike.to_bits(), value.to_bits(), "{}", text);
        assert_eq!(read_strike(text), Ok(num(value)));
    }
}

#[test]
fn a_name_is_parsed_as_it_was_put_together() {
    let mut seed: u64 = 0x9e37_79b9_7f4a_7c15;
    let currencies = ["BTC", "ETH", "SOL_USDC", ""];
    let expiries = ["27DEC24", "1JAN25", "PERPETUAL"];
    let kinds = ["C", "P", "F", "call", "PUT", ""];
    for _ in 0..2_000 {
        seed ^= seed << 13;
        seed ^= seed >> 7;
        seed ^= seed << 17;
        let strike = ((seed >> 8) % 100_000_000) as f64 / 1000.0;
        let currency = currencies[(seed % 4) as usize];
        let expiry = expiries[((seed >> 2) % 3) as usize];
        let kind = kinds[((seed >> 4) % 6) as usize];
        let name = format!("{}-{}-{}-{}", currency, expiry, strike, kind);
        let descriptor = parse_instrument_name(&name).unwrap();
        assert_eq!(descriptor.currency, currency);
        assert_eq!(descriptor.expiry, expiry);
        assert_eq!(descriptor.strike.to_bits(), strike.to_bits(), "{}", name);
        assert_eq!(descriptor.option_kind, kind);
        let option = kind.contains('C') || kind.contains('P');
        assert_eq!(classify(&descriptor.option_kind) == InstrumentKind::Opt, option);
    }
}

#[test]
fn a_malformed_name_is_not_parsed() {
    for name in ["", "BTC", "BTC-27DEC24-68000", "BTC-27DEC24-68000-C-X", "BTC-27DEC24--5-C", "BTC-27DEC24-1e-3-C"] {
        match parse_instrument_name(name) {
            Err(ParseError::MalformedName) => {}
            other => panic!("{:?} for {:?}", other, name),
        }
    }
}

#[test]
fn a_strike_that_is_no_number_is_refused() {
    for text in ["abc", "68k", "1,5", "0x10", " 5", "5 ", "+", ".", "1e", "e3", "1_000"] {
        let reason = text.parse::<f64>().unwrap_err().to_string();
        assert_eq!(reason, "invalid float literal");
        assert_eq!(refused(&format!("BTC-27DEC24-{}-C", text)), reason, "{:?}", text);
        assert_eq!(read_strike(text), Err(reason));
    }
    let reason = "".parse::<f64>().unwrap_err().to_string();
    assert_eq!(reason, "cannot parse float from empty string");
    assert_eq!(refused("BTC-27DEC24--C"), reason);
    assert_eq!(read_strike(""), Err(reason));
}

#[test]
fn a_strike_that_is_not_finite_is_refused() {
    for text in ["inf", "+inf", "NaN", "nan", "infinity", "INFINITY", "1e999", "1.7976931348623159e308"] {
        assert_eq!(refused(&format!("BTC-27DEC24-{}-C", text)), "strike is not finite", "{:?}", text);
        assert_eq!(read_strike(text), Err("strike is not finite".to_string()));
    }
    assert!(parse_instrument_name("BTC-27DEC24-1.7976931348623157e308-C").is_ok());
    assert!(parse_instrument_name("BTC-27DEC24-1e+308-C").is_ok());
    assert!(parse_instrument_name("BTC-27DEC24-1e400-C").is_err());
}

#[test]
fn a_refused_name_has_its_text() {
    assert_eq!(ParseError::MalformedName.message(), "Invalid instrument name format");
    assert_eq!(
        ParseError::InvalidStrike("invalid float literal".to_string()).message(),
        "Failed to parse strike: invalid float literal"
    );
    assert_eq!(ParseError::InvalidStrike(String::new()).message(), "Failed to parse strike: ");
    let reason = "abc".parse::<f64>().unwrap_err().to_string();
    let error = parse_instrument_name("BTC-27DEC24-abc-C").unwrap_err();
    assert_eq!(error.message(), format!("Failed to parse strike: {}", reason));
    let error = parse_instrument_name("BTC-27DEC24--C").unwrap_err();
    assert_eq!(error.message(), "Failed to parse strike: cannot parse float from empty string");
    let error = parse_instrument_name("BTC-27DEC24-inf-C").unwrap_err();
    assert_eq!(error.message(), "Failed to parse strike: strike is not finite");
    let error = split_instrument_name("BTC").unwrap_err();
    assert_eq!(error.message(), "Invalid instrument name format");
}
