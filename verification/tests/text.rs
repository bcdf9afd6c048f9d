use agg_ticker::text::{
    decimal_of, hex_digit_of, json_string_of, push_decimal, push_digits, push_escaped,
    push_json_string,
};

#[test]
fn plain_text_stands_between_quotation_marks() {
    assert_eq!(json_string_of(""), "\"\"");
    assert_eq!(json_string_of("BTC-27DEC24-68000-C"), "\"BTC-27DEC24-68000-C\"");
    assert_eq!(json_string_of("105.00"), "\"105.00\"");
    assert_eq!(json_string_of("a/b c"), "\"a/b c\"");
    assert_eq!(json_string_of("\u{7f}\u{e9}\u{4e2d}\u{1f600}"), "\"\u{7f}\u{e9}\u{4e2d}\u{1f600}\"");
}

#[test]
fn marks_and_control_characters_are_escaped() {
    assert_eq!(json_string_of("\""), "\"\\\"\"");
    assert_eq!(json_string_of("\\"), "\"\\\\\"");
    assert_eq!(json_string_of("\u{8}\t\n\u{c}\r"), "\"\\b\\t\\n\\f\\r\"");
    assert_eq!(json_string_of("\u{0}"), "\"\\u0000\"");
    assert_eq!(json_string_of("\u{1}\u{b}\u{e}\u{f}"), "\"\\u0001\\u000b\\u000e\\u000f\"");
    assert_eq!(json_string_of("\u{10}\u{1a}\u{1f}"), "\"\\u0010\\u001a\\u001f\"");
    assert_eq!(json_string_of("say \"hi\"\n"), "\"say \\\"hi\\\"\\n\"");
}

#[test]
fn every_character_is_escaped_as_serde_json_does() {
    for code in 0..=0x10ffffu32 {
        if let Some(c) = char::from_u32(code) {
            let text = c.to_string();
            let expected = serde_json::to_string(&text).unwrap();
            assert_eq!(json_string_of(&text), expected, "U+{:04X}", code);
        }
    }
}

#[test]
fn texts_are_escaped_as_serde_json_does() {
    for text in ["", "plain", "tab\there", "\"quoted\" \\ and \u{0}\u{1f} \u{20}", "\u{e9}t\u{e9}-\u{4e2d}\u{6587}", "a\r\nb"] {
        assert_eq!(json_string_of(text), serde_json::to_string(text).unwrap());
    }
}

#[test]
fn push_escaped_appends() {
    let mut out = String::from("x");
    push_escaped(&mut out, 'a');
    push_escaped(&mut out, '"');
    push_escaped(&mut out, '\u{1b}');
    assert_eq!(out, "xa\\\"\\u001b");
}

#[test]
fn push_json_string_appends() {
    let mut out = String::from("[");
    push_json_string(&mut out, "a\"b");
    push_json_string(&mut out, "");
    assert_eq!(out, "[\"a\\\"b\"\"\"");
}

#[test]
fn hex_digits() {
    let digits: String = (0..16).map(hex_digit_of).collect();
    assert_eq!(digits, "0123456789abcdef");
}

#[test]
fn integers_in_decimal() {
    assert_eq!(decimal_of(0), "0");
    assert_eq!(decimal_of(7), "7");
    assert_eq!(decimal_of(10), "10");
    assert_eq!(decimal_of(-1), "-1");
    assert_eq!(decimal_of(1_700_000_000_000), "1700000000000");
    assert_eq!(decimal_of(i64::MAX), "9223372036854775807");
    assert_eq!(decimal_of(i64::MIN), "-9223372036854775808");
    assert_eq!(decimal_of(i64::MIN + 1), "-9223372036854775807");
}

#[test]
fn integers_in_decimal_as_serde_json_writes_them() {
    let mut n: i64 = 1;
    for _ in 0..63 {
        for m in [n, -n, n - 1, 1 - n, n + n / 3] {
            assert_eq!(decimal_of(m), serde_json::to_string(&m).unwrap());
            assert_eq!(decimal_of(m), m.to_string());
        }
        n = n.wrapping_mul(2);
    }
}

#[test]
fn push_digits_and_push_decimal_append() {
    let mut out = String::from("n=");
    push_digits(&mut out, 0);
    push_digits(&mut out, u64::MAX);
    assert_eq!(out, "n=018446744073709551615");
    let mut out = String::from("t:");
    push_decimal(&mut out, -42);
    push_decimal(&mut out, 42);
    assert_eq!(out, "t:-4242");
}
