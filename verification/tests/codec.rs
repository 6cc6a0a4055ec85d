//! The digit-group codec, the text derivations and the input coercions.

use cms_core::parse::{parse_field_value, parse_i64, FieldContent};
use cms_core::text::{teaser_excerpt, truncate_subject};
use cms_core::vancode::{int_to_vancode, vancode_to_int};

#[test]
fn encode_pads_to_two_digits() {
    assert_eq!(int_to_vancode(0), "00");
    assert_eq!(int_to_vancode(1), "01");
    assert_eq!(int_to_vancode(9), "09");
    assert_eq!(int_to_vancode(10), "0a");
    assert_eq!(int_to_vancode(35), "0z");
}

#[test]
fn encode_grows_past_one_digit() {
    assert_eq!(int_to_vancode(36), "10");
    assert_eq!(int_to_vancode(1295), "zz");
    assert_eq!(int_to_vancode(1296), "100");
}

#[test]
fn decode_reads_groups_back() {
    assert_eq!(vancode_to_int("00"), 0);
    assert_eq!(vancode_to_int("0z"), 35);
    assert_eq!(vancode_to_int("10"), 36);
    assert_eq!(vancode_to_int("zz"), 1295);
}

#[test]
fn decode_inverts_encode() {
    for n in [0u32, 1, 35, 36, 1295, 1296, 46655, 46656, 123456789] {
        assert_eq!(vancode_to_int(&int_to_vancode(n)), n);
    }
}

#[test]
fn equal_width_groups_sort_numerically() {
    let pairs = [(0u32, 1u32), (1, 35), (36, 37), (36, 1295), (5, 20)];
    for (a, b) in pairs {
        let ea = int_to_vancode(a);
        let eb = int_to_vancode(b);
        assert_eq!(ea.len(), eb.len());
        assert!(ea < eb);
    }
}

#[test]
fn teaser_keeps_short_body_whole() {
    let body = "a short body with no break";
    assert_eq!(teaser_excerpt(body), body);
}

#[test]
fn teaser_cuts_at_blank_line() {
    let mut body = String::new();
    for _ in 0..50 {
        body.push('x');
    }
    let head = body.clone();
    body.push_str("\n\nrest of the story");
    assert_eq!(teaser_excerpt(&body), head);
    assert_eq!(teaser_excerpt(&body).chars().count(), 50);
}

#[test]
fn teaser_cuts_at_six_hundred_characters() {
    let mut body = String::new();
    for _ in 0..700 {
        body.push('y');
    }
    assert_eq!(teaser_excerpt(&body).chars().count(), 600);
}

#[test]
fn teaser_counts_characters_not_bytes() {
    let mut body = String::new();
    for _ in 0..700 {
        body.push('\u{e9}');
    }
    assert_eq!(teaser_excerpt(&body).chars().count(), 600);
}

#[test]
fn subject_keeps_short_text() {
    assert_eq!(truncate_subject("  hello there  "), "hello there");
}

#[test]
fn subject_truncates_long_text_with_marker() {
    let mut text = String::new();
    for _ in 0..70 {
        text.push('s');
    }
    let got = truncate_subject(&text);
    assert_eq!(got.chars().count(), 60);
    assert!(got.ends_with("..."));
    let mut expect = String::new();
    for _ in 0..57 {
        expect.push('s');
    }
    expect.push_str("...");
    assert_eq!(got, expect);
}

#[test]
fn subject_truncates_on_character_boundary() {
    let mut text = String::new();
    for _ in 0..70 {
        text.push('\u{e9}');
    }
    let got = truncate_subject(&text);
    assert_eq!(got.chars().count(), 60);
    assert!(got.ends_with("..."));
}

#[test]
fn parse_i64_reads_signs_and_bounds() {
    assert_eq!(parse_i64("42"), Some(42));
    assert_eq!(parse_i64("+7"), Some(7));
    assert_eq!(parse_i64("-13"), Some(-13));
    assert_eq!(parse_i64("9223372036854775807"), Some(i64::MAX));
    assert_eq!(parse_i64("-9223372036854775808"), Some(i64::MIN));
    assert_eq!(parse_i64("9223372036854775808"), None);
    assert_eq!(parse_i64("-9223372036854775809"), None);
    assert_eq!(parse_i64(""), None);
    assert_eq!(parse_i64("+"), None);
    assert_eq!(parse_i64("1 2"), None);
    assert_eq!(parse_i64("0x10"), None);
}

#[test]
fn integer_fields_drop_on_parse_failure() {
    assert!(matches!(
        parse_field_value("integer", "42"),
        Some(FieldContent::Int(42))
    ));
    assert!(parse_field_value("integer", "not a number").is_none());
    assert!(parse_field_value("number_integer", "7").is_some());
}

#[test]
fn float_fields_drop_on_parse_failure() {
    assert!(matches!(
        parse_field_value("float", "3.5"),
        Some(FieldContent::FloatText(_))
    ));
    assert!(parse_field_value("float", "1e10").is_some());
    assert!(parse_field_value("float", ".5").is_some());
    assert!(parse_field_value("float", "inf").is_some());
    assert!(parse_field_value("float", "NaN").is_some());
    assert!(parse_field_value("decimal", "-2.75").is_some());
    assert!(parse_field_value("float", "three").is_none());
    assert!(parse_field_value("float", ".").is_none());
    assert!(parse_field_value("float", "1e").is_none());
}

#[test]
fn boolean_fields_never_drop() {
    assert!(matches!(
        parse_field_value("boolean", "1"),
        Some(FieldContent::Int(1))
    ));
    assert!(matches!(
        parse_field_value("boolean", "TRUE"),
        Some(FieldContent::Int(1))
    ));
    assert!(matches!(
        parse_field_value("checkbox", "true"),
        Some(FieldContent::Int(1))
    ));
    assert!(matches!(
        parse_field_value("boolean", "0"),
        Some(FieldContent::Int(0))
    ));
    assert!(matches!(
        parse_field_value("boolean", "banana"),
        Some(FieldContent::Int(0))
    ));
}

#[test]
fn text_fields_store_verbatim() {
    match parse_field_value("text", "  as typed  ") {
        Some(FieldContent::Text(s)) => assert_eq!(s, "  as typed  "),
        _ => panic!("text input must be stored verbatim"),
    }
}
