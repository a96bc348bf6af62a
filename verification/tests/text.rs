use puzzle_client::text::{
    ascii_len, char_at, parse_decimal, parse_signed, push_decimal, push_signed, span_is,
    split_fields,
};

#[test]
fn numerals_are_written_without_leading_zeros() {
    let mut out = String::from("n=");
    push_decimal(&mut out, 0);
    out.push(',');
    push_decimal(&mut out, 9);
    out.push(',');
    push_decimal(&mut out, 10);
    out.push(',');
    push_decimal(&mut out, 1203);
    out.push(',');
    push_decimal(&mut out, u64::MAX);
    assert_eq!(out, "n=0,9,10,1203,18446744073709551615");
}

#[test]
fn signed_numerals_carry_a_minus_sign() {
    let mut out = String::new();
    push_signed(&mut out, -1);
    out.push(',');
    push_signed(&mut out, 0);
    out.push(',');
    push_signed(&mut out, i64::MIN);
    out.push(',');
    push_signed(&mut out, i64::MAX);
    assert_eq!(out, "-1,0,-9223372036854775808,9223372036854775807");
}

#[test]
fn parse_decimal_reads_a_stretch() {
    let s = "ab 1203 cd";
    assert_eq!(parse_decimal(s, 3, 7), Some(1203));
    assert_eq!(parse_decimal(s, 3, 4), Some(1));
    assert_eq!(parse_decimal(s, 5, 6), Some(0));
    assert_eq!(parse_decimal(s, 5, 7), None);
    assert_eq!(parse_decimal(s, 3, 3), None);
    assert_eq!(parse_decimal(s, 2, 7), None);
    assert_eq!(parse_decimal(s, 0, 2), None);
    assert_eq!(parse_decimal("18446744073709551615", 0, 20), Some(u64::MAX));
    assert_eq!(parse_decimal("18446744073709551616", 0, 20), None);
}

#[test]
fn parse_signed_reads_a_stretch() {
    assert_eq!(parse_signed("-17", 0, 3), Some(-17));
    assert_eq!(parse_signed("17", 0, 2), Some(17));
    assert_eq!(parse_signed("-", 0, 1), None);
    assert_eq!(parse_signed("-0", 0, 2), None);
    assert_eq!(parse_signed("--1", 0, 3), None);
    assert_eq!(parse_signed("", 0, 0), None);
    assert_eq!(parse_signed("-9223372036854775808", 0, 20), Some(i64::MIN));
    assert_eq!(parse_signed("-9223372036854775809", 0, 20), None);
    assert_eq!(parse_signed("9223372036854775807", 0, 19), Some(i64::MAX));
    assert_eq!(parse_signed("9223372036854775808", 0, 19), None);
}

#[test]
fn split_fields_cuts_at_every_space() {
    assert_eq!(split_fields(""), vec![(0, 0)]);
    assert_eq!(split_fields("abc"), vec![(0, 3)]);
    assert_eq!(split_fields("a bc"), vec![(0, 1), (2, 4)]);
    assert_eq!(split_fields(" a  b "), vec![(0, 0), (1, 2), (3, 3), (4, 5), (6, 6)]);
}

#[test]
fn span_is_compares_a_stretch_with_a_word() {
    assert!(span_is("moved 1", 0, 5, "moved"));
    assert!(!span_is("moved 1", 0, 4, "moved"));
    assert!(!span_is("moved 1", 0, 5, "movee"));
    assert!(span_is("moved 1", 3, 3, ""));
}

#[test]
fn ascii_text_is_read_by_position() {
    assert_eq!(ascii_len("hello"), 5);
    assert_eq!(char_at("hello", 1), 'e');
}
