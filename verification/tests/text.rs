//! The decimal text parser: grammar, trimming, truncation, and the
//! classification of rejections.

use rfconf::text::{decimal_text_e24, parse_decimal, ParseError};

const E24: u128 = 1_000_000_000_000_000_000_000_000;

#[test]
fn parse_plain_and_fractional() {
    assert_eq!(parse_decimal(b"2464.0"), Ok(2464 * E24));
    assert_eq!(parse_decimal(b"2464"), Ok(2464 * E24));
    assert_eq!(parse_decimal(b"0.5"), Ok(E24 / 2));
    assert_eq!(parse_decimal(b"115.051"), Ok(115_051_000_000_000_000_000_000_000));
    assert_eq!(parse_decimal(b"0"), Ok(0));
}

#[test]
fn parse_trims_whitespace_and_accepts_sign() {
    assert_eq!(parse_decimal(b"  12.5\t\n"), Ok(12_500_000_000_000_000_000_000_000));
    assert_eq!(parse_decimal(b"+2464.0"), Ok(2464 * E24));
}

#[test]
fn parse_bare_point_forms() {
    assert_eq!(parse_decimal(b"2464."), Ok(2464 * E24));
    assert_eq!(parse_decimal(b".5"), Ok(E24 / 2));
    assert_eq!(parse_decimal(b"+.5"), Ok(E24 / 2));
}

#[test]
fn parse_truncates_beyond_24_fractional_digits() {
    // the 25th fractional digit is below the scale's resolution
    assert_eq!(parse_decimal(b"0.0000000000000000000000001"), Ok(0));
    assert_eq!(parse_decimal(b"1.0000000000000000000000019"), Ok(E24 + 1));
}

#[test]
fn parse_rejects_malformed_text() {
    assert_eq!(parse_decimal(b""), Err(ParseError::NotDecimal));
    assert_eq!(parse_decimal(b"."), Err(ParseError::NotDecimal));
    assert_eq!(parse_decimal(b"+"), Err(ParseError::NotDecimal));
    assert_eq!(parse_decimal(b"+."), Err(ParseError::NotDecimal));
    assert_eq!(parse_decimal(b"12a"), Err(ParseError::NotDecimal));
    assert_eq!(parse_decimal(b"a12"), Err(ParseError::NotDecimal));
    assert_eq!(parse_decimal(b"1.2.3"), Err(ParseError::NotDecimal));
    assert_eq!(parse_decimal(b"1 2"), Err(ParseError::NotDecimal));
    assert_eq!(parse_decimal(b"-5"), Err(ParseError::NotDecimal));
    assert_eq!(parse_decimal(b"1e3"), Err(ParseError::NotDecimal));
}

#[test]
fn parse_reports_oversized_numbers() {
    // the largest representable value, and one step above it
    assert_eq!(
        parse_decimal(b"340282366920938.463463374607431768211455"),
        Ok(u128::MAX)
    );
    assert_eq!(
        parse_decimal(b"340282366920938.463463374607431768211456"),
        Err(ParseError::TooLarge)
    );
    assert_eq!(
        parse_decimal(b"99999999999999999999999999999999999999999999"),
        Err(ParseError::TooLarge)
    );
}

#[test]
fn parse_handles_leading_zeros() {
    assert_eq!(parse_decimal(b"007"), Ok(7 * E24));
    assert_eq!(parse_decimal(b"000.25"), Ok(E24 / 4));
}

#[test]
fn format_canonical_text() {
    assert_eq!(decimal_text_e24(0), b"0");
    assert_eq!(decimal_text_e24(2464 * E24), b"2464");
    assert_eq!(decimal_text_e24(E24 / 2), b"0.5");
    assert_eq!(
        decimal_text_e24(2_463_999_877_929_687_500_000_000_000),
        b"2463.9998779296875"
    );
    assert_eq!(
        decimal_text_e24(47_607_421_875_000_000_000_000_000),
        b"47.607421875"
    );
    assert_eq!(
        decimal_text_e24(115_051_269_531_250_000_000_000_000),
        b"115.05126953125"
    );
    assert_eq!(decimal_text_e24(1), b"0.000000000000000000000001");
}

#[test]
fn format_then_parse_is_identity() {
    for v in [
        0u128,
        1,
        E24,
        E24 / 4,
        2464 * E24,
        2_463_999_877_929_687_500_000_000_000,
        u128::MAX,
    ] {
        assert_eq!(parse_decimal(&decimal_text_e24(v)), Ok(v));
    }
}
