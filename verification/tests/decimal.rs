use station_stats::decimal::{parse_value, write_digits, write_tenths, UNITS_PER_ONE, UNITS_PER_TENTH};
use station_stats::error::ParseError;

/// Units in a tenth.
const T: i64 = 100_000_000;

fn rendered(value: i64) -> String {
    let mut out = Vec::new();
    write_tenths(value, &mut out);
    String::from_utf8(out).unwrap()
}

#[test]
fn parses_one_decimal_place() {
    assert_eq!(parse_value(b"10.0"), Ok(100 * T));
    assert_eq!(parse_value(b"5.5"), Ok(55 * T));
    assert_eq!(parse_value(b"-3.2"), Ok(-32 * T));
    assert_eq!(parse_value(b"0.0"), Ok(0 * T));
    assert_eq!(parse_value(b"-0.0"), Ok(0 * T));
    assert_eq!(parse_value(b"+1.5"), Ok(15 * T));
}

#[test]
fn parses_without_fraction_or_without_whole_part() {
    assert_eq!(parse_value(b"5"), Ok(50 * T));
    assert_eq!(parse_value(b"5."), Ok(50 * T));
    assert_eq!(parse_value(b".5"), Ok(5 * T));
    assert_eq!(parse_value(b"-.5"), Ok(-5 * T));
    assert_eq!(parse_value(b"-12"), Ok(-120 * T));
    assert_eq!(parse_value(b"007.1"), Ok(71 * T));
}

#[test]
fn accepts_trailing_zeros() {
    assert_eq!(parse_value(b"10.50"), Ok(105 * T));
    assert_eq!(parse_value(b"10.5000"), Ok(105 * T));
    assert_eq!(parse_value(b"3.00"), Ok(30 * T));
}

#[test]
fn rejects_text_that_is_no_number() {
    assert_eq!(parse_value(b""), Err(ParseError::MalformedValue));
    assert_eq!(parse_value(b"."), Err(ParseError::MalformedValue));
    assert_eq!(parse_value(b"-"), Err(ParseError::MalformedValue));
    assert_eq!(parse_value(b"+"), Err(ParseError::MalformedValue));
    assert_eq!(parse_value(b"-."), Err(ParseError::MalformedValue));
    assert_eq!(parse_value(b"abc"), Err(ParseError::MalformedValue));
    assert_eq!(parse_value(b"1.2.3"), Err(ParseError::MalformedValue));
    assert_eq!(parse_value(b"1e5"), Err(ParseError::MalformedValue));
    assert_eq!(parse_value(b"--1"), Err(ParseError::MalformedValue));
    assert_eq!(parse_value(b"1-"), Err(ParseError::MalformedValue));
    assert_eq!(parse_value(b" 1.0"), Err(ParseError::MalformedValue));
    assert_eq!(parse_value(b"1.0 "), Err(ParseError::MalformedValue));
    assert_eq!(parse_value(b"1.0\r"), Err(ParseError::MalformedValue));
    assert_eq!(parse_value(b"inf"), Err(ParseError::MalformedValue));
}

#[test]
fn malformed_wins_over_unsupported() {
    assert_eq!(parse_value(b"1.2345678901x"), Err(ParseError::MalformedValue));
    assert_eq!(parse_value(b"99999999999999999999999x"), Err(ParseError::MalformedValue));
}

#[test]
fn keeps_every_digit_up_to_the_ninth_place() {
    assert_eq!(parse_value(b"10.05"), Ok(10_050_000_000));
    assert_eq!(parse_value(b"1.25"), Ok(1_250_000_000));
    assert_eq!(parse_value(b"0.001"), Ok(1_000_000));
    assert_eq!(parse_value(b"-1.2000001"), Ok(-1_200_000_100));
    assert_eq!(parse_value(b"0.000000001"), Ok(1));
    assert_eq!(parse_value(b"-0.000000001"), Ok(-1));
    assert_eq!(parse_value(b"3.141592653"), Ok(3_141_592_653));
    assert_eq!(parse_value(b".123456789"), Ok(123_456_789));
    assert_eq!(parse_value(b"12.345678900000"), Ok(12_345_678_900));
}

#[test]
fn rejects_what_is_finer_than_the_unit() {
    assert_eq!(parse_value(b"0.0000000001"), Err(ParseError::UnsupportedValue));
    assert_eq!(parse_value(b"1.2345678901"), Err(ParseError::UnsupportedValue));
    assert_eq!(parse_value(b"-1.0000000000000005"), Err(ParseError::UnsupportedValue));
}

#[test]
fn range_ends_at_the_ends_of_i64() {
    assert_eq!(parse_value(b"9223372036.854775807"), Ok(i64::MAX));
    assert_eq!(parse_value(b"9223372036.854775808"), Err(ParseError::UnsupportedValue));
    assert_eq!(parse_value(b"-9223372036.854775808"), Ok(i64::MIN));
    assert_eq!(parse_value(b"-9223372036.854775809"), Err(ParseError::UnsupportedValue));
    assert_eq!(parse_value(b"9223372037"), Err(ParseError::UnsupportedValue));
    assert_eq!(parse_value(b"9223372036"), Ok(9_223_372_036_000_000_000));
    assert_eq!(parse_value(b"00000000000000000000000000001.5"), Ok(15 * T));
    assert_eq!(
        parse_value(b"123456789012345678901234567890.0"),
        Err(ParseError::UnsupportedValue)
    );
}

#[test]
fn units_are_billionths() {
    assert_eq!(UNITS_PER_ONE, 1_000_000_000);
    assert_eq!(UNITS_PER_TENTH, 100_000_000);
    assert_eq!(parse_value(b"1"), Ok(UNITS_PER_ONE as i64));
    assert_eq!(parse_value(b"0.1"), Ok(UNITS_PER_TENTH as i64));
}

#[test]
fn renders_one_decimal_place() {
    assert_eq!(rendered(100), "10.0");
    assert_eq!(rendered(55), "5.5");
    assert_eq!(rendered(-32), "-3.2");
    assert_eq!(rendered(-11), "-1.1");
    assert_eq!(rendered(0), "0.0");
    assert_eq!(rendered(5), "0.5");
    assert_eq!(rendered(-5), "-0.5");
    assert_eq!(rendered(12345), "1234.5");
}

#[test]
fn renders_the_ends_of_the_range() {
    assert_eq!(rendered(i64::MAX), "922337203685477580.7");
    assert_eq!(rendered(i64::MIN), "-922337203685477580.8");
}

#[test]
fn rendering_appends() {
    let mut out = b"x=".to_vec();
    write_tenths(-7, &mut out);
    assert_eq!(out, b"x=-0.7".to_vec());
}

#[test]
fn digits_have_no_leading_zeros() {
    let mut out = Vec::new();
    write_digits(0, &mut out);
    out.push(b' ');
    write_digits(9, &mut out);
    out.push(b' ');
    write_digits(10, &mut out);
    out.push(b' ');
    write_digits(u64::MAX, &mut out);
    assert_eq!(String::from_utf8(out).unwrap(), "0 9 10 18446744073709551615");
}

#[test]
fn parse_reads_back_what_render_writes() {
    let ends = i64::MAX / T;
    for tenths in [0, 1, -1, 9, 10, -10, 99, 100, 12345, -98765, ends, -ends] {
        assert_eq!(parse_value(rendered(tenths).as_bytes()), Ok(tenths * T));
    }
}

#[test]
fn errors_describe_themselves() {
    assert_eq!(ParseError::MissingSeparator.describe(), "record without a separator");
    assert_eq!(ParseError::MalformedValue.describe(), "value is not a decimal number");
    assert_eq!(
        ParseError::UnsupportedValue.describe(),
        "value is too large or too fine to be held"
    );
}
