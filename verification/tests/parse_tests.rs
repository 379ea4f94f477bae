//! Tests for the temperature and percentage text parsers.

use fan_curve::parse::{parse_temp_string, percentage_in_range, PercentError, TempParseError};

#[test]
fn test_parse_temp_string_valid_integer() {
    // 42000 millidegree Celsius = 42 Celsius
    assert_eq!(parse_temp_string("42000").unwrap(), 42);
}

#[test]
fn test_parse_temp_string_valid_float() {
    // 42500 millidegree Celsius = 42.5 Celsius, rounds to 43
    assert_eq!(parse_temp_string("42500").unwrap(), 43);
}

#[test]
fn test_parse_temp_string_zero() {
    assert_eq!(parse_temp_string("0").unwrap(), 0);
}

#[test]
fn test_parse_temp_string_negative() {
    let result = parse_temp_string("-1000");
    assert!(result.is_err());
}

#[test]
fn test_parse_temp_string_non_numeric() {
    let result = parse_temp_string("notanumber");
    assert!(result.is_err());
}

#[test]
fn test_parse_temp_string_overflow() {
    // 3000000 millidegree Celsius = 3000 Celsius, out of u8 range
    let result = parse_temp_string("3000000");
    assert!(result.is_err());
}

#[test]
fn test_parse_temp_rounding_boundaries() {
    assert_eq!(parse_temp_string("42499").unwrap(), 42);
    assert_eq!(parse_temp_string("499").unwrap(), 0);
    assert_eq!(parse_temp_string("500").unwrap(), 1);
    assert_eq!(parse_temp_string("255499").unwrap(), 255);
    assert_eq!(
        parse_temp_string("255500").unwrap_err(),
        TempParseError::OutOfRange
    );
}

#[test]
fn test_parse_temp_small_negative_rounds_to_zero() {
    // -499 millidegrees rounds to zero degrees and is accepted.
    assert_eq!(parse_temp_string("-499").unwrap(), 0);
    assert_eq!(parse_temp_string("-0").unwrap(), 0);
    // -500 rounds away from zero, to a negative degree.
    assert_eq!(
        parse_temp_string("-500").unwrap_err(),
        TempParseError::OutOfRange
    );
}

#[test]
fn test_parse_temp_fixed_point_forms() {
    // Fractions of a millidegree never move the rounded result.
    assert_eq!(parse_temp_string("42500.4").unwrap(), 43);
    assert_eq!(parse_temp_string("42499.9").unwrap(), 42);
    assert_eq!(parse_temp_string("+42000").unwrap(), 42);
    assert_eq!(parse_temp_string("1.").unwrap(), 0);
    assert_eq!(parse_temp_string(".5").unwrap(), 0);
}

#[test]
fn test_parse_temp_malformed_text() {
    assert_eq!(
        parse_temp_string("").unwrap_err(),
        TempParseError::NotANumber
    );
    assert_eq!(
        parse_temp_string(".").unwrap_err(),
        TempParseError::NotANumber
    );
    assert_eq!(
        parse_temp_string("+").unwrap_err(),
        TempParseError::NotANumber
    );
    assert_eq!(
        parse_temp_string("1.2.3").unwrap_err(),
        TempParseError::NotANumber
    );
    assert_eq!(
        parse_temp_string("42e3").unwrap_err(),
        TempParseError::NotANumber
    );
    assert_eq!(
        parse_temp_string("4 2").unwrap_err(),
        TempParseError::NotANumber
    );
}

#[test]
fn test_percentage_accepts_range() {
    assert_eq!(percentage_in_range("1").unwrap(), 1);
    assert_eq!(percentage_in_range("42").unwrap(), 42);
    assert_eq!(percentage_in_range("100").unwrap(), 100);
    assert_eq!(percentage_in_range("+77").unwrap(), 77);
    assert_eq!(percentage_in_range("042").unwrap(), 42);
}

#[test]
fn test_percentage_out_of_range() {
    assert_eq!(
        percentage_in_range("0").unwrap_err(),
        PercentError::OutOfRange
    );
    assert_eq!(
        percentage_in_range("101").unwrap_err(),
        PercentError::OutOfRange
    );
}

#[test]
fn test_percentage_not_a_number() {
    assert_eq!(
        percentage_in_range("abc").unwrap_err(),
        PercentError::NotANumber
    );
    assert_eq!(
        percentage_in_range("").unwrap_err(),
        PercentError::NotANumber
    );
    assert_eq!(
        percentage_in_range("-5").unwrap_err(),
        PercentError::NotANumber
    );
    assert_eq!(
        percentage_in_range("4.2").unwrap_err(),
        PercentError::NotANumber
    );
    // Wider than the machine's word: the number itself fails to parse.
    assert_eq!(
        percentage_in_range("99999999999999999999999").unwrap_err(),
        PercentError::NotANumber
    );
}
