use json_parser_rs::error::ParseError;
use json_parser_rs::number::{parse_float, parse_integer, parse_number, recognize_integer};
use json_parser_rs::value::{JsonValue, Number};

#[test]
fn parse_number_test() {
    assert_eq!(
        parse_float(b"1.23"),
        Ok(("".as_bytes(), JsonValue::Number(Number::Float("1.23"))))
    );
    assert_eq!(
        parse_float(b"1e8"),
        Ok(("".as_bytes(), JsonValue::Number(Number::Float("1e8"))))
    );
    assert_eq!(
        parse_float(b"123"),
        Ok(("".as_bytes(), JsonValue::Number(Number::Float("123"))))
    );
    assert_eq!(
        parse_integer(b"123"),
        Ok(("".as_bytes(), JsonValue::Number(Number::Int(123))))
    );
}

#[test]
fn test_parse_number() {
    assert_eq!(
        parse_number(b"12345").ok(),
        Some(("".as_bytes(), JsonValue::Number(Number::Int(12345))))
    );
}

#[test]
fn float_literal_takes_sign_fraction_and_exponent() {
    assert_eq!(
        parse_float(b"-12.5e+3,"),
        Ok((",".as_bytes(), JsonValue::Number(Number::Float("-12.5e+3"))))
    );
    assert_eq!(
        parse_float(b"+7]"),
        Ok(("]".as_bytes(), JsonValue::Number(Number::Float("+7"))))
    );
    assert_eq!(
        parse_float(b"123E-02"),
        Ok(("".as_bytes(), JsonValue::Number(Number::Float("123E-02"))))
    );
}

#[test]
fn float_literal_may_start_or_end_with_the_dot() {
    assert_eq!(
        parse_float(b".5"),
        Ok(("".as_bytes(), JsonValue::Number(Number::Float(".5"))))
    );
    assert_eq!(
        parse_float(b"1."),
        Ok(("".as_bytes(), JsonValue::Number(Number::Float("1."))))
    );
    assert_eq!(
        parse_float(b"1.e5x"),
        Ok(("x".as_bytes(), JsonValue::Number(Number::Float("1.e5"))))
    );
    assert_eq!(
        parse_float(b"-.5e-3"),
        Ok(("".as_bytes(), JsonValue::Number(Number::Float("-.5e-3"))))
    );
}

#[test]
fn float_literal_stops_at_the_first_foreign_byte() {
    assert_eq!(
        parse_float(b"123K-01"),
        Ok(("K-01".as_bytes(), JsonValue::Number(Number::Float("123"))))
    );
    assert_eq!(
        parse_float(b"1.2.3"),
        Ok((".3".as_bytes(), JsonValue::Number(Number::Float("1.2"))))
    );
    assert_eq!(
        parse_float(b"1_000"),
        Ok(("_000".as_bytes(), JsonValue::Number(Number::Float("1"))))
    );
}

#[test]
fn float_literal_needs_digits() {
    assert_eq!(parse_float(b""), Err(ParseError::MalformedLiteral));
    assert_eq!(parse_float(b"."), Err(ParseError::MalformedLiteral));
    assert_eq!(parse_float(b"+"), Err(ParseError::MalformedLiteral));
    assert_eq!(parse_float(b"-"), Err(ParseError::MalformedLiteral));
    assert_eq!(parse_float(b"-."), Err(ParseError::MalformedLiteral));
    assert_eq!(parse_float(b"e5"), Err(ParseError::MalformedLiteral));
    assert_eq!(parse_float(b"abc"), Err(ParseError::MalformedLiteral));
}

#[test]
fn exponent_without_digits_fails_the_float() {
    assert_eq!(parse_float(b"1e"), Err(ParseError::MalformedLiteral));
    assert_eq!(parse_float(b"1e+"), Err(ParseError::MalformedLiteral));
    assert_eq!(parse_float(b"1.5Ex"), Err(ParseError::MalformedLiteral));
}

#[test]
fn integer_literal_takes_digits_and_separators() {
    assert_eq!(
        recognize_integer(b"1_000__,"),
        Some((",".as_bytes(), "1_000__".as_bytes()))
    );
    assert_eq!(recognize_integer(b"_1"), None);
    assert_eq!(recognize_integer(b"-1"), None);
    assert_eq!(recognize_integer(b""), None);
}

#[test]
fn integer_separators_are_left_out_of_the_value() {
    assert_eq!(
        parse_integer(b"1_000"),
        Ok(("".as_bytes(), JsonValue::Number(Number::Int(1000))))
    );
    assert_eq!(
        parse_integer(b"007 "),
        Ok((" ".as_bytes(), JsonValue::Number(Number::Int(7))))
    );
}

#[test]
fn integer_above_the_limit_is_an_error() {
    assert_eq!(
        parse_integer(b"2147483647"),
        Ok(("".as_bytes(), JsonValue::Number(Number::Int(2147483647))))
    );
    assert_eq!(
        parse_integer(b"2147483648"),
        Err(ParseError::NumericConversionOverflow)
    );
    assert_eq!(
        parse_integer(b"99999999999999999999999999"),
        Err(ParseError::NumericConversionOverflow)
    );
    assert_eq!(
        parse_integer(b"0000000000000000000000000001"),
        Ok(("".as_bytes(), JsonValue::Number(Number::Int(1))))
    );
}

#[test]
fn integer_needs_a_digit() {
    assert_eq!(parse_integer(b"x"), Err(ParseError::MalformedLiteral));
    assert_eq!(parse_integer(b""), Err(ParseError::MalformedLiteral));
}

#[test]
fn number_is_a_float_only_with_sign_dot_or_exponent() {
    assert_eq!(
        parse_number(b"123"),
        Ok(("".as_bytes(), JsonValue::Number(Number::Int(123))))
    );
    assert_eq!(
        parse_number(b"123.0"),
        Ok(("".as_bytes(), JsonValue::Number(Number::Float("123.0"))))
    );
    assert_eq!(
        parse_number(b"1e2"),
        Ok(("".as_bytes(), JsonValue::Number(Number::Float("1e2"))))
    );
    assert_eq!(
        parse_number(b"-5"),
        Ok(("".as_bytes(), JsonValue::Number(Number::Float("-5"))))
    );
    assert_eq!(
        parse_number(b"1_000"),
        Ok(("".as_bytes(), JsonValue::Number(Number::Int(1000))))
    );
}

#[test]
fn number_falls_back_to_the_integer_when_the_float_fails() {
    assert_eq!(
        parse_number(b"1e"),
        Ok(("e".as_bytes(), JsonValue::Number(Number::Int(1))))
    );
    assert_eq!(
        parse_number(b"99999999999"),
        Err(ParseError::NumericConversionOverflow)
    );
    assert_eq!(parse_number(b"x"), Err(ParseError::MalformedLiteral));
}
