use json_parser_rs::lexical::{parse_char, parse_string, parse_string_literal, skip_whitespace};

#[test]
fn test_parse_char() {
    let input = "hi".as_bytes();
    assert_eq!(parse_char(input, b'h'), Some(("i".as_bytes(), b'h')));
    let input = "i".as_bytes();
    assert_eq!(parse_char(input, b'i'), Some(("".as_bytes(), b'i')));
    let input = "i".as_bytes();
    assert_eq!(parse_char(input, b't'), None);
    let input = "".as_bytes();
    assert_eq!(parse_char(input, b't'), None);
}

#[test]
fn test_parse_string() {
    let input = b"nullable";
    assert_eq!(
        parse_string(input, b"null"),
        Some(("able".as_bytes(), "null".as_bytes()))
    );
    let input = "nulable".as_bytes();
    assert_eq!(parse_string(input, b"null"), None);
    let input = "".as_bytes();
    assert_eq!(parse_string(input, b"null"), None);
}

#[test]
fn parse_string_accepts_the_empty_pattern() {
    assert_eq!(
        parse_string(b"abc", b""),
        Some(("abc".as_bytes(), "".as_bytes()))
    );
}

#[test]
fn parse_string_rejects_a_pattern_longer_than_the_input() {
    assert_eq!(parse_string(b"nul", b"null"), None);
}

#[test]
fn skip_whitespace_drops_the_four_whitespace_bytes() {
    assert_eq!(skip_whitespace(b" \t\r\n x "), "x ".as_bytes());
    assert_eq!(skip_whitespace(b"x"), "x".as_bytes());
    assert_eq!(skip_whitespace(b"   "), "".as_bytes());
    assert_eq!(skip_whitespace(b""), "".as_bytes());
}

#[test]
fn skip_whitespace_keeps_other_control_bytes() {
    assert_eq!(skip_whitespace(b"\x0cx"), "\x0cx".as_bytes());
}

#[test]
fn string_literal_is_taken_verbatim() {
    assert_eq!(
        parse_string_literal(b"\"a\\nb\" rest"),
        Some((" rest".as_bytes(), "a\\nb"))
    );
    assert_eq!(parse_string_literal(b"\"\""), Some(("".as_bytes(), "")));
}

#[test]
fn string_literal_keeps_text_outside_ascii() {
    let input = "\"h\u{e9}llo \u{4e16}\u{754c}\",".as_bytes();
    assert_eq!(
        parse_string_literal(input),
        Some((",".as_bytes(), "h\u{e9}llo \u{4e16}\u{754c}"))
    );
}

#[test]
fn string_literal_needs_both_quotes() {
    assert_eq!(parse_string_literal(b"\"open"), None);
    assert_eq!(parse_string_literal(b"closed\""), None);
    assert_eq!(parse_string_literal(b""), None);
}

#[test]
fn string_literal_refuses_bytes_that_are_no_text() {
    assert_eq!(parse_string_literal(b"\"\xff\xfe\""), None);
    assert_eq!(parse_string_literal(b"\"\xc3\""), None);
}
