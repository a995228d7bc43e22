use json_parser_rs::error::ParseError;
use json_parser_rs::lexical::parse_string_literal;
use json_parser_rs::parser::{
    parse_array, parse_json, parse_json_array, parse_json_bool, parse_json_null,
    parse_json_object, parse_json_string, parse_json_value, parse_json_within, parse_object,
    DEPTH_LIMIT,
};
use json_parser_rs::value::{JsonValue, Number};

#[test]
fn test_parse_bool() {
    assert_eq!(
        parse_json_bool(b"true").ok(),
        Some(("".as_bytes(), JsonValue::Bool(true)))
    );
    assert_eq!(
        parse_json_bool(b"false").ok(),
        Some(("".as_bytes(), JsonValue::Bool(false)))
    );
    assert_eq!(parse_json_bool(b"null").ok(), None);
}

#[test]
fn test_parse_string_literal() {
    assert_eq!(
        parse_json_string(b"\"hello world123\": true").ok(),
        Some((": true".as_bytes(), JsonValue::String("hello world123")))
    );
}

#[test]
fn test_parse_json_object() {
    assert_eq!(
        parse_object(
            r#"{
        "test": false,
        "friends": [1, 2, true],
        "hi": {
            "another": "one"
        }
    }"#
            .as_bytes(),
            DEPTH_LIMIT,
        )
        .ok(),
        Some((
            "".as_bytes(),
            JsonValue::Object(vec![
                ("test", JsonValue::Bool(false)),
                (
                    "friends",
                    JsonValue::Array(vec![
                        JsonValue::Number(Number::Int(1)),
                        JsonValue::Number(Number::Int(2)),
                        JsonValue::Bool(true)
                    ])
                ),
                (
                    "hi",
                    JsonValue::Object(vec![("another", JsonValue::String("one"))])
                )
            ])
        ))
    )
}

#[test]
fn test_parse_json_array() {
    assert_eq!(
        parse_array(b"[ \"hello\" , true , null ]", DEPTH_LIMIT).ok(),
        Some((
            "".as_bytes(),
            JsonValue::Array(vec![
                JsonValue::String("hello"),
                JsonValue::Bool(true),
                JsonValue::Null
            ])
        ))
    );

    let input = r#"["hello",true,null, [1, 2, 3, true, [false] ]]"#;
    let res = parse_array(input.as_bytes(), DEPTH_LIMIT).ok();
    assert_eq!(
        res,
        Some((
            "".as_bytes(),
            JsonValue::Array(vec![
                JsonValue::String("hello"),
                JsonValue::Bool(true),
                JsonValue::Null,
                JsonValue::Array(vec![
                    JsonValue::Number(Number::Int(1)),
                    JsonValue::Number(Number::Int(2)),
                    JsonValue::Number(Number::Int(3)),
                    JsonValue::Bool(true),
                    JsonValue::Array(vec![JsonValue::Bool(false)])
                ])
            ])
        ))
    )
}

#[test]
fn parse_null_test() {
    assert_eq!(parse_json_null(b"null"), Ok(("".as_bytes(), JsonValue::Null)));
    assert_eq!(
        parse_json_null(b"nullable"),
        Ok(("able".as_bytes(), JsonValue::Null))
    );
    assert!(parse_json_null(b"ullable").is_err());
    assert!(parse_json_null(b"").is_err());
    assert!(parse_json_null(b"testnull").is_err());
}

#[test]
fn parse_bool_test() {
    assert_eq!(
        parse_json_bool(b"true"),
        Ok(("".as_bytes(), JsonValue::Bool(true)))
    );
    assert_eq!(
        parse_json_bool(b"false"),
        Ok(("".as_bytes(), JsonValue::Bool(false)))
    );
    assert_eq!(
        parse_json_bool(b"falsey"),
        Ok(("y".as_bytes(), JsonValue::Bool(false)))
    );
    assert!(parse_json_bool(b"hello").is_err());
}

#[test]
fn parse_json_object_test() {
    let v = JsonValue::Object(vec![
        ("test", JsonValue::String("foo")),
        (
            "bar",
            JsonValue::Object(vec![("test", JsonValue::String("test"))]),
        ),
        (
            "friends",
            JsonValue::Array(vec![
                JsonValue::Number(Number::Int(123)),
                JsonValue::Number(Number::Float("1.23")),
                JsonValue::Object(vec![("bar", JsonValue::String("baz"))]),
            ]),
        ),
        (
            "another",
            JsonValue::Object(vec![
                ("one", JsonValue::Array(vec![JsonValue::Null])),
                ("two", JsonValue::Bool(false)),
            ]),
        ),
    ]);
    assert_eq!(
        parse_json_object(
            r#"{
                    "test": "foo",
                    "bar": {
                        "test": "test"
                    },

                    "friends":     [123, 1.23, {
                        "bar": "baz"
                    }],

                    "another": {
                        "one": [null  ],
                        "two": false
                    }
            }"#
            .as_bytes(),
            DEPTH_LIMIT,
        ),
        Ok(("".as_bytes(), v))
    );
}

#[test]
fn parse_json_array_test() {
    assert_eq!(
        parse_json_array(b"[]", DEPTH_LIMIT),
        Ok(("".as_bytes(), JsonValue::Array(vec![])))
    );
    assert_eq!(
        parse_json_array(
            b"[    123 , 1.23, true, \"hello world\",  [   false  ]   ]",
            DEPTH_LIMIT,
        ),
        Ok((
            "".as_bytes(),
            JsonValue::Array(vec![
                JsonValue::Number(Number::Int(123)),
                JsonValue::Number(Number::Float("1.23")),
                JsonValue::Bool(true),
                JsonValue::String("hello world"),
                JsonValue::Array(vec![JsonValue::Bool(false)])
            ])
        ))
    )
}

#[test]
fn parse_string_literal_test() {
    assert_eq!(
        parse_json_string(b"\"hello world 123\"true"),
        Ok(("true".as_bytes(), JsonValue::String("hello world 123")))
    );
    assert!(parse_json_string(b"\"hello world 123true").is_err());
    assert!(parse_string_literal(b"\"hello world 123true").is_none());
}

#[test]
fn object_keeps_the_order_of_its_keys() {
    assert_eq!(
        parse_json("{\"a\":1,\"b\":2}"),
        Ok(JsonValue::Object(vec![
            ("a", JsonValue::Number(Number::Int(1))),
            ("b", JsonValue::Number(Number::Int(2))),
        ]))
    );
    assert_eq!(
        parse_json("{\"b\":2,\"a\":1}"),
        Ok(JsonValue::Object(vec![
            ("b", JsonValue::Number(Number::Int(2))),
            ("a", JsonValue::Number(Number::Int(1))),
        ]))
    );
}

#[test]
fn object_keeps_a_repeated_key() {
    assert_eq!(
        parse_json("{\"a\":1,\"a\":2}"),
        Ok(JsonValue::Object(vec![
            ("a", JsonValue::Number(Number::Int(1))),
            ("a", JsonValue::Number(Number::Int(2))),
        ]))
    );
}

#[test]
fn integers_and_floats_are_told_apart() {
    assert_eq!(parse_json("123"), Ok(JsonValue::Number(Number::Int(123))));
    assert_eq!(
        parse_json("123.0"),
        Ok(JsonValue::Number(Number::Float("123.0")))
    );
    assert_eq!(parse_json("1e2"), Ok(JsonValue::Number(Number::Float("1e2"))));
}

#[test]
fn malformed_texts_are_refused() {
    assert_eq!(parse_json("[1,2,]"), Err(ParseError::MalformedLiteral));
    assert_eq!(parse_json("{\"a\":1"), Err(ParseError::MalformedLiteral));
    assert_eq!(parse_json("tru"), Err(ParseError::MalformedLiteral));
    assert_eq!(parse_json(""), Err(ParseError::MalformedLiteral));
    assert_eq!(parse_json("   "), Err(ParseError::MalformedLiteral));
    assert_eq!(parse_json("{\"a\":1,}"), Err(ParseError::MalformedLiteral));
    assert_eq!(parse_json("[1 2]"), Err(ParseError::MalformedLiteral));
    assert_eq!(parse_json("{1:2}"), Err(ParseError::MalformedLiteral));
    assert_eq!(parse_json("{\"a\" 1}"), Err(ParseError::MalformedLiteral));
    assert_eq!(parse_json("[,1]"), Err(ParseError::MalformedLiteral));
    assert_eq!(parse_json("\"open"), Err(ParseError::MalformedLiteral));
    assert_eq!(parse_json("[1"), Err(ParseError::MalformedLiteral));
}

#[test]
fn text_after_the_value_is_refused() {
    assert_eq!(parse_json("1 2"), Err(ParseError::UnexpectedTrailingInput));
    assert_eq!(parse_json("nullx"), Err(ParseError::UnexpectedTrailingInput));
    assert_eq!(parse_json("[1]]"), Err(ParseError::UnexpectedTrailingInput));
    assert_eq!(parse_json("{} ,"), Err(ParseError::UnexpectedTrailingInput));
    assert_eq!(parse_json("1e"), Err(ParseError::UnexpectedTrailingInput));
}

#[test]
fn whitespace_around_the_value_is_accepted() {
    assert_eq!(parse_json(" \n\t 1 \r\n"), Ok(JsonValue::Number(Number::Int(1))));
    assert_eq!(parse_json("  null"), Ok(JsonValue::Null));
    assert_eq!(parse_json("true  "), Ok(JsonValue::Bool(true)));
}

#[test]
fn integer_overflow_is_reported_from_any_depth() {
    assert_eq!(
        parse_json("4294967296"),
        Err(ParseError::NumericConversionOverflow)
    );
    assert_eq!(
        parse_json("[1, {\"a\": [99999999999]}]"),
        Err(ParseError::NumericConversionOverflow)
    );
}

#[test]
fn nesting_is_limited() {
    assert_eq!(parse_json_within("1", 0), Ok(JsonValue::Number(Number::Int(1))));
    assert_eq!(parse_json_within("[]", 0), Err(ParseError::RecursionLimit));
    assert_eq!(parse_json_within("{}", 0), Err(ParseError::RecursionLimit));
    assert_eq!(parse_json_within("[]", 1), Ok(JsonValue::Array(vec![])));
    assert_eq!(parse_json_within("[[]]", 1), Err(ParseError::RecursionLimit));
    assert_eq!(
        parse_json_within("[{\"a\":[]}]", 2),
        Err(ParseError::RecursionLimit)
    );
    assert_eq!(
        parse_json_within("[{\"a\":[]}]", 3),
        Ok(JsonValue::Array(vec![JsonValue::Object(vec![(
            "a",
            JsonValue::Array(vec![])
        )])]))
    );
}

#[test]
fn default_limit_allows_128_levels() {
    let fits = format!("{}{}", "[".repeat(128), "]".repeat(128));
    assert!(parse_json(&fits).is_ok());
    let too_deep = format!("{}{}", "[".repeat(129), "]".repeat(129));
    assert_eq!(parse_json(&too_deep), Err(ParseError::RecursionLimit));
    let very_deep = "[".repeat(100_000);
    assert_eq!(parse_json(&very_deep), Err(ParseError::RecursionLimit));
}

#[test]
fn nested_arrays_keep_their_shape() {
    assert_eq!(
        parse_json("[1,[2,[3,[4]]]]"),
        Ok(JsonValue::Array(vec![
            JsonValue::Number(Number::Int(1)),
            JsonValue::Array(vec![
                JsonValue::Number(Number::Int(2)),
                JsonValue::Array(vec![
                    JsonValue::Number(Number::Int(3)),
                    JsonValue::Array(vec![JsonValue::Number(Number::Int(4))]),
                ]),
            ]),
        ]))
    );
}

#[test]
fn whitespace_around_punctuation_changes_nothing() {
    let plain = parse_json("{\"a\":[1,2,{\"b\":null}],\"c\":\"x, y\"}");
    let spaced = parse_json(
        " { \"a\" \t:\n[ 1 ,\r\n 2 , { \"b\" : null } ] , \"c\" : \"x, y\" } ",
    );
    assert!(plain.is_ok());
    assert_eq!(plain, spaced);
}

#[test]
fn whitespace_inside_a_string_is_kept() {
    assert_eq!(parse_json("\" a \""), Ok(JsonValue::String(" a ")));
    assert_ne!(parse_json("\"a\""), parse_json("\" a\""));
}

#[test]
fn value_takes_padding_with_containers_only() {
    assert_eq!(
        parse_json_value(b"  [1]  ,", 4),
        Ok((",".as_bytes(), JsonValue::Array(vec![JsonValue::Number(Number::Int(1))])))
    );
    assert_eq!(
        parse_json_value(b"1  ,", 4),
        Ok(("  ,".as_bytes(), JsonValue::Number(Number::Int(1))))
    );
    assert_eq!(parse_json_value(b"  1", 4), Err(ParseError::MalformedLiteral));
}

#[test]
fn array_and_object_start_at_the_first_byte() {
    assert_eq!(parse_array(b" []", 4), Err(ParseError::MalformedLiteral));
    assert_eq!(parse_object(b" {}", 4), Err(ParseError::MalformedLiteral));
    assert_eq!(
        parse_array(b"[] x", 4),
        Ok((" x".as_bytes(), JsonValue::Array(vec![])))
    );
    assert_eq!(
        parse_object(b"{ } x", 4),
        Ok((" x".as_bytes(), JsonValue::Object(vec![])))
    );
    assert_eq!(
        parse_json_object(b" { } x", 4),
        Ok(("x".as_bytes(), JsonValue::Object(vec![])))
    );
}
