use json_parser_rs::formatter::format_json;
use json_parser_rs::parser::{parse_json, parse_json_within};
use json_parser_rs::value::{JsonValue, Number};

#[test]
fn formatter_test() {
    let input = r#"{"foo":"bar","other":[1,2,3,{"baz":null}]}"#;
    let json = parse_json(input).unwrap();
    let formatted = format_json(&json, 2, 1, false);
    let expected = "{\n  \"foo\": \"bar\",\n  \"other\": [\n    1,\n    2,\n    3,\n    {\n      \"baz\": null\n    }\n  ]\n}";
    assert_eq!(formatted, expected);
}

#[test]
fn formatter_indent_level_test() {
    let input = r#"{"foo":"bar","other":[1,2,3,{"baz":null}]}"#;
    let json = parse_json(input).unwrap();
    let formatted = format_json(&json, 4, 1, false);
    let expected = "{\n    \"foo\": \"bar\",\n    \"other\": [\n        1,\n        2,\n        3,\n        {\n            \"baz\": null\n        }\n    ]\n}";
    assert_eq!(formatted, expected);
}

#[test]
fn formatter_compact_test() {
    let input = "{\n    \"foo\": \"bar\",\n    \"other\": [\n        1,\n        2,\n        3,\n        {\n            \"baz\": null\n        }\n    ]\n}";
    let json = parse_json(input).unwrap();
    let formatted = format_json(&json, 2, 1, true);
    let expected = "{\"foo\":\"bar\",\"other\":[1,2,3,{\"baz\":null}]}";
    assert_eq!(formatted, expected);
}

#[test]
fn pretty_text_of_a_small_object() {
    let json = parse_json("{\"foo\":\"bar\",\"n\":[1,2]}").unwrap();
    assert_eq!(
        format_json(&json, 2, 1, false),
        "{\n  \"foo\": \"bar\",\n  \"n\": [\n    1,\n    2\n  ]\n}"
    );
}

#[test]
fn scalars_read_the_same_in_both_modes() {
    let values = vec![
        (JsonValue::Null, "null"),
        (JsonValue::Bool(true), "true"),
        (JsonValue::Bool(false), "false"),
        (JsonValue::String("a b"), "\"a b\""),
        (JsonValue::Number(Number::Int(0)), "0"),
        (JsonValue::Number(Number::Int(1203)), "1203"),
        (JsonValue::Number(Number::Int(-45)), "-45"),
        (JsonValue::Number(Number::Int(i32::MAX)), "2147483647"),
        (JsonValue::Number(Number::Int(i32::MIN)), "-2147483648"),
        (JsonValue::Number(Number::Float("1.50e3")), "1.50e3"),
    ];
    for (value, text) in values.iter() {
        assert_eq!(format_json(value, 2, 1, true), *text);
        assert_eq!(format_json(value, 2, 1, false), *text);
        assert_eq!(format_json(value, 7, 0, false), *text);
    }
}

#[test]
fn compact_text_has_no_whitespace() {
    let json = JsonValue::Object(vec![
        ("a", JsonValue::Array(vec![])),
        ("b", JsonValue::Object(vec![])),
        ("c", JsonValue::Array(vec![JsonValue::Null, JsonValue::Bool(true)])),
    ]);
    assert_eq!(
        format_json(&json, 2, 1, true),
        "{\"a\":[],\"b\":{},\"c\":[null,true]}"
    );
    assert_eq!(
        format_json(&json, 9, 5, true),
        "{\"a\":[],\"b\":{},\"c\":[null,true]}"
    );
}

#[test]
fn empty_containers_keep_an_indented_empty_line() {
    assert_eq!(format_json(&JsonValue::Array(vec![]), 2, 1, false), "[\n  \n]");
    assert_eq!(format_json(&JsonValue::Object(vec![]), 2, 1, false), "{\n  \n}");
    assert_eq!(format_json(&JsonValue::Array(vec![]), 3, 2, false), "[\n      \n   ]");
}

#[test]
fn indentation_is_width_times_level() {
    let json = JsonValue::Array(vec![JsonValue::Array(vec![JsonValue::Null])]);
    assert_eq!(
        format_json(&json, 3, 2, false),
        "[\n      [\n         null\n      ]\n   ]"
    );
    assert_eq!(format_json(&json, 0, 1, false), "[\n[\nnull\n]\n]");
}

#[test]
fn text_outside_ascii_is_kept() {
    let json = JsonValue::Array(vec![JsonValue::String("h\u{e9} \u{4e16}")]);
    assert_eq!(format_json(&json, 2, 1, true), "[\"h\u{e9} \u{4e16}\"]");
}

#[test]
fn compact_text_is_read_back() {
    let value = JsonValue::Object(vec![
        ("name", JsonValue::String("x y")),
        (
            "list",
            JsonValue::Array(vec![
                JsonValue::Number(Number::Int(0)),
                JsonValue::Number(Number::Int(2147483647)),
                JsonValue::Number(Number::Float("-1.5e-3")),
                JsonValue::Number(Number::Float("2.0")),
                JsonValue::Null,
                JsonValue::Bool(false),
                JsonValue::Array(vec![]),
                JsonValue::Object(vec![]),
            ]),
        ),
        ("name", JsonValue::Bool(true)),
    ]);
    let text = format_json(&value, 2, 1, true);
    assert_eq!(parse_json(&text), Ok(value));
}

#[test]
fn compact_formatting_is_idempotent() {
    let value = JsonValue::Array(vec![
        JsonValue::Object(vec![("k", JsonValue::Number(Number::Int(12)))]),
        JsonValue::String(""),
        JsonValue::Number(Number::Float("7e0")),
    ]);
    let first = format_json(&value, 2, 1, true);
    let read = parse_json(&first).unwrap();
    let second = format_json(&read, 2, 1, true);
    assert_eq!(first, second);
    assert_eq!(first, "[{\"k\":12},\"\",7e0]");
}

#[test]
fn pretty_text_is_read_back() {
    let value = parse_json("{\"a\":[1,[],{}],\"b\":{\"c\":\"d\"}}").unwrap();
    let pretty = format_json(&value, 4, 1, false);
    assert_eq!(parse_json(&pretty), Ok(value));
}

#[test]
fn negative_integer_is_read_back_as_a_float() {
    let text = format_json(&JsonValue::Number(Number::Int(-5)), 2, 1, true);
    assert_eq!(text, "-5");
    assert_eq!(parse_json(&text), Ok(JsonValue::Number(Number::Float("-5"))));
}

#[test]
fn value_at_the_depth_limit_is_read_back() {
    let value = JsonValue::Array(vec![JsonValue::Array(vec![])]);
    let text = format_json(&value, 2, 1, true);
    assert_eq!(parse_json_within(&text, 2), Ok(value));
}
