use vstd::prelude::*;
use vstd::string::*;
use crate::error::ParseError;
use crate::grammar::{
    array_of, array_production, bool_production, document, items_production, lemma_after_value,
    lemma_member_rest, lemma_string_rest, lemma_value_rest, members_production, null_production,
    object_of, object_production, padded_array, padded_object, string_production, value_production,
    ParsedItems, ParsedMembers,
};
use crate::lexical::{parse_char, parse_string, parse_string_literal, skip_whitespace};
use crate::number::{parse_number, parsed_as};
use crate::roundtrip::{is_denotable, law_parsed_is_denotable};
use crate::text::{
    false_bytes, null_bytes, true_bytes, CLOSE_BRACE, CLOSE_BRACKET, COLON, COMMA, OPEN_BRACE,
    OPEN_BRACKET,
};
use crate::value::{member_view, JsonModel, JsonValue};

verus! {

/// How deep arrays and objects may nest in a text that `parse_json` accepts.
pub const DEPTH_LIMIT: usize = 128;

/// The items of an array with those read earlier put before them.
pub open spec fn items_after(read: Seq<JsonModel>, then: ParsedItems) -> ParsedItems {
    match then {
        Ok((rest, items)) => Ok((rest, read + items)),
        Err(e) => Err(e),
    }
}

/// The members of an object with those read earlier put before them.
pub open spec fn members_after(
    read: Seq<(Seq<u8>, JsonModel)>,
    then: ParsedMembers,
) -> ParsedMembers {
    match then {
        Ok((rest, members)) => Ok((rest, read + members)),
        Err(e) => Err(e),
    }
}

/// Reads the word `null` at the start of `input`.
pub fn parse_json_null<'a>(input: &'a [u8]) -> (r: Result<(&'a [u8], JsonValue<'a>), ParseError>)
    ensures
        parsed_as(r, null_production(input@)),
{
    match parse_string(input, null_bytes()) {
        Some((rest, _)) => Ok((rest, JsonValue::Null)),
        None => Err(ParseError::MalformedLiteral),
    }
}

/// Reads the word `false` or the word `true` at the start of `input`.
pub fn parse_json_bool<'a>(input: &'a [u8]) -> (r: Result<(&'a [u8], JsonValue<'a>), ParseError>)
    ensures
        parsed_as(r, bool_production(input@)),
{
    if let Some((rest, _)) = parse_string(input, false_bytes()) {
        Ok((rest, JsonValue::Bool(false)))
    } else if let Some((rest, _)) = parse_string(input, true_bytes()) {
        Ok((rest, JsonValue::Bool(true)))
    } else {
        Err(ParseError::MalformedLiteral)
    }
}

/// Reads a string literal at the start of `input` as a value.
pub fn parse_json_string<'a>(input: &'a [u8]) -> (r: Result<
    (&'a [u8], JsonValue<'a>),
    ParseError,
>)
    ensures
        parsed_as(r, string_production(input@)),
{
    match parse_string_literal(input) {
        Some((rest, text)) => Ok((rest, JsonValue::String(text))),
        None => Err(ParseError::MalformedLiteral),
    }
}

/// Reads one value at the start of `input`: an object, an array, a number, a
/// string, `null` or a boolean, tried in that order. Whitespace around an
/// object or an array is consumed with it; a scalar must start at the first
/// byte and ends where its literal ends.
///
/// `depth` is how many levels of arrays and objects the value may open. One
/// that opens more is refused with `RecursionLimit`, an integer literal above
/// `i32::MAX` with `NumericConversionOverflow`, and a text that starts with
/// no value with `MalformedLiteral`.
pub fn parse_json_value<'a>(input: &'a [u8], depth: usize) -> (r: Result<
    (&'a [u8], JsonValue<'a>),
    ParseError,
>)
    ensures
        parsed_as(r, value_production(input@, depth as nat)),
    decreases depth, 3nat,
{
    match parse_json_object(input, depth) {
        Err(ParseError::MalformedLiteral) => {},
        found => { return found; },
    }
    match parse_json_array(input, depth) {
        Err(ParseError::MalformedLiteral) => {},
        found => { return found; },
    }
    match parse_number(input) {
        Err(ParseError::MalformedLiteral) => {},
        found => { return found; },
    }
    match parse_json_string(input) {
        Err(ParseError::MalformedLiteral) => {},
        found => { return found; },
    }
    match parse_json_null(input) {
        Err(ParseError::MalformedLiteral) => {},
        found => { return found; },
    }
    parse_json_bool(input)
}

/// Reads an array that may stand between whitespace, and consumes both.
pub fn parse_json_array<'a>(input: &'a [u8], depth: usize) -> (r: Result<
    (&'a [u8], JsonValue<'a>),
    ParseError,
>)
    ensures
        parsed_as(r, padded_array(input@, depth as nat)),
    decreases depth, 2nat,
{
    match parse_array(skip_whitespace(input), depth) {
        Ok((rest, value)) => Ok((skip_whitespace(rest), value)),
        Err(e) => Err(e),
    }
}

/// Reads an object that may stand between whitespace, and consumes both.
pub fn parse_json_object<'a>(input: &'a [u8], depth: usize) -> (r: Result<
    (&'a [u8], JsonValue<'a>),
    ParseError,
>)
    ensures
        parsed_as(r, padded_object(input@, depth as nat)),
    decreases depth, 2nat,
{
    match parse_object(skip_whitespace(input), depth) {
        Ok((rest, value)) => Ok((skip_whitespace(rest), value)),
        Err(e) => Err(e),
    }
}

/// Reads an array that starts at the first byte of `input`: `[`, items
/// separated by commas, `]`, with whitespace allowed around each item and
/// comma. There may be no item at all; a comma before the closing bracket is
/// refused. Returns what follows the closing bracket.
pub fn parse_array<'a>(input: &'a [u8], depth: usize) -> (r: Result<
    (&'a [u8], JsonValue<'a>),
    ParseError,
>)
    ensures
        parsed_as(r, array_production(input@, depth as nat)),
    decreases depth, 1nat,
{
    let opened = match parse_char(input, OPEN_BRACKET) {
        Some((rest, _)) => rest,
        None => { return Err(ParseError::MalformedLiteral); },
    };
    if depth == 0 {
        return Err(ParseError::RecursionLimit);
    }
    let inside = skip_whitespace(opened);
    let mut items: Vec<JsonValue<'a>> = Vec::new();
    if let Some((rest, _)) = parse_char(inside, CLOSE_BRACKET) {
        let value = JsonValue::Array(items);
        assert(value@->Array_0 =~= Seq::<JsonModel>::empty());
        return Ok((rest, value));
    }
    let ghost below = (depth - 1) as nat;
    let ghost mut read: Seq<JsonModel> = Seq::empty();
    let mut cur = inside;
    proof {
        match items_production(cur@, below) {
            Ok((rest, found)) => {
                assert(read + found =~= found);
            },
            Err(e) => {},
        }
    }
    loop
        invariant
            depth > 0,
            below == depth - 1,
            read.len() == items.len(),
            forall|j: int| 0 <= j < items.len() ==> read[j] == (#[trigger] items@[j])@,
            array_production(input@, depth as nat) == array_of(items_production(inside@, below)),
            items_production(inside@, below) == items_after(read, items_production(cur@, below)),
        decreases cur@.len(),
    {
        let (after, item) = match parse_json_value(cur, depth - 1) {
            Ok(found) => found,
            Err(e) => { return Err(e); },
        };
        let ghost item_model = item@;
        proof {
            lemma_value_rest(cur@, below);
            lemma_after_value(cur@, after@);
        }
        items.push(item);
        let then = skip_whitespace(after);
        if let Some((more, _)) = parse_char(then, COMMA) {
            let next = skip_whitespace(more);
            proof {
                match items_production(next@, below) {
                    Ok((rest, found)) => {
                        assert(read + (seq![item_model] + found) =~= read.push(item_model)
                            + found);
                    },
                    Err(e) => {},
                }
                read = read.push(item_model);
            }
            cur = next;
        } else if let Some((rest, _)) = parse_char(then, CLOSE_BRACKET) {
            let value = JsonValue::Array(items);
            proof {
                assert(value@->Array_0 =~= read.push(item_model));
                assert(read + seq![item_model] =~= read.push(item_model));
            }
            return Ok((rest, value));
        } else {
            return Err(ParseError::MalformedLiteral);
        }
    }
}

/// Reads an object that starts at the first byte of `input`: `{`, members
/// separated by commas, `}`, each member a string literal, a colon and a
/// value, with whitespace allowed around each of them. There may be no
/// member at all; a comma before the closing brace is refused. The members
/// come out in the order of the text, a repeated key as often as it stands
/// there. Returns what follows the closing brace.
pub fn parse_object<'a>(input: &'a [u8], depth: usize) -> (r: Result<
    (&'a [u8], JsonValue<'a>),
    ParseError,
>)
    ensures
        parsed_as(r, object_production(input@, depth as nat)),
    decreases depth, 1nat,
{
    let opened = match parse_char(input, OPEN_BRACE) {
        Some((rest, _)) => rest,
        None => { return Err(ParseError::MalformedLiteral); },
    };
    if depth == 0 {
        return Err(ParseError::RecursionLimit);
    }
    let inside = skip_whitespace(opened);
    let mut members: Vec<(&'a str, JsonValue<'a>)> = Vec::new();
    if let Some((rest, _)) = parse_char(inside, CLOSE_BRACE) {
        let value = JsonValue::Object(members);
        assert(value@->Object_0 =~= Seq::<(Seq<u8>, JsonModel)>::empty());
        return Ok((rest, value));
    }
    let ghost below = (depth - 1) as nat;
    let ghost mut read: Seq<(Seq<u8>, JsonModel)> = Seq::empty();
    let mut cur = inside;
    proof {
        match members_production(cur@, below) {
            Ok((rest, found)) => {
                assert(read + found =~= found);
            },
            Err(e) => {},
        }
    }
    loop
        invariant
            depth > 0,
            below == depth - 1,
            read.len() == members.len(),
            forall|j: int|
                0 <= j < members.len() ==> read[j] == member_view(#[trigger] members@[j]),
            object_production(input@, depth as nat) == object_of(
                members_production(inside@, below),
            ),
            members_production(inside@, below) == members_after(
                read,
                members_production(cur@, below),
            ),
        decreases cur@.len(),
    {
        proof {
            lemma_member_rest(cur@, below);
        }
        let (after_key, key) = match parse_string_literal(cur) {
            Some(found) => found,
            None => { return Err(ParseError::MalformedLiteral); },
        };
        proof {
            lemma_string_rest(cur@);
            lemma_after_value(cur@, after_key@);
        }
        let colon = skip_whitespace(after_key);
        let start = match parse_char(colon, COLON) {
            Some((rest, _)) => skip_whitespace(rest),
            None => { return Err(ParseError::MalformedLiteral); },
        };
        let (after, item) = match parse_json_value(start, depth - 1) {
            Ok(found) => found,
            Err(e) => { return Err(e); },
        };
        let ghost member_model = member_view((key, item));
        assert(member_model == (key.spec_bytes(), item@));
        proof {
            lemma_value_rest(start@, below);
            crate::lexical::lemma_suffix_trans(after@, start@, cur@);
            lemma_after_value(cur@, after@);
        }
        members.push((key, item));
        let then = skip_whitespace(after);
        if let Some((more, _)) = parse_char(then, COMMA) {
            let next = skip_whitespace(more);
            proof {
                match members_production(next@, below) {
                    Ok((rest, found)) => {
                        assert(read + (seq![member_model] + found) =~= read.push(member_model)
                            + found);
                    },
                    Err(e) => {},
                }
                read = read.push(member_model);
            }
            cur = next;
        } else if let Some((rest, _)) = parse_char(then, CLOSE_BRACE) {
            let value = JsonValue::Object(members);
            proof {
                assert(value@->Object_0 =~= read.push(member_model));
                assert(read + seq![member_model] =~= read.push(member_model));
            }
            return Ok((rest, value));
        } else {
            return Err(ParseError::MalformedLiteral);
        }
    }
}

/// Reads a whole JSON text with a nesting limit of the caller's choice.
///
/// The text is one value, with whitespace allowed before and after it and
/// nothing else. Returns the value, or the reason why there is none:
/// `UnexpectedTrailingInput` when a value is followed by more than
/// whitespace, else the error of the value itself. A value that is returned
/// holds no negative integer, no quote inside a string and only float
/// literals as floats, and nests no deeper than `depth`.
pub fn parse_json_within<'a>(input: &'a str, depth: usize) -> (r: Result<JsonValue<'a>, ParseError>)
    ensures
        match document(input.spec_bytes(), depth as nat) {
            Ok(value) => r matches Ok(found) && found@ == value,
            Err(e) => r matches Err(found) && found == e,
        },
        r matches Ok(found) ==> is_denotable(found@) && crate::value::depth(found@) <= depth,
{
    proof {
        law_parsed_is_denotable(input.spec_bytes(), depth as nat);
    }
    let (rest, value) = match parse_json_value(skip_whitespace(input.as_bytes()), depth) {
        Ok(found) => found,
        Err(e) => { return Err(e); },
    };
    if skip_whitespace(rest).len() == 0 {
        Ok(value)
    } else {
        Err(ParseError::UnexpectedTrailingInput)
    }
}

/// Reads a whole JSON text, with arrays and objects nested at most
/// `DEPTH_LIMIT` deep.
pub fn parse_json<'a>(input: &'a str) -> (r: Result<JsonValue<'a>, ParseError>)
    ensures
        match document(input.spec_bytes(), DEPTH_LIMIT as nat) {
            Ok(value) => r matches Ok(found) && found@ == value,
            Err(e) => r matches Err(found) && found == e,
        },
        r matches Ok(found) ==> is_denotable(found@) && crate::value::depth(found@) <= DEPTH_LIMIT,
{
    parse_json_within(input, DEPTH_LIMIT)
}

} // verus!
