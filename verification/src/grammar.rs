use vstd::prelude::*;
use crate::error::ParseError;
use crate::lexical::{
    is_suffix_of, is_whitespace, lemma_run_len, lemma_skip_ws_is_suffix, lemma_skip_ws_none,
    lemma_suffix_trans, not_quote, run_len, skip_ws, string_literal, whitespace,
};
use crate::number::{digit_or_separator, lemma_float_len, number_production, Parsed};
use crate::text::{
    false_word, null_word, true_word, CLOSE_BRACE, CLOSE_BRACKET, COLON, COMMA, OPEN_BRACE,
    OPEN_BRACKET,
};
use crate::value::JsonModel;

verus! {

/// What the list of an array's items yields: the rest of the text after the
/// closing bracket and the items in order.
pub type ParsedItems = Result<(Seq<u8>, Seq<JsonModel>), ParseError>;

/// What the list of an object's members yields: the rest of the text after
/// the closing brace and the members in order.
pub type ParsedMembers = Result<(Seq<u8>, Seq<(Seq<u8>, JsonModel)>), ParseError>;

/// The null production: the word `null`.
pub open spec fn null_production(s: Seq<u8>) -> Parsed {
    if null_word().is_prefix_of(s) {
        Ok((s.skip(4), JsonModel::Null))
    } else {
        Err(ParseError::MalformedLiteral)
    }
}

/// The boolean production: the word `false` or the word `true`.
pub open spec fn bool_production(s: Seq<u8>) -> Parsed {
    if false_word().is_prefix_of(s) {
        Ok((s.skip(5), JsonModel::Bool(false)))
    } else if true_word().is_prefix_of(s) {
        Ok((s.skip(4), JsonModel::Bool(true)))
    } else {
        Err(ParseError::MalformedLiteral)
    }
}

/// The string production, as a value.
pub open spec fn string_production(s: Seq<u8>) -> Parsed {
    match string_literal(s) {
        Some((rest, text)) => Ok((rest, JsonModel::String(text))),
        None => Err(ParseError::MalformedLiteral),
    }
}

/// Alternation: `first` unless it found no match, in which case `second`.
/// Any other error of `first` stands.
pub open spec fn or_else(first: Parsed, second: Parsed) -> Parsed {
    match first {
        Err(ParseError::MalformedLiteral) => second,
        _ => first,
    }
}

/// A production with the whitespace before and after it skipped.
pub open spec fn after_padding(inner: Parsed) -> Parsed {
    match inner {
        Ok((rest, value)) => Ok((skip_ws(rest), value)),
        Err(e) => Err(e),
    }
}

/// The scalar productions in their order: number, string, null, boolean.
pub open spec fn scalar_production(s: Seq<u8>) -> Parsed {
    or_else(
        number_production(s),
        or_else(string_production(s), or_else(null_production(s), bool_production(s))),
    )
}

/// What one member of an object yields: the rest of the text after its
/// value, and the key with the value.
pub type ParsedMember = Result<(Seq<u8>, (Seq<u8>, JsonModel)), ParseError>;

/// A key with the value that `then` holds.
pub open spec fn member_of(key: Seq<u8>, then: Parsed) -> ParsedMember {
    match then {
        Ok((rest, value)) => Ok((rest, (key, value))),
        Err(e) => Err(e),
    }
}

/// The array that a list of items makes.
pub open spec fn array_of(list: ParsedItems) -> Parsed {
    match list {
        Ok((rest, items)) => Ok((rest, JsonModel::Array(items))),
        Err(e) => Err(e),
    }
}

/// The object that a list of members makes.
pub open spec fn object_of(list: ParsedMembers) -> Parsed {
    match list {
        Ok((rest, members)) => Ok((rest, JsonModel::Object(members))),
        Err(e) => Err(e),
    }
}

/// The value production: the first of object, array, number, string, null
/// and boolean that matches at the start of `s`. An object or an array may
/// stand between whitespace, which is consumed with it; a scalar may not.
/// `depth` is how many levels of arrays and objects may still be opened.
pub open spec fn value_production(s: Seq<u8>, depth: nat) -> Parsed
    decreases s.len(), 3nat,
{
    or_else(padded_object(s, depth), or_else(padded_array(s, depth), scalar_production(s)))
}

/// The array production between whitespace.
pub open spec fn padded_array(s: Seq<u8>, depth: nat) -> Parsed
    decreases s.len(), 2nat,
{
    proof {
        lemma_run_len(s, whitespace());
    }
    after_padding(array_production(skip_ws(s), depth))
}

/// The object production between whitespace.
pub open spec fn padded_object(s: Seq<u8>, depth: nat) -> Parsed
    decreases s.len(), 2nat,
{
    proof {
        lemma_run_len(s, whitespace());
    }
    after_padding(object_production(skip_ws(s), depth))
}

/// The array production: `[`, then either `]` or items separated by commas
/// and closed by `]`, with whitespace allowed around every item and comma.
/// Opening an array when `depth` is 0 is an error.
pub open spec fn array_production(s: Seq<u8>, depth: nat) -> Parsed
    decreases s.len(), 1nat,
{
    if s.len() > 0 && s[0] == OPEN_BRACKET {
        if depth == 0 {
            Err(ParseError::RecursionLimit)
        } else {
            proof {
                lemma_run_len(s.skip(1), whitespace());
            }
            let inside = skip_ws(s.skip(1));
            if inside.len() > 0 && inside[0] == CLOSE_BRACKET {
                Ok((inside.skip(1), JsonModel::Array(Seq::empty())))
            } else {
                array_of(items_production(inside, (depth - 1) as nat))
            }
        }
    } else {
        Err(ParseError::MalformedLiteral)
    }
}

/// One or more items and the closing bracket: a value, then after
/// whitespace either a comma, whitespace and further items, or `]`.
/// A comma with no value after it is an error.
///
/// The test that what follows the comma is shorter than `s` only shows that
/// the definition ends: by `lemma_value_rest` and `lemma_after_value` it is
/// always met.
pub open spec fn items_production(s: Seq<u8>, depth: nat) -> ParsedItems
    decreases s.len(), 4nat,
{
    match value_production(s, depth) {
        Err(e) => Err(e),
        Ok((after, item)) => {
            let then = skip_ws(after);
            if then.len() > 0 && then[0] == COMMA {
                let next = skip_ws(then.skip(1));
                if next.len() < s.len() {
                    match items_production(next, depth) {
                        Ok((rest, items)) => Ok((rest, seq![item] + items)),
                        Err(e) => Err(e),
                    }
                } else {
                    Err(ParseError::MalformedLiteral)
                }
            } else if then.len() > 0 && then[0] == CLOSE_BRACKET {
                Ok((then.skip(1), seq![item]))
            } else {
                Err(ParseError::MalformedLiteral)
            }
        },
    }
}

/// The object production: `{`, then either `}` or members separated by
/// commas and closed by `}`, with whitespace allowed around every key, colon,
/// value and comma. Opening an object when `depth` is 0 is an error.
pub open spec fn object_production(s: Seq<u8>, depth: nat) -> Parsed
    decreases s.len(), 1nat,
{
    if s.len() > 0 && s[0] == OPEN_BRACE {
        if depth == 0 {
            Err(ParseError::RecursionLimit)
        } else {
            proof {
                lemma_run_len(s.skip(1), whitespace());
            }
            let inside = skip_ws(s.skip(1));
            if inside.len() > 0 && inside[0] == CLOSE_BRACE {
                Ok((inside.skip(1), JsonModel::Object(Seq::empty())))
            } else {
                object_of(members_production(inside, (depth - 1) as nat))
            }
        }
    } else {
        Err(ParseError::MalformedLiteral)
    }
}

/// One member of an object: a string literal as key, a colon and a value,
/// with whitespace allowed around the colon. A key that is no string
/// literal is an error.
///
/// The test that what follows the colon is shorter than `s` only shows that
/// the definition ends: by `lemma_string_rest` and `lemma_after_value` it is
/// always met.
pub open spec fn member_production(s: Seq<u8>, depth: nat) -> ParsedMember
    decreases s.len(), 4nat,
{
    match string_literal(s) {
        None => Err(ParseError::MalformedLiteral),
        Some((after_key, key)) => {
            let colon = skip_ws(after_key);
            if colon.len() > 0 && colon[0] == COLON {
                let start = skip_ws(colon.skip(1));
                if start.len() < s.len() {
                    member_of(key, value_production(start, depth))
                } else {
                    Err(ParseError::MalformedLiteral)
                }
            } else {
                Err(ParseError::MalformedLiteral)
            }
        },
    }
}

/// One or more members and the closing brace: a member, then after
/// whitespace either a comma, whitespace and further members, or `}`. A
/// comma with no member after it is an error. Members keep their order, and
/// a key may occur more than once.
///
/// The test that what follows the comma is shorter than `s` only shows that
/// the definition ends: by `lemma_member_rest` and `lemma_after_value` it is
/// always met.
pub open spec fn members_production(s: Seq<u8>, depth: nat) -> ParsedMembers
    decreases s.len(), 5nat,
{
    match member_production(s, depth) {
        Err(e) => Err(e),
        Ok((after, member)) => {
            let then = skip_ws(after);
            if then.len() > 0 && then[0] == COMMA {
                let next = skip_ws(then.skip(1));
                if next.len() < s.len() {
                    match members_production(next, depth) {
                        Ok((rest, members)) => Ok((rest, seq![member] + members)),
                        Err(e) => Err(e),
                    }
                } else {
                    Err(ParseError::MalformedLiteral)
                }
            } else if then.len() > 0 && then[0] == CLOSE_BRACE {
                Ok((then.skip(1), seq![member]))
            } else {
                Err(ParseError::MalformedLiteral)
            }
        },
    }
}

/// A whole document: whitespace, one value, whitespace, and nothing more.
pub open spec fn document(s: Seq<u8>, depth: nat) -> Result<JsonModel, ParseError> {
    match value_production(skip_ws(s), depth) {
        Err(e) => Err(e),
        Ok((rest, value)) => if skip_ws(rest).len() == 0 {
            Ok(value)
        } else {
            Err(ParseError::UnexpectedTrailingInput)
        },
    }
}

/// A number that is read takes at least one byte and leaves a suffix.
pub proof fn lemma_number_rest(s: Seq<u8>)
    ensures
        number_production(s) matches Ok((rest, _)) ==> rest.len() < s.len() && is_suffix_of(
            rest,
            s,
        ),
{
    lemma_float_len(s);
    lemma_run_len(s, digit_or_separator());
}

/// A string literal that is read takes at least two bytes and leaves a suffix.
pub proof fn lemma_string_rest(s: Seq<u8>)
    ensures
        string_literal(s) matches Some((rest, _)) ==> rest.len() + 2 <= s.len() && is_suffix_of(
            rest,
            s,
        ),
{
    if let Some((rest, _)) = string_literal(s) {
        let body = s.skip(1);
        let n = run_len(body, not_quote()) as int;
        assert(body.skip(n + 1) =~= s.skip(n + 2));
    }
}

/// Every production that reads a value takes at least one byte from the
/// front of the text and leaves the rest of it untouched.
pub proof fn lemma_value_rest(s: Seq<u8>, depth: nat)
    ensures
        value_production(s, depth) matches Ok((rest, _)) ==> rest.len() < s.len() && is_suffix_of(
            rest,
            s,
        ),
    decreases s.len(), 3nat,
{
    lemma_padded_rest(s, depth);
    lemma_number_rest(s);
    lemma_string_rest(s);
}

/// As `lemma_value_rest`, for an array or an object between whitespace.
pub proof fn lemma_padded_rest(s: Seq<u8>, depth: nat)
    ensures
        padded_array(s, depth) matches Ok((rest, _)) ==> rest.len() < s.len() && is_suffix_of(
            rest,
            s,
        ),
        padded_object(s, depth) matches Ok((rest, _)) ==> rest.len() < s.len() && is_suffix_of(
            rest,
            s,
        ),
    decreases s.len(), 2nat,
{
    let inner = skip_ws(s);
    lemma_skip_ws_is_suffix(s);
    lemma_container_rest(inner, depth);
    if let Ok((rest, _)) = array_production(inner, depth) {
        lemma_skip_ws_is_suffix(rest);
        lemma_suffix_trans(skip_ws(rest), rest, inner);
        lemma_suffix_trans(skip_ws(rest), inner, s);
    }
    if let Ok((rest, _)) = object_production(inner, depth) {
        lemma_skip_ws_is_suffix(rest);
        lemma_suffix_trans(skip_ws(rest), rest, inner);
        lemma_suffix_trans(skip_ws(rest), inner, s);
    }
}

/// As `lemma_value_rest`, for an array or an object.
pub proof fn lemma_container_rest(s: Seq<u8>, depth: nat)
    ensures
        array_production(s, depth) matches Ok((rest, _)) ==> rest.len() < s.len() && is_suffix_of(
            rest,
            s,
        ),
        object_production(s, depth) matches Ok((rest, _)) ==> rest.len() < s.len() && is_suffix_of(
            rest,
            s,
        ),
    decreases s.len(), 1nat,
{
    if s.len() > 0 && depth > 0 {
        let inside = skip_ws(s.skip(1));
        lemma_skip_ws_is_suffix(s.skip(1));
        lemma_suffix_trans(inside, s.skip(1), s);
        if inside.len() > 0 {
            lemma_suffix_trans(inside.skip(1), inside, s);
        }
        if s[0] == OPEN_BRACKET {
            lemma_items_rest(inside, (depth - 1) as nat);
            if let Ok((rest, _)) = items_production(inside, (depth - 1) as nat) {
                lemma_suffix_trans(rest, inside, s);
            }
        }
        if s[0] == OPEN_BRACE {
            lemma_members_rest(inside, (depth - 1) as nat);
            if let Ok((rest, _)) = members_production(inside, (depth - 1) as nat) {
                lemma_suffix_trans(rest, inside, s);
            }
        }
    }
}

/// What follows a value inside a container is shorter than the text the
/// value was read from, so the bound that `items_production` and
/// `members_production` test before they go on never fails.
pub proof fn lemma_after_value(s: Seq<u8>, after: Seq<u8>)
    requires
        after.len() < s.len(),
        is_suffix_of(after, s),
    ensures
        is_suffix_of(skip_ws(after), s),
        skip_ws(after).len() > 0 ==> {
            &&& is_suffix_of(skip_ws(after).skip(1), s)
            &&& is_suffix_of(skip_ws(skip_ws(after).skip(1)), s)
            &&& skip_ws(skip_ws(after).skip(1)).len() < s.len()
        },
{
    let then = skip_ws(after);
    lemma_skip_ws_is_suffix(after);
    lemma_suffix_trans(then, after, s);
    if then.len() > 0 {
        lemma_suffix_trans(then.skip(1), then, s);
        lemma_skip_ws_is_suffix(then.skip(1));
        lemma_suffix_trans(skip_ws(then.skip(1)), then.skip(1), s);
    }
}

/// As `lemma_value_rest`, for the items of an array.
pub proof fn lemma_items_rest(s: Seq<u8>, depth: nat)
    ensures
        items_production(s, depth) matches Ok((rest, _)) ==> rest.len() < s.len() && is_suffix_of(
            rest,
            s,
        ),
    decreases s.len(), 4nat,
{
    lemma_value_rest(s, depth);
    if let Ok((after, _)) = value_production(s, depth) {
        lemma_after_value(s, after);
        let then = skip_ws(after);
        if then.len() > 0 && then[0] == COMMA {
            let next = skip_ws(then.skip(1));
            lemma_items_rest(next, depth);
            if let Ok((rest, _)) = items_production(next, depth) {
                lemma_suffix_trans(rest, next, s);
            }
        }
    }
}

/// As `lemma_value_rest`, for one member of an object.
pub proof fn lemma_member_rest(s: Seq<u8>, depth: nat)
    ensures
        member_production(s, depth) matches Ok((rest, _)) ==> rest.len() < s.len() && is_suffix_of(
            rest,
            s,
        ),
    decreases s.len(), 4nat,
{
    lemma_string_rest(s);
    if let Some((after_key, _)) = string_literal(s) {
        lemma_after_value(s, after_key);
        let colon = skip_ws(after_key);
        if colon.len() > 0 && colon[0] == COLON {
            let start = skip_ws(colon.skip(1));
            lemma_value_rest(start, depth);
            if let Ok((after, _)) = value_production(start, depth) {
                lemma_suffix_trans(after, start, s);
            }
        }
    }
}

/// As `lemma_value_rest`, for the members of an object.
pub proof fn lemma_members_rest(s: Seq<u8>, depth: nat)
    ensures
        members_production(s, depth) matches Ok((rest, _)) ==> rest.len() < s.len()
            && is_suffix_of(rest, s),
    decreases s.len(), 5nat,
{
    lemma_member_rest(s, depth);
    if let Ok((after, _)) = member_production(s, depth) {
        lemma_after_value(s, after);
        let then = skip_ws(after);
        if then.len() > 0 && then[0] == COMMA {
            let next = skip_ws(then.skip(1));
            lemma_members_rest(next, depth);
            if let Ok((rest, _)) = members_production(next, depth) {
                lemma_suffix_trans(rest, next, s);
            }
        }
    }
}

/// Which production reads a value is settled by the first byte: an opening
/// brace means an object, an opening bracket an array, and any other byte
/// but whitespace a scalar.
pub proof fn lemma_value_dispatch(s: Seq<u8>, depth: nat)
    requires
        s.len() > 0,
        !is_whitespace(s[0]),
    ensures
        s[0] == OPEN_BRACE ==> value_production(s, depth) == after_padding(
            object_production(s, depth),
        ),
        s[0] == OPEN_BRACKET ==> value_production(s, depth) == after_padding(
            array_production(s, depth),
        ),
        s[0] != OPEN_BRACE && s[0] != OPEN_BRACKET ==> value_production(s, depth)
            == scalar_production(s),
{
    lemma_skip_ws_none(s);
    assert(s.skip(0) =~= s);
}

} // verus!
