use vstd::prelude::*;
use vstd::utf8::*;
use crate::decimal::decimal_digits;
use crate::error::ParseError;
use crate::formatter::{compact_items, compact_members, compact_text, quoted};
use crate::grammar::{
    array_production, document, items_production, lemma_value_dispatch, member_production,
    members_production, object_production, padded_array, padded_object, scalar_production,
    value_production,
};
use crate::lexical::{
    is_whitespace, lemma_run_len, lemma_run_len_is, lemma_skip_ws_none, not_quote, run_len, skip_ws,
    string_literal, whitespace,
};
use crate::number::{
    digit, digit_or_separator, float_len, is_float_byte, lemma_decimal_digits, lemma_float_len,
    lemma_float_len_append, lemma_float_len_take, number_production,
};
use crate::text::{
    false_word, null_word, true_word, CLOSE_BRACE, CLOSE_BRACKET, COLON, COMMA, OPEN_BRACE,
    OPEN_BRACKET, QUOTE,
};
use crate::value::{
    depth, items_depth, lemma_items_depth, lemma_members_depth, members_depth, JsonModel,
    NumberModel,
};

verus! {

/// True when `lexeme` is, from its first byte to its last, one float literal
/// that holds something besides digits.
pub open spec fn is_float_literal(lexeme: Seq<u8>) -> bool {
    float_len(lexeme) == Some(lexeme.len()) && run_len(lexeme, digit()) < lexeme.len()
}

/// True when `text` can stand between quotes: it is valid UTF-8 and holds no
/// quote.
pub open spec fn is_string_content(text: Seq<u8>) -> bool {
    valid_utf8(text) && forall|i: int| 0 <= i < text.len() ==> text[i] != QUOTE
}

/// True when `v` is a value that a text can denote: every string and key is
/// valid UTF-8 without a quote, every float is a float literal, and every
/// integer lies between 0 and `i32::MAX`.
pub open spec fn is_denotable(v: JsonModel) -> bool
    decreases v,
{
    match v {
        JsonModel::Bool(_) => true,
        JsonModel::Null => true,
        JsonModel::String(text) => is_string_content(text),
        JsonModel::Number(NumberModel::Float(lexeme)) => is_float_literal(lexeme),
        JsonModel::Number(NumberModel::Int(i)) => 0 <= i <= i32::MAX,
        JsonModel::Array(items) => forall|i: int|
            0 <= i < items.len() ==> is_denotable(#[trigger] items[i]),
        JsonModel::Object(members) => forall|i: int|
            0 <= i < members.len() ==> is_string_content((#[trigger] members[i]).0)
                && is_denotable(members[i].1),
    }
}

/// True when `tail` may follow a value inside a compact text: it is empty or
/// starts with a comma or a closing bracket or brace.
pub open spec fn ends_value(tail: Seq<u8>) -> bool {
    tail.len() == 0 || tail[0] == COMMA || tail[0] == CLOSE_BRACKET || tail[0] == CLOSE_BRACE
}

/// A text that starts with neither whitespace nor an opening bracket or
/// brace is no array and no object.
proof fn lemma_no_container(s: Seq<u8>, depth: nat)
    requires
        s.len() > 0,
        !is_whitespace(s[0]),
    ensures
        s[0] != OPEN_BRACE ==> padded_object(s, depth) == Err::<(Seq<u8>, JsonModel), _>(
            ParseError::MalformedLiteral,
        ),
        s[0] != OPEN_BRACKET ==> padded_array(s, depth) == Err::<(Seq<u8>, JsonModel), _>(
            ParseError::MalformedLiteral,
        ),
{
    lemma_skip_ws_none(s);
}

/// A text that starts with neither a digit, a sign nor a dot is no number.
pub proof fn lemma_no_number(s: Seq<u8>)
    requires
        s.len() > 0,
        !is_float_byte(s[0]),
    ensures
        number_production(s) == Err::<(Seq<u8>, JsonModel), _>(ParseError::MalformedLiteral),
{
    assert(s.skip(0) =~= s);
}

/// The compact text of a denotable value is not empty and starts with a byte
/// that is neither whitespace nor a closing bracket or brace.
proof fn lemma_compact_first(v: JsonModel)
    requires
        is_denotable(v),
    ensures
        compact_text(v).len() > 0,
        !is_whitespace(compact_text(v)[0]),
        compact_text(v)[0] != CLOSE_BRACKET,
        compact_text(v)[0] != CLOSE_BRACE,
{
    match v {
        JsonModel::Number(NumberModel::Float(lexeme)) => {
            lemma_float_len(lexeme);
        },
        JsonModel::Number(NumberModel::Int(i)) => {
            lemma_decimal_digits(i as nat);
        },
        _ => {},
    }
}

/// `null` is read back from its text.
proof fn lemma_null_reads_back(tail: Seq<u8>)
    ensures
        scalar_production(null_word() + tail) == Ok::<_, ParseError>((tail, JsonModel::Null)),
{
    let s = null_word() + tail;
    assert(s[0] == null_word()[0]);
    lemma_no_number(s);
    assert(s.subrange(0, 4) =~= null_word());
    assert(s.skip(4) =~= tail);
}

/// A boolean is read back from its text.
proof fn lemma_bool_reads_back(b: bool, tail: Seq<u8>)
    ensures
        scalar_production(compact_text(JsonModel::Bool(b)) + tail) == Ok::<_, ParseError>(
            (tail, JsonModel::Bool(b)),
        ),
{
    let text = compact_text(JsonModel::Bool(b));
    let s = text + tail;
    assert(s[0] == text[0]);
    lemma_no_number(s);
    assert(!null_word().is_prefix_of(s)) by {
        if null_word().is_prefix_of(s) {
            assert(s.subrange(0, 4)[0] == s[0]);
        }
    }
    if b {
        assert(s.subrange(0, 4) =~= true_word());
        assert(s.skip(4) =~= tail);
        assert(!false_word().is_prefix_of(s)) by {
            if false_word().is_prefix_of(s) {
                assert(s.subrange(0, 5)[0] == s[0]);
            }
        }
    } else {
        assert(s.subrange(0, 5) =~= false_word());
        assert(s.skip(5) =~= tail);
    }
}

/// A string is read back from its text.
proof fn lemma_string_reads_back(content: Seq<u8>, tail: Seq<u8>)
    requires
        is_string_content(content),
    ensures
        scalar_production(quoted(content) + tail) == Ok::<_, ParseError>(
            (tail, JsonModel::String(content)),
        ),
{
    let s = quoted(content) + tail;
    assert(s[0] == QUOTE);
    lemma_no_number(s);
    lemma_quoted_reads_back(content, tail);
}

/// A float is read back from its literal.
proof fn lemma_float_reads_back(lexeme: Seq<u8>, tail: Seq<u8>)
    requires
        is_float_literal(lexeme),
        ends_value(tail),
    ensures
        number_production(lexeme + tail) == Ok::<_, ParseError>(
            (tail, JsonModel::Number(NumberModel::Float(lexeme))),
        ),
{
    let s = lexeme + tail;
    lemma_float_len(lexeme);
    lemma_float_len_append(lexeme, tail);
    assert(s.take(lexeme.len() as int) =~= lexeme);
    assert(s.skip(lexeme.len() as int) =~= tail);
}

/// An integer that is not negative is read back from its digits.
proof fn lemma_integer_reads_back(i: int, tail: Seq<u8>)
    requires
        0 <= i <= i32::MAX,
        ends_value(tail),
    ensures
        number_production(decimal_digits(i as nat) + tail) == Ok::<_, ParseError>(
            (tail, JsonModel::Number(NumberModel::Int(i))),
        ),
{
    let digits = decimal_digits(i as nat);
    let s = digits + tail;
    let n = digits.len() as int;
    lemma_decimal_digits(i as nat);
    assert(s.skip(0) =~= s);
    assert(s[0] == digits[0]);
    assert forall|k: int| 0 <= k < n implies digit()(#[trigger] s[k]) by {
        assert(s[k] == digits[k]);
    }
    assert forall|k: int| 0 <= k < n implies digit_or_separator()(#[trigger] s[k]) by {
        assert(s[k] == digits[k]);
    }
    if tail.len() > 0 {
        assert(s[n] == tail[0]);
    }
    lemma_run_len_is(s, digit(), n);
    lemma_run_len_is(s, digit_or_separator(), n);
    assert(s.skip(n) =~= tail);
    assert(s.take(n) =~= digits);
    lemma_run_len_is(digits, digit(), n);
    assert(float_len(s) == Some(n as nat));
}

/// A scalar is read back from its compact text.
proof fn lemma_scalar_reads_back(v: JsonModel, tail: Seq<u8>, limit: nat)
    requires
        is_denotable(v),
        !(v is Array),
        !(v is Object),
        ends_value(tail),
    ensures
        value_production(compact_text(v) + tail, limit) == Ok::<_, ParseError>((tail, v)),
{
    let text = compact_text(v);
    let s = text + tail;
    lemma_compact_first(v);
    assert(s[0] == text[0]);
    lemma_value_dispatch(s, limit);
    match v {
        JsonModel::Null => {
            lemma_null_reads_back(tail);
        },
        JsonModel::Bool(b) => {
            lemma_bool_reads_back(b, tail);
        },
        JsonModel::String(content) => {
            lemma_string_reads_back(content, tail);
        },
        JsonModel::Number(NumberModel::Float(lexeme)) => {
            lemma_float_len(lexeme);
            lemma_float_reads_back(lexeme, tail);
        },
        JsonModel::Number(NumberModel::Int(i)) => {
            lemma_decimal_digits(i as nat);
            lemma_integer_reads_back(i, tail);
        },
        _ => {},
    }
}

/// A string literal is read back from its content between quotes.
proof fn lemma_quoted_reads_back(content: Seq<u8>, tail: Seq<u8>)
    requires
        is_string_content(content),
    ensures
        string_literal(quoted(content) + tail) == Some((tail, content)),
{
    let s = quoted(content) + tail;
    let body = s.skip(1);
    let n = content.len() as int;
    assert(s[0] == QUOTE);
    assert(body =~= content + seq![QUOTE] + tail);
    assert forall|k: int| 0 <= k < n implies not_quote()(#[trigger] body[k]) by {
        assert(body[k] == content[k]);
    }
    assert(body[n] == QUOTE);
    lemma_run_len_is(body, not_quote(), n);
    assert(body.take(n) =~= content);
    assert(body.skip(n + 1) =~= tail);
}

/// Every denotable value is read back from its compact text, whatever of a
/// compact text follows it, when the limit allows its depth.
pub proof fn lemma_value_reads_back(v: JsonModel, tail: Seq<u8>, limit: nat)
    requires
        is_denotable(v),
        depth(v) <= limit,
        ends_value(tail),
    ensures
        value_production(compact_text(v) + tail, limit) == Ok::<_, ParseError>((tail, v)),
    decreases v, 1nat,
{
    let s = compact_text(v) + tail;
    match v {
        JsonModel::Array(items) => {
            let inside = compact_items(items) + seq![CLOSE_BRACKET] + tail;
            assert(s[0] == OPEN_BRACKET);
            assert(s.skip(1) =~= inside);
            lemma_no_container(s, limit);
            lemma_skip_ws_none(s);
            lemma_skip_ws_none(tail);
            if items.len() == 0 {
                assert(inside[0] == CLOSE_BRACKET);
                lemma_skip_ws_none(inside);
                assert(inside.skip(1) =~= tail);
                assert(items =~= Seq::<JsonModel>::empty());
            } else {
                lemma_compact_first(items[0]);
                assert(inside[0] == compact_text(items[0])[0]);
                lemma_skip_ws_none(inside);
                lemma_items_read_back(items, tail, (limit - 1) as nat);
            }
            assert(array_production(s, limit) == Ok::<_, ParseError>((tail, v)));
        },
        JsonModel::Object(members) => {
            let inside = compact_members(members) + seq![CLOSE_BRACE] + tail;
            assert(s[0] == OPEN_BRACE);
            assert(s.skip(1) =~= inside);
            lemma_skip_ws_none(s);
            lemma_skip_ws_none(tail);
            if members.len() == 0 {
                assert(inside[0] == CLOSE_BRACE);
                lemma_skip_ws_none(inside);
                assert(inside.skip(1) =~= tail);
                assert(members =~= Seq::<(Seq<u8>, JsonModel)>::empty());
            } else {
                assert(inside[0] == QUOTE);
                lemma_skip_ws_none(inside);
                lemma_members_read_back(members, tail, (limit - 1) as nat);
            }
            assert(object_production(s, limit) == Ok::<_, ParseError>((tail, v)));
        },
        _ => {
            lemma_scalar_reads_back(v, tail, limit);
        },
    }
}

/// The items of an array are read back from their compact texts joined by
/// commas and closed by a bracket.
pub proof fn lemma_items_read_back(items: Seq<JsonModel>, tail: Seq<u8>, limit: nat)
    requires
        items.len() > 0,
        forall|i: int| 0 <= i < items.len() ==> is_denotable(#[trigger] items[i]),
        items_depth(items) <= limit,
    ensures
        items_production(compact_items(items) + seq![CLOSE_BRACKET] + tail, limit) == Ok::<
            _,
            ParseError,
        >((tail, items)),
    decreases items, 0nat,
{
    let s = compact_items(items) + seq![CLOSE_BRACKET] + tail;
    let first = compact_text(items[0]);
    lemma_items_depth(items, 0);
    if items.len() == 1 {
        let after = seq![CLOSE_BRACKET] + tail;
        assert(s =~= first + after);
        lemma_value_reads_back(items[0], after, limit);
        lemma_skip_ws_none(after);
        assert(after.skip(1) =~= tail);
        assert(seq![items[0]] =~= items);
    } else {
        let others = items.drop_first();
        let next = compact_items(others) + seq![CLOSE_BRACKET] + tail;
        let after = seq![COMMA] + next;
        assert(s =~= first + after);
        lemma_value_reads_back(items[0], after, limit);
        lemma_skip_ws_none(after);
        assert(after.skip(1) =~= next);
        lemma_compact_first(others[0]);
        assert(next[0] == compact_text(others[0])[0]);
        lemma_skip_ws_none(next);
        assert forall|i: int| 0 <= i < others.len() implies is_denotable(#[trigger] others[i]) by {
            assert(others[i] == items[i + 1]);
        }
        lemma_items_read_back(others, tail, limit);
        assert(seq![items[0]] + others =~= items);
    }
}

/// One member is read back from its key between quotes, a colon and the
/// compact text of its value.
pub proof fn lemma_member_reads_back(key: Seq<u8>, value: JsonModel, after: Seq<u8>, limit: nat)
    requires
        is_string_content(key),
        is_denotable(value),
        depth(value) <= limit,
        ends_value(after),
    ensures
        member_production(quoted(key) + seq![COLON] + compact_text(value) + after, limit) == Ok::<
            _,
            ParseError,
        >((after, (key, value))),
    decreases value, 2nat,
{
    let text = compact_text(value);
    let start = text + after;
    let colon = seq![COLON] + start;
    let s = quoted(key) + seq![COLON] + text + after;
    lemma_compact_first(value);
    assert(s =~= quoted(key) + colon);
    lemma_quoted_reads_back(key, colon);
    lemma_skip_ws_none(colon);
    assert(colon.skip(1) =~= start);
    assert(start[0] == text[0]);
    lemma_skip_ws_none(start);
    lemma_value_reads_back(value, after, limit);
    assert(start.len() < s.len());
}

/// The members of an object are read back from their compact texts joined
/// by commas and closed by a brace.
pub proof fn lemma_members_read_back(
    members: Seq<(Seq<u8>, JsonModel)>,
    tail: Seq<u8>,
    limit: nat,
)
    requires
        members.len() > 0,
        forall|i: int|
            0 <= i < members.len() ==> is_string_content((#[trigger] members[i]).0)
                && is_denotable(members[i].1),
        members_depth(members) <= limit,
    ensures
        members_production(compact_members(members) + seq![CLOSE_BRACE] + tail, limit) == Ok::<
            _,
            ParseError,
        >((tail, members)),
    decreases members, 0nat,
{
    let s = compact_members(members) + seq![CLOSE_BRACE] + tail;
    let key = members[0].0;
    let value = members[0].1;
    let text = compact_text(value);
    lemma_members_depth(members, 0);
    if members.len() == 1 {
        let after = seq![CLOSE_BRACE] + tail;
        assert(s =~= quoted(key) + seq![COLON] + text + after);
        lemma_member_reads_back(key, value, after, limit);
        lemma_skip_ws_none(after);
        assert(after.skip(1) =~= tail);
        assert(seq![(key, value)] =~= members);
    } else {
        let others = members.drop_first();
        let next = compact_members(others) + seq![CLOSE_BRACE] + tail;
        let after = seq![COMMA] + next;
        assert(s =~= quoted(key) + seq![COLON] + text + after);
        lemma_member_reads_back(key, value, after, limit);
        lemma_skip_ws_none(after);
        assert(after.skip(1) =~= next);
        assert(next[0] == QUOTE);
        lemma_skip_ws_none(next);
        assert forall|i: int| 0 <= i < others.len() implies is_string_content(
            (#[trigger] others[i]).0,
        ) && is_denotable(others[i].1) by {
            assert(others[i] == members[i + 1]);
        }
        lemma_members_read_back(others, tail, limit);
        assert(next.len() < s.len());
        assert(seq![(key, value)] + others =~= members);
    }
}

/// Round trip: the compact text of a denotable value, read as a document
/// under a limit that allows the value's depth, yields that value again,
/// with every string, the order and number of items and members, and the
/// kind of every number as they were.
pub proof fn law_round_trip(v: JsonModel, limit: nat)
    requires
        is_denotable(v),
        depth(v) <= limit,
    ensures
        document(compact_text(v), limit) == Ok::<_, ParseError>(v),
{
    let text = compact_text(v);
    let tail = Seq::<u8>::empty();
    lemma_compact_first(v);
    lemma_skip_ws_none(text);
    lemma_value_reads_back(v, tail, limit);
    assert(text + tail =~= text);
    lemma_skip_ws_none(tail);
}

/// Idempotence of compact formatting: reading the compact text of a
/// denotable value and formatting what was read gives the same bytes again.
pub proof fn law_compact_idempotent(v: JsonModel, limit: nat)
    requires
        is_denotable(v),
        depth(v) <= limit,
    ensures
        document(compact_text(v), limit) matches Ok(read) && compact_text(read) == compact_text(v),
{
    law_round_trip(v, limit);
}

/// Every number that is read is denotable.
proof fn lemma_number_denotable(s: Seq<u8>)
    ensures
        number_production(s) matches Ok((_, v)) ==> is_denotable(v) && depth(v) == 0,
{
    lemma_float_len(s);
    lemma_float_len_take(s);
}

/// The content of every string literal that is read can stand between
/// quotes.
proof fn lemma_string_denotable(s: Seq<u8>)
    ensures
        string_literal(s) matches Some((_, text)) ==> is_string_content(text),
{
    if let Some((_, text)) = string_literal(s) {
        let body = s.skip(1);
        lemma_run_len(body, not_quote());
        assert forall|i: int| 0 <= i < text.len() implies text[i] != QUOTE by {
            assert(not_quote()(body[i]));
        }
    }
}

/// Every value that is read is denotable and no deeper than the limit.
pub proof fn lemma_value_denotable(s: Seq<u8>, limit: nat)
    ensures
        value_production(s, limit) matches Ok((_, v)) ==> is_denotable(v) && depth(v) <= limit,
    decreases s.len(), 3nat,
{
    lemma_run_len(s, whitespace());
    lemma_container_denotable(skip_ws(s), limit);
    lemma_number_denotable(s);
    lemma_string_denotable(s);
}

/// As `lemma_value_denotable`, for an array or an object.
pub proof fn lemma_container_denotable(s: Seq<u8>, limit: nat)
    ensures
        array_production(s, limit) matches Ok((_, v)) ==> is_denotable(v) && depth(v) <= limit,
        object_production(s, limit) matches Ok((_, v)) ==> is_denotable(v) && depth(v) <= limit,
    decreases s.len(), 1nat,
{
    if s.len() > 0 && limit > 0 {
        let inside = skip_ws(s.skip(1));
        lemma_run_len(s.skip(1), whitespace());
        if s[0] == OPEN_BRACKET {
            lemma_items_denotable(inside, (limit - 1) as nat);
        }
        if s[0] == OPEN_BRACE {
            lemma_members_denotable(inside, (limit - 1) as nat);
        }
    }
}

/// As `lemma_value_denotable`, for the items of an array.
pub proof fn lemma_items_denotable(s: Seq<u8>, limit: nat)
    ensures
        items_production(s, limit) matches Ok((_, items)) ==> items_depth(items) <= limit
            && forall|i: int| 0 <= i < items.len() ==> is_denotable(#[trigger] items[i]),
    decreases s.len(), 4nat,
{
    lemma_value_denotable(s, limit);
    if let Ok((after, item)) = value_production(s, limit) {
        let then = skip_ws(after);
        if then.len() > 0 && then[0] == COMMA {
            let next = skip_ws(then.skip(1));
            if next.len() < s.len() {
                lemma_items_denotable(next, limit);
                if let Ok((_, others)) = items_production(next, limit) {
                    let items = seq![item] + others;
                    assert(items.drop_first() =~= others);
                    assert(items[0] == item);
                    assert(items_depth(items) <= limit);
                    assert forall|i: int| 0 <= i < items.len() implies is_denotable(
                        #[trigger] items[i],
                    ) by {
                        if i > 0 {
                            assert(items[i] == others[i - 1]);
                        }
                    }
                }
            }
        } else {
            let items = seq![item];
            assert(items.drop_first() =~= Seq::<JsonModel>::empty());
            assert(items[0] == item);
            assert(items_depth(items.drop_first()) == 0);
            assert(items_depth(items) <= limit);
        }
    }
}

/// As `lemma_value_denotable`, for one member of an object.
pub proof fn lemma_member_denotable(s: Seq<u8>, limit: nat)
    ensures
        member_production(s, limit) matches Ok((_, member)) ==> is_string_content(member.0)
            && is_denotable(member.1) && depth(member.1) <= limit,
    decreases s.len(), 4nat,
{
    lemma_string_denotable(s);
    if let Some((after_key, _)) = string_literal(s) {
        let colon = skip_ws(after_key);
        if colon.len() > 0 && colon[0] == COLON {
            let start = skip_ws(colon.skip(1));
            if start.len() < s.len() {
                lemma_value_denotable(start, limit);
            }
        }
    }
}

/// As `lemma_value_denotable`, for the members of an object.
pub proof fn lemma_members_denotable(s: Seq<u8>, limit: nat)
    ensures
        members_production(s, limit) matches Ok((_, members)) ==> members_depth(members) <= limit
            && forall|i: int|
            0 <= i < members.len() ==> is_string_content((#[trigger] members[i]).0)
                && is_denotable(members[i].1),
    decreases s.len(), 5nat,
{
    lemma_member_denotable(s, limit);
    if let Ok((after, member)) = member_production(s, limit) {
        let then = skip_ws(after);
        if then.len() > 0 && then[0] == COMMA {
            let next = skip_ws(then.skip(1));
            if next.len() < s.len() {
                lemma_members_denotable(next, limit);
                if let Ok((_, others)) = members_production(next, limit) {
                    let members = seq![member] + others;
                    assert(members.drop_first() =~= others);
                    assert(members[0] == member);
                    assert(members_depth(members) <= limit);
                    assert forall|i: int| 0 <= i < members.len() implies is_string_content(
                        (#[trigger] members[i]).0,
                    ) && is_denotable(members[i].1) by {
                        if i > 0 {
                            assert(members[i] == others[i - 1]);
                        }
                    }
                }
            }
        } else {
            let members = seq![member];
            assert(members.drop_first() =~= Seq::<(Seq<u8>, JsonModel)>::empty());
            assert(members[0] == member);
            assert(members_depth(members.drop_first()) == 0);
            assert(members_depth(members) <= limit);
        }
    }
}

/// Whatever is read as a document is a denotable value, nested no deeper
/// than the limit under which it was read.
pub proof fn law_parsed_is_denotable(text: Seq<u8>, limit: nat)
    ensures
        document(text, limit) matches Ok(v) ==> is_denotable(v) && depth(v) <= limit,
{
    lemma_value_denotable(skip_ws(text), limit);
}

/// Reading is stable under compact formatting: the compact text of what was
/// read from any text is read as the same value, and formatting that gives
/// the same bytes again.
pub proof fn law_normal_form(text: Seq<u8>, limit: nat)
    requires
        document(text, limit) is Ok,
    ensures
        document(text, limit) matches Ok(v) && document(compact_text(v), limit) == Ok::<
            _,
            ParseError,
        >(v),
{
    law_parsed_is_denotable(text, limit);
    if let Ok(v) = document(text, limit) {
        law_round_trip(v, limit);
    }
}

} // verus!
