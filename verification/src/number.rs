use vstd::prelude::*;
use vstd::slice::*;
use vstd::string::*;
use vstd::utf8::*;
use crate::decimal::{decimal_digits, is_digit};
use crate::error::ParseError;
use crate::lexical::{
    known_text, lemma_run_len, lemma_run_len_append, lemma_run_len_is, lemma_run_len_take,
    run_len,
};
use crate::text::{DOT, LOWER_E, MINUS, PLUS, UNDERSCORE, UPPER_E};
use crate::value::{JsonModel, JsonValue, Number, NumberModel};

verus! {

/// What a production yields on a text: the rest of the text and the value
/// read, or the reason why it read none.
pub type Parsed = Result<(Seq<u8>, JsonModel), ParseError>;

/// The class of decimal digits.
pub open spec fn digit() -> spec_fn(u8) -> bool {
    |b: u8| is_digit(b)
}

/// The class of decimal digits and the separator `_` that may group them.
pub open spec fn digit_or_separator() -> spec_fn(u8) -> bool {
    |b: u8| is_digit(b) || b == UNDERSCORE
}

/// 1 if `s` starts with a sign, else 0.
pub open spec fn sign_len(s: Seq<u8>) -> nat {
    if s.len() > 0 && (s[0] == PLUS || s[0] == MINUS) {
        1
    } else {
        0
    }
}

/// Length of the mantissa that `s` starts with: digits, then optionally a dot
/// and any digits; or a dot and at least one digit.
pub open spec fn mantissa_len(s: Seq<u8>) -> Option<nat> {
    let whole = run_len(s, digit());
    if whole > 0 {
        if whole < s.len() && s[whole as int] == DOT {
            Some(whole + 1 + run_len(s.skip(whole + 1 as int), digit()))
        } else {
            Some(whole)
        }
    } else if s.len() > 0 && s[0] == DOT && run_len(s.skip(1), digit()) > 0 {
        Some(1 + run_len(s.skip(1), digit()))
    } else {
        None
    }
}

/// Length of the exponent that `s` starts with: 0 if `s` does not start with
/// `e` or `E`; else that letter, an optional sign and at least one digit.
/// `None` if the letter is there and the digits are not.
pub open spec fn exponent_len(s: Seq<u8>) -> Option<nat> {
    if s.len() > 0 && (s[0] == LOWER_E || s[0] == UPPER_E) {
        let sign = sign_len(s.skip(1));
        let digits = run_len(s.skip(1 + sign as int), digit());
        if digits > 0 {
            Some(1 + sign + digits)
        } else {
            None
        }
    } else {
        Some(0)
    }
}

/// Length of the float literal that `s` starts with: an optional sign, a
/// mantissa and an optional exponent, each as long as it can be.
pub open spec fn float_len(s: Seq<u8>) -> Option<nat> {
    let sign = sign_len(s);
    match mantissa_len(s.skip(sign as int)) {
        None => None,
        Some(mantissa) => match exponent_len(s.skip(sign + mantissa as int)) {
            None => None,
            Some(exponent) => Some(sign + mantissa + exponent),
        },
    }
}

/// Length of the integer literal that `s` starts with: a digit, then digits
/// and separators as far as they go.
pub open spec fn integer_len(s: Seq<u8>) -> Option<nat> {
    if s.len() > 0 && is_digit(s[0]) {
        Some(run_len(s, digit_or_separator()))
    } else {
        None
    }
}

/// The number that the digits of `s` write in decimal; bytes that are not
/// digits are passed over.
pub open spec fn digits_value(s: Seq<u8>) -> nat
    decreases s.len(),
{
    if s.len() == 0 {
        0
    } else if is_digit(s.last()) {
        digits_value(s.drop_last()) * 10 + (s.last() - 0x30) as nat
    } else {
        digits_value(s.drop_last())
    }
}

/// The float production: the longest float literal, kept as written.
pub open spec fn float_production(s: Seq<u8>) -> Parsed {
    match float_len(s) {
        Some(n) => Ok((s.skip(n as int), JsonModel::Number(NumberModel::Float(s.take(n as int))))),
        None => Err(ParseError::MalformedLiteral),
    }
}

/// The integer production: the longest integer literal, converted to its
/// value with the separators left out. A value above `i32::MAX` is an error.
pub open spec fn integer_production(s: Seq<u8>) -> Parsed {
    match integer_len(s) {
        Some(n) => {
            let value = digits_value(s.take(n as int));
            if value <= i32::MAX {
                Ok((s.skip(n as int), JsonModel::Number(NumberModel::Int(value as int))))
            } else {
                Err(ParseError::NumericConversionOverflow)
            }
        },
        None => Err(ParseError::MalformedLiteral),
    }
}

/// The number production. The float form is tried first and stands when its
/// literal holds something besides digits: a sign, a dot or an exponent.
/// A literal of digits alone, and a text on which the float form fails, go
/// to the integer form.
pub open spec fn number_production(s: Seq<u8>) -> Parsed {
    match float_len(s) {
        Some(n) if run_len(s.take(n as int), digit()) < n => float_production(s),
        _ => integer_production(s),
    }
}

/// True when `r` is what `expected` says, with slices and values taken by
/// their views.
pub open spec fn parsed_as(r: Result<(&[u8], JsonValue), ParseError>, expected: Parsed) -> bool {
    match expected {
        Ok((rest, value)) => r matches Ok((r_rest, r_value)) && r_rest@ == rest && r_value@
            == value,
        Err(e) => r matches Err(r_e) && r_e == e,
    }
}

/// True for the bytes that a float literal is made of.
pub open spec fn is_float_byte(b: u8) -> bool {
    is_digit(b) || b == PLUS || b == MINUS || b == DOT || b == LOWER_E || b == UPPER_E
}

/// A float literal is a non-empty prefix made of digits, signs, dots and
/// exponent letters.
pub proof fn lemma_float_len(s: Seq<u8>)
    ensures
        float_len(s) matches Some(n) ==> 0 < n <= s.len() && forall|i: int|
            0 <= i < n ==> is_float_byte(#[trigger] s[i]),
{
    if let Some(n) = float_len(s) {
        let sign = sign_len(s);
        let body = s.skip(sign as int);
        let mantissa = mantissa_len(body)->0;
        let tail = s.skip(sign + mantissa as int);
        let exponent = exponent_len(tail)->0;
        let whole = run_len(body, digit());
        lemma_run_len(body, digit());
        if whole > 0 {
            if whole < body.len() && body[whole as int] == DOT {
                lemma_run_len(body.skip(whole + 1 as int), digit());
            }
        } else {
            lemma_run_len(body.skip(1), digit());
        }
        assert(mantissa <= body.len());
        assert forall|i: int| 0 <= i < mantissa implies is_float_byte(#[trigger] body[i]) by {
            if whole > 0 {
                if i < whole {
                    assert(digit()(body[i]));
                } else if i > whole {
                    let fraction = body.skip(whole + 1 as int);
                    assert(body[i] == fraction[i - whole - 1]);
                    assert(digit()(fraction[i - whole - 1]));
                }
            } else if i > 0 {
                let fraction = body.skip(1);
                assert(body[i] == fraction[i - 1]);
                assert(digit()(fraction[i - 1]));
            }
        }
        if exponent > 0 {
            let esign = sign_len(tail.skip(1));
            let digits = tail.skip(1 + esign as int);
            lemma_run_len(digits, digit());
            assert forall|i: int| 0 <= i < exponent implies is_float_byte(#[trigger] tail[i]) by {
                if i == 0 {
                } else if i < 1 + esign {
                    assert(tail[i] == tail.skip(1)[0]);
                } else {
                    assert(tail[i] == digits[i - 1 - esign]);
                    assert(digit()(digits[i - 1 - esign]));
                }
            }
        }
        assert forall|i: int| 0 <= i < n implies is_float_byte(#[trigger] s[i]) by {
            if i < sign {
            } else if i < sign + mantissa {
                assert(s[i] == body[i - sign]);
            } else {
                assert(s[i] == tail[i - sign - mantissa]);
            }
        }
    }
}

/// The digits of a number are digits, at least one, and write that number.
pub proof fn lemma_decimal_digits(n: nat)
    ensures
        decimal_digits(n).len() > 0,
        forall|i: int|
            0 <= i < decimal_digits(n).len() ==> is_digit(#[trigger] decimal_digits(n)[i]),
        digits_value(decimal_digits(n)) == n,
    decreases n,
{
    if n >= 10 {
        lemma_decimal_digits(n / 10);
        let front = decimal_digits(n / 10);
        let all = decimal_digits(n);
        assert(all.drop_last() =~= front);
        assert forall|i: int| 0 <= i < all.len() implies is_digit(#[trigger] all[i]) by {
            if i < front.len() {
                assert(all[i] == front[i]);
            }
        }
    } else {
        let all = decimal_digits(n);
        assert(all.drop_last() =~= Seq::<u8>::empty());
        assert(digits_value(all.drop_last()) == 0);
    }
}

/// A float literal is still the literal that a text starts with when the
/// text goes on with a byte that no float literal holds.
pub proof fn lemma_float_len_append(lexeme: Seq<u8>, tail: Seq<u8>)
    requires
        float_len(lexeme) == Some(lexeme.len()),
        tail.len() == 0 || !is_float_byte(tail[0]),
    ensures
        float_len(lexeme + tail) == Some(lexeme.len()),
{
    let s = lexeme + tail;
    let sign = sign_len(lexeme);
    let body = lexeme.skip(sign as int);
    let mantissa = mantissa_len(body)->0;
    let exp = lexeme.skip(sign + mantissa as int);
    let whole = run_len(body, digit());
    lemma_run_len(body, digit());
    assert(lexeme.len() > 0);
    assert(s[0] == lexeme[0]);
    assert(sign_len(s) == sign);
    let body2 = s.skip(sign as int);
    assert(body2 =~= body + tail);
    lemma_run_len_append(body, tail, digit());
    if whole > 0 {
        if whole < body.len() && body[whole as int] == DOT {
            let fraction = body.skip(whole + 1 as int);
            assert(body2[whole as int] == body[whole as int]);
            assert(body2.skip(whole + 1 as int) =~= fraction + tail);
            lemma_run_len_append(fraction, tail, digit());
            lemma_run_len(fraction, digit());
        } else if whole < body.len() {
            assert(body2[whole as int] == body[whole as int]);
        } else if tail.len() > 0 {
            assert(body2[whole as int] == tail[0]);
        }
    } else {
        let fraction = body.skip(1);
        assert(body2[0] == body[0]);
        assert(body2.skip(1) =~= fraction + tail);
        lemma_run_len_append(fraction, tail, digit());
        lemma_run_len(fraction, digit());
    }
    assert(mantissa_len(body2) == Some(mantissa));
    assert(mantissa <= body.len());
    let exp2 = s.skip(sign + mantissa as int);
    assert(exp2 =~= exp + tail);
    if exp.len() > 0 {
        assert(exp2[0] == exp[0]);
        if exp[0] == LOWER_E || exp[0] == UPPER_E {
            let signed = exp.skip(1);
            let esign = sign_len(signed);
            let digits = exp.skip(1 + esign as int);
            lemma_run_len(digits, digit());
            assert(run_len(digits, digit()) > 0);
            assert(signed.len() > 0);
            assert(exp2.skip(1) =~= signed + tail);
            assert(exp2.skip(1)[0] == signed[0]);
            assert(exp2.skip(1 + esign as int) =~= digits + tail);
            lemma_run_len_append(digits, tail, digit());
        }
    } else if tail.len() > 0 {
        assert(exp2[0] == tail[0]);
    }
}

/// The float literal that a text starts with is, taken by itself, a whole
/// float literal.
pub proof fn lemma_float_len_take(s: Seq<u8>)
    ensures
        float_len(s) matches Some(n) ==> float_len(s.take(n as int)) == Some(n),
{
    if let Some(n) = float_len(s) {
        lemma_float_len(s);
        let t = s.take(n as int);
        let sign = sign_len(s);
        let body = s.skip(sign as int);
        let mantissa = mantissa_len(body)->0;
        let exp = s.skip(sign + mantissa as int);
        let exponent = exponent_len(exp)->0;
        let whole = run_len(body, digit());
        lemma_run_len(body, digit());
        assert(t[0] == s[0]);
        assert(sign_len(t) == sign);
        let bt = t.skip(sign as int);
        assert(bt =~= body.take(n - sign));
        if whole > 0 {
            if whole < body.len() && body[whole as int] == DOT {
                let fraction = body.skip(whole + 1 as int);
                lemma_run_len(fraction, digit());
                lemma_run_len_take(body, n - sign, digit());
                assert(bt[whole as int] == body[whole as int]);
                assert(bt.skip(whole + 1 as int) =~= fraction.take(n - sign - whole - 1));
                lemma_run_len_take(fraction, n - sign - whole - 1, digit());
            } else {
                lemma_run_len_take(body, n - sign, digit());
                if whole < bt.len() {
                    assert(bt[whole as int] == body[whole as int]);
                }
            }
        } else {
            let fraction = body.skip(1);
            lemma_run_len(fraction, digit());
            lemma_run_len_take(body, n - sign, digit());
            assert(bt[0] == body[0]);
            assert(bt.skip(1) =~= fraction.take(n - sign - 1));
            lemma_run_len_take(fraction, n - sign - 1, digit());
        }
        assert(mantissa_len(bt) == Some(mantissa));
        let xt = t.skip(sign + mantissa as int);
        assert(xt =~= exp.take(exponent as int));
        if exponent > 0 {
            let signed = exp.skip(1);
            let esign = sign_len(signed);
            let digits = exp.skip(1 + esign as int);
            lemma_run_len(digits, digit());
            assert(xt[0] == exp[0]);
            assert(xt.skip(1) =~= signed.take(exponent - 1));
            assert(xt.skip(1)[0] == signed[0]);
            assert(xt.skip(1 + esign as int) =~= digits.take(exponent - 1 - esign));
            lemma_run_len_take(digits, exponent - 1 - esign, digit());
        }
    }
}

/// A text of ASCII bytes is valid UTF-8.
pub proof fn lemma_ascii_is_utf8(s: Seq<u8>)
    requires
        forall|i: int| 0 <= i < s.len() ==> #[trigger] s[i] < 0x80,
    ensures
        valid_utf8(s),
{
    assert(s.subrange(0, 0) =~= Seq::<u8>::empty());
    assert(partial_valid_utf8(s, 0));
    partial_valid_utf8_extend_ascii_block(s, 0, s.len() as int);
    assert(s.subrange(0, s.len() as int) =~= s);
}

/// `nom::number::complete::recognize_float` on a byte slice: splits off the
/// float literal that `input` starts with. As nom's source has it, the
/// literal is an optional sign, then digits with an optional dot and further
/// digits, or a dot with digits, then optionally `e` or `E`, an optional sign
/// and digits; an `e` without digits after it fails the whole call. Both of
/// nom's failures are `None` here.
#[verifier::external_body]
fn recognize_float(input: &[u8]) -> (r: Option<(&[u8], &[u8])>)
    ensures
        r is Some <==> float_len(input@) is Some,
        r matches Some((rest, lexeme)) ==> float_len(input@) matches Some(n) && rest@
            == input@.skip(n as int) && lexeme@ == input@.take(n as int),
{
    match nom::number::complete::recognize_float::<&[u8], nom::error::Error<&[u8]>>(input) {
        Ok((rest, lexeme)) => Some((rest, lexeme)),
        Err(_) => None,
    }
}

/// Splits off the integer literal that `input` starts with: a digit, then
/// digits and `_` separators as far as they go. `None` when `input` does not
/// start with a digit.
pub fn recognize_integer(input: &[u8]) -> (r: Option<(&[u8], &[u8])>)
    ensures
        r is Some <==> integer_len(input@) is Some,
        r matches Some((rest, lexeme)) ==> integer_len(input@) matches Some(n) && rest@
            == input@.skip(n as int) && lexeme@ == input@.take(n as int),
{
    if input.len() == 0 || !(input[0] >= 0x30 && input[0] <= 0x39) {
        return None;
    }
    let mut i: usize = 0;
    while i < input.len() && ((input[i] >= 0x30 && input[i] <= 0x39) || input[i] == UNDERSCORE)
        invariant
            i <= input.len(),
            forall|j: int| 0 <= j < i ==> digit_or_separator()(#[trigger] input@[j]),
        decreases input.len() - i,
    {
        i += 1;
    }
    proof {
        lemma_run_len_is(input@, digit_or_separator(), i as int);
    }
    let lexeme = slice_subrange(input, 0, i);
    let rest = slice_subrange(input, i, input.len());
    assert(lexeme@ =~= input@.take(i as int));
    assert(rest@ =~= input@.skip(i as int));
    Some((rest, lexeme))
}

/// A longer prefix of a literal does not write a smaller number.
proof fn lemma_digits_value_grows(s: Seq<u8>, k: int)
    requires
        0 <= k <= s.len(),
    ensures
        digits_value(s.take(k)) <= digits_value(s),
    decreases s.len() - k,
{
    if k < s.len() {
        lemma_digits_value_grows(s, k + 1);
        assert(s.take(k + 1).drop_last() =~= s.take(k));
        assert(digits_value(s.take(k)) * 10 >= digits_value(s.take(k))) by (nonlinear_arith);
    } else {
        assert(s.take(k) =~= s);
    }
}

/// Reads a float literal at the start of `input` and keeps it as written.
pub fn parse_float(input: &[u8]) -> (r: Result<(&[u8], JsonValue), ParseError>)
    ensures
        parsed_as(r, float_production(input@)),
{
    match recognize_float(input) {
        Some((rest, lexeme)) => {
            proof {
                lemma_float_len(input@);
                lemma_ascii_is_utf8(lexeme@);
            }
            Ok((rest, JsonValue::Number(Number::Float(known_text(lexeme)))))
        },
        None => Err(ParseError::MalformedLiteral),
    }
}

/// Reads an integer literal at the start of `input` and converts it, the
/// separators left out. A literal that writes more than `i32::MAX` is an
/// error, not a wrapped or clamped value.
pub fn parse_integer(input: &[u8]) -> (r: Result<(&[u8], JsonValue), ParseError>)
    ensures
        parsed_as(r, integer_production(input@)),
{
    let (rest, lexeme) = match recognize_integer(input) {
        Some(found) => found,
        None => { return Err(ParseError::MalformedLiteral); },
    };
    let mut value: i32 = 0;
    let mut i: usize = 0;
    proof {
        lemma_run_len(input@, digit_or_separator());
    }
    assert(lexeme@.take(0) =~= Seq::<u8>::empty());
    while i < lexeme.len()
        invariant
            i <= lexeme.len(),
            0 <= value,
            value == digits_value(lexeme@.take(i as int)),
            integer_len(input@) == Some(lexeme@.len()),
            lexeme@ == input@.take(lexeme@.len() as int),
        decreases lexeme.len() - i,
    {
        let b = lexeme[i];
        proof {
            assert(lexeme@.take(i + 1).drop_last() =~= lexeme@.take(i as int));
            lemma_digits_value_grows(lexeme@, i + 1);
        }
        if b >= 0x30 && b <= 0x39 {
            let digit: i32 = (b - 0x30) as i32;
            if value > (i32::MAX - digit) / 10 {
                return Err(ParseError::NumericConversionOverflow);
            }
            value = value * 10 + digit;
        }
        i += 1;
    }
    assert(lexeme@.take(lexeme.len() as int) =~= lexeme@);
    Ok((rest, JsonValue::Number(Number::Int(value))))
}

/// Reads a number at the start of `input`: a float where the literal holds a
/// sign, a dot or an exponent, else an integer.
pub fn parse_number(input: &[u8]) -> (r: Result<(&[u8], JsonValue), ParseError>)
    ensures
        parsed_as(r, number_production(input@)),
{
    if let Some((_, lexeme)) = recognize_float(input) {
        proof {
            lemma_float_len(input@);
        }
        let mut i: usize = 0;
        while i < lexeme.len() && lexeme[i] >= 0x30 && lexeme[i] <= 0x39
            invariant
                i <= lexeme.len(),
                forall|j: int| 0 <= j < i ==> digit()(#[trigger] lexeme@[j]),
            decreases lexeme.len() - i,
        {
            i += 1;
        }
        proof {
            lemma_run_len_is(lexeme@, digit(), i as int);
        }
        if i < lexeme.len() {
            return parse_float(input);
        }
    }
    parse_integer(input)
}

} // verus!
