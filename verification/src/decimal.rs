use vstd::prelude::*;
use vstd::string::*;
use vstd::utf8::*;
use crate::text::{append_text, lemma_ascii_bytes, MINUS};

verus! {

/// True for the ASCII digits `0` to `9`.
pub open spec fn is_digit(b: u8) -> bool {
    0x30 <= b <= 0x39
}

/// The decimal digits of `n`, most significant first, without leading zeros.
pub open spec fn decimal_digits(n: nat) -> Seq<u8>
    decreases n,
{
    if n < 10 {
        seq![(0x30 + n) as u8]
    } else {
        decimal_digits(n / 10).push((0x30 + n % 10) as u8)
    }
}

/// The decimal text of an integer: a minus sign for a negative one, then its digits.
pub open spec fn decimal_text(i: int) -> Seq<u8> {
    if i < 0 {
        seq![MINUS] + decimal_digits((-i) as nat)
    } else {
        decimal_digits(i as nat)
    }
}

/// The one-character text of a decimal digit.
fn digit_text(d: u8) -> (t: &'static str)
    requires
        d < 10,
    ensures
        t.spec_bytes() == seq![(0x30 + d) as u8],
{
    let t = match d {
        0 => "0",
        1 => "1",
        2 => "2",
        3 => "3",
        4 => "4",
        5 => "5",
        6 => "6",
        7 => "7",
        8 => "8",
        _ => "9",
    };
    proof {
        reveal_strlit("0");
        reveal_strlit("1");
        reveal_strlit("2");
        reveal_strlit("3");
        reveal_strlit("4");
        reveal_strlit("5");
        reveal_strlit("6");
        reveal_strlit("7");
        reveal_strlit("8");
        reveal_strlit("9");
        lemma_ascii_bytes(t, seq![(0x30 + d) as u8]);
    }
    t
}

/// Appends the digits of `n` to `out`.
fn append_digits(out: &mut String, n: u32)
    ensures
        encode_utf8(final(out)@) == encode_utf8(old(out)@) + decimal_digits(n as nat),
    decreases n,
{
    if n >= 10 {
        append_digits(out, n / 10);
    }
    let ghost before = encode_utf8(out@);
    append_text(out, digit_text((n % 10) as u8));
    proof {
        if n >= 10 {
            assert(before + seq![(0x30 + n % 10) as u8] =~= encode_utf8(old(out)@)
                + decimal_digits(n as nat));
        }
    }
}

/// Appends the decimal text of `value` to `out`.
pub fn append_decimal(out: &mut String, value: i32)
    ensures
        encode_utf8(final(out)@) == encode_utf8(old(out)@) + decimal_text(value as int),
{
    if value < 0 {
        proof {
            reveal_strlit("-");
            lemma_ascii_bytes("-", seq![MINUS]);
        }
        append_text(out, "-");
        let wide: i64 = value as i64;
        let magnitude: u32 = (-wide) as u32;
        append_digits(out, magnitude);
        proof {
            assert(encode_utf8(out@) =~= encode_utf8(old(out)@) + decimal_text(value as int));
        }
    } else {
        append_digits(out, value as u32);
    }
}

} // verus!
