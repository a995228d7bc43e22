use vstd::prelude::*;
use vstd::string::*;
use vstd::utf8::*;

verus! {

pub const QUOTE: u8 = 0x22;

pub const COMMA: u8 = 0x2c;

pub const COLON: u8 = 0x3a;

pub const OPEN_BRACKET: u8 = 0x5b;

pub const CLOSE_BRACKET: u8 = 0x5d;

pub const OPEN_BRACE: u8 = 0x7b;

pub const CLOSE_BRACE: u8 = 0x7d;

pub const SPACE: u8 = 0x20;

pub const NEWLINE: u8 = 0x0a;

pub const TAB: u8 = 0x09;

pub const CARRIAGE_RETURN: u8 = 0x0d;

pub const MINUS: u8 = 0x2d;

pub const PLUS: u8 = 0x2b;

pub const DOT: u8 = 0x2e;

pub const LOWER_E: u8 = 0x65;

pub const UPPER_E: u8 = 0x45;

pub const UNDERSCORE: u8 = 0x5f;

/// The bytes of the word `null`.
pub open spec fn null_word() -> Seq<u8> {
    seq![0x6e, 0x75, 0x6c, 0x6c]
}

/// The bytes of the word `true`.
pub open spec fn true_word() -> Seq<u8> {
    seq![0x74, 0x72, 0x75, 0x65]
}

/// The bytes of the word `false`.
pub open spec fn false_word() -> Seq<u8> {
    seq![0x66, 0x61, 0x6c, 0x73, 0x65]
}

/// UTF-8 encoding distributes over concatenation.
pub proof fn lemma_encode_concat(a: Seq<char>, b: Seq<char>)
    ensures
        encode_utf8(a + b) == encode_utf8(a) + encode_utf8(b),
    decreases a.len(),
{
    if a.len() == 0 {
        assert(a + b =~= b);
        assert(encode_utf8(a) + encode_utf8(b) =~= encode_utf8(b));
    } else {
        lemma_encode_concat(a.drop_first(), b);
        assert((a + b).drop_first() =~= a.drop_first() + b);
        assert((a + b)[0] == a[0]);
        assert(encode_utf8(a + b) =~= encode_utf8(a) + encode_utf8(b));
    }
}

/// The bytes of an ASCII-only text are its characters, one byte each.
pub proof fn lemma_ascii_bytes(s: &str, bytes: Seq<u8>)
    requires
        is_ascii(s),
        s@.len() == bytes.len(),
        forall|i: int| 0 <= i < bytes.len() ==> s@[i] as u8 == #[trigger] bytes[i],
    ensures
        s.spec_bytes() == bytes,
{
    is_ascii_chars_encode_utf8(s@);
    assert(s.spec_bytes() =~= bytes);
}

/// Appends `piece` to `out`; stated over the UTF-8 bytes of both.
pub fn append_text(out: &mut String, piece: &str)
    ensures
        encode_utf8(final(out)@) == encode_utf8(old(out)@) + piece.spec_bytes(),
{
    proof {
        lemma_encode_concat(out@, piece@);
    }
    out.append(piece);
}

/// The word `null` as bytes.
pub fn null_bytes() -> (word: &'static [u8])
    ensures
        word@ == null_word(),
{
    proof {
        reveal_strlit("null");
        lemma_ascii_bytes("null", null_word());
    }
    "null".as_bytes()
}

/// The word `true` as bytes.
pub fn true_bytes() -> (word: &'static [u8])
    ensures
        word@ == true_word(),
{
    proof {
        reveal_strlit("true");
        lemma_ascii_bytes("true", true_word());
    }
    "true".as_bytes()
}

/// The word `false` as bytes.
pub fn false_bytes() -> (word: &'static [u8])
    ensures
        word@ == false_word(),
{
    proof {
        reveal_strlit("false");
        lemma_ascii_bytes("false", false_word());
    }
    "false".as_bytes()
}

} // verus!
