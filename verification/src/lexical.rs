use vstd::prelude::*;
use vstd::slice::*;
use vstd::string::*;
use vstd::utf8::*;
use crate::text::{CARRIAGE_RETURN, NEWLINE, QUOTE, SPACE, TAB};

verus! {

/// The insignificant whitespace of JSON: space, tab, newline, carriage return.
pub open spec fn is_whitespace(b: u8) -> bool {
    b == SPACE || b == TAB || b == NEWLINE || b == CARRIAGE_RETURN
}

/// The class of whitespace bytes.
pub open spec fn whitespace() -> spec_fn(u8) -> bool {
    |b: u8| is_whitespace(b)
}

/// The class of bytes that may stand inside a string literal: all but the quote.
pub open spec fn not_quote() -> spec_fn(u8) -> bool {
    |b: u8| b != QUOTE
}

/// Length of the longest prefix of `s` whose bytes are all in `class`.
pub open spec fn run_len(s: Seq<u8>, class: spec_fn(u8) -> bool) -> nat
    decreases s.len(),
{
    if s.len() > 0 && class(s[0]) {
        1 + run_len(s.skip(1), class)
    } else {
        0
    }
}

/// `s` without its leading whitespace.
pub open spec fn skip_ws(s: Seq<u8>) -> Seq<u8> {
    s.skip(run_len(s, whitespace()) as int)
}

/// The string production: an opening quote, the bytes up to the next quote,
/// taken as they are, and that closing quote. `Some((rest, content))` when
/// `s` starts with such a literal and its content is valid UTF-8.
pub open spec fn string_literal(s: Seq<u8>) -> Option<(Seq<u8>, Seq<u8>)> {
    if s.len() > 0 && s[0] == QUOTE {
        let body = s.skip(1);
        let n = run_len(body, not_quote()) as int;
        if n < body.len() && valid_utf8(body.take(n)) {
            Some((body.skip(n + 1), body.take(n)))
        } else {
            None
        }
    } else {
        None
    }
}

/// A run is a prefix, every byte of it is in the class, and the byte after
/// it, if there is one, is not.
pub proof fn lemma_run_len(s: Seq<u8>, class: spec_fn(u8) -> bool)
    ensures
        run_len(s, class) <= s.len(),
        forall|i: int| 0 <= i < run_len(s, class) ==> class(#[trigger] s[i]),
        run_len(s, class) < s.len() ==> !class(s[run_len(s, class) as int]),
    decreases s.len(),
{
    if s.len() > 0 && class(s[0]) {
        let tail = s.skip(1);
        lemma_run_len(tail, class);
        assert forall|i: int| 0 <= i < run_len(s, class) implies class(#[trigger] s[i]) by {
            if i > 0 {
                assert(s[i] == tail[i - 1]);
            }
        }
        if run_len(s, class) < s.len() {
            assert(s[run_len(s, class) as int] == tail[run_len(tail, class) as int]);
        }
    }
}

/// The run is the only prefix of bytes of the class that ends at a byte
/// outside it or at the end of `s`.
pub proof fn lemma_run_len_is(s: Seq<u8>, class: spec_fn(u8) -> bool, n: int)
    requires
        0 <= n <= s.len(),
        forall|i: int| 0 <= i < n ==> class(#[trigger] s[i]),
        n < s.len() ==> !class(s[n]),
    ensures
        run_len(s, class) == n,
    decreases n,
{
    if n > 0 {
        let tail = s.skip(1);
        assert forall|i: int| 0 <= i < n - 1 implies class(#[trigger] tail[i]) by {
            assert(tail[i] == s[i + 1]);
        }
        if n - 1 < tail.len() {
            assert(tail[n - 1] == s[n]);
        }
        lemma_run_len_is(tail, class, n - 1);
    }
}

/// A run does not change when the text goes on with a byte outside the class.
pub proof fn lemma_run_len_append(s: Seq<u8>, tail: Seq<u8>, class: spec_fn(u8) -> bool)
    requires
        tail.len() == 0 || !class(tail[0]),
    ensures
        run_len(s + tail, class) == run_len(s, class),
{
    lemma_run_len(s, class);
    let n = run_len(s, class) as int;
    let whole = s + tail;
    assert forall|i: int| 0 <= i < n implies class(#[trigger] whole[i]) by {
        assert(whole[i] == s[i]);
    }
    if n < s.len() {
        assert(whole[n] == s[n]);
    } else if tail.len() > 0 {
        assert(whole[n] == tail[0]);
    }
    lemma_run_len_is(whole, class, n);
}

/// The run of a text cut off after `k` bytes is the run of the whole text,
/// or `k` if that is less.
pub proof fn lemma_run_len_take(s: Seq<u8>, k: int, class: spec_fn(u8) -> bool)
    requires
        0 <= k <= s.len(),
    ensures
        run_len(s.take(k), class) == if run_len(s, class) <= k {
            run_len(s, class) as int
        } else {
            k
        },
{
    lemma_run_len(s, class);
    let cut = s.take(k);
    let n = if run_len(s, class) <= k {
        run_len(s, class) as int
    } else {
        k
    };
    assert forall|i: int| 0 <= i < n implies class(#[trigger] cut[i]) by {
        assert(cut[i] == s[i]);
    }
    if n < cut.len() {
        assert(cut[n] == s[n]);
    }
    lemma_run_len_is(cut, class, n);
}

/// A text that does not start with whitespace has none to skip.
pub proof fn lemma_skip_ws_none(s: Seq<u8>)
    requires
        s.len() == 0 || !is_whitespace(s[0]),
    ensures
        skip_ws(s) == s,
{
    lemma_run_len_is(s, whitespace(), 0);
    assert(s.skip(0) =~= s);
}

/// Skipping whitespace leaves a suffix that does not start with whitespace.
pub proof fn lemma_skip_ws(s: Seq<u8>)
    ensures
        skip_ws(s).len() <= s.len(),
        skip_ws(s).len() > 0 ==> !is_whitespace(skip_ws(s)[0]),
        skip_ws(skip_ws(s)) == skip_ws(s),
{
    lemma_run_len(s, whitespace());
    let t = skip_ws(s);
    lemma_run_len_is(t, whitespace(), 0);
    assert(t.skip(0) =~= t);
}

/// True when `rest` is what is left of `s` once some bytes, or none, are
/// taken from its front.
pub open spec fn is_suffix_of(rest: Seq<u8>, s: Seq<u8>) -> bool {
    rest.len() <= s.len() && rest == s.skip(s.len() - rest.len())
}

/// A suffix of a suffix is a suffix.
pub proof fn lemma_suffix_trans(a: Seq<u8>, b: Seq<u8>, c: Seq<u8>)
    requires
        is_suffix_of(a, b),
        is_suffix_of(b, c),
    ensures
        is_suffix_of(a, c),
{
    assert(c.skip(c.len() - b.len()).skip(b.len() - a.len()) =~= c.skip(c.len() - a.len()));
}

/// Skipping whitespace leaves a suffix.
pub proof fn lemma_skip_ws_is_suffix(s: Seq<u8>)
    ensures
        is_suffix_of(skip_ws(s), s),
{
    lemma_run_len(s, whitespace());
}

/// Checks for one given byte at the start of `input`.
///
/// Returns the rest of `input` and the byte when `input` starts with `c`,
/// and `None`, consuming nothing, when it is empty or starts otherwise.
pub fn parse_char(input: &[u8], c: u8) -> (r: Option<(&[u8], u8)>)
    ensures
        r is Some <==> input@.len() > 0 && input@[0] == c,
        r matches Some((rest, found)) ==> rest@ == input@.skip(1) && found == c,
{
    if input.len() > 0 && input[0] == c {
        let rest = slice_subrange(input, 1, input.len());
        assert(rest@ =~= input@.skip(1));
        Some((rest, c))
    } else {
        None
    }
}

/// Checks for a given sequence of bytes at the start of `input`.
///
/// Returns the rest of `input` and `s` when `input` starts with `s`, and
/// `None`, consuming nothing, otherwise.
pub fn parse_string<'a>(input: &'a [u8], s: &'a [u8]) -> (r: Option<(&'a [u8], &'a [u8])>)
    ensures
        r is Some <==> s@.is_prefix_of(input@),
        r matches Some((rest, found)) ==> rest@ == input@.skip(s@.len() as int) && found@ == s@,
{
    if s.len() > input.len() {
        return None;
    }
    let mut i: usize = 0;
    while i < s.len()
        invariant
            i <= s.len() <= input.len(),
            forall|j: int| 0 <= j < i ==> s@[j] == input@[j],
        decreases s.len() - i,
    {
        if s[i] != input[i] {
            proof {
                if s@.is_prefix_of(input@) {
                    assert(s@[i as int] == input@.subrange(0, s@.len() as int)[i as int]);
                }
            }
            return None;
        }
        i += 1;
    }
    let rest = slice_subrange(input, s.len(), input.len());
    assert(rest@ =~= input@.skip(s@.len() as int));
    assert(s@ =~= input@.subrange(0, s@.len() as int));
    Some((rest, s))
}

/// Drops the whitespace that `input` starts with.
pub fn skip_whitespace(input: &[u8]) -> (rest: &[u8])
    ensures
        rest@ == skip_ws(input@),
{
    let mut i: usize = 0;
    while i < input.len() && (input[i] == SPACE || input[i] == TAB || input[i] == NEWLINE
        || input[i] == CARRIAGE_RETURN)
        invariant
            i <= input.len(),
            forall|j: int| 0 <= j < i ==> whitespace()(#[trigger] input@[j]),
        decreases input.len() - i,
    {
        i += 1;
    }
    proof {
        lemma_run_len_is(input@, whitespace(), i as int);
    }
    let rest = slice_subrange(input, i, input.len());
    assert(rest@ =~= skip_ws(input@));
    rest
}

/// `core::str::from_utf8`: the text that `bytes` encode. The standard
/// library documents that the call succeeds exactly on valid UTF-8 and
/// returns a view of the same bytes; that is all this contract says.
#[verifier::external_body]
fn text_of<'a>(bytes: &'a [u8]) -> (r: Option<&'a str>)
    ensures
        r is Some <==> valid_utf8(bytes@),
        r matches Some(text) ==> text.spec_bytes() == bytes@,
{
    match core::str::from_utf8(bytes) {
        Ok(text) => Some(text),
        Err(_) => None,
    }
}

/// The text of `bytes`, for a caller who knows them to be valid UTF-8.
pub(crate) fn known_text<'a>(bytes: &'a [u8]) -> (text: &'a str)
    requires
        valid_utf8(bytes@),
    ensures
        text.spec_bytes() == bytes@,
{
    match text_of(bytes) {
        Some(text) => text,
        None => "",
    }
}

/// Reads a string literal at the start of `input`: a quote, any bytes but a
/// quote, and a quote. Nothing is escaped or decoded.
///
/// Returns the rest of `input` after the closing quote and the text between
/// the quotes. Returns `None` when `input` does not start with a quote, holds
/// no second quote, or holds bytes between the two that are not UTF-8.
pub fn parse_string_literal(input: &[u8]) -> (r: Option<(&[u8], &str)>)
    ensures
        r is Some <==> string_literal(input@) is Some,
        r matches Some((rest, text)) ==> string_literal(input@) == Some(
            (rest@, text.spec_bytes()),
        ),
{
    let body = match parse_char(input, QUOTE) {
        Some((body, _)) => body,
        None => { return None; },
    };
    let mut i: usize = 0;
    while i < body.len() && body[i] != QUOTE
        invariant
            i <= body.len(),
            forall|j: int| 0 <= j < i ==> not_quote()(#[trigger] body@[j]),
        decreases body.len() - i,
    {
        i += 1;
    }
    proof {
        lemma_run_len_is(body@, not_quote(), i as int);
    }
    if i == body.len() {
        return None;
    }
    let content = slice_subrange(body, 0, i);
    let rest = slice_subrange(body, i + 1, body.len());
    assert(content@ =~= body@.take(i as int));
    assert(rest@ =~= body@.skip(i + 1));
    match text_of(content) {
        Some(text) => Some((rest, text)),
        None => None,
    }
}

} // verus!
