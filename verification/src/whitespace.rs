use vstd::prelude::*;
use crate::grammar::{
    array_production, document, items_production, lemma_after_value, lemma_member_rest,
    lemma_string_rest, lemma_value_dispatch, lemma_value_rest, member_production,
    members_production, object_production, scalar_production, value_production,
};
use crate::lexical::{lemma_skip_ws, lemma_skip_ws_none};
use crate::roundtrip::lemma_no_number;
use crate::lexical::{
    is_whitespace, lemma_run_len, lemma_run_len_append, lemma_run_len_is, lemma_run_len_take,
    not_quote, run_len,
    skip_ws, string_literal, whitespace,
};
use crate::number::{
    digit, digit_or_separator, float_len, integer_len, is_float_byte, lemma_float_len,
    lemma_float_len_append, lemma_float_len_take, number_production,
};
use crate::text::{
    false_word, null_word, true_word, CLOSE_BRACE, CLOSE_BRACKET, COLON, COMMA, OPEN_BRACE,
    OPEN_BRACKET, QUOTE,
};

verus! {

/// The delimiters, the comma and the colon.
pub open spec fn is_punctuation(b: u8) -> bool {
    b == OPEN_BRACKET || b == CLOSE_BRACKET || b == OPEN_BRACE || b == CLOSE_BRACE || b == COMMA
        || b == COLON
}

/// How many quote characters `s` holds.
pub open spec fn quote_count(s: Seq<u8>) -> nat
    decreases s.len(),
{
    if s.len() == 0 {
        0
    } else if s.last() == QUOTE {
        quote_count(s.drop_last()) + 1
    } else {
        quote_count(s.drop_last())
    }
}

/// True when `gap` holds whitespace only.
pub open spec fn is_whitespace_run(gap: Seq<u8>) -> bool {
    forall|i: int| 0 <= i < gap.len() ==> is_whitespace(#[trigger] gap[i])
}

/// `base` with `gap` put in after its first `m` bytes.
pub open spec fn with_gap(base: Seq<u8>, m: int, gap: Seq<u8>) -> Seq<u8> {
    base.take(m) + gap + base.skip(m)
}

/// True when the place after the first `m` bytes of `base` lies beside a
/// delimiter, a comma or a colon and outside every string literal: an even
/// number of quotes stands before it.
pub open spec fn is_beside_punctuation(base: Seq<u8>, m: int) -> bool {
    &&& 0 <= m <= base.len()
    &&& quote_count(base.take(m)) % 2 == 0
    &&& (m > 0 && is_punctuation(base[m - 1])) || (m < base.len() && is_punctuation(base[m]))
}

/// True when `rest` is what is left of `base` from an offset at or before
/// `m`, an even number of quotes stands before that offset, and `twin` is
/// what is left of the text with the gap from the same offset.
pub open spec fn at_offset(
    base: Seq<u8>,
    m: int,
    gap: Seq<u8>,
    rest: Seq<u8>,
    twin: Seq<u8>,
) -> bool {
    let o = base.len() - rest.len();
    &&& 0 <= o <= m
    &&& rest == base.skip(o)
    &&& twin == with_gap(base, m, gap).skip(o)
    &&& quote_count(base.take(o)) % 2 == 0
}

/// True when reading has gone on in step in both texts: either the two rests
/// are the same, or they stand at the same offset before the gap.
pub open spec fn in_step(
    base: Seq<u8>,
    m: int,
    gap: Seq<u8>,
    rest: Seq<u8>,
    twin: Seq<u8>,
) -> bool {
    twin == rest || at_offset(base, m, gap, rest, twin)
}

/// As `at_offset`, strictly before the gap and at a byte that is no
/// whitespace.
pub open spec fn before_gap(
    base: Seq<u8>,
    m: int,
    gap: Seq<u8>,
    rest: Seq<u8>,
    twin: Seq<u8>,
) -> bool {
    &&& at_offset(base, m, gap, rest, twin)
    &&& base.len() - rest.len() < m
    &&& !is_whitespace(base[base.len() - rest.len()])
}

/// The quotes of a text are those of its two parts.
pub proof fn lemma_quote_count_concat(a: Seq<u8>, b: Seq<u8>)
    ensures
        quote_count(a + b) == quote_count(a) + quote_count(b),
    decreases b.len(),
{
    if b.len() == 0 {
        assert(a + b =~= a);
    } else {
        lemma_quote_count_concat(a, b.drop_last());
        assert((a + b).drop_last() =~= a + b.drop_last());
        assert((a + b).last() == b.last());
    }
}

/// A text without a quote counts none.
pub proof fn lemma_no_quotes(s: Seq<u8>)
    requires
        forall|i: int| 0 <= i < s.len() ==> #[trigger] s[i] != QUOTE,
    ensures
        quote_count(s) == 0,
    decreases s.len(),
{
    if s.len() > 0 {
        let front = s.drop_last();
        assert forall|i: int| 0 <= i < front.len() implies #[trigger] front[i] != QUOTE by {
            assert(front[i] == s[i]);
        }
        lemma_no_quotes(front);
    }
}

/// Going on over bytes that are no quotes leaves the count as it was.
pub proof fn lemma_quote_count_advance(base: Seq<u8>, from: int, to: int)
    requires
        0 <= from <= to <= base.len(),
        forall|i: int| from <= i < to ==> #[trigger] base[i] != QUOTE,
    ensures
        quote_count(base.take(to)) == quote_count(base.take(from)),
{
    let passed = base.subrange(from, to);
    assert(base.take(to) =~= base.take(from) + passed);
    lemma_quote_count_concat(base.take(from), passed);
    assert forall|i: int| 0 <= i < passed.len() implies #[trigger] passed[i] != QUOTE by {
        assert(passed[i] == base[from + i]);
    }
    lemma_no_quotes(passed);
}

/// Before the gap the two texts hold the same bytes.
pub proof fn lemma_same_before_gap(base: Seq<u8>, m: int, gap: Seq<u8>, o: int, i: int)
    requires
        0 <= o <= m <= base.len(),
        0 <= i < m - o,
    ensures
        with_gap(base, m, gap).skip(o)[i] == base[o + i],
        base.skip(o)[i] == base[o + i],
{
}

/// Going on by `k` bytes before the gap.
pub proof fn lemma_step_before_gap(base: Seq<u8>, m: int, gap: Seq<u8>, o: int, k: int)
    requires
        0 <= o,
        0 <= k,
        o + k <= m <= base.len(),
    ensures
        with_gap(base, m, gap).skip(o).skip(k) == with_gap(base, m, gap).skip(o + k),
        base.skip(o).skip(k) == base.skip(o + k),
        with_gap(base, m, gap).skip(o).len() == base.len() - o + gap.len(),
{
    assert(with_gap(base, m, gap).skip(o).skip(k) =~= with_gap(base, m, gap).skip(o + k));
    assert(base.skip(o).skip(k) =~= base.skip(o + k));
}

/// A run that starts with bytes of the class goes on behind them.
pub proof fn lemma_run_len_prepend(a: Seq<u8>, b: Seq<u8>, class: spec_fn(u8) -> bool)
    requires
        forall|i: int| 0 <= i < a.len() ==> class(#[trigger] a[i]),
    ensures
        run_len(a + b, class) == a.len() + run_len(b, class),
{
    let whole = a + b;
    let n = a.len() + run_len(b, class);
    lemma_run_len(b, class);
    assert forall|i: int| 0 <= i < n implies class(#[trigger] whole[i]) by {
        if i < a.len() {
            assert(whole[i] == a[i]);
        } else {
            assert(whole[i] == b[i - a.len()]);
        }
    }
    if n < whole.len() {
        assert(whole[n as int] == b[run_len(b, class) as int]);
    }
    lemma_run_len_is(whole, class, n as int);
}

/// Skipping whitespace keeps the two texts in step: afterwards the rests
/// are the same, or both stand before the gap at a byte that is no whitespace.
pub proof fn lemma_skip_ws_in_step(
    base: Seq<u8>,
    m: int,
    gap: Seq<u8>,
    rest: Seq<u8>,
    twin: Seq<u8>,
)
    requires
        0 <= m <= base.len(),
        is_whitespace_run(gap),
        in_step(base, m, gap, rest, twin),
    ensures
        skip_ws(twin) == skip_ws(rest) || before_gap(base, m, gap, skip_ws(rest), skip_ws(twin)),
{
    if twin != rest {
        let o = base.len() - rest.len();
        let k = run_len(rest, whitespace()) as int;
        lemma_run_len(rest, whitespace());
        if o + k < m {
            assert forall|i: int| 0 <= i < k implies whitespace()(#[trigger] twin[i]) by {
                lemma_same_before_gap(base, m, gap, o, i);
                assert(whitespace()(rest[i]));
            }
            lemma_same_before_gap(base, m, gap, o, k);
            lemma_step_before_gap(base, m, gap, o, k);
            lemma_run_len_is(twin, whitespace(), k);
            assert forall|i: int| o <= i < o + k implies #[trigger] base[i] != QUOTE by {
                assert(whitespace()(rest[i - o]));
            }
            lemma_quote_count_advance(base, o, o + k);
        } else {
            let head = base.subrange(o, m);
            let tail = base.skip(m);
            assert(rest =~= head + tail);
            assert(twin =~= head + (gap + tail));
            assert forall|i: int| 0 <= i < head.len() implies whitespace()(#[trigger] head[i]) by {
                assert(whitespace()(rest[i]));
            }
            assert forall|i: int| 0 <= i < gap.len() implies whitespace()(#[trigger] gap[i]) by {
                assert(is_whitespace(gap[i]));
            }
            lemma_run_len_prepend(head, tail, whitespace());
            lemma_run_len_prepend(gap, tail, whitespace());
            lemma_run_len_prepend(head, gap + tail, whitespace());
            lemma_run_len(tail, whitespace());
            let j = run_len(tail, whitespace()) as int;
            assert(skip_ws(rest) =~= tail.skip(j));
            assert(skip_ws(twin) =~= tail.skip(j));
        }
    }
}

/// True when `rest` may follow a scalar in a text that is read to its end: it
/// is empty or starts with whitespace, a delimiter, a comma or a colon.
pub open spec fn ends_token(rest: Seq<u8>) -> bool {
    rest.len() == 0 || is_whitespace(rest[0]) || is_punctuation(rest[0])
}

/// What the lemmas on productions ask of the place of the gap and of the
/// offset `o` at which a production starts: the gap lies beside punctuation
/// and outside strings, it holds whitespace only, and the production starts
/// before it and outside strings.
pub open spec fn starts_before_gap(base: Seq<u8>, m: int, gap: Seq<u8>, o: int) -> bool {
    &&& is_beside_punctuation(base, m)
    &&& is_whitespace_run(gap)
    &&& 0 <= o < m
    &&& quote_count(base.take(o)) % 2 == 0
}

/// One byte more adds one to the count if it is a quote.
pub proof fn lemma_quote_count_step(base: Seq<u8>, k: int)
    requires
        0 <= k < base.len(),
    ensures
        quote_count(base.take(k + 1)) == quote_count(base.take(k)) + if base[k] == QUOTE {
            1nat
        } else {
            0nat
        },
{
    assert(base.take(k + 1).drop_last() =~= base.take(k));
    assert(base.take(k + 1).last() == base[k]);
}

/// What may follow a scalar in the text may follow it in the text with the
/// gap too.
pub proof fn lemma_ends_token_twin(base: Seq<u8>, m: int, gap: Seq<u8>, o: int)
    requires
        0 <= o <= m <= base.len(),
        is_whitespace_run(gap),
        ends_token(base.skip(o)),
    ensures
        ends_token(with_gap(base, m, gap).skip(o)),
{
    let twin = with_gap(base, m, gap).skip(o);
    if twin.len() > 0 {
        if o < m {
            lemma_same_before_gap(base, m, gap, o, 0);
        } else if gap.len() > 0 {
            assert(twin[0] == gap[0]);
        } else {
            assert(twin =~= base.skip(o));
        }
    }
}

/// A production that takes `n` bytes none of which is punctuation cannot
/// reach across the gap.
pub proof fn lemma_token_ends_before_gap(base: Seq<u8>, m: int, o: int, n: int)
    requires
        is_beside_punctuation(base, m),
        0 <= o < m,
        0 <= n,
        o + n <= base.len(),
        forall|i: int| o <= i < o + n ==> !is_punctuation(#[trigger] base[i]),
    ensures
        o + n <= m,
{
    if o + n > m {
        assert(!is_punctuation(base[m - 1]));
        assert(!is_punctuation(base[m]));
    }
}

/// A string literal that starts before the gap is read the same from the
/// text with the gap.
pub proof fn lemma_string_with_gap(base: Seq<u8>, m: int, gap: Seq<u8>, o: int)
    requires
        starts_before_gap(base, m, gap, o),
        string_literal(base.skip(o)) is Some,
    ensures
        match (string_literal(base.skip(o)), string_literal(with_gap(base, m, gap).skip(o))) {
            (Some((rest, text)), Some((twin, same))) => same == text && at_offset(
                base,
                m,
                gap,
                rest,
                twin,
            ),
            _ => false,
        },
{
    let s = base.skip(o);
    let t = with_gap(base, m, gap).skip(o);
    let body = s.skip(1);
    let n = run_len(body, not_quote()) as int;
    lemma_run_len(body, not_quote());
    lemma_same_before_gap(base, m, gap, o, 0);
    lemma_quote_count_step(base, o);
    // The closing quote stands before the gap: else an odd number of
    // quotes would stand before it.
    if o + 1 + n >= m {
        assert forall|i: int| o + 1 <= i < m implies #[trigger] base[i] != QUOTE by {
            assert(not_quote()(body[i - o - 1]));
        }
        lemma_quote_count_advance(base, o + 1, m);
        assert(false);
    }
    assert forall|i: int| o + 1 <= i < o + 1 + n implies #[trigger] base[i] != QUOTE by {
        assert(not_quote()(body[i - o - 1]));
    }
    lemma_quote_count_advance(base, o + 1, o + 1 + n);
    lemma_quote_count_step(base, o + 1 + n);
    lemma_step_before_gap(base, m, gap, o, 1);
    let body2 = t.skip(1);
    assert forall|i: int| 0 <= i < n implies not_quote()(#[trigger] body2[i]) by {
        lemma_same_before_gap(base, m, gap, o + 1, i);
        assert(not_quote()(body[i]));
    }
    lemma_same_before_gap(base, m, gap, o + 1, n);
    lemma_run_len_is(body2, not_quote(), n);
    assert(body2.take(n) =~= body.take(n)) by {
        assert forall|i: int| 0 <= i < n implies body2.take(n)[i] == body.take(n)[i] by {
            lemma_same_before_gap(base, m, gap, o + 1, i);
        }
    }
    lemma_step_before_gap(base, m, gap, o + 1, n + 1);
    assert(body.skip(n + 1) =~= base.skip(o + n + 2));
}

/// A word that starts before the gap is read the same from the text with
/// the gap.
pub proof fn lemma_word_with_gap(base: Seq<u8>, m: int, gap: Seq<u8>, o: int, word: Seq<u8>)
    requires
        starts_before_gap(base, m, gap, o),
        word == null_word() || word == true_word() || word == false_word(),
        word.is_prefix_of(base.skip(o)),
    ensures
        word.is_prefix_of(with_gap(base, m, gap).skip(o)),
        at_offset(
            base,
            m,
            gap,
            base.skip(o).skip(word.len() as int),
            with_gap(base, m, gap).skip(o).skip(word.len() as int),
        ),
{
    let s = base.skip(o);
    let t = with_gap(base, m, gap).skip(o);
    let n = word.len() as int;
    assert forall|i: int| o <= i < o + n implies !is_punctuation(#[trigger] base[i]) && base[i]
        != QUOTE by {
        assert(base[i] == s.subrange(0, n)[i - o]);
    }
    lemma_token_ends_before_gap(base, m, o, n);
    lemma_quote_count_advance(base, o, o + n);
    lemma_step_before_gap(base, m, gap, o, n);
    assert(t.subrange(0, n) =~= word) by {
        assert forall|i: int| 0 <= i < n implies t.subrange(0, n)[i] == word[i] by {
            lemma_same_before_gap(base, m, gap, o, i);
            assert(word[i] == s.subrange(0, n)[i]);
        }
    }
}

/// A token of `n` bytes that starts before the gap, holds neither
/// punctuation nor a quote and ends where a token may end stands before the
/// gap as a whole; the two texts hold it alike and stay in step behind it.
pub proof fn lemma_token_with_gap(base: Seq<u8>, m: int, gap: Seq<u8>, o: int, n: int)
    requires
        starts_before_gap(base, m, gap, o),
        0 < n,
        o + n <= base.len(),
        forall|i: int| o <= i < o + n ==> !is_punctuation(#[trigger] base[i]) && base[i] != QUOTE,
        ends_token(base.skip(o + n)),
    ensures
        o + n <= m,
        with_gap(base, m, gap).skip(o).take(n) == base.skip(o).take(n),
        with_gap(base, m, gap).skip(o) == base.skip(o).take(n) + with_gap(base, m, gap).skip(
            o + n,
        ),
        base.skip(o) == base.skip(o).take(n) + base.skip(o + n),
        ends_token(with_gap(base, m, gap).skip(o + n)),
        at_offset(base, m, gap, base.skip(o + n), with_gap(base, m, gap).skip(o + n)),
{
    let s = base.skip(o);
    let t = with_gap(base, m, gap).skip(o);
    lemma_token_ends_before_gap(base, m, o, n);
    lemma_quote_count_advance(base, o, o + n);
    lemma_step_before_gap(base, m, gap, o, n);
    lemma_ends_token_twin(base, m, gap, o + n);
    assert(t.take(n) =~= s.take(n)) by {
        assert forall|i: int| 0 <= i < n implies t.take(n)[i] == s.take(n)[i] by {
            lemma_same_before_gap(base, m, gap, o, i);
        }
    }
    assert(t =~= s.take(n) + t.skip(n));
    assert(s =~= s.take(n) + s.skip(n));
}

/// A float that starts before the gap and ends where a token may end is
/// read the same from the text with the gap.
proof fn lemma_float_with_gap(base: Seq<u8>, m: int, gap: Seq<u8>, o: int)
    requires
        starts_before_gap(base, m, gap, o),
        float_len(base.skip(o)) matches Some(n) && ends_token(base.skip(o).skip(n as int)),
    ensures
        float_len(with_gap(base, m, gap).skip(o)) == float_len(base.skip(o)),
        float_len(base.skip(o)) matches Some(n) && with_gap(base, m, gap).skip(o).take(n as int)
            == base.skip(o).take(n as int) && at_offset(
            base,
            m,
            gap,
            base.skip(o).skip(n as int),
            with_gap(base, m, gap).skip(o).skip(n as int),
        ),
{
    let s = base.skip(o);
    let t = with_gap(base, m, gap).skip(o);
    lemma_float_len(s);
    lemma_float_len_take(s);
    if let Some(w) = float_len(s) {
        let n = w as int;
        assert(base.skip(o).skip(n) =~= base.skip(o + n));
        assert forall|i: int| o <= i < o + n implies !is_punctuation(#[trigger] base[i])
            && base[i] != QUOTE by {
            assert(is_float_byte(s[i - o]));
        }
        lemma_token_with_gap(base, m, gap, o, n);
        lemma_step_before_gap(base, m, gap, o, n);
        lemma_float_len_append(s.take(n), with_gap(base, m, gap).skip(o + n));
    }
}

/// An integer literal that starts before the gap and ends where a token may
/// end is the integer literal of the text with the gap too.
proof fn lemma_integer_with_gap(base: Seq<u8>, m: int, gap: Seq<u8>, o: int)
    requires
        starts_before_gap(base, m, gap, o),
        integer_len(base.skip(o)) matches Some(n) && ends_token(base.skip(o).skip(n as int)),
    ensures
        integer_len(with_gap(base, m, gap).skip(o)) == integer_len(base.skip(o)),
        float_len(with_gap(base, m, gap).skip(o)) == float_len(base.skip(o)),
        float_len(base.skip(o)) == Some(run_len(base.skip(o), digit())),
        integer_len(base.skip(o)) matches Some(n) && run_len(base.skip(o), digit()) <= n
            && with_gap(base, m, gap).skip(o).take(n as int) == base.skip(o).take(n as int)
            && at_offset(
            base,
            m,
            gap,
            base.skip(o).skip(n as int),
            with_gap(base, m, gap).skip(o).skip(n as int),
        ),
{
    let s = base.skip(o);
    let t = with_gap(base, m, gap).skip(o);
    if let Some(w) = integer_len(s) {
        let n = w as int;
        lemma_run_len(s, digit_or_separator());
        assert(base.skip(o).skip(n) =~= base.skip(o + n));
        assert forall|i: int| o <= i < o + n implies !is_punctuation(#[trigger] base[i])
            && base[i] != QUOTE by {
            assert(digit_or_separator()(s[i - o]));
        }
        lemma_token_with_gap(base, m, gap, o, n);
        lemma_step_before_gap(base, m, gap, o, n);
        let after = with_gap(base, m, gap).skip(o + n);
        let rest = base.skip(o + n);
        let lexeme = s.take(n);
        // The integer literal ends at the same byte in both texts.
        lemma_run_len_take(s, n, digit_or_separator());
        lemma_run_len_append(lexeme, after, digit_or_separator());
        assert(t[0] == lexeme[0]);
        assert(s[0] == lexeme[0]);
        // The float form sees the leading digits alone in both texts: they
        // end at a separator or where the token ends.
        let k = run_len(s, digit()) as int;
        lemma_run_len(s, digit());
        assert(k <= n) by {
            if k > n {
                assert(digit()(s[n]));
                assert(digit_or_separator()(s[n]));
            }
        }
        lemma_run_len_take(s, n, digit());
        lemma_run_len_append(lexeme, after, digit());
        lemma_run_len_append(lexeme, rest, digit());
        assert(s.skip(0) =~= s);
        assert(t.skip(0) =~= t);
        if k < n {
            assert(t[k] == lexeme[k]);
            assert(s[k] == lexeme[k]);
            assert(digit_or_separator()(s[k]));
        }
        assert(float_len(s) == Some(k as nat));
        assert(float_len(t) == Some(k as nat));
    }
}

/// A number that starts before the gap and ends where a token may end is
/// read the same from the text with the gap.
pub proof fn lemma_number_with_gap(base: Seq<u8>, m: int, gap: Seq<u8>, o: int)
    requires
        starts_before_gap(base, m, gap, o),
        number_production(base.skip(o)) matches Ok((rest, _)) && ends_token(rest),
    ensures
        match (number_production(base.skip(o)), number_production(with_gap(base, m, gap).skip(o))) {
            (Ok((rest, value)), Ok((twin, same))) => same == value && at_offset(
                base,
                m,
                gap,
                rest,
                twin,
            ),
            _ => false,
        },
{
    let s = base.skip(o);
    let t = with_gap(base, m, gap).skip(o);
    lemma_float_len(s);
    let w = match float_len(s) {
        Some(w) => w as int,
        None => 0,
    };
    if float_len(s) is Some && run_len(s.take(w), digit()) < w {
        lemma_float_with_gap(base, m, gap, o);
    } else {
        lemma_integer_with_gap(base, m, gap, o);
        let k = run_len(s, digit()) as int;
        let n = match integer_len(s) {
            Some(n) => n as int,
            None => 0,
        };
        lemma_run_len(s, digit_or_separator());
        lemma_step_before_gap(base, m, gap, o, 0);
        lemma_run_len_take(s, k, digit());
        assert(0 <= k <= n <= s.len() <= t.len());
        assert(t.take(k) =~= t.take(n).take(k));
        assert(s.take(k) =~= s.take(n).take(k));
    }
}

/// A scalar that starts before the gap and ends where a token may end is
/// read the same from the text with the gap.
pub proof fn lemma_scalar_with_gap(base: Seq<u8>, m: int, gap: Seq<u8>, o: int)
    requires
        starts_before_gap(base, m, gap, o),
        scalar_production(base.skip(o)) matches Ok((rest, _)) && ends_token(rest),
    ensures
        match (scalar_production(base.skip(o)), scalar_production(with_gap(base, m, gap).skip(o))) {
            (Ok((rest, value)), Ok((twin, same))) => same == value && at_offset(
                base,
                m,
                gap,
                rest,
                twin,
            ),
            _ => false,
        },
{
    let s = base.skip(o);
    let t = with_gap(base, m, gap).skip(o);
    lemma_same_before_gap(base, m, gap, o, 0);
    assert(t[0] == s[0]);
    assert(null_word().is_prefix_of(s) ==> s[0] == 0x6e) by {
        if null_word().is_prefix_of(s) {
            assert(s.subrange(0, 4)[0] == s[0]);
        }
    }
    assert(null_word().is_prefix_of(t) ==> t[0] == 0x6e) by {
        if null_word().is_prefix_of(t) {
            assert(t.subrange(0, 4)[0] == t[0]);
        }
    }
    assert(true_word().is_prefix_of(s) ==> s[0] == 0x74) by {
        if true_word().is_prefix_of(s) {
            assert(s.subrange(0, 4)[0] == s[0]);
        }
    }
    assert(false_word().is_prefix_of(s) ==> s[0] == 0x66) by {
        if false_word().is_prefix_of(s) {
            assert(s.subrange(0, 5)[0] == s[0]);
        }
    }
    assert(false_word().is_prefix_of(t) ==> t[0] == 0x66) by {
        if false_word().is_prefix_of(t) {
            assert(t.subrange(0, 5)[0] == t[0]);
        }
    }
    if is_float_byte(s[0]) {
        lemma_number_with_gap(base, m, gap, o);
    } else {
        lemma_no_number(s);
        lemma_no_number(t);
        if s[0] == QUOTE {
            lemma_string_with_gap(base, m, gap, o);
        } else if null_word().is_prefix_of(s) {
            lemma_word_with_gap(base, m, gap, o, null_word());
        } else if false_word().is_prefix_of(s) {
            lemma_word_with_gap(base, m, gap, o, false_word());
        } else {
            lemma_word_with_gap(base, m, gap, o, true_word());
        }
    }
}

/// What stands behind a value in a list that is read to its end is where a
/// token may end.
proof fn lemma_ends_token_before(after: Seq<u8>, closing: u8)
    requires
        skip_ws(after).len() > 0,
        skip_ws(after)[0] == COMMA || skip_ws(after)[0] == closing,
        closing == CLOSE_BRACKET || closing == CLOSE_BRACE,
    ensures
        ends_token(after),
{
    lemma_skip_ws(after);
    if after.len() > 0 && !is_whitespace(after[0]) {
        lemma_skip_ws_none(after);
    }
}

/// Taking one byte that is no quote from texts that stand before the gap
/// leaves them in step.
proof fn lemma_step_over_byte(base: Seq<u8>, m: int, gap: Seq<u8>, rest: Seq<u8>, twin: Seq<u8>)
    requires
        0 <= m <= base.len(),
        before_gap(base, m, gap, rest, twin),
        rest[0] != QUOTE,
    ensures
        twin.len() > 0,
        twin[0] == rest[0],
        at_offset(base, m, gap, rest.skip(1), twin.skip(1)),
        twin.len() == rest.len() + gap.len(),
{
    let o = base.len() - rest.len();
    lemma_same_before_gap(base, m, gap, o, 0);
    lemma_step_before_gap(base, m, gap, o, 1);
    lemma_quote_count_step(base, o);
}

/// A value that starts before the gap and ends where a token may end is
/// read the same from the text with the gap, and what follows it stays in
/// step.
pub proof fn lemma_value_with_gap(base: Seq<u8>, m: int, gap: Seq<u8>, o: int, depth: nat)
    requires
        starts_before_gap(base, m, gap, o),
        !is_whitespace(base[o]),
        value_production(base.skip(o), depth) matches Ok((rest, _)) && ends_token(rest),
    ensures
        match (
            value_production(base.skip(o), depth),
            value_production(with_gap(base, m, gap).skip(o), depth),
        ) {
            (Ok((rest, value)), Ok((twin, same))) => same == value && in_step(
                base,
                m,
                gap,
                rest,
                twin,
            ),
            _ => false,
        },
    decreases base.len() - o, 3nat,
{
    let s = base.skip(o);
    let t = with_gap(base, m, gap).skip(o);
    lemma_same_before_gap(base, m, gap, o, 0);
    lemma_value_dispatch(s, depth);
    lemma_value_dispatch(t, depth);
    if s[0] == OPEN_BRACE || s[0] == OPEN_BRACKET {
        lemma_container_with_gap(base, m, gap, o, depth);
        if s[0] == OPEN_BRACE {
            match (object_production(s, depth), object_production(t, depth)) {
                (Ok((rest, _)), Ok((twin, _))) => {
                    lemma_skip_ws_in_step(base, m, gap, rest, twin);
                },
                _ => {},
            }
        } else {
            match (array_production(s, depth), array_production(t, depth)) {
                (Ok((rest, _)), Ok((twin, _))) => {
                    lemma_skip_ws_in_step(base, m, gap, rest, twin);
                },
                _ => {},
            }
        }
    } else {
        lemma_scalar_with_gap(base, m, gap, o);
    }
}

/// An array or an object that starts before the gap is read the same from
/// the text with the gap, and what follows it stays in step.
pub proof fn lemma_container_with_gap(base: Seq<u8>, m: int, gap: Seq<u8>, o: int, depth: nat)
    requires
        starts_before_gap(base, m, gap, o),
        base[o] == OPEN_BRACKET ==> array_production(base.skip(o), depth) is Ok,
        base[o] == OPEN_BRACE ==> object_production(base.skip(o), depth) is Ok,
    ensures
        base[o] == OPEN_BRACKET ==> match (
            array_production(base.skip(o), depth),
            array_production(with_gap(base, m, gap).skip(o), depth),
        ) {
            (Ok((rest, value)), Ok((twin, same))) => same == value && in_step(
                base,
                m,
                gap,
                rest,
                twin,
            ),
            _ => false,
        },
        base[o] == OPEN_BRACE ==> match (
            object_production(base.skip(o), depth),
            object_production(with_gap(base, m, gap).skip(o), depth),
        ) {
            (Ok((rest, value)), Ok((twin, same))) => same == value && in_step(
                base,
                m,
                gap,
                rest,
                twin,
            ),
            _ => false,
        },
    decreases base.len() - o, 1nat,
{
    let s = base.skip(o);
    let t = with_gap(base, m, gap).skip(o);
    if base[o] == OPEN_BRACKET || base[o] == OPEN_BRACE {
        lemma_same_before_gap(base, m, gap, o, 0);
        lemma_step_before_gap(base, m, gap, o, 1);
        lemma_quote_count_step(base, o);
        assert(at_offset(base, m, gap, s.skip(1), t.skip(1)));
        lemma_skip_ws_in_step(base, m, gap, s.skip(1), t.skip(1));
        let inside = skip_ws(s.skip(1));
        let inside2 = skip_ws(t.skip(1));
        if inside2 != inside {
            let o2 = base.len() - inside.len();
            lemma_skip_ws(s.skip(1));
            lemma_same_before_gap(base, m, gap, o2, 0);
            if base[o] == OPEN_BRACKET {
                if inside[0] == CLOSE_BRACKET {
                    lemma_step_over_byte(base, m, gap, inside, inside2);
                } else {
                    lemma_items_with_gap(base, m, gap, o2, (depth - 1) as nat);
                }
            } else {
                if inside[0] == CLOSE_BRACE {
                    lemma_step_over_byte(base, m, gap, inside, inside2);
                } else {
                    lemma_members_with_gap(base, m, gap, o2, (depth - 1) as nat);
                }
            }
        }
    }
}

/// The items of an array that start before the gap are read the same from
/// the text with the gap, and what follows the closing bracket stays in step.
pub proof fn lemma_items_with_gap(base: Seq<u8>, m: int, gap: Seq<u8>, o: int, depth: nat)
    requires
        starts_before_gap(base, m, gap, o),
        !is_whitespace(base[o]),
        items_production(base.skip(o), depth) is Ok,
    ensures
        match (
            items_production(base.skip(o), depth),
            items_production(with_gap(base, m, gap).skip(o), depth),
        ) {
            (Ok((rest, items)), Ok((twin, same))) => same == items && in_step(
                base,
                m,
                gap,
                rest,
                twin,
            ),
            _ => false,
        },
    decreases base.len() - o, 4nat,
{
    let s = base.skip(o);
    let t = with_gap(base, m, gap).skip(o);
    lemma_step_before_gap(base, m, gap, o, 0);
    match value_production(s, depth) {
        Ok((after, item)) => {
            lemma_ends_token_before(after, CLOSE_BRACKET);
            lemma_value_with_gap(base, m, gap, o, depth);
            lemma_value_rest(s, depth);
            lemma_after_value(s, after);
            match value_production(t, depth) {
                Ok((after2, _)) => {
                    lemma_value_rest(t, depth);
                    lemma_after_value(t, after2);
                    lemma_skip_ws_in_step(base, m, gap, after, after2);
                    let then = skip_ws(after);
                    let then2 = skip_ws(after2);
                    if then2 != then {
                        lemma_step_over_byte(base, m, gap, then, then2);
                        if then[0] == COMMA {
                            lemma_skip_ws_in_step(base, m, gap, then.skip(1), then2.skip(1));
                            let next = skip_ws(then.skip(1));
                            let next2 = skip_ws(then2.skip(1));
                            if next2 != next {
                                let o4 = base.len() - next.len();
                                lemma_items_with_gap(base, m, gap, o4, depth);
                            }
                        }
                    }
                },
                Err(_) => {},
            }
        },
        Err(_) => {},
    }
}

/// One member that starts before the gap and ends where a token may end is
/// read the same from the text with the gap, and what follows it stays in
/// step.
pub proof fn lemma_member_with_gap(base: Seq<u8>, m: int, gap: Seq<u8>, o: int, depth: nat)
    requires
        starts_before_gap(base, m, gap, o),
        member_production(base.skip(o), depth) matches Ok((rest, _)) && ends_token(rest),
    ensures
        match (
            member_production(base.skip(o), depth),
            member_production(with_gap(base, m, gap).skip(o), depth),
        ) {
            (Ok((rest, member)), Ok((twin, same))) => same == member && in_step(
                base,
                m,
                gap,
                rest,
                twin,
            ),
            _ => false,
        },
    decreases base.len() - o, 4nat,
{
    let s = base.skip(o);
    let t = with_gap(base, m, gap).skip(o);
    lemma_step_before_gap(base, m, gap, o, 0);
    lemma_string_with_gap(base, m, gap, o);
    lemma_string_rest(s);
    lemma_string_rest(t);
    match (string_literal(s), string_literal(t)) {
        (Some((after_key, key)), Some((after_key2, _))) => {
            lemma_after_value(s, after_key);
            lemma_after_value(t, after_key2);
            lemma_skip_ws_in_step(base, m, gap, after_key, after_key2);
            let colon = skip_ws(after_key);
            let colon2 = skip_ws(after_key2);
            if colon2 != colon {
                lemma_step_over_byte(base, m, gap, colon, colon2);
                lemma_skip_ws_in_step(base, m, gap, colon.skip(1), colon2.skip(1));
                let start = skip_ws(colon.skip(1));
                let start2 = skip_ws(colon2.skip(1));
                if start2 != start {
                    let o3 = base.len() - start.len();
                    lemma_value_with_gap(base, m, gap, o3, depth);
                }
            }
        },
        _ => {},
    }
}

/// The members of an object that start before the gap are read the same
/// from the text with the gap, and what follows the closing brace stays in
/// step.
pub proof fn lemma_members_with_gap(base: Seq<u8>, m: int, gap: Seq<u8>, o: int, depth: nat)
    requires
        starts_before_gap(base, m, gap, o),
        members_production(base.skip(o), depth) is Ok,
    ensures
        match (
            members_production(base.skip(o), depth),
            members_production(with_gap(base, m, gap).skip(o), depth),
        ) {
            (Ok((rest, members)), Ok((twin, same))) => same == members && in_step(
                base,
                m,
                gap,
                rest,
                twin,
            ),
            _ => false,
        },
    decreases base.len() - o, 5nat,
{
    let s = base.skip(o);
    let t = with_gap(base, m, gap).skip(o);
    lemma_step_before_gap(base, m, gap, o, 0);
    match member_production(s, depth) {
        Ok((after, member)) => {
            lemma_ends_token_before(after, CLOSE_BRACE);
            lemma_member_with_gap(base, m, gap, o, depth);
            lemma_member_rest(s, depth);
            lemma_after_value(s, after);
            match member_production(t, depth) {
                Ok((after2, _)) => {
                    lemma_member_rest(t, depth);
                    lemma_after_value(t, after2);
                    lemma_skip_ws_in_step(base, m, gap, after, after2);
                    let then = skip_ws(after);
                    let then2 = skip_ws(after2);
                    if then2 != then {
                        lemma_step_over_byte(base, m, gap, then, then2);
                        if then[0] == COMMA {
                            lemma_skip_ws_in_step(base, m, gap, then.skip(1), then2.skip(1));
                            let next = skip_ws(then.skip(1));
                            let next2 = skip_ws(then2.skip(1));
                            if next2 != next {
                                let o4 = base.len() - next.len();
                                lemma_members_with_gap(base, m, gap, o4, depth);
                            }
                        }
                    }
                },
                Err(_) => {},
            }
        },
        Err(_) => {},
    }
}

/// Whitespace insensitivity: a text that is read as a document is read as
/// the same document when a run of whitespace is put in beside one of its
/// delimiters, commas or colons, outside every string literal.
pub proof fn law_whitespace_insensitive(text: Seq<u8>, m: int, gap: Seq<u8>, depth: nat)
    requires
        is_beside_punctuation(text, m),
        is_whitespace_run(gap),
        document(text, depth) is Ok,
    ensures
        document(with_gap(text, m, gap), depth) == document(text, depth),
{
    let spaced = with_gap(text, m, gap);
    assert(text.skip(0) =~= text);
    assert(spaced.skip(0) =~= spaced);
    assert(text.take(0) =~= Seq::<u8>::empty());
    assert(at_offset(text, m, gap, text, spaced));
    lemma_skip_ws_in_step(text, m, gap, text, spaced);
    let start = skip_ws(text);
    let start2 = skip_ws(spaced);
    if start2 != start {
        let o = text.len() - start.len();
        match value_production(start, depth) {
            Ok((rest, _)) => {
                lemma_skip_ws(rest);
                if rest.len() > 0 && !is_whitespace(rest[0]) {
                    lemma_skip_ws_none(rest);
                }
                lemma_value_with_gap(text, m, gap, o, depth);
                match value_production(start2, depth) {
                    Ok((rest2, _)) => {
                        lemma_skip_ws_in_step(text, m, gap, rest, rest2);
                    },
                    Err(_) => {},
                }
            },
            Err(_) => {},
        }
    }
}

} // verus!
