use vstd::prelude::*;
use vstd::string::*;
use vstd::utf8::*;
use crate::decimal::{append_decimal, decimal_text};
use crate::text::{
    append_text, false_word, lemma_ascii_bytes, null_word, true_word, CLOSE_BRACE, CLOSE_BRACKET,
    COLON, COMMA, NEWLINE, OPEN_BRACE, OPEN_BRACKET, QUOTE, SPACE,
};
use crate::value::{
    depth, lemma_items_depth, lemma_members_depth, member_view, JsonModel, JsonValue, Number,
    NumberModel,
};

verus! {

/// `n` spaces.
pub open spec fn spaces(n: nat) -> Seq<u8> {
    Seq::new(n, |i: int| SPACE)
}

/// `s` between two quote characters, with nothing escaped.
pub open spec fn quoted(s: Seq<u8>) -> Seq<u8> {
    seq![QUOTE] + s + seq![QUOTE]
}

/// The text of a number: a float as it was written, an integer in decimal.
pub open spec fn number_text(n: NumberModel) -> Seq<u8> {
    match n {
        NumberModel::Float(lexeme) => lexeme,
        NumberModel::Int(i) => decimal_text(i),
    }
}

/// The text of a boolean.
pub open spec fn bool_text(b: bool) -> Seq<u8> {
    if b {
        true_word()
    } else {
        false_word()
    }
}

/// The compact rendering: no whitespace anywhere, `,` between children and
/// `:` between a key and its value.
pub open spec fn compact_text(v: JsonModel) -> Seq<u8>
    decreases v,
{
    match v {
        JsonModel::Bool(b) => bool_text(b),
        JsonModel::String(s) => quoted(s),
        JsonModel::Number(n) => number_text(n),
        JsonModel::Null => null_word(),
        JsonModel::Array(items) => seq![OPEN_BRACKET] + compact_items(items) + seq![CLOSE_BRACKET],
        JsonModel::Object(members) => seq![OPEN_BRACE] + compact_members(members)
            + seq![CLOSE_BRACE],
    }
}

/// The compact renderings of `items`, joined by commas.
pub open spec fn compact_items(items: Seq<JsonModel>) -> Seq<u8>
    decreases items,
{
    if items.len() == 0 {
        Seq::empty()
    } else if items.len() == 1 {
        compact_text(items[0])
    } else {
        compact_text(items[0]) + seq![COMMA] + compact_items(items.drop_first())
    }
}

/// The compact renderings of `members`, each as `"key":value`, joined by commas.
pub open spec fn compact_members(members: Seq<(Seq<u8>, JsonModel)>) -> Seq<u8>
    decreases members,
{
    if members.len() == 0 {
        Seq::empty()
    } else if members.len() == 1 {
        quoted(members[0].0) + seq![COLON] + compact_text(members[0].1)
    } else {
        quoted(members[0].0) + seq![COLON] + compact_text(members[0].1) + seq![COMMA]
            + compact_members(members.drop_first())
    }
}

/// What stands between two children in the pretty rendering of a container
/// at `level`: a comma, a newline and the children's indentation.
pub open spec fn pretty_separator(width: nat, level: nat) -> Seq<u8> {
    seq![COMMA, NEWLINE] + spaces(width * level)
}

/// What follows the opening bracket: a newline and the children's indentation.
pub open spec fn pretty_lead(width: nat, level: nat) -> Seq<u8> {
    seq![NEWLINE] + spaces(width * level)
}

/// What precedes the closing bracket: a newline and one level less of indentation.
pub open spec fn pretty_trail(width: nat, level: nat) -> Seq<u8> {
    seq![NEWLINE] + spaces((width * (level - 1)) as nat)
}

/// The pretty rendering of a value whose children, if it has any, stand at
/// `width * level` spaces. A scalar reads as in the compact rendering.
pub open spec fn pretty_text(v: JsonModel, width: nat, level: nat) -> Seq<u8>
    decreases v,
{
    match v {
        JsonModel::Array(items) => seq![OPEN_BRACKET] + pretty_lead(width, level) + pretty_items(
            items,
            width,
            level,
        ) + pretty_trail(width, level) + seq![CLOSE_BRACKET],
        JsonModel::Object(members) => seq![OPEN_BRACE] + pretty_lead(width, level)
            + pretty_members(members, width, level) + pretty_trail(width, level)
            + seq![CLOSE_BRACE],
        _ => compact_text(v),
    }
}

/// The pretty renderings of the children of an array at `level`, each one
/// level deeper, joined by the separator of `level`.
pub open spec fn pretty_items(items: Seq<JsonModel>, width: nat, level: nat) -> Seq<u8>
    decreases items,
{
    if items.len() == 0 {
        Seq::empty()
    } else if items.len() == 1 {
        pretty_text(items[0], width, level + 1)
    } else {
        pretty_text(items[0], width, level + 1) + pretty_separator(width, level) + pretty_items(
            items.drop_first(),
            width,
            level,
        )
    }
}

/// The pretty renderings of the members of an object at `level`, each as
/// `"key": value`, joined by the separator of `level`.
pub open spec fn pretty_members(
    members: Seq<(Seq<u8>, JsonModel)>,
    width: nat,
    level: nat,
) -> Seq<u8>
    decreases members,
{
    if members.len() == 0 {
        Seq::empty()
    } else if members.len() == 1 {
        quoted(members[0].0) + seq![COLON, SPACE] + pretty_text(members[0].1, width, level + 1)
    } else {
        quoted(members[0].0) + seq![COLON, SPACE] + pretty_text(members[0].1, width, level + 1)
            + pretty_separator(width, level) + pretty_members(members.drop_first(), width, level)
    }
}

/// The rendering that `format_json` produces.
pub open spec fn format_text(v: JsonModel, width: nat, level: nat, compact: bool) -> Seq<u8> {
    if compact {
        compact_text(v)
    } else {
        pretty_text(v, width, level)
    }
}

/// The joined renderings of `items` in either mode.
pub open spec fn items_text(items: Seq<JsonModel>, width: nat, level: nat, compact: bool) -> Seq<
    u8,
> {
    if compact {
        compact_items(items)
    } else {
        pretty_items(items, width, level)
    }
}

/// The joined renderings of `members` in either mode.
pub open spec fn members_text(
    members: Seq<(Seq<u8>, JsonModel)>,
    width: nat,
    level: nat,
    compact: bool,
) -> Seq<u8> {
    if compact {
        compact_members(members)
    } else {
        pretty_members(members, width, level)
    }
}

/// What stands between two children in either mode.
pub open spec fn separator_text(width: nat, level: nat, compact: bool) -> Seq<u8> {
    if compact {
        seq![COMMA]
    } else {
        pretty_separator(width, level)
    }
}

/// A key with its colon in either mode.
pub open spec fn key_text(key: Seq<u8>, compact: bool) -> Seq<u8> {
    if compact {
        quoted(key) + seq![COLON]
    } else {
        quoted(key) + seq![COLON, SPACE]
    }
}

/// Joining one more item: the text of a non-empty list is the text of all but
/// its last item, a separator if there was one before, and the last item.
proof fn lemma_items_text_extend(items: Seq<JsonModel>, width: nat, level: nat, compact: bool)
    requires
        items.len() > 0,
    ensures
        items_text(items, width, level, compact) == items_text(
            items.drop_last(),
            width,
            level,
            compact,
        ) + (if items.len() > 1 {
            separator_text(width, level, compact)
        } else {
            Seq::empty()
        }) + format_text(items.last(), width, level + 1, compact),
    decreases items.len(),
{
    let last = format_text(items.last(), width, level + 1, compact);
    let sep = separator_text(width, level, compact);
    if items.len() == 1 {
        assert(items.drop_last() =~= Seq::empty());
        assert(items_text(items, width, level, compact) =~= Seq::<u8>::empty() + Seq::<u8>::empty()
            + last);
    } else {
        let rest = items.drop_first();
        lemma_items_text_extend(rest, width, level, compact);
        assert(rest.drop_last() =~= items.drop_last().drop_first());
        assert(rest.last() == items.last());
        assert(items.drop_last()[0] == items[0]);
        let head = format_text(items[0], width, level + 1, compact);
        if items.len() == 2 {
            assert(rest.drop_last() =~= Seq::empty());
            assert(items_text(items, width, level, compact) =~= head + sep + last);
            assert(items_text(items.drop_last(), width, level, compact) + sep + last =~= head + sep
                + last);
        } else {
            let middle = items_text(rest.drop_last(), width, level, compact);
            assert(items_text(rest, width, level, compact) == middle + sep + last);
            assert(items_text(items, width, level, compact) =~= head + sep + (middle + sep + last));
            assert(items_text(items.drop_last(), width, level, compact) =~= head + sep + middle);
            assert(head + sep + (middle + sep + last) =~= head + sep + middle + sep + last);
        }
    }
}

/// Joining one more member, as `lemma_items_text_extend` does for items.
proof fn lemma_members_text_extend(
    members: Seq<(Seq<u8>, JsonModel)>,
    width: nat,
    level: nat,
    compact: bool,
)
    requires
        members.len() > 0,
    ensures
        members_text(members, width, level, compact) == members_text(
            members.drop_last(),
            width,
            level,
            compact,
        ) + (if members.len() > 1 {
            separator_text(width, level, compact)
        } else {
            Seq::empty()
        }) + key_text(members.last().0, compact) + format_text(
            members.last().1,
            width,
            level + 1,
            compact,
        ),
    decreases members.len(),
{
    let last = key_text(members.last().0, compact) + format_text(
        members.last().1,
        width,
        level + 1,
        compact,
    );
    let sep = separator_text(width, level, compact);
    if members.len() == 1 {
        assert(members.drop_last() =~= Seq::empty());
        assert(members_text(members, width, level, compact) =~= Seq::<u8>::empty() + Seq::<
            u8,
        >::empty() + key_text(members.last().0, compact) + format_text(
            members.last().1,
            width,
            level + 1,
            compact,
        ));
    } else {
        let rest = members.drop_first();
        lemma_members_text_extend(rest, width, level, compact);
        assert(rest.drop_last() =~= members.drop_last().drop_first());
        assert(rest.last() == members.last());
        assert(members.drop_last()[0] == members[0]);
        let head = key_text(members[0].0, compact) + format_text(
            members[0].1,
            width,
            level + 1,
            compact,
        );
        if members.len() == 2 {
            assert(rest.drop_last() =~= Seq::empty());
            assert(members_text(members, width, level, compact) =~= head + sep + last);
            assert(members_text(members.drop_last(), width, level, compact) =~= head);
        } else {
            let middle = members_text(rest.drop_last(), width, level, compact);
            assert(members_text(rest, width, level, compact) =~= middle + sep + last);
            assert(members_text(members, width, level, compact) =~= head + sep + (middle + sep
                + last));
            assert(members_text(members.drop_last(), width, level, compact) =~= head + sep
                + middle);
        }
        assert(members_text(members, width, level, compact) =~= members_text(
            members.drop_last(),
            width,
            level,
            compact,
        ) + sep + key_text(members.last().0, compact) + format_text(
            members.last().1,
            width,
            level + 1,
            compact,
        ));
    }
}

/// Appends `width * level` spaces to `out`.
fn write_indent(out: &mut String, width: usize, level: usize)
    ensures
        encode_utf8(final(out)@) == encode_utf8(old(out)@) + spaces(width as nat * level as nat),
{
    proof {
        reveal_strlit(" ");
        lemma_ascii_bytes(" ", seq![SPACE]);
    }
    let ghost start = encode_utf8(out@);
    let mut row: usize = 0;
    assert(start + spaces(0) =~= start);
    assert(width as nat * 0 == 0);
    while row < level
        invariant
            row <= level,
            " ".spec_bytes() == seq![SPACE],
            encode_utf8(out@) == start + spaces(width as nat * row as nat),
        decreases level - row,
    {
        let ghost row_start = encode_utf8(out@);
        let mut column: usize = 0;
        assert(row_start + spaces(0) =~= row_start);
        while column < width
            invariant
                column <= width,
                " ".spec_bytes() == seq![SPACE],
                encode_utf8(out@) == row_start + spaces(column as nat),
            decreases width - column,
        {
            append_text(out, " ");
            assert(row_start + spaces(column as nat) + seq![SPACE] =~= row_start + spaces(
                (column + 1) as nat,
            ));
            column += 1;
        }
        proof {
            assert(width as nat * (row + 1) as nat == width as nat * row as nat + width as nat)
                by (nonlinear_arith);
            assert(start + spaces(width as nat * row as nat) + spaces(width as nat) =~= start
                + spaces(width as nat * (row + 1) as nat));
        }
        row += 1;
    }
}

/// Appends one ASCII character to `out`.
fn write_byte(out: &mut String, b: u8)
    requires
        b == QUOTE || b == COMMA || b == COLON || b == OPEN_BRACKET || b == CLOSE_BRACKET || b
            == OPEN_BRACE || b == CLOSE_BRACE || b == SPACE || b == NEWLINE,
    ensures
        encode_utf8(final(out)@) == encode_utf8(old(out)@) + seq![b],
{
    let piece = if b == QUOTE {
        "\""
    } else if b == COMMA {
        ","
    } else if b == COLON {
        ":"
    } else if b == OPEN_BRACKET {
        "["
    } else if b == CLOSE_BRACKET {
        "]"
    } else if b == OPEN_BRACE {
        "{"
    } else if b == CLOSE_BRACE {
        "}"
    } else if b == SPACE {
        " "
    } else {
        "\n"
    };
    proof {
        reveal_strlit("\"");
        reveal_strlit(",");
        reveal_strlit(":");
        reveal_strlit("[");
        reveal_strlit("]");
        reveal_strlit("{");
        reveal_strlit("}");
        reveal_strlit(" ");
        reveal_strlit("\n");
        lemma_ascii_bytes(piece, seq![b]);
    }
    append_text(out, piece);
}

/// Appends `s` between quotes to `out`.
fn write_quoted(out: &mut String, s: &str)
    ensures
        encode_utf8(final(out)@) == encode_utf8(old(out)@) + quoted(s.spec_bytes()),
{
    write_byte(out, QUOTE);
    append_text(out, s);
    write_byte(out, QUOTE);
    assert(encode_utf8(old(out)@) + seq![QUOTE] + s.spec_bytes() + seq![QUOTE] =~= encode_utf8(
        old(out)@,
    ) + quoted(s.spec_bytes()));
}

/// Appends the opening bracket of a container and, in the pretty mode, the
/// newline and indentation before its first child.
fn write_opening(out: &mut String, bracket: u8, width: usize, level: usize, compact: bool)
    requires
        bracket == OPEN_BRACKET || bracket == OPEN_BRACE,
    ensures
        encode_utf8(final(out)@) == encode_utf8(old(out)@) + seq![bracket] + (if compact {
            Seq::empty()
        } else {
            pretty_lead(width as nat, level as nat)
        }),
{
    write_byte(out, bracket);
    if !compact {
        write_byte(out, NEWLINE);
        write_indent(out, width, level);
        assert(encode_utf8(out@) =~= encode_utf8(old(out)@) + seq![bracket] + pretty_lead(
            width as nat,
            level as nat,
        ));
    } else {
        assert(encode_utf8(out@) =~= encode_utf8(old(out)@) + seq![bracket] + Seq::<u8>::empty());
    }
}

/// Appends, in the pretty mode, the newline and indentation before the
/// closing bracket, and then the bracket.
fn write_closing(out: &mut String, bracket: u8, width: usize, level: usize, compact: bool)
    requires
        bracket == CLOSE_BRACKET || bracket == CLOSE_BRACE,
        !compact ==> level >= 1,
    ensures
        encode_utf8(final(out)@) == encode_utf8(old(out)@) + (if compact {
            Seq::empty()
        } else {
            pretty_trail(width as nat, level as nat)
        }) + seq![bracket],
{
    if !compact {
        write_byte(out, NEWLINE);
        write_indent(out, width, level - 1);
        assert(encode_utf8(out@) =~= encode_utf8(old(out)@) + pretty_trail(
            width as nat,
            level as nat,
        ));
    } else {
        assert(encode_utf8(out@) =~= encode_utf8(old(out)@) + Seq::<u8>::empty());
    }
    write_byte(out, bracket);
}

/// Appends what stands between two children.
fn write_separator(out: &mut String, width: usize, level: usize, compact: bool)
    ensures
        encode_utf8(final(out)@) == encode_utf8(old(out)@) + separator_text(
            width as nat,
            level as nat,
            compact,
        ),
{
    write_byte(out, COMMA);
    if !compact {
        write_byte(out, NEWLINE);
        write_indent(out, width, level);
        assert(encode_utf8(out@) =~= encode_utf8(old(out)@) + pretty_separator(
            width as nat,
            level as nat,
        ));
    }
}

/// Appends a key with its colon.
fn write_key(out: &mut String, key: &str, compact: bool)
    ensures
        encode_utf8(final(out)@) == encode_utf8(old(out)@) + key_text(key.spec_bytes(), compact),
{
    write_quoted(out, key);
    write_byte(out, COLON);
    if !compact {
        write_byte(out, SPACE);
        assert(encode_utf8(out@) =~= encode_utf8(old(out)@) + key_text(key.spec_bytes(), compact));
    }
}

/// Appends the rendering of a scalar word.
fn write_word(out: &mut String, json: &JsonValue)
    requires
        json is Bool || json is Null,
    ensures
        encode_utf8(final(out)@) == encode_utf8(old(out)@) + compact_text(json@),
{
    let piece = match json {
        JsonValue::Bool(true) => "true",
        JsonValue::Bool(false) => "false",
        _ => "null",
    };
    proof {
        reveal_strlit("true");
        reveal_strlit("false");
        reveal_strlit("null");
        lemma_ascii_bytes(piece, compact_text(json@));
    }
    append_text(out, piece);
}

/// Appends the rendering of `json` to `out`.
fn write_value(json: &JsonValue, width: usize, level: usize, compact: bool, out: &mut String)
    requires
        !compact ==> level + depth(json@) <= usize::MAX,
        !compact && (json is Array || json is Object) ==> level >= 1,
    ensures
        encode_utf8(final(out)@) == encode_utf8(old(out)@) + format_text(
            json@,
            width as nat,
            level as nat,
            compact,
        ),
    decreases depth(json@),
{
    let ghost start = encode_utf8(out@);
    let ghost w = width as nat;
    let ghost l = level as nat;
    match json {
        JsonValue::Bool(_) => write_word(out, json),
        JsonValue::Null => write_word(out, json),
        JsonValue::String(s) => write_quoted(out, s),
        JsonValue::Number(Number::Float(lexeme)) => append_text(out, lexeme),
        JsonValue::Number(Number::Int(i)) => append_decimal(out, *i),
        JsonValue::Array(items) => {
            let ghost model = json@->Array_0;
            let below = if compact {
                level
            } else {
                level + 1
            };
            write_opening(out, OPEN_BRACKET, width, level, compact);
            let ghost base = encode_utf8(out@);
            assert(model.take(0) =~= Seq::empty());
            assert(base + items_text(model.take(0), w, l, compact) =~= base);
            let mut i: usize = 0;
            while i < items.len()
                invariant
                    i <= items.len(),
                    model.len() == items.len(),
                    json@ == JsonModel::Array(model),
                    forall|j: int| 0 <= j < items.len() ==> model[j] == (#[trigger] items@[j])@,
                    encode_utf8(out@) == base + items_text(model.take(i as int), w, l, compact),
                    !compact ==> level + depth(json@) <= usize::MAX,
                    compact ==> below == level,
                    !compact ==> below == level + 1,
                    w == width as nat,
                    l == level as nat,
                decreases items.len() - i,
            {
                let ghost before = encode_utf8(out@);
                if i > 0 {
                    write_separator(out, width, level, compact);
                }
                proof {
                    lemma_items_depth(model, i as int);
                }
                write_value(&items[i], width, below, compact, out);
                proof {
                    let next = model.take(i + 1);
                    lemma_items_text_extend(next, w, l, compact);
                    assert(next.drop_last() =~= model.take(i as int));
                    assert(next.last() == items@[i as int]@);
                }
                i += 1;
            }
            assert(model.take(items.len() as int) =~= model);
            write_closing(out, CLOSE_BRACKET, width, level, compact);
            assert(encode_utf8(out@) =~= start + format_text(json@, w, l, compact));
        },
        JsonValue::Object(members) => {
            let ghost model = json@->Object_0;
            let below = if compact {
                level
            } else {
                level + 1
            };
            write_opening(out, OPEN_BRACE, width, level, compact);
            let ghost base = encode_utf8(out@);
            assert(model.take(0) =~= Seq::empty());
            assert(base + members_text(model.take(0), w, l, compact) =~= base);
            let mut i: usize = 0;
            while i < members.len()
                invariant
                    i <= members.len(),
                    model.len() == members.len(),
                    json@ == JsonModel::Object(model),
                    forall|j: int|
                        0 <= j < members.len() ==> model[j] == member_view(#[trigger] members@[j]),
                    encode_utf8(out@) == base + members_text(model.take(i as int), w, l, compact),
                    !compact ==> level + depth(json@) <= usize::MAX,
                    compact ==> below == level,
                    !compact ==> below == level + 1,
                    w == width as nat,
                    l == level as nat,
                decreases members.len() - i,
            {
                if i > 0 {
                    write_separator(out, width, level, compact);
                }
                proof {
                    lemma_members_depth(model, i as int);
                }
                write_key(out, members[i].0, compact);
                write_value(&members[i].1, width, below, compact, out);
                proof {
                    let next = model.take(i + 1);
                    lemma_members_text_extend(next, w, l, compact);
                    assert(next.drop_last() =~= model.take(i as int));
                    assert(next.last() == member_view(members@[i as int]));
                }
                i += 1;
            }
            assert(model.take(members.len() as int) =~= model);
            write_closing(out, CLOSE_BRACE, width, level, compact);
            assert(encode_utf8(out@) =~= start + format_text(json@, w, l, compact));
        },
    }
}

/// Renders `json` as text.
///
/// With `compact` set the text holds no whitespace outside strings. Without
/// it every array and object puts each child on a line of its own, at
/// `num_spaces * indent_level` leading spaces for the children of `json`
/// itself and `num_spaces` more for each further level of nesting, and its
/// closing bracket on a line at one level less. Scalars read the same in both
/// modes.
pub fn format_json(
    json: &JsonValue,
    num_spaces: usize,
    indent_level: usize,
    compact: bool,
) -> (text: String)
    requires
        !compact ==> indent_level + depth(json@) <= usize::MAX,
        !compact && (json is Array || json is Object) ==> indent_level >= 1,
    ensures
        encode_utf8(text@) == format_text(json@, num_spaces as nat, indent_level as nat, compact),
{
    let mut out = String::new();
    assert(encode_utf8(out@) =~= Seq::<u8>::empty());
    write_value(json, num_spaces, indent_level, compact, &mut out);
    assert(Seq::<u8>::empty() + format_text(
        json@,
        num_spaces as nat,
        indent_level as nat,
        compact,
    ) =~= format_text(json@, num_spaces as nat, indent_level as nat, compact));
    out
}

} // verus!
