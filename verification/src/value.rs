use vstd::prelude::*;
use vstd::string::*;

verus! {

/// A JSON number, tagged by the lexical form that produced it.
#[derive(Debug, PartialEq)]
pub enum Number<'a> {
    /// A literal with a sign, a fraction or an exponent, kept as written.
    Float(&'a str),
    /// A plain run of digits, converted to its value.
    Int(i32),
}

/// A JSON value. Text is borrowed from the input it was read from.
#[derive(Debug, PartialEq)]
pub enum JsonValue<'a> {
    /// `true` or `false`.
    Bool(bool),
    /// The text between the quotes of a string literal, with nothing decoded.
    String(&'a str),
    /// A number.
    Number(Number<'a>),
    /// `null`.
    Null,
    /// The items of an array, in their order.
    Array(Vec<JsonValue<'a>>),
    /// The members of an object, in their order. A key may occur more than
    /// once.
    Object(Vec<(&'a str, JsonValue<'a>)>),
}

/// Mathematical model of a [`Number`]: text is modelled by its UTF-8 bytes.
pub enum NumberModel {
    Float(Seq<u8>),
    Int(int),
}

/// Mathematical model of a [`JsonValue`].
pub enum JsonModel {
    Bool(bool),
    String(Seq<u8>),
    Number(NumberModel),
    Null,
    Array(Seq<JsonModel>),
    Object(Seq<(Seq<u8>, JsonModel)>),
}

impl<'a> View for Number<'a> {
    type V = NumberModel;

    open spec fn view(&self) -> NumberModel {
        match self {
            Number::Float(s) => NumberModel::Float(s.spec_bytes()),
            Number::Int(i) => NumberModel::Int(*i as int),
        }
    }
}

impl<'a> View for JsonValue<'a> {
    type V = JsonModel;

    open spec fn view(&self) -> JsonModel
        decreases self,
    {
        match self {
            JsonValue::Bool(b) => JsonModel::Bool(*b),
            JsonValue::String(s) => JsonModel::String(s.spec_bytes()),
            JsonValue::Number(n) => JsonModel::Number(n@),
            JsonValue::Null => JsonModel::Null,
            JsonValue::Array(items) => JsonModel::Array(
                Seq::new(
                    items@.len(),
                    |i: int|
                        if 0 <= i < items@.len() {
                            items@[i].view()
                        } else {
                            JsonModel::Null
                        },
                ),
            ),
            JsonValue::Object(members) => JsonModel::Object(
                Seq::new(
                    members@.len(),
                    |i: int|
                        if 0 <= i < members@.len() {
                            member_view(members@[i])
                        } else {
                            (Seq::empty(), JsonModel::Null)
                        },
                ),
            ),
        }
    }
}

/// The model of one member of an object: the key's bytes and the value's model.
pub open spec fn member_view(member: (&str, JsonValue)) -> (Seq<u8>, JsonModel)
    decreases member,
{
    (member.0.spec_bytes(), member.1.view())
}

/// Nesting depth of a value: 0 for a scalar, one more than the deepest child
/// for an array or an object.
pub open spec fn depth(v: JsonModel) -> nat
    decreases v,
{
    match v {
        JsonModel::Array(items) => 1 + items_depth(items),
        JsonModel::Object(members) => 1 + members_depth(members),
        _ => 0,
    }
}

/// The greatest depth among `items`, 0 if there are none.
pub open spec fn items_depth(items: Seq<JsonModel>) -> nat
    decreases items,
{
    if items.len() == 0 {
        0
    } else {
        let first = depth(items[0]);
        let others = items_depth(items.drop_first());
        if first >= others {
            first
        } else {
            others
        }
    }
}

/// The greatest depth among the values of `members`, 0 if there are none.
pub open spec fn members_depth(members: Seq<(Seq<u8>, JsonModel)>) -> nat
    decreases members,
{
    if members.len() == 0 {
        0
    } else {
        let first = depth(members[0].1);
        let others = members_depth(members.drop_first());
        if first >= others {
            first
        } else {
            others
        }
    }
}

/// No item is deeper than `items_depth` says.
pub proof fn lemma_items_depth(items: Seq<JsonModel>, i: int)
    requires
        0 <= i < items.len(),
    ensures
        depth(items[i]) <= items_depth(items),
    decreases items.len(),
{
    if i > 0 {
        lemma_items_depth(items.drop_first(), i - 1);
    }
}

/// No member's value is deeper than `members_depth` says.
pub proof fn lemma_members_depth(members: Seq<(Seq<u8>, JsonModel)>, i: int)
    requires
        0 <= i < members.len(),
    ensures
        depth(members[i].1) <= members_depth(members),
    decreases members.len(),
{
    if i > 0 {
        lemma_members_depth(members.drop_first(), i - 1);
    }
}

} // verus!
