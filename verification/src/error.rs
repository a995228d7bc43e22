use vstd::prelude::*;

verus! {

/// Why a text was not accepted as JSON.
#[derive(Debug, PartialEq, Eq, Clone, Copy, Structural)]
pub enum ParseError {
    /// No production matches the text at the position reached.
    MalformedLiteral,
    /// A value was read, and something other than whitespace follows it.
    UnexpectedTrailingInput,
    /// An integer literal does not fit the integer type.
    NumericConversionOverflow,
    /// Arrays and objects are nested deeper than the limit allows.
    RecursionLimit,
}

} // verus!
