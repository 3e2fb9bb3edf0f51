use vstd::prelude::*;

verus! {

/// A lexical unit of an expression: an operator symbol or a signed 64-bit
/// integer literal.
#[derive(PartialEq, Eq, Structural, Copy, Clone, Debug)]
pub enum Token {
    /// The `+` operator.
    Plus,
    /// The `%` operator.
    Mod,
    /// A signed 64-bit integer literal, possibly negative.
    Number(i64),
}

/// The closed set of failures an evaluation can end in. The first failure
/// encountered, scanning the input left to right, wins; there is no recovery.
#[derive(PartialEq, Eq, Structural, Copy, Clone, Debug)]
pub enum CalcError {
    /// A space-delimited piece is neither `+`, `%`, nor a valid signed
    /// base-10 integer literal.
    TokenizeError,
    /// The token sequence is empty.
    EmptyExpressionError,
    /// The first token is an operator; an expression must start with a number.
    LeadingOperatorError,
    /// A structural violation: two consecutive operators, two consecutive
    /// numbers, or a trailing unpaired token.
    MalformedSequenceError,
    /// The right operand of a `%` operation is zero.
    DivisionByZeroError,
}

} // verus!
