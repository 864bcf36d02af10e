use crate::interpreter::Value;
use crate::token::{Operator, Token};
use vstd::prelude::*;

verus! {

/// Why a line has no value.
#[derive(Debug, PartialEq, Eq, Structural, Clone, Copy)]
pub enum Error {
    /// A number, a sign or `(` was to come, and this token came.
    ExpectedNumber(Token),
    /// A `)` was to close a group, and this token came.
    ExpectedClosingParen(Token),
    /// The expression was complete, and this token followed it.
    ExpectedEndOfFile(Token),
    /// A sign other than `Plus` and `Minus` stood in front of an expression.
    ExpectedUnaryOperator(Operator),
    /// One side of this operator, or both, had no number for a value.
    ExpectedNumberForBinary(Operator, Value, Value),
    /// What this sign stood in front of had no number for a value.
    ExpectedNumberForUnary(Operator, Value),
}

} // verus!
