//! The error vocabulary shared by every stage of the engine.

use vstd::prelude::*;

verus! {

/// A typed failure raised by tokenization, conversion, evaluation or
/// range extraction.  Every malformed input is reported through one of
/// these variants; no stage panics.
#[derive(Debug, Clone, Copy, PartialEq, Eq, Structural)]
pub enum ExprError {
    /// An unrecognized character (or an integer literal too large for
    /// `i32`) was met at this character offset of the input.
    LexError(usize),
    /// A close bracket had no matching open bracket, or an open bracket
    /// was never closed.
    UnbalancedParentheses,
    /// Postfix evaluation ran out of operands for an operator, or
    /// finished with a stack holding anything but exactly one value.
    MalformedExpression,
    /// The right operand of a division was zero.
    DivisionByZero,
    /// A variable name does not end in a numeric suffix that fits `i32`.
    InvalidVariableRange,
    /// An arithmetic step produced a value outside the `i32` range.
    Overflow,
}

} // verus!
