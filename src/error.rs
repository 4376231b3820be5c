use vstd::prelude::*;

verus! {

/// Why an expression could not be evaluated.
#[derive(Debug, Clone, Copy, PartialEq, Eq, Structural)]
pub enum EvalError {
    /// A parenthesis without its partner.
    UnbalancedParens,
    /// A set brace without its partner.
    UnbalancedSetBraces,
    /// An operator with fewer than two operands, or an expression with no value.
    MissingOperand,
    /// More than one value left when the expression ends.
    ExtraOperands,
    /// A value that does not fit in 64 bits.
    Overflow,
    /// Text built by string concatenation that does not read as an integer.
    NotANumber,
}

} // verus!
