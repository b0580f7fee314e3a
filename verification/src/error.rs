//! Errors reported by the arithmetic operations.

use vstd::prelude::*;

verus! {

/// Failure of a checked arithmetic operation.
#[derive(Copy, Clone, Debug, PartialEq, Eq, Structural)]
pub enum FloatError {
    /// The resulting exponent fell outside the representable biased range,
    /// in either direction.
    Overflow,
    /// Division where the divisor's mantissa is zero.
    DivideByZero,
}

} // verus!
