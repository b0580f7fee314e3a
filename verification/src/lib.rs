//! Emulation of a calculator's native decimal floating-point format:
//! a packed binary-coded-decimal significand (`Mantissa`) and a signed,
//! exponent-scaled value built on it (`Float`), with exact arithmetic,
//! half-up rounding, overflow detection and a fixed 9-byte wire encoding.

use vstd::prelude::*;

pub mod bcd;
pub mod error;
pub mod float;
pub mod mantissa;

pub use error::FloatError;
pub use float::Float;
