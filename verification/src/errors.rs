//! Error values surfaced by the arithmetic operations.

use vstd::prelude::*;

verus! {

/// A local precondition violation detected at the point of use and reported
/// to the caller; nothing here is transient, so nothing is retried.
///
/// Because every element carries its field context as an explicit value,
/// arithmetic on an uninitialized field cannot be expressed, so no error
/// variant exists for it.  A malformed modulus — a composite
/// characteristic, or a reducible modulus polynomial — is a caller
/// obligation that the library does not detect: it yields mathematically
/// meaningless but well-defined results, except where it also surfaces as
/// a division by zero.
#[derive(Clone, Copy, PartialEq, Eq, Structural, Debug)]
pub enum AlgebraError {
    /// A multiplicative inverse or a division was requested on the additive
    /// identity (or on a polynomial whose leading coefficient is zero).
    DivisionByZero,
    /// Vector or matrix operands with incompatible lengths or row/column
    /// counts for the requested operation.
    DimensionMismatch,
}

} // verus!
