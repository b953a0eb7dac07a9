//! The failures that the library reports.
use vstd::prelude::*;

verus! {

/// Why an operation failed. Every failure is returned to the caller; none is
/// retried and none is replaced by a made-up value.
#[derive(Clone, Copy, Debug, PartialEq, Eq, Structural)]
pub enum KzgError {
    /// A byte input has not the exact size of its type.
    InvalidLength,
    /// A decoded value is not canonical, or is no point of its group.
    InvalidEncoding,
    /// A transform scale is beyond the table of roots, or a batch size is no power of two.
    DomainError,
    /// An operation that needs at least one coefficient got an empty polynomial.
    EmptyInputError,
    /// The divisor of a polynomial division is degenerate.
    DivisionError,
    /// A polynomial has more coefficients than the reference string has points.
    LengthError,
}

} // verus!
