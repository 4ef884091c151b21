//! The errors that the library reports.
use vstd::prelude::*;

verus! {

/// A misuse detected at the point where it happens.
#[derive(Clone, Copy, Debug, PartialEq, Eq, Structural)]
pub enum Error {
    /// A polynomial was built from no coefficients.
    EmptyPolynomial,
    /// The divisor polynomial has no non-zero coefficient.
    DivisionByZero,
    /// Coefficients of one polynomial belong to different moduli.
    ModulusMismatch,
    /// The decoder was called without `2 <= d <= n`.
    InvalidDistanceRange,
}

} // verus!
