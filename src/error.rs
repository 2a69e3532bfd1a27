use vstd::prelude::*;

verus! {

/// Failures of the algebraic operations and of the parameter tables.
#[derive(Clone, Copy, Debug, PartialEq, Eq, Structural)]
pub enum EcFftError {
    /// A divisor (determinant or rational-map denominator) was zero.
    DivisionByZero,
    /// A sequence did not have the length the coset or domain asks for.
    LengthMismatch,
    /// More coefficients than the domain has points.
    DegreeTooLarge,
    /// A parameter table was malformed.
    ParameterLoadError,
}

} // verus!
