use vstd::prelude::*;

verus! {

/// The ways an operation of the pipeline can fail.
#[derive(Debug, Clone, Copy, PartialEq, Eq, Structural)]
pub enum ArithError {
    /// Two field elements with different moduli were combined.
    FieldMismatch,
    /// The element (or a denominator) has no multiplicative inverse.
    NoInverse,
    /// A square root was asked for under a modulus that is not 3 mod 4.
    UnsupportedModulus,
    /// A witness slot was read before a value was assigned to it.
    UnassignedVariable,
    /// A variable index was used that was never allocated.
    UnknownVariable,
    /// A polynomial was divided by the zero polynomial.
    ZeroDivisor,
}

} // verus!
