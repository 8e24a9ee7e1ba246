//! Arithmetization pipeline: prime-field arithmetic, dense polynomials with
//! long division and Lagrange interpolation, a rank-1 constraint system
//! builder, its quadratic arithmetic program, and the divisibility test that
//! certifies a witness.
pub mod circuit;
pub mod error;
pub mod field;
pub mod field_laws;
pub mod poly_laws;
pub mod polynomial;
pub mod protocol;
pub mod qap;
pub mod r1cs;
pub mod soundness;
