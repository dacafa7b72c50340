//! Exact finite-field arithmetic and the algebraic structures built on it:
//! prime fields of integers modulo a prime, extension fields realized as
//! polynomials modulo a fixed irreducible polynomial, dense univariate
//! polynomials over a field, and vectors and matrices over a field.
//!
//! Every element carries its field context (the prime modulus, or the
//! characteristic with the irreducible modulus polynomial) as an explicit,
//! immutable value, so that several fields can coexist in one process and
//! well-formedness is locally checkable.

pub mod errors;
pub mod fermat;
pub mod field;
pub mod matrix;
pub mod poly;
pub mod rfq;
pub mod rzp;
pub mod text;
pub mod vector;
pub mod zmod;
