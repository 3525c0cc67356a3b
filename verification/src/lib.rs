//! A KZG (Kate–Zaverucha–Goldberg) polynomial commitment engine.
//!
//! A prover commits to a polynomial of bounded degree with a single group
//! element, later proves the polynomial's value at a chosen point with a
//! constant-size witness, and a verifier checks that proof with one pairing
//! equation, without ever seeing the polynomial.
//!
//! The scheme is built over a pairing-friendly group abstraction.  This crate
//! instantiates that abstraction with a transparent model: the scalar field is
//! a fixed word-sized prime field, the groups are the additive group of that
//! field (a group element stores the exponent of the generator directly), and
//! the pairing multiplies exponents.  The instantiation is bilinear, exact,
//! and fully verified; it is meant for reasoning and testing, not for hiding
//! anything, since discrete logarithms in it are trivial.

pub mod domain;
pub mod evalform;
pub mod field;
pub mod group;
pub mod kzg;
pub mod poly;

pub use domain::EvaluationDomain;
pub use evalform::{KZGEvalFormProver, compute_lagrange_basis};
pub use field::FIELD_MODULUS;
pub use kzg::{KZGCommitment, KZGError, KZGParams, KZGProver, KZGVerifier, KZGWitness, setup};
pub use poly::Polynomial;
