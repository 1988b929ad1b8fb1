//! Precomputed power tables of roots of unity over a prime field, as used to
//! accelerate number-theoretic transforms inside a FRI-style polynomial
//! commitment scheme.
//!
//! The crate provides a chunked power-table generator, a bit-reversal
//! permutation, and the four precomputation variants assembled from the two
//! (forward/inverse, natural/bit-reversed, plain/coset-shifted).

pub mod bits;
pub mod domain;
pub mod field;
pub mod precomputation;
pub mod table;
pub mod worker;
