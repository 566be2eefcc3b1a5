//! Core of a PLONK-family prover: a symbolic constraint expression language
//! over a prime field, an evaluator over extended multiplicative subgroups,
//! a linearizer, and the field-level computations of the prover pipeline.

pub mod modarith;
pub mod field;
pub mod domains;
pub mod dense_polynomial;
pub mod scalars;
pub mod expr;
pub mod evaluations;
pub mod prover;
pub mod transcript;
pub mod laws;
pub mod laws_linearization;
