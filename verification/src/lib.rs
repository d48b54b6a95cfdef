//! Non-interactive sum-check protocol over the BN254 base field.
//!
//! A prover holds a multilinear polynomial, given by its evaluations over the
//! boolean hypercube, and a claimed value for the sum of those evaluations.
//! It produces a proof that a verifier can check in time linear in the number
//! of variables, replaying the prover's Fiat-Shamir transcript to derive the
//! same challenges deterministically.

pub mod circuit;
pub mod field;
pub mod multilinear;
pub mod sumcheck;
pub mod transcript;
