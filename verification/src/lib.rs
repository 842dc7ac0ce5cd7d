//! A low-degree proximity proof over a 64-bit prime field.
//!
//! A prover commits to the evaluations of a polynomial on a smooth
//! multiplicative subgroup and emits a short transcript that convinces a
//! verifier the committed table is close to a polynomial of low degree.
//! The field arithmetic, the radix-2 transform, the folding step, the
//! Merkle commitment and the Fiat-Shamir transcript are all verified;
//! the only trusted call is the Keccak-256 digest.
//!
//! The prover's contract pins its output byte-for-byte and says exactly
//! when it succeeds; the verifier's contract equals a spec-level decision
//! function, error kinds included, so it accepts precisely the buffers
//! whose statement, openings, fold equations and terminal check pass.

use vstd::prelude::*;

pub mod commitable;
pub mod fields;
pub mod merkletree;
pub mod polynomial;
pub mod transcript;
pub mod fri;

verus! {

/// The three failure kinds a proof computation can surface.
///
/// `SerializationError`: the proof buffer is too short, a transcript
/// operation disagrees with the schedule, or an encoded value is malformed.
/// `InvalidProof`: a Merkle opening, a fold equation or the terminal
/// constant check failed.
/// `ConfigError`: a requested root of unity does not exist, or a fold
/// challenge coincides with a domain element.
#[derive(Clone, Copy, Debug, PartialEq, Eq, Structural)]
pub enum ProofError {
    SerializationError,
    InvalidProof,
    ConfigError,
}

} // verus!
