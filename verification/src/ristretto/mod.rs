//! Proofs over the group Ristretto255.

pub mod accept_laws;
pub mod generators;
pub mod point;
pub mod proof_bytes;
pub mod read_laws;
pub mod r1cs;
pub mod scalar;
pub mod serialization;
pub mod shuffle;
