//! Proofs over the curve NIST P-256.

pub mod accept_laws;
pub mod curve;
pub mod field;
pub mod fixed_base;
pub mod generators;
pub mod group;
pub mod proof_bytes;
pub mod r1cs;
pub mod read_laws;
pub mod serialization;
pub mod shuffle;
pub mod vartime_msm;
