//! Rank-1 constraint systems.

pub mod combination_laws;
pub mod completeness;
pub mod constraint_system;
pub mod equations;
pub mod flattening_laws;
pub mod honest;
pub mod linear_combination;
pub mod prove;
pub mod prover_laws;
pub mod r1cs_proof;
pub mod rejection_laws;
pub mod secrets;
pub mod system_laws;
pub mod verification_laws;
pub mod verify;
pub mod witness;
