//! A shuffle argument with logarithmic proof size, over two groups.

#![allow(non_snake_case)]
#![allow(non_camel_case_types)]

pub mod bytes;
pub mod ecp;
pub mod ecp_laws;
pub mod errors;
pub mod folding;
pub mod folding_laws;
pub mod generators;
pub mod group;
pub mod hashing;
pub mod inner_product_proof;
pub mod ipa;
pub mod ipa_laws;
pub mod message_laws;
pub mod modular;
pub mod p256;
pub mod r1cs;
pub mod ristretto;
pub mod scalars_laws;
pub mod shuffle;
pub mod shuffle_laws;
pub mod statement_laws;
pub mod sums;
pub mod transcript;
pub mod transcript_laws;
pub mod unfolding;
pub mod util;
pub mod util_laws;
pub mod wire;
