//! The two folding arguments: for an inner product of two committed vectors,
//! and for one vector under two sets of bases.

pub use crate::ecp::prove_ecp;
pub use crate::ipa::prove_ipa;
pub use crate::util::inner_product;
