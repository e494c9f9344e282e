//! Merkle trees with caps over field elements.

pub mod call_laws;
pub mod config;
pub mod device;
pub mod device_laws;
pub mod fill;
pub mod laws;
pub mod layout;
pub mod levels;
pub mod merkle_proofs;
pub mod merkle_tree;
mod par;
pub mod places;
pub mod range_update;
pub mod update;
pub mod util;
