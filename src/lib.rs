//! Pre-shared key secret derivation and parent-hash integrity for an MLS
//! ratchet tree, with every algorithm stated and proved in Verus.

mod crypto;

pub mod codec;
pub mod kdf;
pub mod psk;
pub mod tree_math;
pub mod node;
pub mod parent_hash;
