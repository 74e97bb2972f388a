//! An append-only Merkle hash tree in the style of RFC 6962, with
//! generation and verification of consistency proofs: compact evidence
//! that a later snapshot of the log is a pure append-only extension of
//! an earlier snapshot.

use vstd::prelude::*;

pub mod consistency_proof;
pub mod hashing;
pub mod merkle_tree;
pub mod tree_math;

pub use consistency_proof::{ConsistencyProof, ConsistencyProofRef, VerificationError};
pub use merkle_tree::{CtMerkleTree, RootHash};

verus! {

/// Trees larger than this are rejected up front, so that all index
/// arithmetic on the virtual node numbering fits in a `u64`.
pub const MAX_LEAVES: u64 = 0x4000_0000_0000_0000;

} // verus!
