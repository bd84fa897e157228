//! A binary hash tree over byte records: construction, inclusion proofs,
//! standalone proof verification and a structural integrity check.
pub mod documents;
pub mod error;
pub mod hashing;
pub mod merkle_node;
pub mod laws;
pub mod merkle_tree;
pub mod merkle_proof;
pub mod serialization;

pub use error::MerkleTreeError;
pub use hashing::Digest;
pub use merkle_node::MerkleNode;
pub use merkle_tree::MerkleTree;
pub use merkle_proof::{MerkleProof, ProofStep};
