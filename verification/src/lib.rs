//! A binary hash tree over an ordered collection of data blocks.
//!
//! The tree commits to all blocks through a single root digest and hands out
//! compact inclusion proofs. Nodes live in one flat array: the leaves first,
//! then every internal level from the bottom up, the root last.

pub mod digest;
pub mod utils;
pub mod model;
pub mod node;
pub mod inclusion;
pub mod error;
pub mod tree;
pub mod laws;

pub use digest::{get_sha256, get_sha256_vec};
pub use inclusion::Proof;
pub use error::MerkleError;
pub use node::Node;
pub use tree::MerkleTree;
pub use utils::{hash_to_u64, is_pwr_two, raw_numbers_to_vector};
