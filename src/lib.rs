//! An incremental Merkle tree of fixed depth and configurable arity, whose
//! unpopulated subtrees are filled with cached "zero" hashes.

pub mod model;
pub mod tree;
pub mod keccak;
pub mod laws;

pub use keccak::keccak256_hash_function;
pub use tree::{IMTError, IMTHashFunction, IMTMerkleProof, IMTNode, IMT};
