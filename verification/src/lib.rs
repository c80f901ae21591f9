//! A Merkle-tree commitment over subscription records, in the
//! OpenZeppelin `StandardMerkleTree` conventions: double-hashed ABI-encoded
//! leaves, sorted leaf layer, sorted-pair interior hashing, and odd-node
//! promotion, so that proofs fold with `MerkleProof.verify`.

pub mod error;
pub mod hashing;
pub mod hexcodec;
pub mod laws;
pub mod leaf;
pub mod records;
pub mod tree;

pub use error::MerkleError;
pub use hashing::hash_pair;
pub use leaf::compute_leaf;
pub use records::{build_tree_from_records, get_proof_for_user, verify_subscription};
pub use tree::OzMerkleTree;
