//! The typed failures the engine reports; all are local and recoverable.

use vstd::prelude::*;

verus! {

#[derive(Clone, Copy, Debug, PartialEq, Eq, Structural)]
pub enum MerkleError {
    /// A record's address does not decode to exactly 20 bytes.
    InvalidAddressLength,
    /// A tree was requested over zero leaves.
    EmptyLeafSet,
    /// A proof was requested for a leaf absent from the tree's leaf layer.
    LeafNotFound,
    /// A hex string at the boundary holds a non-digit or has odd length.
    InvalidHexInput,
    /// A root hex string decodes, but not to exactly 32 bytes.
    InvalidRootLength,
}

impl MerkleError {
    /// A short description, for callers that print failures.
    pub fn describe(&self) -> (r: &'static str)
    {
        match self {
            MerkleError::InvalidAddressLength => "address must be 20 bytes",
            MerkleError::EmptyLeafSet => "cannot build a tree from zero leaves",
            MerkleError::LeafNotFound => "leaf is not in the tree",
            MerkleError::InvalidHexInput => "invalid hex input",
            MerkleError::InvalidRootLength => "root must be 32 bytes",
        }
    }
}

} // verus!
