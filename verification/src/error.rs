//! What building or growing a tree can fail with.

use vstd::prelude::*;

verus! {

#[derive(Debug, Clone, Copy, PartialEq, Eq, Structural)]
pub enum MerkleError {
    /// No block was given.
    EmptyInput,
    /// The batch, once padded, has more leaves than the tree it should join.
    BatchTooLarge,
}

impl MerkleError {
    /// A short description of the error.
    pub fn message(&self) -> (text: String)
        ensures
            text@ == match *self {
                MerkleError::EmptyInput => "cannot build a tree from no data"@,
                MerkleError::BatchTooLarge => "the new batch has more leaves than the tree"@,
            },
    {
        match self {
            MerkleError::EmptyInput => "cannot build a tree from no data".to_string(),
            MerkleError::BatchTooLarge => "the new batch has more leaves than the tree".to_string(),
        }
    }
}

} // verus!
