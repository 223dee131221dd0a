//! Inclusion proofs and their verification.

use vstd::prelude::*;
use crate::digest::{combine_hashes, digest, get_sha256};
use crate::model::{recompose, ProofView};
use crate::utils::{blocks_view, bytes_equal, copy_blocks, copy_flags};

verus! {

/// The sibling digests from a leaf to the root, and for each of them whether
/// it is the left operand when the parent's digest is recomputed. A proof
/// with neither field stands for "not found".
#[derive(Debug)]
pub struct Proof {
    path: Option<Vec<Vec<u8>>>,
    direction: Option<Vec<bool>>,
}

/// The byte strings of an optional path.
pub open spec fn path_view(path: Option<Vec<Vec<u8>>>) -> Option<Seq<Seq<u8>>> {
    match path {
        Some(entries) => Some(blocks_view(entries@)),
        None => None,
    }
}

/// The flags of an optional direction list.
pub open spec fn direction_view(direction: Option<Vec<bool>>) -> Option<Seq<bool>> {
    match direction {
        Some(flags) => Some(flags@),
        None => None,
    }
}

impl View for Proof {
    type V = ProofView;

    closed spec fn view(&self) -> ProofView {
        ProofView { path: path_view(self.path), direction: direction_view(self.direction) }
    }
}

impl Proof {
    pub fn new(path: Option<Vec<Vec<u8>>>, direction: Option<Vec<bool>>) -> (proof: Proof)
        ensures
            proof@ == (ProofView { path: path_view(path), direction: direction_view(direction) }),
    {
        Proof { path, direction }
    }

    /// Recomputes the root from `candidate` along the proof and compares it
    /// with `root`. A proof that lacks a field, or whose fields differ in
    /// length, verifies nothing.
    pub fn verify_proof(&self, candidate: Vec<u8>, root: Vec<u8>) -> (valid: bool)
        ensures
            valid == self@.verifies(candidate@, root@),
    {
        match (&self.path, &self.direction) {
            (Some(path), Some(direction)) => {
                if path.len() != direction.len() {
                    return false;
                }
                let ghost steps = blocks_view(path@);
                let mut hash = get_sha256(&candidate);
                let mut i: usize = 0;
                assert(steps.skip(0) =~= steps);
                assert(direction@.skip(0) =~= direction@);
                while i < direction.len()
                    invariant
                        i <= direction.len(),
                        path.len() == direction.len(),
                        steps == blocks_view(path@),
                        recompose(hash@, steps.skip(i as int), direction@.skip(i as int))
                            == recompose(digest(candidate@), steps, direction@),
                    decreases direction.len() - i,
                {
                    proof {
                        assert(steps.skip(i as int).drop_first() =~= steps.skip(i + 1));
                        assert(direction@.skip(i as int).drop_first() =~= direction@.skip(i + 1));
                    }
                    if direction[i] {
                        hash = combine_hashes(&path[i], &hash);
                    } else {
                        hash = combine_hashes(&hash, &path[i]);
                    }
                    i += 1;
                }
                bytes_equal(&hash, &root)
            },
            _ => false,
        }
    }

    pub fn is_empty(&self) -> (empty: bool)
        ensures
            empty == self@.is_empty(),
    {
        self.path.is_none() && self.direction.is_none()
    }

    pub fn get_path(&self) -> (path: Option<Vec<Vec<u8>>>)
        ensures
            path_view(path) == self@.path,
    {
        match &self.path {
            Some(entries) => Some(copy_blocks(entries)),
            None => None,
        }
    }

    pub fn get_direction(&self) -> (direction: Option<Vec<bool>>)
        ensures
            direction_view(direction) == self@.direction,
    {
        match &self.direction {
            Some(flags) => Some(copy_flags(flags)),
            None => None,
        }
    }
}

} // verus!
