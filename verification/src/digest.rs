//! The digest that the tree is built on: SHA-256, cut to a fixed width.

use vstd::prelude::*;
use sha2::{Digest, Sha256};
use crate::utils::{blocks_view, copy_bytes};

verus! {

/// Number of leading bytes of the SHA-256 output that make up a digest.
pub const DIGEST_WIDTH: usize = 8;

/// The SHA-256 hash of `data`, as computed by the `sha2` crate.
pub uninterp spec fn sha256(data: Seq<u8>) -> Seq<u8>;

/// The digest of a byte string: the first `DIGEST_WIDTH` bytes of its SHA-256 hash.
pub open spec fn digest(data: Seq<u8>) -> Seq<u8> {
    truncated(sha256(data), DIGEST_WIDTH as nat)
}

/// The digest of several byte strings: one digest over their concatenation.
pub open spec fn digest_concat(parts: Seq<Seq<u8>>) -> Seq<u8> {
    digest(parts.flatten())
}

/// The digest of an internal node whose children carry `left` and `right`:
/// one digest over `left` followed by `right`.
pub open spec fn combine(left: Seq<u8>, right: Seq<u8>) -> Seq<u8> {
    digest(left + right)
}

/// Hashing the two digests as a list of byte strings gives the same.
pub proof fn lemma_combine_is_digest_concat(left: Seq<u8>, right: Seq<u8>)
    ensures
        combine(left, right) == digest_concat(seq![left, right]),
{
    let one = seq![left];
    one.lemma_flatten_singleton();
    one.lemma_flatten_push(right);
    assert(one.push(right) =~= seq![left, right]);
}

/// The first `width` bytes of `full`, or all of it where it is shorter.
pub open spec fn truncated(full: Seq<u8>, width: nat) -> Seq<u8> {
    if width <= full.len() {
        full.take(width as int)
    } else {
        full
    }
}

/// Calls `Sha256::digest` of the `sha2` crate on `data`.
///
/// Not proved, but taken from that crate: the result is the SHA-256 hash of
/// `data`, which is a function of the bytes of `data` alone, and it is 32
/// bytes long. The call returns on every input.
#[verifier::external_body]
fn sha256_bytes(data: &Vec<u8>) -> (out: Vec<u8>)
    ensures
        out@ == sha256(data@),
        out@.len() == 32,
{
    Sha256::digest(data).to_vec()
}

/// Keeps the first `width` bytes of a hash.
pub fn truncate_digest(full: &Vec<u8>, width: usize) -> (out: Vec<u8>)
    ensures
        out@ == truncated(full@, width as nat),
{
    let mut out: Vec<u8> = Vec::new();
    let mut i: usize = 0;
    while i < full.len() && i < width
        invariant
            i <= full.len(),
            i <= width,
            out@ == full@.take(i as int),
        decreases full.len() - i,
    {
        out.push(full[i]);
        i += 1;
    }
    proof {
        if width > full.len() {
            assert(full@.take(i as int) =~= full@);
        }
    }
    out
}

/// Concatenates byte strings in order.
pub fn concat_bytes(parts: &Vec<Vec<u8>>) -> (out: Vec<u8>)
    ensures
        out@ == blocks_view(parts@).flatten(),
{
    let mut out: Vec<u8> = Vec::new();
    let mut i: usize = 0;
    proof {
        assert(blocks_view(parts@).take(0) =~= Seq::<Seq<u8>>::empty());
    }
    while i < parts.len()
        invariant
            i <= parts.len(),
            out@ == blocks_view(parts@).take(i as int).flatten(),
        decreases parts.len() - i,
    {
        let part = &parts[i];
        let ghost before = out@;
        let mut j: usize = 0;
        while j < part.len()
            invariant
                j <= part.len(),
                out@ == before + part@.take(j as int),
            decreases part.len() - j,
        {
            out.push(part[j]);
            proof {
                assert(part@.take(j + 1) =~= part@.take(j as int).push(part@[j as int]));
            }
            j += 1;
        }
        proof {
            let all = blocks_view(parts@);
            assert(part@.take(j as int) =~= part@);
            assert(all.take(i + 1) =~= all.take(i as int).push(part@));
            all.take(i as int).lemma_flatten_push(part@);
        }
        i += 1;
    }
    proof {
        assert(blocks_view(parts@).take(i as int) =~= blocks_view(parts@));
    }
    out
}

/// The digest of one byte string.
pub fn get_sha256(data: &Vec<u8>) -> (hash: Vec<u8>)
    ensures
        hash@ == digest(data@),
        hash@.len() == DIGEST_WIDTH,
{
    let full = sha256_bytes(data);
    truncate_digest(&full, DIGEST_WIDTH)
}

/// The digest of the concatenation of several byte strings.
pub fn get_sha256_vec(data: &Vec<Vec<u8>>) -> (hash: Vec<u8>)
    ensures
        hash@ == digest_concat(blocks_view(data@)),
        hash@.len() == DIGEST_WIDTH,
{
    let joined = concat_bytes(data);
    get_sha256(&joined)
}

/// The digest of the parent of two nodes that carry `left` and `right`.
pub fn combine_hashes(left: &Vec<u8>, right: &Vec<u8>) -> (hash: Vec<u8>)
    ensures
        hash@ == combine(left@, right@),
        hash@.len() == DIGEST_WIDTH,
{
    let mut pair: Vec<Vec<u8>> = Vec::new();
    pair.push(copy_bytes(left));
    pair.push(copy_bytes(right));
    proof {
        assert(blocks_view(pair@) =~= seq![left@, right@]);
        lemma_combine_is_digest_concat(left@, right@);
    }
    get_sha256_vec(&pair)
}

} // verus!
