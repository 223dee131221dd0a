//! What holds of the tree and its proofs as a whole.

use vstd::prelude::*;
use crate::digest::digest;
use crate::model::{
    grown_leaves, leaf_digests, pad_blocks, recompose, replicate_blocks, step, ProofView,
    TreeView,
};
use crate::utils::{is_pow2, lemma_padded_len, lemma_padded_len_of_pow2, padded_len};

verus! {

/// Two different byte strings with one digest.
pub open spec fn collides(first: Seq<u8>, second: Seq<u8>) -> bool {
    first != second && digest(first) == digest(second)
}

/// The bytes that one step of recomposition hashes.
pub open spec fn step_input(running: Seq<u8>, sibling: Seq<u8>, sibling_on_left: bool) -> Seq<u8> {
    if sibling_on_left {
        sibling + running
    } else {
        running + sibling
    }
}

/// Recomposing from `first` and from `second` along one proof, some step
/// hashes two different byte strings to one digest.
pub open spec fn collision_along(
    first: Seq<u8>,
    second: Seq<u8>,
    path: Seq<Seq<u8>>,
    direction: Seq<bool>,
) -> bool
    decreases path.len(),
{
    if path.len() == 0 || direction.len() == 0 {
        false
    } else {
        ||| collides(
            step_input(first, path[0], direction[0]),
            step_input(second, path[0], direction[0]),
        )
        ||| collision_along(
            step(first, path[0], direction[0]),
            step(second, path[0], direction[0]),
            path.drop_first(),
            direction.drop_first(),
        )
    }
}

/// Recomposing from `running` along `path`, once as it is and once with
/// `entry` at `position`, some step from `position` on hashes two different
/// byte strings to one digest.
pub open spec fn collision_after_swap(
    running: Seq<u8>,
    path: Seq<Seq<u8>>,
    direction: Seq<bool>,
    position: int,
    entry: Seq<u8>,
) -> bool
    decreases path.len(),
{
    if path.len() == 0 || direction.len() == 0 {
        false
    } else if position == 0 {
        ||| collides(
            step_input(running, path[0], direction[0]),
            step_input(running, entry, direction[0]),
        )
        ||| collision_along(
            step(running, path[0], direction[0]),
            step(running, entry, direction[0]),
            path.drop_first(),
            direction.drop_first(),
        )
    } else {
        collision_after_swap(
            step(running, path[0], direction[0]),
            path.drop_first(),
            direction.drop_first(),
            position - 1,
            entry,
        )
    }
}

/// Two recompositions from different digests meet exactly where a step collides.
proof fn lemma_runs_meet(
    first: Seq<u8>,
    second: Seq<u8>,
    path: Seq<Seq<u8>>,
    direction: Seq<bool>,
)
    requires
        first != second,
    ensures
        recompose(first, path, direction) == recompose(second, path, direction)
            <==> collision_along(first, second, path, direction),
    decreases path.len(),
{
    if path.len() != 0 && direction.len() != 0 {
        let one = step_input(first, path[0], direction[0]);
        let two = step_input(second, path[0], direction[0]);
        assert(one != two) by {
            if one == two {
                assert(one.len() == two.len());
                if direction[0] {
                    assert(first =~= one.skip(path[0].len() as int));
                    assert(second =~= two.skip(path[0].len() as int));
                } else {
                    assert(first =~= one.take(first.len() as int));
                    assert(second =~= two.take(second.len() as int));
                }
            }
        }
        if digest(one) != digest(two) {
            lemma_runs_meet(
                step(first, path[0], direction[0]),
                step(second, path[0], direction[0]),
                path.drop_first(),
                direction.drop_first(),
            );
        }
    }
}

/// Swapping one path entry changes the result unless a step collides.
proof fn lemma_swap_meets(
    running: Seq<u8>,
    path: Seq<Seq<u8>>,
    direction: Seq<bool>,
    position: int,
    entry: Seq<u8>,
)
    requires
        0 <= position < path.len(),
        path.len() == direction.len(),
        entry != path[position],
    ensures
        recompose(running, path.update(position, entry), direction) == recompose(
            running,
            path,
            direction,
        ) <==> collision_after_swap(running, path, direction, position, entry),
    decreases path.len(),
{
    let swapped = path.update(position, entry);
    if position == 0 {
        let one = step_input(running, path[0], direction[0]);
        let two = step_input(running, entry, direction[0]);
        assert(swapped.drop_first() =~= path.drop_first());
        assert(one != two) by {
            if one == two {
                assert(one.len() == two.len());
                if direction[0] {
                    assert(path[0] =~= one.take(path[0].len() as int));
                    assert(entry =~= two.take(entry.len() as int));
                } else {
                    assert(path[0] =~= one.skip(running.len() as int));
                    assert(entry =~= two.skip(running.len() as int));
                }
            }
        }
        if digest(one) != digest(two) {
            lemma_runs_meet(
                step(running, entry, direction[0]),
                step(running, path[0], direction[0]),
                path.drop_first(),
                direction.drop_first(),
            );
            lemma_runs_meet(
                step(running, path[0], direction[0]),
                step(running, entry, direction[0]),
                path.drop_first(),
                direction.drop_first(),
            );
        }
    } else {
        assert(swapped.drop_first() =~= path.drop_first().update(position - 1, entry));
        lemma_swap_meets(
            step(running, path[0], direction[0]),
            path.drop_first(),
            direction.drop_first(),
            position - 1,
            entry,
        );
    }
}

/// All nodes of two completed trees over the same leaves are the same.
proof fn lemma_same_node(one: TreeView, two: TreeView, index: int)
    requires
        one.is_complete(),
        two.is_complete(),
        one.leaf_hashes() == two.leaf_hashes(),
        0 <= index < one.nodes.len(),
    ensures
        one.nodes[index] == two.nodes[index],
    decreases index,
{
    assert(one.leaf_count == two.leaf_count) by {
        assert(one.leaf_hashes().len() == one.leaf_count);
        assert(two.leaf_hashes().len() == two.leaf_count);
    }
    if index < one.leaf_count {
        assert(one.is_childless(index));
        assert(two.is_childless(index));
        assert(one.leaf_hashes()[index] == two.leaf_hashes()[index]);
    } else {
        let k = index - one.leaf_count;
        assert(one.links_pair(k));
        assert(two.links_pair(k));
        lemma_same_node(one, two, 2 * k);
        lemma_same_node(one, two, 2 * k + 1);
    }
}

/// A completed tree is determined by the digests of its leaves.
pub proof fn law_leaves_determine_tree(one: TreeView, two: TreeView)
    requires
        one.is_complete(),
        two.is_complete(),
        one.leaf_hashes() == two.leaf_hashes(),
    ensures
        one == two,
        one.root() == two.root(),
{
    assert(one.leaf_hashes().len() == one.leaf_count);
    assert(two.leaf_hashes().len() == two.leaf_count);
    assert forall|i: int| 0 <= i < one.nodes.len() implies one.nodes[i] == two.nodes[i] by {
        lemma_same_node(one, two, i);
    }
    assert(one.nodes =~= two.nodes);
    assert(one =~= two);
}

/// Every block that a completed tree was built over has a proof, and the
/// proof leads from the block to the root of the tree.
pub proof fn law_member_proof_verifies(tree: TreeView, blocks: Seq<Seq<u8>>, i: int)
    requires
        tree.is_complete(),
        tree.leaf_hashes() == leaf_digests(pad_blocks(blocks, padded_len(blocks.len()))),
        0 <= i < blocks.len(),
    ensures
        !tree.proof_of(blocks[i]).is_empty(),
        tree.proof_of(blocks[i]).verifies(blocks[i], tree.root()),
{
    lemma_padded_len(blocks.len());
    assert(tree.leaf_hashes()[i] == digest(blocks[i]));
    assert(tree.contains(blocks[i]));
    law_present_proof_verifies(tree, blocks[i]);
}

/// The proof for a candidate whose digest a leaf of a completed tree carries
/// leads from the candidate to the root.
pub proof fn law_present_proof_verifies(tree: TreeView, candidate: Seq<u8>)
    requires
        tree.is_complete(),
        tree.contains(candidate),
    ensures
        !tree.proof_of(candidate).is_empty(),
        tree.proof_of(candidate).verifies(candidate, tree.root()),
{
    let hashes = tree.leaf_hashes();
    hashes.index_of_first_ensures(digest(candidate));
    let at = hashes.index_of_first(digest(candidate))->0;
    assert(hashes[at] == tree.nodes[at].hash);
    tree.lemma_path_recomposes(at);
}

/// A value whose digest no block shares has the empty proof, and the empty
/// proof verifies nothing. (Without the second premise this fails: a value
/// that is not among the blocks and collides with one of them gets the proof
/// of that block.)
pub proof fn law_absent_proof_is_empty(
    tree: TreeView,
    blocks: Seq<Seq<u8>>,
    value: Seq<u8>,
    root: Seq<u8>,
)
    requires
        tree.wf(),
        blocks.len() > 0,
        tree.leaf_hashes() == leaf_digests(pad_blocks(blocks, padded_len(blocks.len()))),
        !blocks.contains(value),
        forall|i: int| 0 <= i < blocks.len() ==> digest(#[trigger] blocks[i]) != digest(value),
    ensures
        tree.proof_of(value) == ProofView::empty(),
        !tree.proof_of(value).verifies(value, root),
{
    let hashes = tree.leaf_hashes();
    let padded = pad_blocks(blocks, padded_len(blocks.len()));
    hashes.index_of_first_ensures(digest(value));
    if hashes.contains(digest(value)) {
        let at = choose|at: int| 0 <= at < hashes.len() && hashes[at] == digest(value);
        assert(hashes[at] == digest(padded[at]));
        if at < blocks.len() {
            assert(digest(blocks[at]) != digest(value));
        } else {
            assert(digest(blocks[blocks.len() - 1]) != digest(value));
        }
    }
}

/// A proof that verifies for a candidate verifies for another candidate only
/// where the two collide, or where recomposing from their digests collides
/// at some step. So changing any byte of the candidate makes verification
/// fail, short of a collision of the digest.
pub proof fn law_tampered_candidate(
    proof: ProofView,
    candidate: Seq<u8>,
    tampered: Seq<u8>,
    root: Seq<u8>,
)
    requires
        proof.verifies(candidate, root),
        tampered != candidate,
    ensures
        proof.verifies(tampered, root) <==> collides(candidate, tampered) || collision_along(
            digest(candidate),
            digest(tampered),
            proof.path->0,
            proof.direction->0,
        ),
{
    if digest(candidate) != digest(tampered) {
        lemma_runs_meet(digest(candidate), digest(tampered), proof.path->0, proof.direction->0);
    } else {
        lemma_same_start(digest(candidate), proof.path->0, proof.direction->0);
    }
}

/// From one digest, no step hashes two different byte strings.
proof fn lemma_same_start(running: Seq<u8>, path: Seq<Seq<u8>>, direction: Seq<bool>)
    ensures
        !collision_along(running, running, path, direction),
    decreases path.len(),
{
    if path.len() != 0 && direction.len() != 0 {
        lemma_same_start(
            step(running, path[0], direction[0]),
            path.drop_first(),
            direction.drop_first(),
        );
    }
}

/// A proof that verifies still verifies with another entry at one position
/// of its path only where a step from that position on collides. So changing
/// any byte of any path entry makes verification fail, short of a collision
/// of the digest.
pub proof fn law_tampered_path(
    proof: ProofView,
    candidate: Seq<u8>,
    root: Seq<u8>,
    position: int,
    entry: Seq<u8>,
)
    requires
        proof.verifies(candidate, root),
        0 <= position < proof.path->0.len(),
        entry != proof.path->0[position],
    ensures
        (ProofView {
            path: Some(proof.path->0.update(position, entry)),
            direction: proof.direction,
        }).verifies(candidate, root) <==> collision_after_swap(
            digest(candidate),
            proof.path->0,
            proof.direction->0,
            position,
            entry,
        ),
{
    lemma_swap_meets(digest(candidate), proof.path->0, proof.direction->0, position, entry);
}

/// Growing a tree gives the tree that is built in one go over the old blocks
/// followed by the new ones: `grown` stands for the completed tree over
/// `existing` after `added` was added to it, `rebuilt` for the completed tree
/// over the padded `existing` followed by the padded and repeated `added`.
pub proof fn law_growth_matches_rebuild(
    existing: Seq<Seq<u8>>,
    added: Seq<Seq<u8>>,
    grown: TreeView,
    rebuilt: TreeView,
)
    requires
        existing.len() > 0,
        grown.is_complete(),
        rebuilt.is_complete(),
        grown.leaf_hashes() == leaf_digests(pad_blocks(existing, padded_len(existing.len())))
            + grown_leaves(added, padded_len(existing.len())),
        rebuilt.leaf_hashes() == leaf_digests(
            pad_blocks(
                joined_blocks(existing, added),
                padded_len(joined_blocks(existing, added).len()),
            ),
        ),
    ensures
        grown == rebuilt,
        grown.root() == rebuilt.root(),
{
    let count = padded_len(existing.len());
    let joined = joined_blocks(existing, added);
    lemma_padded_len(existing.len());
    assert(is_pow2(2 * count)) by {
        assert((2 * count) / 2 == count);
    }
    lemma_padded_len_of_pow2(2 * count);
    assert(pad_blocks(joined, 2 * count) =~= joined);
    assert(grown.leaf_hashes() =~= rebuilt.leaf_hashes());
    law_leaves_determine_tree(grown, rebuilt);
}

/// The padded `existing` followed by as many blocks again: the padded
/// `added`, repeated.
pub open spec fn joined_blocks(existing: Seq<Seq<u8>>, added: Seq<Seq<u8>>) -> Seq<Seq<u8>> {
    pad_blocks(existing, padded_len(existing.len())) + replicate_blocks(
        pad_blocks(added, padded_len(added.len())),
        padded_len(existing.len()),
    )
}

/// In a tree of one leaf the proof has no steps, and a proof without steps
/// verifies exactly where the digest of the candidate is the root.
pub proof fn law_single_leaf(tree: TreeView, candidate: Seq<u8>, root: Seq<u8>)
    requires
        tree.is_complete(),
        tree.leaf_count == 1,
    ensures
        tree.proof_at(0) == (ProofView {
            path: Some(Seq::<Seq<u8>>::empty()),
            direction: Some(Seq::<bool>::empty()),
        }),
        tree.contains(candidate) ==> tree.proof_of(candidate) == tree.proof_at(0),
        tree.proof_at(0).verifies(candidate, root) <==> digest(candidate) == root,
        tree.contains(candidate) <==> digest(candidate) == tree.root(),
{
    let hashes = tree.leaf_hashes();
    hashes.index_of_first_ensures(digest(candidate));
    assert(hashes[0] == tree.root());
    if digest(candidate) == tree.root() {
        assert(hashes.contains(digest(candidate)));
    }
}

} // verus!
