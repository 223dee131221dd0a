//! The mathematical model of the tree: levels of digests, the flat node
//! layout, and the path from a leaf to the root.

use vstd::prelude::*;
use crate::digest::{combine, digest};
use crate::utils::{is_pow2, padded_len};

verus! {

/// A node as the contracts see it.
#[verifier::ext_equal]
pub struct NodeView {
    pub hash: Seq<u8>,
    pub left: Option<int>,
    pub right: Option<int>,
}

/// A tree as the contracts see it.
#[verifier::ext_equal]
pub struct TreeView {
    pub nodes: Seq<NodeView>,
    pub leaf_count: nat,
    pub root_index: nat,
}

/// An inclusion proof as the contracts see it.
#[verifier::ext_equal]
pub struct ProofView {
    pub path: Option<Seq<Seq<u8>>>,
    pub direction: Option<Seq<bool>>,
}

/// The digests of `blocks`, one per block.
pub open spec fn leaf_digests(blocks: Seq<Seq<u8>>) -> Seq<Seq<u8>> {
    Seq::new(blocks.len(), |i: int| digest(blocks[i]))
}

/// `blocks` followed by `count - blocks.len()` copies of its last block.
pub open spec fn pad_blocks(blocks: Seq<Seq<u8>>, count: nat) -> Seq<Seq<u8>> {
    Seq::new(count, |i: int| if i < blocks.len() { blocks[i] } else { blocks.last() })
}

/// `blocks` repeated cyclically up to `count` entries.
pub open spec fn replicate_blocks(blocks: Seq<Seq<u8>>, count: nat) -> Seq<Seq<u8>> {
    Seq::new(count, |i: int| blocks[i % (blocks.len() as int)])
}

/// The leaves that growing a tree of `leaf_count` leaves by `blocks` adds:
/// the blocks are padded to a power of two, the padded batch is repeated up
/// to `leaf_count` entries, and each entry is hashed.
pub open spec fn grown_leaves(blocks: Seq<Seq<u8>>, leaf_count: nat) -> Seq<Seq<u8>> {
    leaf_digests(replicate_blocks(pad_blocks(blocks, padded_len(blocks.len())), leaf_count))
}

/// Childless nodes that carry `hashes`, in order.
pub open spec fn leaf_nodes(hashes: Seq<Seq<u8>>) -> Seq<NodeView> {
    Seq::new(hashes.len(), |i: int| NodeView { hash: hashes[i], left: None, right: None })
}

/// The tree that holds `hashes` as its leaves and nothing above them.
pub open spec fn fresh_tree(hashes: Seq<Seq<u8>>) -> TreeView {
    TreeView { nodes: leaf_nodes(hashes), leaf_count: hashes.len(), root_index: 0 }
}

/// The level above `level`: one digest for each pair of neighbours.
pub open spec fn next_level(level: Seq<Seq<u8>>) -> Seq<Seq<u8>> {
    Seq::new(level.len() / 2, |k: int| combine(level[2 * k], level[2 * k + 1]))
}

/// The root digest over `leaves`, whose number is a power of two.
pub open spec fn merkle_root(leaves: Seq<Seq<u8>>) -> Seq<u8>
    decreases leaves.len(),
{
    if leaves.len() <= 1 {
        leaves[0]
    } else {
        merkle_root(next_level(leaves))
    }
}

/// The number of levels above the leaves of a tree with `leaf_count` leaves.
pub open spec fn height(leaf_count: nat) -> nat
    decreases leaf_count,
{
    if leaf_count <= 1 {
        0
    } else {
        1 + height(leaf_count / 2)
    }
}

/// The number of nodes in level `level` of a tree with `leaf_count` leaves.
pub open spec fn level_size(leaf_count: nat, level: nat) -> nat
    decreases level,
{
    if level == 0 {
        leaf_count
    } else {
        level_size(leaf_count, (level - 1) as nat) / 2
    }
}

/// Where level `level` begins in the flat array: after all levels below it.
pub open spec fn level_start(leaf_count: nat, level: nat) -> nat {
    (2 * leaf_count - 2 * level_size(leaf_count, level)) as nat
}

/// A child link moved up by `shift` positions.
pub open spec fn shift_link(link: Option<int>, shift: int) -> Option<int> {
    match link {
        Some(index) => Some(index + shift),
        None => None,
    }
}

/// A node whose child links are moved up by `shift` positions.
pub open spec fn rebased(node: NodeView, shift: int) -> NodeView {
    NodeView {
        hash: node.hash,
        left: shift_link(node.left, shift),
        right: shift_link(node.right, shift),
    }
}

/// Both child links, where present, lie in `0..limit`.
pub open spec fn links_below(node: NodeView, limit: int) -> bool {
    &&& node.left matches Some(index) ==> 0 <= index < limit
    &&& node.right matches Some(index) ==> 0 <= index < limit
}

/// The neighbour that a node is paired with.
pub open spec fn sibling(index: int) -> int {
    if index % 2 == 0 {
        index + 1
    } else {
        index - 1
    }
}

/// One step of recomposition: the digest of the parent of `running` and `sibling`.
pub open spec fn step(running: Seq<u8>, sibling: Seq<u8>, sibling_on_left: bool) -> Seq<u8> {
    if sibling_on_left {
        combine(sibling, running)
    } else {
        combine(running, sibling)
    }
}

/// The digest reached from `running` by applying the steps of a proof in order.
pub open spec fn recompose(running: Seq<u8>, path: Seq<Seq<u8>>, direction: Seq<bool>) -> Seq<u8>
    decreases path.len(),
{
    if path.len() == 0 || direction.len() == 0 {
        running
    } else {
        recompose(
            step(running, path[0], direction[0]),
            path.drop_first(),
            direction.drop_first(),
        )
    }
}

impl ProofView {
    /// The proof that stands for "not found".
    pub open spec fn empty() -> ProofView {
        ProofView { path: None, direction: None }
    }

    pub open spec fn is_empty(self) -> bool {
        self.path is None && self.direction is None
    }

    /// Whether the proof leads from `candidate` to `root`.
    pub open spec fn verifies(self, candidate: Seq<u8>, root: Seq<u8>) -> bool {
        &&& self.path is Some
        &&& self.direction is Some
        &&& self.path->0.len() == self.direction->0.len()
        &&& recompose(digest(candidate), self.path->0, self.direction->0) == root
    }
}

impl TreeView {
    /// The internal node number `k` links to nodes `2k` and `2k + 1` and
    /// carries the digest of their digests.
    pub open spec fn links_pair(self, k: int) -> bool {
        let node = self.nodes[self.leaf_count + k];
        &&& node.left == Some(2 * k)
        &&& node.right == Some(2 * k + 1)
        &&& node.hash == combine(self.nodes[2 * k].hash, self.nodes[2 * k + 1].hash)
    }

    /// The node at `i` has no children.
    pub open spec fn is_childless(self, i: int) -> bool {
        self.nodes[i].left is None && self.nodes[i].right is None
    }

    /// The layout invariant: a power of two of childless leaves first, then
    /// internal nodes in level order, each linked to the next unconsumed pair.
    pub open spec fn wf(self) -> bool {
        &&& is_pow2(self.leaf_count)
        &&& self.leaf_count <= self.nodes.len() <= 2 * self.leaf_count - 1
        &&& self.root_index < self.nodes.len()
        &&& self.linked()
    }

    /// Every leaf that is there is childless, and every internal node that is
    /// there links to its pair.
    pub open spec fn linked(self) -> bool {
        &&& forall|i: int|
            0 <= i < self.leaf_count && i < self.nodes.len() ==> #[trigger] self.is_childless(i)
        &&& forall|k: int|
            0 <= k && self.leaf_count + k < self.nodes.len() ==> #[trigger] self.links_pair(k)
    }

    /// The nodes of level `level`, counted from the leaves.
    pub open spec fn level(self, level: nat) -> Seq<NodeView> {
        self.nodes.subrange(
            level_start(self.leaf_count, level) as int,
            (level_start(self.leaf_count, level) + level_size(self.leaf_count, level)) as int,
        )
    }

    /// The number of levels, from `level` upwards, that are entirely built.
    pub open spec fn levels_from(self, level: nat) -> nat
        decreases level_size(self.leaf_count, level),
    {
        let size = level_size(self.leaf_count, level);
        if size >= 1 && level_start(self.leaf_count, level) + size <= self.nodes.len() {
            1 + self.levels_from(level + 1)
        } else {
            0
        }
    }

    /// The number of levels that are entirely built.
    pub open spec fn level_count(self) -> nat {
        self.levels_from(0)
    }

    /// All levels are built and the root is fixed.
    pub open spec fn is_complete(self) -> bool {
        &&& self.wf()
        &&& self.nodes.len() == 2 * self.leaf_count - 1
        &&& self.root_index == self.nodes.len() - 1
    }

    /// The digests of the leaves, in order.
    pub open spec fn leaf_hashes(self) -> Seq<Seq<u8>> {
        Seq::new(self.leaf_count, |i: int| self.nodes[i].hash)
    }

    /// The digests of all nodes, in array order.
    pub open spec fn hashes(self) -> Seq<Seq<u8>> {
        Seq::new(self.nodes.len(), |i: int| self.nodes[i].hash)
    }

    /// The digest of the last node: the root of a completed tree.
    pub open spec fn root(self) -> Seq<u8> {
        self.nodes.last().hash
    }

    /// Where the parent of the node at `index` stands.
    pub open spec fn parent(self, index: int) -> int {
        self.leaf_count + index / 2
    }

    /// The sibling digests met on the way from the node at `index` to the root.
    pub open spec fn path_from(self, index: int) -> Seq<Seq<u8>>
        decreases 2 * self.leaf_count - index,
    {
        if 0 <= index < 2 * self.leaf_count - 2 {
            seq![self.nodes[sibling(index)].hash] + self.path_from(self.parent(index))
        } else {
            Seq::empty()
        }
    }

    /// For each step from the node at `index` to the root, whether the
    /// sibling is the left operand.
    pub open spec fn direction_from(self, index: int) -> Seq<bool>
        decreases 2 * self.leaf_count - index,
    {
        if 0 <= index < 2 * self.leaf_count - 2 {
            seq![index % 2 != 0] + self.direction_from(self.parent(index))
        } else {
            Seq::empty()
        }
    }

    /// The proof for the leaf at `index`; the empty proof where no leaf stands there.
    pub open spec fn proof_at(self, index: int) -> ProofView {
        if 0 <= index < self.leaf_count {
            ProofView {
                path: Some(self.path_from(index)),
                direction: Some(self.direction_from(index)),
            }
        } else {
            ProofView::empty()
        }
    }

    /// The first leaf that carries the digest `target`, if any does.
    pub open spec fn find_leaf(self, target: Seq<u8>) -> Option<int> {
        self.leaf_hashes().index_of_first(target)
    }

    /// The proof for `candidate`: that of the first leaf carrying its digest,
    /// or the empty proof where no leaf does.
    pub open spec fn proof_of(self, candidate: Seq<u8>) -> ProofView {
        match self.find_leaf(digest(candidate)) {
            Some(index) => self.proof_at(index),
            None => ProofView::empty(),
        }
    }

    /// Whether some leaf carries the digest of `candidate`.
    pub open spec fn contains(self, candidate: Seq<u8>) -> bool {
        self.leaf_hashes().contains(digest(candidate))
    }
}

/// The flat layout over `count` leaves holds, at `count + k`, the digest of
/// the digests at `2k` and `2k + 1`.
pub open spec fn is_layout(hashes: Seq<Seq<u8>>, count: nat) -> bool {
    &&& hashes.len() == 2 * count - 1
    &&& forall|k: int|
        0 <= k < count - 1 ==> #[trigger] hashes[count + k] == combine(
            hashes[2 * k],
            hashes[2 * k + 1],
        )
}

/// The last digest of a flat layout is the root over its leaves.
pub proof fn lemma_layout_root(hashes: Seq<Seq<u8>>, count: nat)
    requires
        is_pow2(count),
        is_layout(hashes, count),
    ensures
        hashes.last() == merkle_root(hashes.take(count as int)),
    decreases count,
{
    let leaves = hashes.take(count as int);
    if count > 1 {
        let upper = hashes.skip(count as int);
        let half = (count / 2) as nat;
        assert forall|k: int| 0 <= k < half - 1 implies #[trigger] upper[half + k] == combine(
            upper[2 * k],
            upper[2 * k + 1],
        ) by {
            assert(hashes[count + (half + k)] == combine(
                hashes[2 * (half + k)],
                hashes[2 * (half + k) + 1],
            ));
        }
        lemma_layout_root(upper, half);
        assert(upper.take(half as int) =~= next_level(leaves)) by {
            assert forall|k: int| 0 <= k < half implies upper.take(half as int)[k] == next_level(
                leaves,
            )[k] by {
                assert(hashes[count + k] == combine(hashes[2 * k], hashes[2 * k + 1]));
            }
        }
        assert(upper.last() == hashes.last());
    } else {
        assert(leaves[0] == hashes.last());
    }
}

/// The root over two runs of leaves of one power-of-two length is the digest
/// of their two roots.
pub proof fn lemma_merkle_root_concat(first: Seq<Seq<u8>>, second: Seq<Seq<u8>>)
    requires
        is_pow2(first.len()),
        first.len() == second.len(),
    ensures
        merkle_root(first + second) == combine(merkle_root(first), merkle_root(second)),
    decreases first.len(),
{
    let both = first + second;
    if first.len() == 1 {
        assert(next_level(both) =~= seq![combine(first[0], second[0])]);
        assert(merkle_root(next_level(both)) == next_level(both)[0]);
    } else {
        assert(next_level(both) =~= next_level(first) + next_level(second));
        lemma_merkle_root_concat(next_level(first), next_level(second));
    }
}

/// The levels up to the top one hold a power of two of nodes each, halving
/// from level to level down to one.
pub proof fn lemma_level_size(leaf_count: nat, level: nat)
    requires
        is_pow2(leaf_count),
        level <= height(leaf_count),
    ensures
        is_pow2(level_size(leaf_count, level)),
        level_size(leaf_count, level) <= leaf_count,
        height(level_size(leaf_count, level)) + level == height(leaf_count),
        level_size(leaf_count, level) == 1 <==> level == height(leaf_count),
    decreases level,
{
    if level > 0 {
        lemma_level_size(leaf_count, (level - 1) as nat);
    }
}

impl TreeView {
    /// In a completed tree every level is built.
    pub proof fn lemma_levels_from(self, level: nat)
        requires
            self.is_complete(),
            level <= height(self.leaf_count),
        ensures
            self.levels_from(level) + level == height(self.leaf_count) + 1,
        decreases height(self.leaf_count) - level,
    {
        lemma_level_size(self.leaf_count, level);
        if level < height(self.leaf_count) {
            self.lemma_levels_from(level + 1);
        } else {
            assert(level_size(self.leaf_count, level + 1) == 0);
            assert(self.levels_from(level + 1) == 0);
        }
    }

    /// The child links of every node of a well-formed tree lie below the
    /// doubled leaf count.
    pub proof fn lemma_links_below(self, index: int)
        requires
            self.wf(),
            0 <= index < self.nodes.len(),
        ensures
            links_below(self.nodes[index], 2 * self.leaf_count as int),
    {
        if index < self.leaf_count {
            assert(self.is_childless(index));
        } else {
            assert(self.links_pair(index - self.leaf_count));
        }
    }

    /// The root of a completed tree is the root over its leaves.
    pub proof fn lemma_root(self)
        requires
            self.is_complete(),
        ensures
            self.root() == merkle_root(self.leaf_hashes()),
    {
        let hashes = self.hashes();
        assert forall|k: int| 0 <= k < self.leaf_count - 1 implies #[trigger] hashes[self.leaf_count
            + k] == combine(hashes[2 * k], hashes[2 * k + 1]) by {
            assert(self.links_pair(k));
        }
        lemma_layout_root(hashes, self.leaf_count);
        assert(hashes.take(self.leaf_count as int) =~= self.leaf_hashes());
    }

    /// Recomposing along the path from any node of a completed tree gives the root.
    pub proof fn lemma_path_recomposes(self, index: int)
        requires
            self.is_complete(),
            0 <= index < self.nodes.len(),
        ensures
            self.path_from(index).len() == self.direction_from(index).len(),
            recompose(self.nodes[index].hash, self.path_from(index), self.direction_from(index))
                == self.root(),
        decreases 2 * self.leaf_count - index,
    {
        if index < 2 * self.leaf_count - 2 {
            let up = self.parent(index);
            let path = self.path_from(index);
            let direction = self.direction_from(index);
            self.lemma_path_recomposes(up);
            assert(self.links_pair(index / 2));
            assert(path.drop_first() =~= self.path_from(up));
            assert(direction.drop_first() =~= self.direction_from(up));
            assert(step(self.nodes[index].hash, path[0], direction[0]) == self.nodes[up].hash);
        }
    }

    /// The path from a node in a level of `size` nodes has `height(size)` steps.
    pub proof fn lemma_path_len(self, index: int, size: nat)
        requires
            is_pow2(size),
            size <= self.leaf_count,
            2 * self.leaf_count - 2 * size <= index < 2 * self.leaf_count - size,
        ensures
            self.path_from(index).len() == height(size),
            self.direction_from(index).len() == height(size),
        decreases size,
    {
        if size > 1 {
            self.lemma_path_len(self.parent(index), size / 2);
        }
    }
}

} // verus!
