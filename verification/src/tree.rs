//! The tree: construction, completion, proofs and growth.

use vstd::prelude::*;
use vstd::arithmetic::div_mod::{lemma_mod_sub_multiples_vanish, lemma_small_mod};
use crate::digest::{combine, combine_hashes, get_sha256};
use crate::error::MerkleError;
use crate::inclusion::Proof;
use crate::laws::law_present_proof_verifies;
use crate::model::{
    fresh_tree, grown_leaves, height, leaf_digests, leaf_nodes, lemma_level_size, level_size,
    level_start, links_below, merkle_root, pad_blocks, rebased, replicate_blocks, sibling,
    NodeView, TreeView,
};
use crate::node::{link_view, nodes_view, Node};
use crate::utils::{
    blocks_view, bytes_equal, copy_bytes, is_pow2, is_pwr_two, lemma_padded_len,
    lemma_padded_len_least, lemma_padded_len_of_pow2, padded_len,
};

verus! {

/// A binary hash tree in one flat array: the leaves, then each level above
/// them, the root last.
#[derive(Debug)]
pub struct MerkleTree {
    nodes: Vec<Node>,
    leaf_offset: usize,
    root_index: usize,
}

impl View for MerkleTree {
    type V = TreeView;

    closed spec fn view(&self) -> TreeView {
        TreeView {
            nodes: nodes_view(self.nodes@),
            leaf_count: (self.leaf_offset + 1) as nat,
            root_index: self.root_index as nat,
        }
    }
}

impl MerkleTree {
    /// The tree keeps the layout invariant, and its completed form fits in memory.
    pub open spec fn wf(&self) -> bool {
        &&& self@.wf()
        &&& 2 * self@.leaf_count <= usize::MAX
    }

    /// Hashes each block into a leaf, after padding the blocks with copies of
    /// the last one up to the next power of two.
    pub fn create_leavs(data: Vec<Vec<u8>>) -> (res: Result<Vec<Node>, MerkleError>)
        requires
            data@.len() <= usize::MAX / 4,
        ensures
            res is Err <==> data@.len() == 0,
            res matches Err(e) ==> e == MerkleError::EmptyInput,
            res matches Ok(leaves) ==> nodes_view(leaves@) == leaf_nodes(
                leaf_digests(pad_blocks(blocks_view(data@), padded_len(data@.len()))),
            ),
    {
        if data.len() == 0 {
            return Err(MerkleError::EmptyInput);
        }
        let ghost blocks = blocks_view(data@);
        let ghost count = padded_len(data@.len());
        let ghost expected = leaf_nodes(leaf_digests(pad_blocks(blocks, count)));
        proof {
            lemma_padded_len(data@.len());
        }
        let mut to_return: Vec<Node> = Vec::new();
        let mut i: usize = 0;
        while i < data.len()
            invariant
                i <= data.len(),
                data@.len() <= count,
                blocks == blocks_view(data@),
                expected == leaf_nodes(leaf_digests(pad_blocks(blocks, count))),
                to_return@.len() == i,
                forall|k: int| 0 <= k < i ==> (#[trigger] to_return@[k])@ == expected[k],
            decreases data.len() - i,
        {
            let hash = get_sha256(&data[i]);
            to_return.push(Node::leaf(hash));
            i += 1;
        }
        let missing = padding_needed(data.len());
        let last = data.len() - 1;
        let mut j: usize = 0;
        while j < missing
            invariant
                j <= missing,
                data@.len() + missing == count,
                last == data@.len() - 1,
                blocks == blocks_view(data@),
                expected == leaf_nodes(leaf_digests(pad_blocks(blocks, count))),
                to_return@.len() == data@.len() + j,
                forall|k: int|
                    0 <= k < data@.len() + j ==> (#[trigger] to_return@[k])@ == expected[k],
            decreases missing - j,
        {
            let hash = get_sha256(&data[last]);
            to_return.push(Node::leaf(hash));
            j += 1;
        }
        assert(nodes_view(to_return@) =~= expected);
        Ok(to_return)
    }

    /// Builds the leaves of a tree over `data`. The levels above them are
    /// built by `complete_tree`.
    pub fn new(data: Vec<Vec<u8>>) -> (res: Result<MerkleTree, MerkleError>)
        requires
            data@.len() <= usize::MAX / 4,
        ensures
            res is Err <==> data@.len() == 0,
            res matches Err(e) ==> e == MerkleError::EmptyInput,
            res matches Ok(tree) ==> {
                &&& tree.wf()
                &&& tree@ == fresh_tree(
                    leaf_digests(pad_blocks(blocks_view(data@), padded_len(data@.len()))),
                )
                &&& tree@.leaf_hashes() == leaf_digests(
                    pad_blocks(blocks_view(data@), padded_len(data@.len())),
                )
            },
    {
        let ghost count = padded_len(data@.len());
        let ghost hashes = leaf_digests(pad_blocks(blocks_view(data@), count));
        proof {
            lemma_padded_len(data@.len());
        }
        match MerkleTree::create_leavs(data) {
            Ok(nodes) => {
                assert(nodes@.len() == nodes_view(nodes@).len());
                let leafs_index: usize = nodes.len() - 1;
                let tree = MerkleTree { nodes, leaf_offset: leafs_index, root_index: 0 };
                proof {
                    assert(tree@ =~= fresh_tree(hashes));
                    assert(tree@.leaf_hashes() =~= hashes);
                    assert forall|i: int| 0 <= i < tree@.leaf_count implies
                        #[trigger] tree@.is_childless(i) by {}
                }
                Ok(tree)
            },
            Err(e) => Err(e),
        }
    }

    /// The digest of the last node: the root, once the tree is completed.
    pub fn get_root(&self) -> (root: Vec<u8>)
        requires
            self.wf(),
        ensures
            root@ == self@.root(),
            self@.is_complete() ==> root@ == merkle_root(self@.leaf_hashes()),
    {
        proof {
            if self@.is_complete() {
                self@.lemma_root();
            }
        }
        copy_bytes(&self.nodes[self.nodes.len() - 1].hash)
    }

    /// Builds every level above the leaves and fixes the root. Nodes that are
    /// already there stay as they are, so a completed tree is left unchanged.
    pub fn complete_tree(&mut self)
        requires
            old(self).wf(),
        ensures
            final(self).wf(),
            final(self)@.is_complete(),
            final(self)@.leaf_count == old(self)@.leaf_count,
            final(self)@.nodes.len() == 2 * final(self)@.leaf_count - 1,
            final(self)@.root_index == final(self)@.nodes.len() - 1,
            final(self)@.nodes.take(old(self)@.nodes.len() as int) == old(self)@.nodes,
            final(self)@.leaf_hashes() == old(self)@.leaf_hashes(),
            old(self)@.is_complete() ==> final(self)@ == old(self)@,
    {
        let ghost before = self@;
        let leaf_count: usize = self.leaf_offset + 1;
        let mut i: usize = 2 * (self.nodes.len() - leaf_count);
        while i < self.nodes.len() - 1
            invariant
                self.wf(),
                before.wf(),
                leaf_count == self@.leaf_count,
                self@.leaf_count == before.leaf_count,
                before.nodes.len() <= self@.nodes.len(),
                self@.nodes.take(before.nodes.len() as int) == before.nodes,
                self@.root_index == before.root_index,
                i == 2 * (self@.nodes.len() - leaf_count),
                self.nodes@.len() == self@.nodes.len(),
            decreases 2 * leaf_count - self.nodes@.len(),
        {
            let ghost prior = self@;
            let hash = combine_hashes(&self.nodes[i].hash, &self.nodes[i + 1].hash);
            let new_node = Node { hash, left: Some(i), right: Some(i + 1) };
            self.nodes.push(new_node);
            proof {
                let now = self@;
                let k = prior.nodes.len() - leaf_count;
                assert(now.nodes.take(prior.nodes.len() as int) =~= prior.nodes);
                assert(now.nodes.take(before.nodes.len() as int) =~= before.nodes);
                assert forall|j: int| 0 <= j < now.leaf_count implies
                    #[trigger] now.is_childless(j) by {
                    assert(prior.is_childless(j));
                }
                assert forall|j: int| 0 <= j && now.leaf_count + j < now.nodes.len() implies
                    #[trigger] now.links_pair(j) by {
                    if j < k {
                        assert(prior.links_pair(j));
                    }
                }
            }
            i += 2;
        }
        let ghost built = self@;
        self.root_index = self.nodes.len() - 1;
        proof {
            let now = self@;
            assert(now.nodes == built.nodes);
            assert forall|j: int| 0 <= j < now.leaf_count implies
                #[trigger] now.is_childless(j) by {
                assert(built.is_childless(j));
            }
            assert forall|j: int| 0 <= j && now.leaf_count + j < now.nodes.len() implies
                #[trigger] now.links_pair(j) by {
                assert(built.links_pair(j));
            }
            assert forall|j: int| 0 <= j < now.leaf_count implies now.leaf_hashes()[j]
                == before.leaf_hashes()[j] by {
                assert(now.nodes.take(before.nodes.len() as int)[j] == before.nodes[j]);
            }
            assert(now.leaf_hashes() =~= before.leaf_hashes());
            if before.is_complete() {
                assert(self@.nodes =~= before.nodes);
                assert(self@ =~= before);
            }
        }
    }

    /// Whether `index` is the position of a leaf.
    pub fn is_leaf(&self, index: usize) -> (leaf: bool)
        ensures
            leaf == (index < self@.leaf_count),
    {
        index <= self.leaf_offset
    }

    /// Whether every level is built and the root is fixed.
    pub fn is_complete(&self) -> (complete: bool)
        requires
            self.wf(),
        ensures
            complete == self@.is_complete(),
    {
        self.nodes.len() == 2 * (self.leaf_offset + 1) - 1 && self.root_index == self.nodes.len()
            - 1
    }

    /// The position of the first leaf that carries the digest `target`.
    pub fn find_leaf(&self, target: &Vec<u8>) -> (found: Option<usize>)
        requires
            self.wf(),
        ensures
            link_view(found) == self@.find_leaf(target@),
    {
        let ghost hashes = self@.leaf_hashes();
        let mut i: usize = 0;
        while i < self.leaf_offset + 1
            invariant
                self.wf(),
                hashes == self@.leaf_hashes(),
                i <= self.leaf_offset + 1,
                forall|k: int| 0 <= k < i ==> hashes[k] != target@,
            decreases self.leaf_offset + 1 - i,
        {
            if bytes_equal(&self.nodes[i].hash, target) {
                proof {
                    hashes.index_of_first_ensures(target@);
                    assert(hashes[i as int] == target@);
                    assert(hashes.contains(target@));
                }
                return Some(i);
            }
            i += 1;
        }
        proof {
            hashes.index_of_first_ensures(target@);
        }
        None
    }

    /// Whether some leaf carries the digest of `candidate`. A block that was
    /// duplicated as padding counts once.
    pub fn contains_element(&self, candidate: &Vec<u8>) -> (present: bool)
        requires
            self.wf(),
        ensures
            present == self@.contains(candidate@),
    {
        let target = get_sha256(candidate);
        proof {
            self@.leaf_hashes().index_of_first_ensures(target@);
        }
        self.find_leaf(&target).is_some()
    }

    /// The proof for `candidate`: the siblings on the way from the first leaf
    /// that carries its digest up to the root. Where no leaf carries it, the
    /// empty proof.
    pub fn get_proof(&self, candidate: Vec<u8>) -> (proof: Proof)
        requires
            self.wf(),
            self@.is_complete(),
        ensures
            proof@ == self@.proof_of(candidate@),
            proof@.is_empty() <==> !self@.contains(candidate@),
            self@.contains(candidate@) ==> {
                &&& proof@.path->0.len() == height(self@.leaf_count)
                &&& proof@.direction->0.len() == height(self@.leaf_count)
                &&& proof@.verifies(candidate@, self@.root())
            },
    {
        let target = get_sha256(&candidate);
        proof {
            self@.leaf_hashes().index_of_first_ensures(target@);
            if self@.contains(candidate@) {
                law_present_proof_verifies(self@, candidate@);
            }
        }
        match self.find_leaf(&target) {
            Some(i) => self.get_proof_from_index(i),
            None => Proof::new(None, None),
        }
    }

    /// The proof for the leaf at `index`, with one step for each level above
    /// the leaves. Where `index` is not the position of a leaf, the empty proof.
    pub fn get_proof_from_index(&self, index: usize) -> (proof: Proof)
        requires
            self.wf(),
            self@.is_complete(),
        ensures
            proof@ == self@.proof_at(index as int),
            index < self@.leaf_count ==> {
                &&& proof@.path->0.len() == height(self@.leaf_count)
                &&& proof@.direction->0.len() == height(self@.leaf_count)
            },
    {
        if index > self.leaf_offset {
            return Proof::new(None, None);
        }
        let ghost tree = self@;
        let mut path: Vec<Vec<u8>> = Vec::new();
        let mut direction: Vec<bool> = Vec::new();
        let mut current_index: usize = index;
        let mut level_size: usize = self.leaf_offset + 1;
        let mut node_accumulator: usize = 0;
        proof {
            tree.lemma_path_len(index as int, tree.leaf_count);
            assert(blocks_view(path@) + tree.path_from(index as int) =~= tree.path_from(
                index as int,
            ));
            assert(direction@ + tree.direction_from(index as int) =~= tree.direction_from(
                index as int,
            ));
        }
        while current_index < self.root_index
            invariant
                self.wf(),
                tree == self@,
                tree.is_complete(),
                is_pow2(level_size as nat),
                node_accumulator + 2 * level_size == 2 * tree.leaf_count,
                node_accumulator <= current_index < node_accumulator + level_size,
                tree.path_from(index as int) == blocks_view(path@) + tree.path_from(
                    current_index as int,
                ),
                tree.direction_from(index as int) == direction@ + tree.direction_from(
                    current_index as int,
                ),
            decreases level_size,
        {
            let ghost path_before = blocks_view(path@);
            let ghost direction_before = direction@;
            let ghost at = current_index as int;
            if current_index % 2 == 0 {
                direction.push(false);
                path.push(copy_bytes(&self.nodes[current_index + 1].hash));
            } else {
                direction.push(true);
                path.push(copy_bytes(&self.nodes[current_index - 1].hash));
            }
            let parent_index = node_accumulator + level_size + (current_index - node_accumulator)
                / 2;
            node_accumulator += level_size;
            level_size /= 2;
            current_index = parent_index;
            proof {
                let entry = tree.nodes[sibling(at)].hash;
                assert(parent_index == tree.parent(at));
                assert(blocks_view(path@) =~= path_before.push(entry));
                assert(direction@ =~= direction_before.push(at % 2 != 0));
                assert(blocks_view(path@) + tree.path_from(parent_index as int) =~= path_before
                    + tree.path_from(at));
                assert(direction@ + tree.direction_from(parent_index as int) =~= direction_before
                    + tree.direction_from(at));
            }
        }
        proof {
            assert(blocks_view(path@) + tree.path_from(current_index as int) =~= blocks_view(
                path@,
            ));
            assert(direction@ + tree.direction_from(current_index as int) =~= direction@);
        }
        Proof::new(Some(path), Some(direction))
    }

    /// The nodes level by level, from the leaves upwards; only levels that
    /// are entirely built are given.
    pub fn get_iterable_level(&self) -> (levels: Vec<Vec<Node>>)
        requires
            self.wf(),
        ensures
            levels@.len() == self@.level_count(),
            forall|l: int|
                0 <= l < levels@.len() ==> nodes_view((#[trigger] levels@[l])@) == self@.level(
                    l as nat,
                ),
            self@.is_complete() ==> levels@.len() == height(self@.leaf_count) + 1,
    {
        let ghost tree = self@;
        let mut levels: Vec<Vec<Node>> = Vec::new();
        let mut start: usize = 0;
        let mut size: usize = self.leaf_offset + 1;
        proof {
            if tree.is_complete() {
                tree.lemma_levels_from(0);
            }
        }
        while size >= 1 && start + size <= self.nodes.len()
            invariant
                self.wf(),
                tree == self@,
                size == level_size(tree.leaf_count, levels@.len()),
                size >= 1 ==> is_pow2(size as nat) && start + 2 * size == 2 * tree.leaf_count,
                levels@.len() + tree.levels_from(levels@.len()) == tree.level_count(),
                forall|l: int|
                    0 <= l < levels@.len() ==> nodes_view((#[trigger] levels@[l])@) == tree.level(
                        l as nat,
                    ),
            decreases size,
        {
            let ghost done = levels@;
            let mut level: Vec<Node> = Vec::new();
            let mut i: usize = 0;
            while i < size
                invariant
                    self.wf(),
                    tree == self@,
                    i <= size,
                    start + size <= self.nodes@.len(),
                    level@.len() == i,
                    forall|k: int| 0 <= k < i ==> (#[trigger] level@[k])@ == tree.nodes[start + k],
                decreases size - i,
            {
                level.push(self.nodes[start + i].duplicate());
                i += 1;
            }
            proof {
                assert(nodes_view(level@) =~= tree.level(done.len()));
            }
            levels.push(level);
            start += size;
            size /= 2;
            proof {
                assert forall|l: int| 0 <= l < levels@.len() implies nodes_view(
                    (#[trigger] levels@[l])@,
                ) == tree.level(l as nat) by {
                    if l < done.len() {
                        assert(levels@[l] == done[l]);
                    }
                }
            }
        }
        levels
    }

    /// Grows a completed tree by `data`. The new blocks are padded to a power
    /// of two and repeated until they are as many as the leaves of this tree;
    /// a tree of their own is built over them and merged in. The root is then
    /// the root over the old leaves followed by the new ones.
    pub fn add_data(&mut self, data: Vec<Vec<u8>>) -> (res: Result<(), MerkleError>)
        requires
            old(self).wf(),
            old(self)@.is_complete(),
            4 * old(self)@.leaf_count <= usize::MAX,
        ensures
            res is Err <==> data@.len() == 0 || padded_len(data@.len()) > old(self)@.leaf_count,
            res matches Err(e) ==> {
                &&& e == if data@.len() == 0 {
                    MerkleError::EmptyInput
                } else {
                    MerkleError::BatchTooLarge
                }
                &&& final(self)@ == old(self)@
                &&& final(self).wf()
            },
            res is Ok ==> {
                &&& final(self).wf()
                &&& final(self)@.is_complete()
                &&& final(self)@.leaf_count == 2 * old(self)@.leaf_count
                &&& final(self)@.leaf_hashes() == old(self)@.leaf_hashes() + grown_leaves(
                    blocks_view(data@),
                    old(self)@.leaf_count,
                )
                &&& final(self)@.root() == combine(
                    old(self)@.root(),
                    merkle_root(grown_leaves(blocks_view(data@), old(self)@.leaf_count)),
                )
                &&& final(self)@.root() == merkle_root(final(self)@.leaf_hashes())
            },
    {
        let leaf_count: usize = self.leaf_offset + 1;
        if data.len() == 0 {
            return Err(MerkleError::EmptyInput);
        }
        proof {
            lemma_padded_len(data@.len());
        }
        if data.len() > leaf_count {
            return Err(MerkleError::BatchTooLarge);
        }
        let missing = padding_needed(data.len());
        if data.len() + missing > leaf_count {
            return Err(MerkleError::BatchTooLarge);
        }
        let new_data = replicate_batch(&data, leaf_count);
        let ghost batch = blocks_view(new_data@);
        proof {
            lemma_padded_len_of_pow2(leaf_count as nat);
            assert(pad_blocks(batch, leaf_count as nat) =~= batch);
        }
        match MerkleTree::new(new_data) {
            Ok(mut new_tree) => {
                new_tree.complete_tree();
                proof {
                    new_tree@.lemma_root();
                }
                self.merge_trees(new_tree);
                Ok(())
            },
            Err(e) => Err(e),
        }
    }

    /// Merges a completed tree of the same size into this one. Level by
    /// level, the nodes of `tree` are placed after those of this tree, and
    /// every child link is moved up by the number of nodes placed before its
    /// target. A new root above the two old roots ends the array.
    pub fn merge_trees(&mut self, tree: MerkleTree)
        requires
            old(self).wf(),
            old(self)@.is_complete(),
            tree.wf(),
            tree@.is_complete(),
            tree@.leaf_count == old(self)@.leaf_count,
            4 * old(self)@.leaf_count <= usize::MAX,
        ensures
            final(self).wf(),
            final(self)@.is_complete(),
            final(self)@.leaf_count == 2 * old(self)@.leaf_count,
            final(self)@.leaf_hashes() == old(self)@.leaf_hashes() + tree@.leaf_hashes(),
            final(self)@.root() == combine(old(self)@.root(), tree@.root()),
            final(self)@.root() == merkle_root(final(self)@.leaf_hashes()),
    {
        let ghost own = self@;
        let ghost other = tree@;
        let ghost n = own.leaf_count;
        let tree_levels = tree.get_iterable_level();
        let mut merged: Vec<Node> = Vec::new();
        let mut self_counter: usize = 0;
        let mut below: usize = 0;
        let mut j: usize = 0;
        while j < tree_levels.len()
            invariant
                self.wf(),
                own == self@,
                own.is_complete(),
                other.is_complete(),
                n == own.leaf_count,
                n == other.leaf_count,
                4 * n <= usize::MAX,
                tree_levels@.len() == height(n) + 1,
                forall|l: int|
                    0 <= l < tree_levels@.len() ==> nodes_view((#[trigger] tree_levels@[l])@)
                        == other.level(l as nat),
                j <= tree_levels@.len(),
                j < tree_levels@.len() ==> self_counter == level_start(n, j as nat),
                j == tree_levels@.len() ==> self_counter == 2 * n - 1,
                merged@.len() == 2 * self_counter,
                below <= self_counter,
                j >= 1 ==> below + 2 * (self_counter - below) == 2 * n && below < self_counter,
                j >= 1 ==> level_placed(
                    nodes_view(merged@),
                    own.nodes,
                    other.nodes,
                    below as int,
                    self_counter - below,
                ),
                j >= 1 ==> level_placed(nodes_view(merged@), own.nodes, other.nodes, 0, n as int),
                (TreeView {
                    nodes: nodes_view(merged@),
                    leaf_count: 2 * n,
                    root_index: 0,
                }).linked(),
            decreases tree_levels@.len() - j,
        {
            let ghost m0 = nodes_view(merged@);
            let ghost s = self_counter as int;
            let ghost prev = self_counter - below;
            let size = tree_levels[j].len();
            proof {
                lemma_level_size(n, j as nat);
                assert(nodes_view(tree_levels@[j as int]@) == other.level(j as nat));
                assert(size == level_size(n, j as nat));
                assert forall|i: int| s <= i < s + size implies links_below(
                    (#[trigger] self.nodes@[i])@,
                    usize::MAX - below,
                ) by {
                    own.lemma_links_below(i);
                }
                assert forall|i: int| 0 <= i < size implies links_below(
                    (#[trigger] tree_levels@[j as int]@[i])@,
                    usize::MAX - self_counter,
                ) by {
                    other.lemma_links_below(s + i);
                    assert(nodes_view(tree_levels@[j as int]@)[i] == other.level(j as nat)[i]);
                }
            }
            append_rebased(&mut merged, &self.nodes, self_counter, size, below);
            let ghost m1 = nodes_view(merged@);
            append_rebased(&mut merged, &tree_levels[j], 0, size, self_counter);
            proof {
                let m2 = nodes_view(merged@);
                let z = size as int;
                let partial = TreeView { nodes: m2, leaf_count: 2 * n, root_index: 0 };
                let before = TreeView { nodes: m0, leaf_count: 2 * n, root_index: 0 };
                assert forall|p: int| 0 <= p < 2 * s implies #[trigger] m2[p] == m0[p] by {
                    assert(m1[p] == m0[p]);
                }
                assert forall|i: int| 0 <= i < z implies #[trigger] copied(
                    m2,
                    2 * s,
                    own.nodes,
                    s,
                    below as int,
                    i,
                ) by {
                    assert(m1[2 * s + i] == rebased(own.nodes[s + i], below as int));
                }
                assert forall|i: int| 0 <= i < z implies #[trigger] copied(
                    m2,
                    2 * s + z,
                    other.nodes,
                    s,
                    s,
                    i,
                ) by {
                    assert(nodes_view(tree_levels@[j as int]@)[i] == other.level(j as nat)[i]);
                }
                assert forall|i: int| 0 <= i < z implies #[trigger] placed(
                    m2,
                    own.nodes,
                    other.nodes,
                    s,
                    z,
                    i,
                ) by {
                    assert(copied(m2, 2 * s, own.nodes, s, below as int, i));
                    assert(copied(m2, 2 * s + z, other.nodes, s, s, i));
                }
                if j >= 1 {
                    assert forall|i: int| 0 <= i < n implies #[trigger] placed(
                        m2,
                        own.nodes,
                        other.nodes,
                        0,
                        n as int,
                        i,
                    ) by {
                        assert(placed(m0, own.nodes, other.nodes, 0, n as int, i));
                    }
                }
                assert forall|i: int|
                    0 <= i < partial.leaf_count && i < partial.nodes.len() implies
                    #[trigger] partial.is_childless(i) by {
                    if i < 2 * s {
                        assert(before.is_childless(i));
                    } else if i < n {
                        assert(own.is_childless(i));
                        assert(copied(m2, 2 * s, own.nodes, s, below as int, i));
                    } else {
                        assert(other.is_childless(i - n));
                        assert(copied(m2, 2 * s + z, other.nodes, s, s, i - n));
                    }
                }
                assert forall|k: int|
                    0 <= k && partial.leaf_count + k < partial.nodes.len() implies
                    #[trigger] partial.links_pair(k) by {
                    let q = 2 * n + k;
                    if q < 2 * s {
                        assert(before.links_pair(k));
                    } else if q < 2 * s + z {
                        let i = q - 2 * s;
                        assert(copied(m2, 2 * s, own.nodes, s, below as int, i));
                        assert(own.links_pair(s + i - n));
                        assert(placed(m0, own.nodes, other.nodes, below as int, prev, 2 * i));
                        assert(placed(m0, own.nodes, other.nodes, below as int, prev, 2 * i + 1));
                    } else {
                        let i = q - 2 * s - z;
                        assert(copied(m2, 2 * s + z, other.nodes, s, s, i));
                        assert(other.links_pair(s + i - n));
                        assert(placed(m0, own.nodes, other.nodes, below as int, prev, 2 * i));
                        assert(placed(m0, own.nodes, other.nodes, below as int, prev, 2 * i + 1));
                    }
                }
                if j + 1 < tree_levels@.len() {
                    lemma_level_size(n, (j + 1) as nat);
                }
            }
            below = self_counter;
            self_counter += size;
            j += 1;
        }
        let last = merged.len() - 1;
        let hash = combine_hashes(&merged[last - 1].hash, &merged[last].hash);
        let ghost m0 = nodes_view(merged@);
        merged.push(Node { hash, left: Some(last - 1), right: Some(last) });
        self.leaf_offset = self.leaf_offset + tree.leaf_offset + 1;
        self.nodes = merged;
        self.root_index = self.nodes.len() - 1;
        proof {
            let now = self@;
            let before = TreeView { nodes: m0, leaf_count: 2 * n, root_index: 0 };
            assert(is_pow2(2 * n)) by {
                assert((2 * n) / 2 == n);
            }
            assert forall|i: int| 0 <= i < now.leaf_count && i < now.nodes.len() implies
                #[trigger] now.is_childless(i) by {
                assert(before.is_childless(i));
            }
            assert forall|k: int| 0 <= k && now.leaf_count + k < now.nodes.len() implies
                #[trigger] now.links_pair(k) by {
                if 2 * n + k < m0.len() {
                    assert(before.links_pair(k));
                }
            }
            assert(now.leaf_hashes() =~= own.leaf_hashes() + other.leaf_hashes()) by {
                assert forall|i: int| 0 <= i < 2 * n implies now.leaf_hashes()[i] == (
                own.leaf_hashes() + other.leaf_hashes())[i] by {
                    if i < n {
                        assert(placed(m0, own.nodes, other.nodes, 0, n as int, i));
                    } else {
                        assert(placed(m0, own.nodes, other.nodes, 0, n as int, i - n));
                    }
                }
            }
            assert(placed(m0, own.nodes, other.nodes, below as int, 1, 0));
            now.lemma_root();
        }
    }

    /// Copies of all nodes, in array order.
    pub fn nodes(&self) -> (nodes: Vec<Node>)
        ensures
            nodes_view(nodes@) == self@.nodes,
    {
        let mut to_return: Vec<Node> = Vec::new();
        let mut i: usize = 0;
        while i < self.nodes.len()
            invariant
                i <= self.nodes@.len(),
                to_return@.len() == i,
                forall|k: int| 0 <= k < i ==> (#[trigger] to_return@[k])@ == self@.nodes[k],
            decreases self.nodes@.len() - i,
        {
            to_return.push(self.nodes[i].duplicate());
            i += 1;
        }
        assert(nodes_view(to_return@) =~= self@.nodes);
        to_return
    }

    /// The number of leaves.
    pub fn leaf_count(&self) -> (count: usize)
        requires
            self.wf(),
        ensures
            count == self@.leaf_count,
    {
        self.leaf_offset + 1
    }

    /// The position of the root; it is the root only once the tree is completed.
    pub fn root_index(&self) -> (index: usize)
        ensures
            index == self@.root_index,
    {
        self.root_index
    }

    /// Copies of the leaves, in order.
    pub fn get_leafs(&self) -> (leafs: Vec<Node>)
        requires
            self.wf(),
        ensures
            nodes_view(leafs@) == self@.nodes.take(self@.leaf_count as int),
    {
        let mut to_return: Vec<Node> = Vec::new();
        let mut i: usize = 0;
        while i < self.leaf_offset + 1
            invariant
                self.wf(),
                i <= self.leaf_offset + 1,
                to_return@.len() == i,
                forall|k: int| 0 <= k < i ==> (#[trigger] to_return@[k])@ == self@.nodes[k],
            decreases self.leaf_offset + 1 - i,
        {
            to_return.push(self.nodes[i].duplicate());
            i += 1;
        }
        assert(nodes_view(to_return@) =~= self@.nodes.take(self@.leaf_count as int));
        to_return
    }
}

/// The node at offset `i` of the level that starts at `start` stands in
/// `merged` where merging puts it: the levels of `own` and `other` alternate,
/// so the level starts at `2 * start`, with the nodes of `own` first.
spec fn placed(
    merged: Seq<NodeView>,
    own: Seq<NodeView>,
    other: Seq<NodeView>,
    start: int,
    size: int,
    i: int,
) -> bool {
    &&& merged[2 * start + i].hash == own[start + i].hash
    &&& merged[2 * start + size + i].hash == other[start + i].hash
}

/// The node at `at + i` of `merged` is the node at `from + i` of `source`,
/// with its child links moved up by `shift`.
spec fn copied(
    merged: Seq<NodeView>,
    at: int,
    source: Seq<NodeView>,
    from: int,
    shift: int,
    i: int,
) -> bool {
    merged[at + i] == rebased(source[from + i], shift)
}

/// The whole level of `size` nodes that starts at `start` is placed.
spec fn level_placed(
    merged: Seq<NodeView>,
    own: Seq<NodeView>,
    other: Seq<NodeView>,
    start: int,
    size: int,
) -> bool {
    forall|i: int| 0 <= i < size ==> #[trigger] placed(merged, own, other, start, size, i)
}

/// How many copies of the last block bring `count` blocks to a power of two.
fn padding_needed(count: usize) -> (missing: usize)
    requires
        1 <= count <= usize::MAX / 4,
    ensures
        count + missing == padded_len(count as nat),
{
    proof {
        lemma_padded_len(count as nat);
    }
    let mut missing: usize = 0;
    while !is_pwr_two(count + missing)
        invariant
            count + missing <= padded_len(count as nat),
            padded_len(count as nat) < 2 * count,
            count <= usize::MAX / 4,
            is_pow2(padded_len(count as nat)),
        decreases padded_len(count as nat) - count - missing,
    {
        missing += 1;
    }
    proof {
        lemma_padded_len_least(count as nat, (count + missing) as nat);
    }
    missing
}

/// Copies of `data`, padded to a power of two with copies of the last block
/// and then repeated up to `leaf_count` blocks.
fn replicate_batch(data: &Vec<Vec<u8>>, leaf_count: usize) -> (batch: Vec<Vec<u8>>)
    requires
        1 <= data@.len() <= usize::MAX / 4,
        padded_len(data@.len()) <= leaf_count,
    ensures
        blocks_view(batch@) == replicate_blocks(
            pad_blocks(blocks_view(data@), padded_len(data@.len())),
            leaf_count as nat,
        ),
{
    let ghost padded = pad_blocks(blocks_view(data@), padded_len(data@.len()));
    let missing = padding_needed(data.len());
    let period = data.len() + missing;
    let last = data.len() - 1;
    let mut batch: Vec<Vec<u8>> = Vec::new();
    let mut i: usize = 0;
    while i < period
        invariant
            i <= period,
            period == padded.len(),
            period == data@.len() + missing,
            last == data@.len() - 1,
            padded == pad_blocks(blocks_view(data@), padded_len(data@.len())),
            batch@.len() == i,
            forall|k: int| 0 <= k < i ==> (#[trigger] batch@[k])@ == padded[k],
        decreases period - i,
    {
        if i < data.len() {
            batch.push(copy_bytes(&data[i]));
        } else {
            batch.push(copy_bytes(&data[last]));
        }
        i += 1;
    }
    proof {
        assert forall|k: int| 0 <= k < period implies (#[trigger] batch@[k])@ == padded[k % (
        period as int)] by {
            lemma_small_mod(k as nat, period as nat);
        }
    }
    while batch.len() < leaf_count
        invariant
            1 <= period <= batch@.len(),
            batch@.len() <= leaf_count,
            period == padded.len(),
            forall|k: int|
                0 <= k < batch@.len() ==> (#[trigger] batch@[k])@ == padded[k % (period as int)],
        decreases leaf_count - batch@.len(),
    {
        let ghost prior = batch@;
        let source = batch.len() - period;
        let block = copy_bytes(&batch[source]);
        batch.push(block);
        proof {
            lemma_mod_sub_multiples_vanish(prior.len() as int, period as int);
            assert forall|k: int| 0 <= k < batch@.len() implies (#[trigger] batch@[k])@ == padded[k
                % (period as int)] by {
                if k < prior.len() {
                    assert(batch@[k] == prior[k]);
                }
            }
        }
    }
    assert(blocks_view(batch@) =~= replicate_blocks(padded, leaf_count as nat));
    batch
}

/// Appends copies of `source[from..from + count]` to `merged`, with every
/// child link moved up by `shift`.
fn append_rebased(
    merged: &mut Vec<Node>,
    source: &Vec<Node>,
    from: usize,
    count: usize,
    shift: usize,
)
    requires
        from + count <= source@.len(),
        forall|i: int|
            from <= i < from + count ==> links_below(
                (#[trigger] source@[i])@,
                usize::MAX - shift,
            ),
    ensures
        final(merged)@.len() == old(merged)@.len() + count,
        forall|i: int| 0 <= i < old(merged)@.len() ==> final(merged)@[i] == old(merged)@[i],
        forall|i: int|
            0 <= i < count ==> (#[trigger] final(merged)@[old(merged)@.len() + i])@ == rebased(
                source@[from + i]@,
                shift as int,
            ),
{
    let ghost before = merged@;
    let available = source.len();
    let mut i: usize = 0;
    while i < count
        invariant
            i <= count,
            from + count <= available,
            available == source@.len(),
            forall|k: int|
                from <= k < from + count ==> links_below(
                    (#[trigger] source@[k])@,
                    usize::MAX - shift,
                ),
            merged@.len() == before.len() + i,
            forall|k: int| 0 <= k < before.len() ==> merged@[k] == before[k],
            forall|k: int|
                0 <= k < i ==> (#[trigger] merged@[before.len() + k])@ == rebased(
                    source@[from + k]@,
                    shift as int,
                ),
        decreases count - i,
    {
        let node = &source[from + i];
        assert(links_below(source@[from + i]@, usize::MAX - shift));
        let left = match node.left {
            Some(index) => Some(index + shift),
            None => None,
        };
        let right = match node.right {
            Some(index) => Some(index + shift),
            None => None,
        };
        let ghost prior = merged@;
        merged.push(Node { hash: copy_bytes(&node.hash), left, right });
        proof {
            assert forall|k: int| 0 <= k < i + 1 implies (#[trigger] merged@[before.len() + k])@
                == rebased(source@[from + k]@, shift as int) by {
                if k < i {
                    assert(merged@[before.len() + k] == prior[before.len() + k]);
                }
            }
        }
        i += 1;
    }
}

} // verus!
