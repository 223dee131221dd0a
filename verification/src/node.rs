//! The nodes of the tree.

use vstd::prelude::*;
use crate::model::NodeView;
use crate::utils::copy_bytes;

verus! {

/// One node of the flat array: a digest and the positions of its children.
/// A leaf has no children; an internal node has both.
#[derive(Debug, Clone)]
pub struct Node {
    pub hash: Vec<u8>,
    pub left: Option<usize>,
    pub right: Option<usize>,
}

/// A child link as a mathematical position.
pub open spec fn link_view(link: Option<usize>) -> Option<int> {
    match link {
        Some(index) => Some(index as int),
        None => None,
    }
}

impl View for Node {
    type V = NodeView;

    open spec fn view(&self) -> NodeView {
        NodeView { hash: self.hash@, left: link_view(self.left), right: link_view(self.right) }
    }
}

/// The views of `nodes`, in order.
pub open spec fn nodes_view(nodes: Seq<Node>) -> Seq<NodeView> {
    Seq::new(nodes.len(), |i: int| nodes[i]@)
}

impl Node {
    /// A childless node that carries `hash`.
    pub fn leaf(hash: Vec<u8>) -> (node: Node)
        ensures
            node@ == (NodeView { hash: hash@, left: None, right: None }),
    {
        Node { hash, left: None, right: None }
    }

    /// A copy of this node.
    pub fn duplicate(&self) -> (node: Node)
        ensures
            node@ == self@,
            node.left == self.left,
            node.right == self.right,
    {
        Node { hash: copy_bytes(&self.hash), left: self.left, right: self.right }
    }
}

} // verus!
