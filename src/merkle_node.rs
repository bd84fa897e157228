use vstd::prelude::*;

use crate::error::MerkleTreeError;
use crate::hashing::{combine, combine_digests, hash_leaf, leaf_digest, Digest};

verus! {

/// The mathematical shape of a subtree: a leaf digest, or a digest over two subtrees.
pub enum NodeModel {
    Leaf { digest: Seq<u8> },
    Internal { digest: Seq<u8>, left: Box<NodeModel>, right: Box<NodeModel> },
}

impl NodeModel {
    pub open spec fn digest(self) -> Seq<u8> {
        match self {
            NodeModel::Leaf { digest } => digest,
            NodeModel::Internal { digest, .. } => digest,
        }
    }

    /// Every internal digest is the combination of its children's digests.
    pub open spec fn is_consistent(self) -> bool
        decreases self,
    {
        match self {
            NodeModel::Leaf { .. } => true,
            NodeModel::Internal { digest, left, right } => {
                &&& digest == combine_digests(left.digest(), right.digest())
                &&& left.is_consistent()
                &&& right.is_consistent()
            },
        }
    }

    /// Some node of this subtree, internal or leaf, carries digest `d`.
    pub open spec fn contains_digest(self, d: Seq<u8>) -> bool
        decreases self,
    {
        match self {
            NodeModel::Leaf { digest } => digest == d,
            NodeModel::Internal { digest, left, right } => {
                digest == d || left.contains_digest(d) || right.contains_digest(d)
            },
        }
    }

    /// The leaf digests of this subtree, left to right.
    pub open spec fn leaves(self) -> Seq<Seq<u8>>
        decreases self,
    {
        match self {
            NodeModel::Leaf { digest } => seq![digest],
            NodeModel::Internal { left, right, .. } => left.leaves() + right.leaves(),
        }
    }
}

/// The internal node over `left` and `right`.
pub open spec fn join(left: NodeModel, right: NodeModel) -> NodeModel {
    NodeModel::Internal {
        digest: combine_digests(left.digest(), right.digest()),
        left: Box::new(left),
        right: Box::new(right),
    }
}

/// A vertex of the tree. A leaf has no children and an internal node has both;
/// the digest is the leaf hash of a record or the combination of the children's digests.
#[derive(PartialEq, Eq, Debug)]
pub struct MerkleNode {
    pub hash: Digest,
    pub left: Option<Box<MerkleNode>>,
    pub right: Option<Box<MerkleNode>>,
}

impl MerkleNode {
    /// The model of this node. A node with a single child has no meaning as a subtree
    /// and is seen as a leaf carrying its digest.
    pub open spec fn model(&self) -> NodeModel
        decreases self,
    {
        match (self.left, self.right) {
            (Some(l), Some(r)) => NodeModel::Internal {
                digest: self.hash@,
                left: Box::new(l.model()),
                right: Box::new(r.model()),
            },
            _ => NodeModel::Leaf { digest: self.hash@ },
        }
    }

    /// The digests of every node of this subtree in order: the left child's subtree,
    /// the node, the right child's subtree, each child taken wherever it is present.
    pub open spec fn in_order_digests(&self) -> Seq<Seq<u8>>
        decreases self,
    {
        let before = match self.left {
            Some(l) => l.in_order_digests(),
            None => Seq::empty(),
        };
        let after = match self.right {
            Some(r) => r.in_order_digests(),
            None => Seq::empty(),
        };
        before + seq![self.hash@] + after
    }

    /// The number of nodes of this subtree.
    pub open spec fn size(&self) -> nat
        decreases self,
    {
        1 + match self.left {
            Some(l) => l.size(),
            None => 0,
        } + match self.right {
            Some(r) => r.size(),
            None => 0,
        }
    }

    /// Every node has either no child or two.
    pub open spec fn is_well_shaped(&self) -> bool
        decreases self,
    {
        match (self.left, self.right) {
            (None, None) => true,
            (Some(l), Some(r)) => l.is_well_shaped() && r.is_well_shaped(),
            _ => false,
        }
    }

    /// Creates a leaf node for one record.
    pub fn new_leaf(data: &[u8]) -> (r: Result<Self, MerkleTreeError>)
        ensures
            r is Ok,
            r->Ok_0.model() == (NodeModel::Leaf { digest: leaf_digest(data@) }),
            r->Ok_0.is_well_shaped(),
    {
        let hash = hash_leaf(data);
        Ok(MerkleNode { hash, left: None, right: None })
    }

    /// Creates the internal node that owns `left` and `right`.
    pub fn new_internal(left: MerkleNode, right: MerkleNode) -> (r: Result<Self, MerkleTreeError>)
        ensures
            r is Ok,
            r->Ok_0.hash@ == combine_digests(left.hash@, right.hash@),
            r->Ok_0.left == Some(Box::new(left)),
            r->Ok_0.right == Some(Box::new(right)),
            r->Ok_0.model() == join(left.model(), right.model()),
            r->Ok_0.is_well_shaped() == (left.is_well_shaped() && right.is_well_shaped()),
    {
        let hash = combine(&left.hash, &right.hash);
        Ok(MerkleNode { hash, left: Some(Box::new(left)), right: Some(Box::new(right)) })
    }
}

} // verus!
