use vstd::prelude::*;

use crate::error::MerkleTreeError;
use crate::hashing::Digest;
use crate::merkle_node::MerkleNode;
use crate::merkle_proof::{MerkleProof, ProofStep};
use crate::merkle_tree::MerkleTree;
use crate::serialization::{deserialize, hex_decoded, hex_encoding, hex_valid, lemma_hex_round_trip, serialize};

verus! {

/// Why a digest text cannot be read, if it cannot.
pub open spec fn digest_text_error(s: Seq<char>) -> Option<MerkleTreeError> {
    if !hex_valid(s) {
        Some(MerkleTreeError::InvalidHex)
    } else if hex_decoded(s).len() != 32 {
        Some(MerkleTreeError::InvalidLength)
    } else {
        None
    }
}

/// A node in document form: its digest as hex text and its children, if any.
pub struct NodeDocument {
    pub hash: String,
    pub left: Option<Box<NodeDocument>>,
    pub right: Option<Box<NodeDocument>>,
}

/// A tree in document form. The leaf index is not part of it.
pub struct TreeDocument {
    pub root: NodeDocument,
}

/// A proof step in document form.
pub enum StepDocument {
    Left(String),
    Right(String),
}

/// A proof in document form.
pub struct ProofDocument {
    pub leaf_hash: String,
    pub proof_steps: Vec<StepDocument>,
}

impl NodeDocument {
    /// This document writes `node`: every digest as its hex text, children in place.
    pub open spec fn writes(&self, node: &MerkleNode) -> bool
        decreases node,
    {
        &&& self.hash@ == hex_encoding(node.hash@)
        &&& match (node.left, self.left) {
            (None, None) => true,
            (Some(n), Some(d)) => d.writes(&*n),
            _ => false,
        }
        &&& match (node.right, self.right) {
            (None, None) => true,
            (Some(n), Some(d)) => d.writes(&*n),
            _ => false,
        }
    }

    /// The first unreadable digest text, the node before its left subtree before its right one.
    pub open spec fn first_error(&self) -> Option<MerkleTreeError>
        decreases self,
    {
        match digest_text_error(self.hash@) {
            Some(e) => Some(e),
            None => match self.left {
                Some(l) if l.first_error() is Some => l.first_error(),
                _ => match self.right {
                    Some(r) => r.first_error(),
                    None => None,
                },
            },
        }
    }

    /// `node` is what this document reads as: every digest decoded from its text,
    /// children in place.
    pub open spec fn reads_as(&self, node: &MerkleNode) -> bool
        decreases node,
    {
        &&& node.hash@ == hex_decoded(self.hash@)
        &&& match (node.left, self.left) {
            (None, None) => true,
            (Some(n), Some(d)) => d.reads_as(&*n),
            _ => false,
        }
        &&& match (node.right, self.right) {
            (None, None) => true,
            (Some(n), Some(d)) => d.reads_as(&*n),
            _ => false,
        }
    }
}

impl StepDocument {
    pub open spec fn text(&self) -> Seq<char> {
        match self {
            StepDocument::Left(s) => s@,
            StepDocument::Right(s) => s@,
        }
    }

    /// Same side, and the text is the hex of the step's digest.
    pub open spec fn writes(&self, step: ProofStep) -> bool {
        match (step, self) {
            (ProofStep::Left(d), StepDocument::Left(s)) => s@ == hex_encoding(d@),
            (ProofStep::Right(d), StepDocument::Right(s)) => s@ == hex_encoding(d@),
            _ => false,
        }
    }

    /// Same side, and the step's digest is decoded from the text.
    pub open spec fn reads_as(&self, step: ProofStep) -> bool {
        match (step, self) {
            (ProofStep::Left(d), StepDocument::Left(s)) => d@ == hex_decoded(s@),
            (ProofStep::Right(d), StepDocument::Right(s)) => d@ == hex_decoded(s@),
            _ => false,
        }
    }
}

impl ProofDocument {
    pub open spec fn writes(&self, proof: &MerkleProof) -> bool {
        &&& self.leaf_hash@ == hex_encoding(proof.leaf_hash@)
        &&& self.proof_steps@.len() == proof.proof_steps@.len()
        &&& forall|i: int|
            0 <= i < self.proof_steps@.len() ==> (#[trigger] self.proof_steps@[i]).writes(
                proof.proof_steps@[i],
            )
    }

    /// Every digest text of the document can be read.
    pub open spec fn is_readable(&self) -> bool {
        &&& digest_text_error(self.leaf_hash@) is None
        &&& forall|i: int|
            0 <= i < self.proof_steps@.len() ==> digest_text_error(
                (#[trigger] self.proof_steps@[i]).text(),
            ) is None
    }

    pub open spec fn reads_as(&self, proof: &MerkleProof) -> bool {
        &&& proof.leaf_hash@ == hex_decoded(self.leaf_hash@)
        &&& self.proof_steps@.len() == proof.proof_steps@.len()
        &&& forall|i: int|
            0 <= i < self.proof_steps@.len() ==> (#[trigger] self.proof_steps@[i]).reads_as(
                proof.proof_steps@[i],
            )
    }
}

fn read_digest(s: &String) -> (r: Result<Digest, MerkleTreeError>)
    ensures
        match digest_text_error(s@) {
            Some(e) => r == Err::<Digest, MerkleTreeError>(e),
            None => r is Ok && r->Ok_0@ == hex_decoded(s@),
        },
{
    deserialize(s.as_str())
}

impl MerkleNode {
    /// The document form of this subtree.
    pub fn to_document(&self) -> (r: NodeDocument)
        ensures
            r.writes(self),
        decreases self,
    {
        let left = match &self.left {
            Some(l) => Some(Box::new(l.to_document())),
            None => None,
        };
        let right = match &self.right {
            Some(r) => Some(Box::new(r.to_document())),
            None => None,
        };
        NodeDocument { hash: serialize(&self.hash), left, right }
    }

    /// The subtree that a document describes; fails on the first digest text that
    /// cannot be read. Digests are taken as written, not recomputed.
    pub fn from_document(doc: &NodeDocument) -> (r: Result<MerkleNode, MerkleTreeError>)
        ensures
            match doc.first_error() {
                Some(e) => r == Err::<MerkleNode, MerkleTreeError>(e),
                None => r is Ok && doc.reads_as(&r->Ok_0),
            },
        decreases doc,
    {
        let hash = match read_digest(&doc.hash) {
            Ok(h) => h,
            Err(e) => {
                return Err(e);
            },
        };
        let left = match &doc.left {
            Some(l) => match Self::from_document(l) {
                Ok(n) => Some(Box::new(n)),
                Err(e) => {
                    return Err(e);
                },
            },
            None => None,
        };
        let right = match &doc.right {
            Some(r) => match Self::from_document(r) {
                Ok(n) => Some(Box::new(n)),
                Err(e) => {
                    return Err(e);
                },
            },
            None => None,
        };
        Ok(MerkleNode { hash, left, right })
    }
}

impl MerkleTree {
    /// The document form of the tree: its root, without the leaf index.
    pub fn to_document(&self) -> (r: TreeDocument)
        ensures
            r.root.writes(&self.root),
    {
        TreeDocument { root: self.root.to_document() }
    }

    /// The tree that a document describes, with an empty leaf index.
    pub fn from_document(doc: &TreeDocument) -> (r: Result<MerkleTree, MerkleTreeError>)
        ensures
            match doc.root.first_error() {
                Some(e) => r is Err && r->Err_0 == e,
                None => r is Ok && doc.root.reads_as(&r->Ok_0.root) && r->Ok_0.leaves@.len() == 0,
            },
    {
        match MerkleNode::from_document(&doc.root) {
            Ok(root) => Ok(MerkleTree { root, leaves: Vec::new() }),
            Err(e) => Err(e),
        }
    }
}

impl MerkleProof {
    /// The document form of the proof.
    pub fn to_document(&self) -> (r: ProofDocument)
        ensures
            r.writes(self),
    {
        let mut steps: Vec<StepDocument> = Vec::new();
        let mut i: usize = 0;
        while i < self.proof_steps.len()
            invariant
                i <= self.proof_steps@.len(),
                steps@.len() == i,
                forall|k: int| 0 <= k < i ==> (#[trigger] steps@[k]).writes(self.proof_steps@[k]),
            decreases self.proof_steps@.len() - i,
        {
            let step = match self.proof_steps[i] {
                ProofStep::Left(d) => StepDocument::Left(serialize(&d)),
                ProofStep::Right(d) => StepDocument::Right(serialize(&d)),
            };
            steps.push(step);
            i = i + 1;
        }
        ProofDocument { leaf_hash: serialize(&self.leaf_hash), proof_steps: steps }
    }

    /// The proof that a document describes; fails on the first digest text that cannot
    /// be read, the leaf digest before the steps, the steps in order.
    pub fn from_document(doc: &ProofDocument) -> (r: Result<MerkleProof, MerkleTreeError>)
        ensures
            r is Ok <==> doc.is_readable(),
            r is Ok ==> doc.reads_as(&r->Ok_0),
            digest_text_error(doc.leaf_hash@) matches Some(e) ==> r == Err::<MerkleProof, MerkleTreeError>(e),
            forall|i: int|
                0 <= i < doc.proof_steps@.len() && digest_text_error(doc.leaf_hash@) is None
                    && digest_text_error((#[trigger] doc.proof_steps@[i]).text()) is Some
                    && (forall|k: int| 0 <= k < i ==> digest_text_error((#[trigger] doc.proof_steps@[k]).text()) is None)
                    ==> r == Err::<MerkleProof, MerkleTreeError>(
                    digest_text_error(doc.proof_steps@[i].text())->Some_0,
                ),
    {
        let leaf_hash = match read_digest(&doc.leaf_hash) {
            Ok(h) => h,
            Err(e) => {
                return Err(e);
            },
        };
        let mut steps: Vec<ProofStep> = Vec::new();
        let mut i: usize = 0;
        while i < doc.proof_steps.len()
            invariant
                i <= doc.proof_steps@.len(),
                steps@.len() == i,
                digest_text_error(doc.leaf_hash@) is None,
                forall|k: int| 0 <= k < i ==> digest_text_error((#[trigger] doc.proof_steps@[k]).text()) is None,
                forall|k: int| 0 <= k < i ==> (#[trigger] doc.proof_steps@[k]).reads_as(steps@[k]),
            decreases doc.proof_steps@.len() - i,
        {
            let step = match &doc.proof_steps[i] {
                StepDocument::Left(s) => match read_digest(s) {
                    Ok(d) => ProofStep::Left(d),
                    Err(e) => {
                        return Err(e);
                    },
                },
                StepDocument::Right(s) => match read_digest(s) {
                    Ok(d) => ProofStep::Right(d),
                    Err(e) => {
                        return Err(e);
                    },
                },
            };
            steps.push(step);
            i = i + 1;
        }
        Ok(MerkleProof { leaf_hash, proof_steps: steps })
    }
}

proof fn lemma_digest_text_round_trip(d: Digest, back: Digest)
    ensures
        digest_text_error(hex_encoding(d@)) is None,
        back@ == hex_decoded(hex_encoding(d@)) ==> back == d,
{
    lemma_hex_round_trip(d@);
    if back@ == hex_decoded(hex_encoding(d@)) {
        assert(back =~= d);
    }
}

/// A subtree written to its document form and read back is the same subtree,
/// byte for byte: reading cannot fail, and every digest and child comes back.
pub proof fn lemma_node_document_round_trip(node: &MerkleNode, doc: &NodeDocument, back: &MerkleNode)
    requires
        doc.writes(node),
    ensures
        doc.first_error() is None,
        doc.reads_as(back) ==> *back == *node,
    decreases node,
{
    lemma_digest_text_round_trip(node.hash, back.hash);
    match (node.left, doc.left) {
        (Some(n), Some(d)) => {
            match back.left {
                Some(b) => lemma_node_document_round_trip(&*n, &*d, &*b),
                None => lemma_node_document_round_trip(&*n, &*d, &*n),
            }
        },
        _ => {},
    }
    match (node.right, doc.right) {
        (Some(n), Some(d)) => {
            match back.right {
                Some(b) => lemma_node_document_round_trip(&*n, &*d, &*b),
                None => lemma_node_document_round_trip(&*n, &*d, &*n),
            }
        },
        _ => {},
    }
}

/// A proof written to its document form and read back is the same proof, byte for
/// byte: reading cannot fail, the leaf digest and every step come back.
pub proof fn lemma_proof_document_round_trip(proof: &MerkleProof, doc: &ProofDocument, back: &MerkleProof)
    requires
        doc.writes(proof),
    ensures
        doc.is_readable(),
        doc.reads_as(back) ==> back.leaf_hash == proof.leaf_hash && back.proof_steps@ == proof.proof_steps@,
{
    lemma_digest_text_round_trip(proof.leaf_hash, back.leaf_hash);
    assert forall|i: int| 0 <= i < doc.proof_steps@.len() implies digest_text_error(
        (#[trigger] doc.proof_steps@[i]).text(),
    ) is None by {
        match proof.proof_steps@[i] {
            ProofStep::Left(d) => lemma_hex_round_trip(d@),
            ProofStep::Right(d) => lemma_hex_round_trip(d@),
        }
    }
    if doc.reads_as(back) {
        assert forall|i: int| 0 <= i < proof.proof_steps@.len() implies #[trigger] back.proof_steps@[i] == proof.proof_steps@[i] by {
            assert(doc.proof_steps@[i].writes(proof.proof_steps@[i]));
            assert(doc.proof_steps@[i].reads_as(back.proof_steps@[i]));
            match (proof.proof_steps@[i], back.proof_steps@[i]) {
                (ProofStep::Left(d), ProofStep::Left(b)) => lemma_digest_text_round_trip(d, b),
                (ProofStep::Right(d), ProofStep::Right(b)) => lemma_digest_text_round_trip(d, b),
                _ => {},
            }
        }
        assert(back.proof_steps@ =~= proof.proof_steps@);
    }
}

} // verus!
