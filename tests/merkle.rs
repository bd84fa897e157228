use merkle_tree::documents::{NodeDocument, ProofDocument, StepDocument};
use merkle_tree::hashing::{combine, hash_leaf};
use merkle_tree::serialization::{deserialize, serialize};
use merkle_tree::{Digest, MerkleNode, MerkleProof, MerkleTree, MerkleTreeError, ProofStep};

fn records(n: u8) -> Vec<Vec<u8>> {
    (0..n).map(|i| vec![i; 32]).collect()
}

fn flip(d: &Digest, byte: usize, bit: u8) -> Digest {
    let mut out = *d;
    out[byte] ^= 1 << bit;
    out
}

#[test]
fn empty_input_is_rejected() {
    let data: Vec<Vec<u8>> = Vec::new();
    assert!(matches!(MerkleTree::new(&data), Err(MerkleTreeError::EmptyData)));
}

#[test]
fn keccak_of_empty_record() {
    let d = hash_leaf(&[]);
    assert_eq!(
        serialize(&d),
        "c5d2460186f7233c927e7db2dcc703c0e500b653ca82273b7bfad8045d85a470"
    );
}

#[test]
fn combine_depends_on_order() {
    let a = hash_leaf(b"a");
    let b = hash_leaf(b"b");
    assert_ne!(combine(&a, &b), combine(&b, &a));
    assert_ne!(combine(&a, &b), a);
    let mut joined = a.to_vec();
    joined.extend_from_slice(&b);
    assert_eq!(combine(&a, &b), hash_leaf(&joined));
}

#[test]
fn single_record_tree() {
    let data = vec![b"only".to_vec()];
    let tree = MerkleTree::new(&data).unwrap();
    assert_eq!(*tree.root_hash(), hash_leaf(b"only"));
    assert!(tree.root.left.is_none() && tree.root.right.is_none());
    let proof = tree.generate_proof(b"only").unwrap();
    assert!(proof.proof_steps.is_empty());
    assert_eq!(proof.leaf_hash, hash_leaf(b"only"));
    assert!(proof.verify(tree.root_hash()).unwrap());
}

#[test]
fn three_records_promote_the_last() {
    let data = vec![b"A".to_vec(), b"B".to_vec(), b"C".to_vec()];
    let tree = MerkleTree::new(&data).unwrap();
    let (la, lb, lc) = (hash_leaf(b"A"), hash_leaf(b"B"), hash_leaf(b"C"));
    let parent = combine(&la, &lb);
    assert_eq!(*tree.root_hash(), combine(&parent, &lc));
    let right = tree.root.right.as_ref().unwrap();
    assert_eq!(right.hash, lc);
    assert!(right.left.is_none() && right.right.is_none());
    let proof = tree.generate_proof(b"C").unwrap();
    assert_eq!(proof.proof_steps, vec![ProofStep::Left(parent)]);
    let proof_a = tree.generate_proof(b"A").unwrap();
    assert_eq!(proof_a.proof_steps, vec![ProofStep::Right(lb), ProofStep::Right(lc)]);
    assert_eq!(
        tree.traverse_in_order(),
        vec![la, parent, lb, *tree.root_hash(), lc]
    );
}

#[test]
fn every_member_proof_verifies() {
    for n in 1..=9u8 {
        let data = records(n);
        let tree = MerkleTree::new(&data).unwrap();
        for r in &data {
            let proof = tree.generate_proof(r).unwrap();
            assert!(proof.verify(tree.root_hash()).unwrap());
        }
    }
}

#[test]
fn proof_fails_against_another_root() {
    let data = records(5);
    let tree = MerkleTree::new(&data).unwrap();
    let other = MerkleTree::new(&records(4)).unwrap();
    let proof = tree.generate_proof(&data[2]).unwrap();
    assert!(!proof.verify(other.root_hash()).unwrap());
}

#[test]
fn built_tree_passes_integrity_check() {
    for n in 1..=9u8 {
        let tree = MerkleTree::new(&records(n)).unwrap();
        assert!(tree.verify());
    }
}

#[test]
fn tampered_internal_digest_fails_integrity_check() {
    let mut tree = MerkleTree::new(&records(4)).unwrap();
    let left = tree.root.left.as_mut().unwrap();
    left.hash = flip(&left.hash, 0, 0);
    assert!(!tree.verify());
}

#[test]
fn node_with_one_child_fails_integrity_check() {
    let leaf = MerkleNode::new_leaf(b"x").unwrap();
    let node = MerkleNode { hash: leaf.hash, left: Some(Box::new(leaf)), right: None };
    let tree = MerkleTree { root: node, leaves: Vec::new() };
    assert!(!tree.verify());
}

#[test]
fn flipping_any_sibling_bit_breaks_the_proof() {
    let data = records(6);
    let tree = MerkleTree::new(&data).unwrap();
    let proof = tree.generate_proof(&data[3]).unwrap();
    assert!(!proof.proof_steps.is_empty());
    for i in 0..proof.proof_steps.len() {
        for byte in [0usize, 13, 31] {
            for bit in 0..8u8 {
                let mut tampered = proof.clone();
                tampered.proof_steps[i] = match proof.proof_steps[i] {
                    ProofStep::Left(d) => ProofStep::Left(flip(&d, byte, bit)),
                    ProofStep::Right(d) => ProofStep::Right(flip(&d, byte, bit)),
                };
                assert!(!tampered.verify(tree.root_hash()).unwrap());
            }
        }
    }
}

#[test]
fn swapping_a_side_breaks_the_proof() {
    let data = records(4);
    let tree = MerkleTree::new(&data).unwrap();
    let proof = tree.generate_proof(&data[0]).unwrap();
    let mut tampered = proof.clone();
    tampered.proof_steps[0] = match proof.proof_steps[0] {
        ProofStep::Left(d) => ProofStep::Right(d),
        ProofStep::Right(d) => ProofStep::Left(d),
    };
    assert!(!tampered.verify(tree.root_hash()).unwrap());
}

#[test]
fn unknown_record_is_not_found() {
    let tree = MerkleTree::new(&records(3)).unwrap();
    assert!(matches!(
        tree.generate_proof(b"never inserted"),
        Err(MerkleTreeError::RecordNotFound)
    ));
}

#[test]
fn tree_without_index_finds_nothing() {
    let built = MerkleTree::new(&records(3)).unwrap();
    let tree = MerkleTree { root: built.root, leaves: Vec::new() };
    assert!(matches!(
        tree.generate_proof(&records(3)[0]),
        Err(MerkleTreeError::RecordNotFound)
    ));
}

#[test]
fn duplicate_records_share_one_index_entry() {
    let data = vec![b"same".to_vec(), b"other".to_vec(), b"same".to_vec()];
    let tree = MerkleTree::new(&data).unwrap();
    assert_eq!(tree.leaves.len(), 2);
    let proof = tree.generate_proof(b"same").unwrap();
    assert_eq!(proof.proof_steps[0], ProofStep::Right(hash_leaf(b"other")));
    assert!(proof.verify(tree.root_hash()).unwrap());
}

#[test]
fn digest_text_round_trip() {
    let d = hash_leaf(b"round trip");
    let text = serialize(&d);
    assert_eq!(text.len(), 64);
    assert_eq!(deserialize(&text), Ok(d));
    assert_eq!(deserialize(&format!("0x{}", text)), Ok(d));
    assert_eq!(deserialize(&text.to_uppercase()), Ok(d));
}

#[test]
fn digest_text_is_lowercase_hex() {
    let mut d: Digest = [0u8; 32];
    for (i, b) in d.iter_mut().enumerate() {
        *b = (i as u8) * 8;
    }
    assert_eq!(
        serialize(&d),
        "0008101820283038404850586068707880889098a0a8b0b8c0c8d0d8e0e8f0f8"
    );
}

#[test]
fn malformed_digest_text_is_rejected() {
    assert_eq!(deserialize("zz"), Err(MerkleTreeError::InvalidHex));
    assert_eq!(deserialize("abc"), Err(MerkleTreeError::InvalidHex));
    assert_eq!(deserialize("abcd"), Err(MerkleTreeError::InvalidLength));
    let long = "00".repeat(33);
    assert_eq!(deserialize(&long), Err(MerkleTreeError::InvalidLength));
}

#[test]
fn proof_round_trips_through_its_text_form() {
    let data = records(5);
    let tree = MerkleTree::new(&data).unwrap();
    let proof = tree.generate_proof(&data[4]).unwrap();
    let leaf = deserialize(&serialize(&proof.leaf_hash)).unwrap();
    let steps: Vec<ProofStep> = proof
        .proof_steps
        .iter()
        .map(|s| match s {
            ProofStep::Left(d) => ProofStep::Left(deserialize(&serialize(d)).unwrap()),
            ProofStep::Right(d) => ProofStep::Right(deserialize(&serialize(d)).unwrap()),
        })
        .collect();
    let back = MerkleProof { leaf_hash: leaf, proof_steps: steps };
    assert_eq!(back, proof);
    assert!(back.verify(tree.root_hash()).unwrap());
}

#[test]
fn tree_document_round_trip() {
    let data = records(7);
    let tree = MerkleTree::new(&data).unwrap();
    let doc = tree.to_document();
    assert_eq!(doc.root.hash, serialize(tree.root_hash()));
    let back = MerkleTree::from_document(&doc).unwrap();
    assert_eq!(back.root, tree.root);
    assert!(back.leaves.is_empty());
    assert!(back.verify());
}

#[test]
fn proof_document_round_trip() {
    let data = records(6);
    let tree = MerkleTree::new(&data).unwrap();
    let proof = tree.generate_proof(&data[5]).unwrap();
    let doc = proof.to_document();
    assert_eq!(doc.leaf_hash, serialize(&proof.leaf_hash));
    assert_eq!(doc.proof_steps.len(), proof.proof_steps.len());
    let back = MerkleProof::from_document(&doc).unwrap();
    assert_eq!(back, proof);
    assert!(back.verify(tree.root_hash()).unwrap());
}

#[test]
fn unreadable_documents_are_rejected() {
    let doc = NodeDocument {
        hash: serialize(&hash_leaf(b"p")),
        left: Some(Box::new(NodeDocument { hash: "xyz0".to_string(), left: None, right: None })),
        right: Some(Box::new(NodeDocument { hash: "abcd".to_string(), left: None, right: None })),
    };
    assert_eq!(MerkleNode::from_document(&doc), Err(MerkleTreeError::InvalidHex));
    let proof_doc = ProofDocument {
        leaf_hash: serialize(&hash_leaf(b"q")),
        proof_steps: vec![StepDocument::Right("00".repeat(31))],
    };
    assert_eq!(MerkleProof::from_document(&proof_doc), Err(MerkleTreeError::InvalidLength));
}

#[test]
fn proof_by_leaf_digest_matches_proof_by_record() {
    let data = records(5);
    let tree = MerkleTree::new(&data).unwrap();
    let by_record = tree.generate_proof(&data[1]).unwrap();
    let by_digest = tree.proof_for_leaf_hash(&hash_leaf(&data[1])).unwrap();
    assert_eq!(by_record, by_digest);
    assert!(matches!(
        tree.proof_for_leaf_hash(tree.root_hash()),
        Err(MerkleTreeError::RecordNotFound)
    ));
}

#[test]
fn traversal_visits_a_lone_child() {
    let a = MerkleNode::new_leaf(b"a").unwrap();
    let b = MerkleNode::new_leaf(b"b").unwrap();
    let (ha, hb) = (a.hash, b.hash);
    let only_left = MerkleNode { hash: ha, left: Some(Box::new(a)), right: None };
    let only_right = MerkleNode { hash: hb, left: None, right: Some(Box::new(b)) };
    let tree = MerkleTree { root: only_left, leaves: Vec::new() };
    assert_eq!(tree.traverse_in_order(), vec![ha, ha]);
    let tree = MerkleTree { root: only_right, leaves: Vec::new() };
    assert_eq!(tree.traverse_in_order(), vec![hb, hb]);
}

#[test]
fn internal_node_keeps_its_children() {
    let a = MerkleNode::new_leaf(b"a").unwrap();
    let b = MerkleNode::new_leaf(b"b").unwrap();
    let (ha, hb) = (a.hash, b.hash);
    let parent = MerkleNode::new_internal(a, b).unwrap();
    assert_eq!(parent.hash, combine(&ha, &hb));
    assert_eq!(parent.left.as_ref().unwrap().hash, ha);
    assert_eq!(parent.right.as_ref().unwrap().hash, hb);
}
