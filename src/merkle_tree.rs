use vstd::prelude::*;

use crate::error::MerkleTreeError;
use crate::hashing::{combine, digest_eq, hash_leaf, leaf_digest, Digest};
use crate::merkle_node::{join, MerkleNode, NodeModel};
use crate::merkle_proof::{MerkleProof, ProofStep, StepModel, step_models};

verus! {

/// The leaves of a list of records, in order.
pub open spec fn leaf_models(records: Seq<Seq<u8>>) -> Seq<NodeModel> {
    Seq::new(records.len(), |i: int| NodeModel::Leaf { digest: leaf_digest(records[i]) })
}

/// One level up: neighbours are joined pairwise, left to right, and a last
/// unpaired node is carried up unchanged.
pub open spec fn next_level(s: Seq<NodeModel>) -> Seq<NodeModel> {
    Seq::new(
        ((s.len() + 1) / 2) as nat,
        |k: int| if 2 * k + 1 < s.len() { join(s[2 * k], s[2 * k + 1]) } else { s[2 * k] },
    )
}

/// The root reached by going up level after level until one node is left.
pub open spec fn reduce_levels(s: Seq<NodeModel>) -> NodeModel
    decreases s.len(),
{
    if s.len() <= 1 {
        s[0]
    } else {
        reduce_levels(next_level(s))
    }
}

/// The tree built over `records`.
pub open spec fn merkle_model(records: Seq<Seq<u8>>) -> NodeModel {
    reduce_levels(leaf_models(records))
}

/// The bytes of each record.
pub open spec fn record_views(data: Seq<Vec<u8>>) -> Seq<Seq<u8>> {
    data.map_values(|v: Vec<u8>| v@)
}

/// The bytes of each digest.
pub open spec fn digest_views(s: Seq<Digest>) -> Seq<Seq<u8>> {
    s.map_values(|d: Digest| d@)
}

/// No node of the subtree has a single child, and every internal digest is the
/// combination of its children's digests.
pub open spec fn node_is_sound(n: &MerkleNode) -> bool {
    n.is_well_shaped() && n.model().is_consistent()
}

/// Every subtree on the stack is sound.
pub open spec fn all_sound(s: Seq<&MerkleNode>) -> bool {
    forall|k: int| 0 <= k < s.len() ==> node_is_sound(#[trigger] s[k])
}

/// The number of nodes in the subtrees on the stack.
pub open spec fn stack_size(s: Seq<&MerkleNode>) -> nat
    decreases s.len(),
{
    if s.len() == 0 {
        0
    } else {
        stack_size(s.drop_last()) + s.last().size()
    }
}

/// A pending step of an in-order walk.
pub enum Work<'a> {
    /// Walk this whole subtree.
    Visit(&'a MerkleNode),
    /// Output this digest.
    Emit(Digest),
}

/// What a work item outputs.
pub open spec fn work_output(w: Work) -> Seq<Seq<u8>> {
    match w {
        Work::Visit(n) => n.in_order_digests(),
        Work::Emit(d) => seq![d@],
    }
}

/// What a stack of work items outputs, top of the stack first.
pub open spec fn pending(s: Seq<Work>) -> Seq<Seq<u8>>
    decreases s.len(),
{
    if s.len() == 0 {
        Seq::empty()
    } else {
        work_output(s.last()) + pending(s.drop_last())
    }
}

/// A bound on the steps left for a stack of work items.
pub open spec fn work_size(s: Seq<Work>) -> nat
    decreases s.len(),
{
    if s.len() == 0 {
        0
    } else {
        work_size(s.drop_last()) + match s.last() {
            Work::Visit(n) => 2 * n.size(),
            Work::Emit(_) => 1,
        }
    }
}

/// The models of a sequence of nodes.
pub open spec fn node_models(s: Seq<MerkleNode>) -> Seq<NodeModel> {
    s.map_values(|n: MerkleNode| n.model())
}

/// The steps that lead from the first node met with digest `t`, in a depth-first
/// search that tries a node before its children and the left child before the
/// right one, up to the root of `m`; lowest level first.
pub open spec fn find_path(m: NodeModel, t: Seq<u8>) -> Option<Seq<StepModel>>
    decreases m,
{
    if m.digest() == t {
        Some(Seq::empty())
    } else {
        match m {
            NodeModel::Leaf { .. } => None,
            NodeModel::Internal { left, right, .. } => match find_path(*left, t) {
                Some(p) => Some(p.push(StepModel::SiblingOnRight(right.digest()))),
                None => match find_path(*right, t) {
                    Some(p) => Some(p.push(StepModel::SiblingOnLeft(left.digest()))),
                    None => None,
                },
            },
        }
    }
}

/// The path of `find_path`, or no step when there is none.
pub open spec fn path_or_empty(m: NodeModel, t: Seq<u8>) -> Seq<StepModel> {
    match find_path(m, t) {
        Some(p) => p,
        None => Seq::empty(),
    }
}

/// The entry's key is the leaf digest of its record, which is one of `records`.
pub open spec fn entry_is_from(entry: (Digest, Vec<u8>), records: Seq<Seq<u8>>) -> bool {
    exists|i: int|
        0 <= i < records.len() && entry.0@ == leaf_digest(records[i]) && entry.1@ == #[trigger] records[i]
}

/// Some entry of the index has the leaf digest of `record` as its key.
pub open spec fn record_is_indexed(leaves: Seq<(Digest, Vec<u8>)>, record: Seq<u8>) -> bool {
    exists|j: int| 0 <= j < leaves.len() && (#[trigger] leaves[j]).0@ == leaf_digest(record)
}

/// The index holds one entry per distinct leaf digest of `records`, each with a
/// record of that digest.
pub open spec fn index_matches(leaves: Seq<(Digest, Vec<u8>)>, records: Seq<Seq<u8>>) -> bool {
    &&& forall|j1: int, j2: int|
        0 <= j1 < j2 < leaves.len() ==> (#[trigger] leaves[j1]).0@ != (#[trigger] leaves[j2]).0@
    &&& forall|j: int| 0 <= j < leaves.len() ==> entry_is_from(#[trigger] leaves[j], records)
    &&& forall|i: int| 0 <= i < records.len() ==> record_is_indexed(leaves, #[trigger] records[i])
}

/// A binary hash tree with its index from leaf digest to record.
#[derive(PartialEq, Eq, Debug)]
pub struct MerkleTree {
    /// The root node.
    pub root: MerkleNode,
    /// Each leaf digest with a record it came from. Not part of the commitment.
    pub leaves: Vec<(Digest, Vec<u8>)>,
}

/// The position of `h` among the keys of `leaves`.
fn find_leaf(leaves: &Vec<(Digest, Vec<u8>)>, h: &Digest) -> (r: Option<usize>)
    ensures
        r matches Some(j) ==> j < leaves@.len() && leaves@[j as int].0@ == h@,
        r is None ==> forall|j: int| 0 <= j < leaves@.len() ==> leaves@[j].0@ != h@,
{
    let mut j: usize = 0;
    while j < leaves.len()
        invariant
            j <= leaves@.len(),
            forall|k: int| 0 <= k < j ==> leaves@[k].0@ != h@,
        decreases leaves@.len() - j,
    {
        if digest_eq(&leaves[j].0, h) {
            return Some(j);
        }
        j = j + 1;
    }
    None
}

/// Records `record` under `hash` in the index, replacing the record of an equal key.
fn insert_leaf(leaves: &mut Vec<(Digest, Vec<u8>)>, hash: Digest, record: Vec<u8>, Ghost(prefix): Ghost<Seq<Seq<u8>>>)
    requires
        index_matches(old(leaves)@, prefix),
        hash@ == leaf_digest(record@),
    ensures
        index_matches(final(leaves)@, prefix.push(record@)),
{
    let ghost before = leaves@;
    let ghost next = prefix.push(record@);
    let ghost last = prefix.len() as int;
    let ghost rec = record@;
    let found = find_leaf(leaves, &hash);
    let ghost pos: int = match found { Some(j) => j as int, None => before.len() as int };
    match found {
        Some(j) => {
            leaves.set(j, (hash, record));
        },
        None => {
            leaves.push((hash, record));
        },
    }
    assert(leaves@[pos].0@ == hash@ && leaves@[pos].1@ == rec);
    assert(next[last] == rec);
    assert forall|k: int| 0 <= k < leaves@.len() && k != pos implies #[trigger] leaves@[k] == before[k] by {}
    assert forall|j1: int, j2: int| 0 <= j1 < j2 < leaves@.len() implies (#[trigger] leaves@[j1]).0@
        != (#[trigger] leaves@[j2]).0@ by {
        if j1 != pos && j2 != pos {
            assert(before[j1] == leaves@[j1]);
            assert(before[j2] == leaves@[j2]);
        } else if j1 == pos {
            assert(before[j2] == leaves@[j2]);
        } else {
            assert(before[j1] == leaves@[j1]);
        }
    }
    assert forall|k: int| 0 <= k < leaves@.len() implies entry_is_from(#[trigger] leaves@[k], next) by {
        if k != pos {
            assert(entry_is_from(before[k], prefix));
            let m = choose|m: int| 0 <= m < prefix.len() && before[k].0@ == leaf_digest(prefix[m]) && before[k].1@ == #[trigger] prefix[m];
            assert(next[m] == prefix[m]);
        }
    }
    assert forall|m: int| 0 <= m < next.len() implies record_is_indexed(leaves@, #[trigger] next[m]) by {
        if m == last {
            assert(leaves@[pos].0@ == leaf_digest(next[m]));
        } else {
            assert(prefix[m] == next[m]);
            assert(record_is_indexed(before, prefix[m]));
            let k = choose|k: int| 0 <= k < before.len() && (#[trigger] before[k]).0@ == leaf_digest(prefix[m]);
            if k == pos {
                assert(before[k].0@ == hash@);
                assert(leaves@[k].0@ == hash@);
            } else {
                assert(leaves@[k] == before[k]);
            }
        }
    }
}

impl MerkleTree {
    /// The leaf digest `d` is a key of the index.
    pub open spec fn indexes(&self, d: Seq<u8>) -> bool {
        exists|j: int| 0 <= j < self.leaves@.len() && (#[trigger] self.leaves@[j]).0@ == d
    }

    /// Builds the tree over `data`, which must not be empty.
    pub fn new(data: &[Vec<u8>]) -> (r: Result<Self, MerkleTreeError>)
        ensures
            r is Err <==> data@.len() == 0,
            r is Err ==> r->Err_0 == MerkleTreeError::EmptyData,
            r is Ok ==> {
                let t = r->Ok_0;
                &&& t.root.model() == merkle_model(record_views(data@))
                &&& t.root.is_well_shaped()
                &&& index_matches(t.leaves@, record_views(data@))
            },
    {
        if data.len() == 0 {
            return Err(MerkleTreeError::EmptyData);
        }
        let ghost records = record_views(data@);
        let mut leaf_nodes: Vec<MerkleNode> = Vec::new();
        let mut leaves: Vec<(Digest, Vec<u8>)> = Vec::new();
        let mut i: usize = 0;
        while i < data.len()
            invariant
                i <= data@.len(),
                records == record_views(data@),
                node_models(leaf_nodes@) == leaf_models(records.take(i as int)),
                forall|k: int| 0 <= k < leaf_nodes@.len() ==> #[trigger] leaf_nodes@[k].is_well_shaped(),
                index_matches(leaves@, records.take(i as int)),
            decreases data@.len() - i,
        {
            let leaf = MerkleNode::new_leaf(data[i].as_slice()).unwrap();
            let copy = vstd::slice::slice_to_vec(data[i].as_slice());
            let ghost prefix = records.take(i as int);
            let ghost next = records.take(i + 1);
            assert(next =~= prefix.push(records[i as int]));
            assert(records[i as int] == data@[i as int]@);
            insert_leaf(&mut leaves, leaf.hash, copy, Ghost(prefix));
            let ghost lm = leaf.model();
            let ghost old_nodes = leaf_nodes@;
            leaf_nodes.push(leaf);
            assert(node_models(leaf_nodes@) =~= node_models(old_nodes).push(lm));
            assert(leaf_models(next) =~= leaf_models(prefix).push(NodeModel::Leaf { digest: leaf_digest(records[i as int]) }));
            i = i + 1;
        }
        assert(records.take(data@.len() as int) =~= records);
        let root = Self::build_tree_recursive(leaf_nodes).unwrap();
        Ok(MerkleTree { root, leaves })
    }

    /// Joins one level of nodes into the next.
    fn build_level(nodes: Vec<MerkleNode>) -> (r: Vec<MerkleNode>)
        requires
            forall|k: int| 0 <= k < nodes@.len() ==> #[trigger] nodes@[k].is_well_shaped(),
        ensures
            node_models(r@) == next_level(node_models(nodes@)),
            forall|k: int| 0 <= k < r@.len() ==> #[trigger] r@[k].is_well_shaped(),
    {
        let ghost orig = nodes@;
        let ghost s = node_models(orig);
        let n = nodes.len();
        let mut nodes = nodes;
        let mut rev: Vec<MerkleNode> = Vec::new();
        while nodes.len() > 0
            invariant
                n == orig.len(),
                rev@.len() + nodes@.len() == n,
                nodes@ == orig.subrange(0, nodes@.len() as int),
                forall|k: int| 0 <= k < rev@.len() ==> #[trigger] rev@[k] == orig[n - 1 - k],
            decreases nodes@.len(),
        {
            let x = nodes.pop().unwrap();
            rev.push(x);
        }
        let ghost goal = next_level(s);
        let mut next: Vec<MerkleNode> = Vec::new();
        while rev.len() >= 2
            invariant
                n == orig.len(),
                s == node_models(orig),
                goal == next_level(s),
                forall|k: int| 0 <= k < orig.len() ==> #[trigger] orig[k].is_well_shaped(),
                rev@.len() <= n,
                (n - rev@.len()) % 2 == 0,
                next@.len() == (n - rev@.len()) / 2,
                forall|k: int| 0 <= k < rev@.len() ==> #[trigger] rev@[k] == orig[n - 1 - k],
                forall|k: int| 0 <= k < next@.len() ==> (#[trigger] next@[k]).model() == goal[k],
                forall|k: int| 0 <= k < next@.len() ==> #[trigger] next@[k].is_well_shaped(),
            decreases rev@.len(),
        {
            let ghost c = n - rev@.len();
            let l = rev.pop().unwrap();
            let r = rev.pop().unwrap();
            assert(l == orig[c]);
            assert(r == orig[c + 1]);
            let p = MerkleNode::new_internal(l, r).unwrap();
            assert(goal[c / 2] == join(s[c], s[c + 1]));
            next.push(p);
        }
        if rev.len() == 1 {
            let x = rev.pop().unwrap();
            assert(x == orig[n - 1]);
            assert(goal[(n - 1) / 2] == s[n - 1]);
            next.push(x);
        }
        assert(node_models(next@) =~= goal);
        next
    }

    /// Goes up level after level from `nodes` until one node, the root, is left.
    fn build_tree_recursive(nodes: Vec<MerkleNode>) -> (r: Result<MerkleNode, MerkleTreeError>)
        requires
            nodes@.len() >= 1,
            forall|k: int| 0 <= k < nodes@.len() ==> #[trigger] nodes@[k].is_well_shaped(),
        ensures
            r is Ok,
            r->Ok_0.model() == reduce_levels(node_models(nodes@)),
            r->Ok_0.is_well_shaped(),
    {
        let ghost goal = reduce_levels(node_models(nodes@));
        let mut nodes = nodes;
        while nodes.len() > 1
            invariant
                nodes@.len() >= 1,
                forall|k: int| 0 <= k < nodes@.len() ==> #[trigger] nodes@[k].is_well_shaped(),
                reduce_levels(node_models(nodes@)) == goal,
            decreases nodes@.len(),
        {
            nodes = Self::build_level(nodes);
        }
        let root = nodes.pop().unwrap();
        Ok(root)
    }

    /// The root digest.
    pub fn root_hash(&self) -> (r: &Digest)
        ensures
            r@ == self.root.hash@,
    {
        &self.root.hash
    }

    /// Checks the integrity of the whole tree: every internal digest must be the
    /// combination of its children's digests, and no node may have a single child.
    pub fn verify(&self) -> (r: bool)
        ensures
            r == (self.root.is_well_shaped() && self.root.model().is_consistent()),
    {
        Self::verify_node(&self.root)
    }

    /// Checks every node under `node`, keeping the pending subtrees on an explicit
    /// stack so that a deep tree cannot exhaust the call stack.
    fn verify_node(node: &MerkleNode) -> (r: bool)
        ensures
            r == node_is_sound(node),
    {
        let mut stack: Vec<&MerkleNode> = Vec::new();
        stack.push(node);
        assert(all_sound(stack@) == node_is_sound(node)) by {
            assert(stack@[0] == node);
        }
        while stack.len() > 0
            invariant
                all_sound(stack@) == node_is_sound(node),
            decreases stack_size(stack@),
        {
            let ghost before = stack@;
            let n = stack.pop().unwrap();
            assert(before =~= stack@.push(n));
            assert(before.drop_last() =~= stack@);
            assert(stack_size(before) == stack_size(stack@) + n.size());
            assert(all_sound(before) == (node_is_sound(n) && all_sound(stack@))) by {
                if all_sound(before) {
                    assert forall|k: int| 0 <= k < stack@.len() implies node_is_sound(#[trigger] stack@[k]) by {
                        assert(before[k] == stack@[k]);
                    }
                    assert(before[before.len() - 1] == n);
                }
                if node_is_sound(n) && all_sound(stack@) {
                    assert forall|k: int| 0 <= k < before.len() implies node_is_sound(#[trigger] before[k]) by {
                        if k < stack@.len() {
                            assert(before[k] == stack@[k]);
                        }
                    }
                }
            }
            match (&n.left, &n.right) {
                (None, None) => {},
                (Some(left), Some(right)) => {
                    let l: &MerkleNode = left;
                    let r: &MerkleNode = right;
                    assert(l.model().digest() == l.hash@);
                    assert(r.model().digest() == r.hash@);
                    let expected = combine(&l.hash, &r.hash);
                    if !digest_eq(&n.hash, &expected) {
                        return false;
                    }
                    let ghost rest = stack@;
                    stack.push(l);
                    stack.push(r);
                    assert(stack@.drop_last() =~= rest.push(l));
                    assert(rest.push(l).drop_last() =~= rest);
                    assert(n.size() == 1 + l.size() + r.size());
                    assert(stack_size(rest.push(l)) == stack_size(rest) + l.size());
                    assert(stack_size(stack@) == stack_size(rest) + l.size() + r.size());
                    assert(all_sound(stack@) == (all_sound(rest) && node_is_sound(l) && node_is_sound(r))) by {
                        assert(stack@[rest.len() as int] == l);
                        assert(stack@[rest.len() as int + 1] == r);
                        if all_sound(rest) && node_is_sound(l) && node_is_sound(r) {
                            assert forall|k: int| 0 <= k < stack@.len() implies node_is_sound(#[trigger] stack@[k]) by {
                                if k < rest.len() {
                                    assert(stack@[k] == rest[k]);
                                }
                            }
                        }
                        if all_sound(stack@) {
                            assert forall|k: int| 0 <= k < rest.len() implies node_is_sound(#[trigger] rest[k]) by {
                                assert(stack@[k] == rest[k]);
                            }
                        }
                    }
                },
                _ => {
                    return false;
                },
            }
        }
        true
    }

    /// The digests of all nodes in order: left child's subtree, node, right child's
    /// subtree, visiting every child that is present. Pending work is kept on an
    /// explicit stack so that a deep tree cannot exhaust the call stack.
    pub fn traverse_in_order(&self) -> (r: Vec<Digest>)
        ensures
            digest_views(r@) == self.root.in_order_digests(),
    {
        let ghost goal = self.root.in_order_digests();
        let mut out: Vec<Digest> = Vec::new();
        let mut stack: Vec<Work> = Vec::new();
        stack.push(Work::Visit(&self.root));
        assert(pending(stack@) =~= goal) by {
            assert(stack@.drop_last() =~= Seq::<Work>::empty());
            assert(pending(stack@) == work_output(Work::Visit(&self.root)) + pending(Seq::<Work>::empty()));
        }
        while stack.len() > 0
            invariant
                digest_views(out@) + pending(stack@) == goal,
            decreases work_size(stack@),
        {
            let ghost before = stack@;
            let item = stack.pop().unwrap();
            assert(before.drop_last() =~= stack@);
            let ghost rest = stack@;
            match item {
                Work::Emit(d) => {
                    let ghost old_out = out@;
                    out.push(d);
                    assert(digest_views(out@) =~= digest_views(old_out) + seq![d@]);
                    assert(pending(before) == seq![d@] + pending(rest));
                    assert(work_size(before) == work_size(rest) + 1);
                    assert(digest_views(out@) + pending(stack@) =~= digest_views(old_out) + pending(before));
                },
                Work::Visit(n) => {
                    let ghost after = match &n.right {
                        Some(r) => r.in_order_digests(),
                        None => Seq::empty(),
                    };
                    let ghost before_n = match &n.left {
                        Some(l) => l.in_order_digests(),
                        None => Seq::empty(),
                    };
                    let ghost rsize: nat = match &n.right {
                        Some(r) => r.size(),
                        None => 0,
                    };
                    let ghost lsize: nat = match &n.left {
                        Some(l) => l.size(),
                        None => 0,
                    };
                    assert(work_size(before) == work_size(rest) + 2 * n.size());
                    if let Some(right) = &n.right {
                        let r: &MerkleNode = right;
                        stack.push(Work::Visit(r));
                        assert(stack@.drop_last() =~= rest);
                    }
                    assert(pending(stack@) == after + pending(rest));
                    assert(work_size(stack@) == work_size(rest) + 2 * rsize);
                    let ghost s1 = stack@;
                    stack.push(Work::Emit(n.hash));
                    assert(stack@.drop_last() =~= s1);
                    assert(pending(stack@) == seq![n.hash@] + pending(s1));
                    assert(work_size(stack@) == work_size(s1) + 1);
                    let ghost s2 = stack@;
                    if let Some(left) = &n.left {
                        let l: &MerkleNode = left;
                        stack.push(Work::Visit(l));
                        assert(stack@.drop_last() =~= s2);
                    }
                    assert(pending(stack@) == before_n + pending(s2));
                    assert(work_size(stack@) == work_size(s2) + 2 * lsize);
                    assert(pending(stack@) =~= before_n + (seq![n.hash@] + (after + pending(rest))));
                    assert(n.in_order_digests() == before_n + seq![n.hash@] + after);
                    assert(digest_views(out@) + pending(stack@) =~= digest_views(out@) + pending(before));
                },
            }
        }
        assert(digest_views(out@) + Seq::<Seq<u8>>::empty() =~= digest_views(out@));
        out
    }

    /// Builds the inclusion proof of `data`; fails when its leaf digest is not in the index.
    pub fn generate_proof(&self, data: &[u8]) -> (r: Result<MerkleProof, MerkleTreeError>)
        ensures
            r is Err <==> !self.indexes(leaf_digest(data@)),
            r is Err ==> r->Err_0 == MerkleTreeError::RecordNotFound,
            r is Ok ==> r->Ok_0.leaf_hash@ == leaf_digest(data@) && r->Ok_0.steps() == path_or_empty(
                self.root.model(),
                leaf_digest(data@),
            ),
    {
        let leaf_hash = hash_leaf(data);
        self.proof_for_leaf_hash(&leaf_hash)
    }

    /// Builds the inclusion proof of the leaf with digest `leaf_hash`; fails when that
    /// digest is not in the index.
    pub fn proof_for_leaf_hash(&self, leaf_hash: &Digest) -> (r: Result<MerkleProof, MerkleTreeError>)
        ensures
            r is Err <==> !self.indexes(leaf_hash@),
            r is Err ==> r->Err_0 == MerkleTreeError::RecordNotFound,
            r is Ok ==> r->Ok_0.leaf_hash == *leaf_hash && r->Ok_0.steps() == path_or_empty(
                self.root.model(),
                leaf_hash@,
            ),
    {
        if find_leaf(&self.leaves, leaf_hash).is_none() {
            return Err(MerkleTreeError::RecordNotFound);
        }
        let mut proof_steps: Vec<ProofStep> = Vec::new();
        let found = self.build_proof(&self.root, leaf_hash, &mut proof_steps);
        assert(step_models(proof_steps@) =~= Seq::<StepModel>::empty() + path_or_empty(self.root.model(), leaf_hash@));
        match found {
            Ok(_) => Ok(MerkleProof { leaf_hash: *leaf_hash, proof_steps }),
            Err(e) => Err(e),
        }
    }

    /// Searches `node` for `target_hash`, left before right, and on success appends
    /// the sibling steps from the match up to `node`.
    fn build_proof(&self, node: &MerkleNode, target_hash: &Digest, proof_steps: &mut Vec<ProofStep>) -> (r: Result<bool, MerkleTreeError>)
        ensures
            r == Ok::<bool, MerkleTreeError>(find_path(node.model(), target_hash@) is Some),
            step_models(final(proof_steps)@) == step_models(old(proof_steps)@) + path_or_empty(node.model(), target_hash@),
        decreases node,
    {
        assert(node.model().digest() == node.hash@);
        if digest_eq(&node.hash, target_hash) {
            assert(step_models(proof_steps@) + Seq::<StepModel>::empty() =~= step_models(proof_steps@));
            return Ok(true);
        }
        match (&node.left, &node.right) {
            (Some(left), Some(right)) => {
                assert(left.model().digest() == left.hash@);
                assert(right.model().digest() == right.hash@);
                let in_left = self.build_proof(left, target_hash, proof_steps);
                if let Ok(true) = in_left {
                    let ghost mid = proof_steps@;
                    proof_steps.push(ProofStep::Right(right.hash));
                    assert(step_models(proof_steps@) =~= step_models(mid).push(StepModel::SiblingOnRight(right.hash@)));
                    assert(step_models(proof_steps@) =~= step_models(old(proof_steps)@) + path_or_empty(node.model(), target_hash@));
                    return Ok(true);
                }
                let in_right = self.build_proof(right, target_hash, proof_steps);
                if let Ok(true) = in_right {
                    let ghost mid = proof_steps@;
                    proof_steps.push(ProofStep::Left(left.hash));
                    assert(step_models(proof_steps@) =~= step_models(mid).push(StepModel::SiblingOnLeft(left.hash@)));
                    assert(step_models(proof_steps@) =~= step_models(old(proof_steps)@) + path_or_empty(node.model(), target_hash@));
                    return Ok(true);
                }
                assert(step_models(proof_steps@) + Seq::<StepModel>::empty() =~= step_models(proof_steps@));
                Ok(false)
            },
            _ => {
                assert(step_models(proof_steps@) + Seq::<StepModel>::empty() =~= step_models(proof_steps@));
                Ok(false)
            },
        }
    }
}

} // verus!
