use vstd::prelude::*;

use crate::error::MerkleTreeError;
use crate::hashing::{combine, combine_digests, digest_eq, Digest};

verus! {

/// One recombination step of a proof, seen as digests.
pub enum StepModel {
    SiblingOnLeft(Seq<u8>),
    SiblingOnRight(Seq<u8>),
}

/// The running digest after recombining it with one sibling.
pub open spec fn apply_step(running: Seq<u8>, step: StepModel) -> Seq<u8> {
    match step {
        StepModel::SiblingOnLeft(s) => combine_digests(s, running),
        StepModel::SiblingOnRight(s) => combine_digests(running, s),
    }
}

/// The digest reached by replaying `steps`, first to last, from `start`.
pub open spec fn replay(start: Seq<u8>, steps: Seq<StepModel>) -> Seq<u8>
    decreases steps.len(),
{
    if steps.len() == 0 {
        start
    } else {
        apply_step(replay(start, steps.drop_last()), steps.last())
    }
}

/// A single step in a proof: the sibling's digest and its side.
#[derive(Clone, Copy, PartialEq, Eq, Debug)]
pub enum ProofStep {
    /// The sibling digest goes before the running digest.
    Left(Digest),
    /// The sibling digest goes after the running digest.
    Right(Digest),
}

impl View for ProofStep {
    type V = StepModel;

    open spec fn view(&self) -> StepModel {
        match self {
            ProofStep::Left(d) => StepModel::SiblingOnLeft(d@),
            ProofStep::Right(d) => StepModel::SiblingOnRight(d@),
        }
    }
}

/// The models of a sequence of steps.
pub open spec fn step_models(steps: Seq<ProofStep>) -> Seq<StepModel> {
    steps.map_values(|s: ProofStep| s@)
}

/// An inclusion proof: a leaf digest and the sibling steps from that leaf up to the root.
#[derive(Clone, PartialEq, Eq, Debug)]
pub struct MerkleProof {
    pub leaf_hash: Digest,
    pub proof_steps: Vec<ProofStep>,
}

impl MerkleProof {
    pub open spec fn steps(&self) -> Seq<StepModel> {
        step_models(self.proof_steps@)
    }

    /// The root digest that this proof recomputes.
    pub open spec fn computed_root(&self) -> Seq<u8> {
        replay(self.leaf_hash@, self.steps())
    }

    /// Checks the proof against a claimed root digest: replays the steps from the
    /// leaf digest and compares the result with `root_hash`. It never fails.
    ///
    /// Recombination uses Keccak-256, the same hash that builds the tree and that the
    /// integrity check recomputes, so a proof generated from a tree replays to exactly
    /// the root that `MerkleTree::verify` accepts.
    pub fn verify(&self, root_hash: &Digest) -> (r: Result<bool, MerkleTreeError>)
        ensures
            r == Ok::<bool, MerkleTreeError>(self.computed_root() == root_hash@),
    {
        let mut computed: Digest = self.leaf_hash;
        let n = self.proof_steps.len();
        let mut i: usize = 0;
        while i < n
            invariant
                n == self.proof_steps@.len(),
                i <= n,
                computed@ == replay(self.leaf_hash@, self.steps().take(i as int)),
            decreases n - i,
        {
            let step = self.proof_steps[i];
            computed = match step {
                ProofStep::Left(sibling) => combine(&sibling, &computed),
                ProofStep::Right(sibling) => combine(&computed, &sibling),
            };
            assert(self.steps().take(i + 1).drop_last() =~= self.steps().take(i as int));
            i = i + 1;
        }
        assert(self.steps().take(n as int) =~= self.steps());
        Ok(digest_eq(&computed, root_hash))
    }
}

} // verus!
