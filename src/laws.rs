use vstd::prelude::*;

use crate::hashing::{keccak_of, leaf_digest, Digest};
use crate::merkle_node::{join, NodeModel};
use crate::merkle_proof::{apply_step, replay, StepModel};
use crate::merkle_tree::{
    find_path, index_matches, leaf_models, merkle_model, next_level, path_or_empty, record_is_indexed,
    reduce_levels,
};

verus! {

/// Some node of the level `s` holds digest `d` in its subtree.
pub open spec fn level_contains(s: Seq<NodeModel>, d: Seq<u8>) -> bool {
    exists|i: int| 0 <= i < s.len() && (#[trigger] s[i]).contains_digest(d)
}

/// What a level holds survives the step to the next level.
pub proof fn lemma_next_level_contains(s: Seq<NodeModel>, d: Seq<u8>)
    requires
        level_contains(s, d),
    ensures
        level_contains(next_level(s), d),
{
    let i = choose|i: int| 0 <= i < s.len() && (#[trigger] s[i]).contains_digest(d);
    let k = i / 2;
    let n = next_level(s);
    if 2 * k + 1 < s.len() {
        assert(n[k] == join(s[2 * k], s[2 * k + 1]));
        assert(n[k].contains_digest(d));
    } else {
        assert(n[k] == s[2 * k]);
    }
}

/// What the first level holds, the root's subtree holds.
pub proof fn lemma_reduce_contains(s: Seq<NodeModel>, d: Seq<u8>)
    requires
        level_contains(s, d),
    ensures
        reduce_levels(s).contains_digest(d),
    decreases s.len(),
{
    if s.len() > 1 {
        lemma_next_level_contains(s, d);
        lemma_reduce_contains(next_level(s), d);
    } else {
        let i = choose|i: int| 0 <= i < s.len() && (#[trigger] s[i]).contains_digest(d);
        assert(i == 0);
    }
}

/// A level of consistent subtrees gives a consistent root.
pub proof fn lemma_reduce_consistent(s: Seq<NodeModel>)
    requires
        s.len() >= 1,
        forall|i: int| 0 <= i < s.len() ==> (#[trigger] s[i]).is_consistent(),
    ensures
        reduce_levels(s).is_consistent(),
    decreases s.len(),
{
    if s.len() > 1 {
        let n = next_level(s);
        assert forall|k: int| 0 <= k < n.len() implies (#[trigger] n[k]).is_consistent() by {
            if 2 * k + 1 < s.len() {
                assert(s[2 * k].is_consistent());
                assert(s[2 * k + 1].is_consistent());
            } else {
                assert(s[2 * k].is_consistent());
            }
        }
        lemma_reduce_consistent(n);
    }
}

/// The search finds a node with digest `t` exactly when the subtree holds one.
pub proof fn lemma_find_path_iff_contains(m: NodeModel, t: Seq<u8>)
    ensures
        find_path(m, t) is Some <==> m.contains_digest(t),
    decreases m,
{
    if let NodeModel::Internal { left, right, .. } = m {
        lemma_find_path_iff_contains(*left, t);
        lemma_find_path_iff_contains(*right, t);
    }
}

/// In a consistent subtree, replaying the path found for `t` from `t` gives the subtree's digest.
pub proof fn lemma_path_replays_to_root(m: NodeModel, t: Seq<u8>)
    requires
        m.is_consistent(),
        find_path(m, t) is Some,
    ensures
        replay(t, find_path(m, t)->Some_0) == m.digest(),
    decreases m,
{
    if m.digest() != t {
        if let NodeModel::Internal { left, right, .. } = m {
            match find_path(*left, t) {
                Some(p) => {
                    lemma_path_replays_to_root(*left, t);
                    assert(p.push(StepModel::SiblingOnRight(right.digest())).drop_last() =~= p);
                },
                None => {
                    let p = find_path(*right, t)->Some_0;
                    lemma_path_replays_to_root(*right, t);
                    assert(p.push(StepModel::SiblingOnLeft(left.digest())).drop_last() =~= p);
                },
            }
        }
    }
}

/// Every tree built from records is internally consistent: each internal digest is
/// the combination of its children's digests.
pub proof fn lemma_built_tree_is_consistent(records: Seq<Seq<u8>>)
    requires
        records.len() > 0,
    ensures
        merkle_model(records).is_consistent(),
{
    lemma_reduce_consistent(leaf_models(records));
}

/// For every record of a non-empty list, a proof is generated for it from the tree
/// built over the list (its leaf digest is in the index built with the tree), and
/// that proof replays to the tree's root digest, so it verifies.
pub proof fn lemma_member_proof_verifies(records: Seq<Seq<u8>>, k: int, leaves: Seq<(Digest, Vec<u8>)>)
    requires
        0 <= k < records.len(),
        index_matches(leaves, records),
    ensures
        record_is_indexed(leaves, records[k]),
        find_path(merkle_model(records), leaf_digest(records[k])) is Some,
        replay(leaf_digest(records[k]), path_or_empty(merkle_model(records), leaf_digest(records[k])))
            == merkle_model(records).digest(),
{
    let s = leaf_models(records);
    let d = leaf_digest(records[k]);
    assert(s[k].contains_digest(d));
    lemma_reduce_contains(s, d);
    lemma_find_path_iff_contains(merkle_model(records), d);
    lemma_built_tree_is_consistent(records);
    lemma_path_replays_to_root(merkle_model(records), d);
}

/// A tree over one record is that record's leaf; its proof has no step and replays
/// to the leaf digest itself.
pub proof fn lemma_single_record_tree(a: Seq<u8>)
    ensures
        merkle_model(seq![a]) == (NodeModel::Leaf { digest: leaf_digest(a) }),
        path_or_empty(merkle_model(seq![a]), leaf_digest(a)) == Seq::<StepModel>::empty(),
        replay(leaf_digest(a), Seq::<StepModel>::empty()) == merkle_model(seq![a]).digest(),
{
    assert(leaf_models(seq![a])[0] == NodeModel::Leaf { digest: leaf_digest(a) });
}

/// Over three records the first two are joined, the third is carried up unchanged
/// and joined with their parent at the root. Unless the third leaf digest also
/// stands at the root or under the first parent, its proof is the one step that puts
/// that parent's digest on the left.
pub proof fn lemma_three_record_tree(a: Seq<u8>, b: Seq<u8>, c: Seq<u8>)
    ensures
        ({
            let la = NodeModel::Leaf { digest: leaf_digest(a) };
            let lb = NodeModel::Leaf { digest: leaf_digest(b) };
            let lc = NodeModel::Leaf { digest: leaf_digest(c) };
            let parent = join(la, lb);
            &&& merkle_model(seq![a, b, c]) == join(parent, lc)
            &&& (leaf_digest(c) != join(parent, lc).digest() && !parent.contains_digest(leaf_digest(c)))
                ==> path_or_empty(merkle_model(seq![a, b, c]), leaf_digest(c))
                == seq![StepModel::SiblingOnLeft(parent.digest())]
        }),
{
    let la = NodeModel::Leaf { digest: leaf_digest(a) };
    let lb = NodeModel::Leaf { digest: leaf_digest(b) };
    let lc = NodeModel::Leaf { digest: leaf_digest(c) };
    let parent = join(la, lb);
    let s = leaf_models(seq![a, b, c]);
    assert(s =~= seq![la, lb, lc]);
    let n1 = next_level(s);
    assert(n1 =~= seq![parent, lc]);
    let n2 = next_level(n1);
    assert(n2 =~= seq![join(parent, lc)]);
    assert(reduce_levels(n2) == join(parent, lc));
    assert(reduce_levels(n1) == reduce_levels(n2));
    assert(reduce_levels(s) == reduce_levels(n1));
    lemma_find_path_iff_contains(parent, leaf_digest(c));
    assert(find_path(lc, leaf_digest(c)) == Some(Seq::<StepModel>::empty()));
    assert(Seq::<StepModel>::empty().push(StepModel::SiblingOnLeft(parent.digest())) =~= seq![
        StepModel::SiblingOnLeft(parent.digest()),
    ]);
}

/// The sibling digest that a step carries.
pub open spec fn sibling_of(step: StepModel) -> Seq<u8> {
    match step {
        StepModel::SiblingOnLeft(s) => s,
        StepModel::SiblingOnRight(s) => s,
    }
}

/// The step on the same side carrying `s` instead.
pub open spec fn with_sibling(step: StepModel, s: Seq<u8>) -> StepModel {
    match step {
        StepModel::SiblingOnLeft(_) => StepModel::SiblingOnLeft(s),
        StepModel::SiblingOnRight(_) => StepModel::SiblingOnRight(s),
    }
}

/// The bytes hashed when `step` is applied to the running digest `running`.
pub open spec fn step_input(running: Seq<u8>, step: StepModel) -> Seq<u8> {
    match step {
        StepModel::SiblingOnLeft(s) => s + running,
        StepModel::SiblingOnRight(s) => running + s,
    }
}

/// At step `j`, replaying `a` and replaying `b` from `start` hash two different byte
/// strings to the same Keccak-256 digest.
pub open spec fn collides_at(start: Seq<u8>, a: Seq<StepModel>, b: Seq<StepModel>, j: int) -> bool {
    let x = step_input(replay(start, a.take(j)), a[j]);
    let y = step_input(replay(start, b.take(j)), b[j]);
    x != y && keccak_of(x) == keccak_of(y)
}

proof fn lemma_concat_cancel(a: Seq<u8>, b: Seq<u8>, c: Seq<u8>, d: Seq<u8>)
    requires
        a + b == c + d,
        a.len() == c.len() || b.len() == d.len(),
    ensures
        a == c,
        b == d,
{
    assert(a =~= (a + b).subrange(0, a.len() as int));
    assert(c =~= (c + d).subrange(0, c.len() as int));
    assert(b =~= (a + b).subrange(a.len() as int, (a + b).len() as int));
    assert(d =~= (c + d).subrange(c.len() as int, (c + d).len() as int));
}

/// Tampering: if a proof still replays to the same root after the sibling digest of
/// one of its steps is replaced by a different one, then at some step `j` the original
/// and the tampered replay hash two different inputs to one Keccak-256 digest; that
/// pair is a collision found from the proof itself. Under collision resistance, a
/// tampered proof therefore fails to verify.
pub proof fn lemma_tampered_step_needs_collision(
    start: Seq<u8>,
    steps: Seq<StepModel>,
    i: int,
    other: Seq<u8>,
)
    requires
        0 <= i < steps.len(),
        other != sibling_of(steps[i]),
        replay(start, steps.update(i, with_sibling(steps[i], other))) == replay(start, steps),
    ensures
        exists|j: int|
            0 <= j < steps.len() && #[trigger] collides_at(
                start,
                steps,
                steps.update(i, with_sibling(steps[i], other)),
                j,
            ),
    decreases steps.len(),
{
    let tampered = steps.update(i, with_sibling(steps[i], other));
    let n = steps.len() - 1;
    let x = replay(start, steps.drop_last());
    let y = replay(start, tampered.drop_last());
    assert(steps.take(n) =~= steps.drop_last());
    assert(tampered.take(n) =~= tampered.drop_last());
    if i == n {
        assert(tampered.drop_last() =~= steps.drop_last());
        match steps[i] {
            StepModel::SiblingOnLeft(s) => {
                if other + x == s + x {
                    lemma_concat_cancel(other, x, s, x);
                }
            },
            StepModel::SiblingOnRight(s) => {
                if x + other == x + s {
                    lemma_concat_cancel(x, other, x, s);
                }
            },
        }
        assert(collides_at(start, steps, tampered, n));
    } else {
        assert(tampered.last() == steps.last());
        if x == y {
            let shorter = steps.drop_last();
            let shorter_tampered = shorter.update(i, with_sibling(shorter[i], other));
            assert(tampered.drop_last() =~= shorter_tampered);
            lemma_tampered_step_needs_collision(start, shorter, i, other);
            let j = choose|j: int| 0 <= j < shorter.len() && #[trigger] collides_at(start, shorter, shorter_tampered, j);
            assert(shorter.take(j) =~= steps.take(j));
            assert(shorter_tampered.take(j) =~= tampered.take(j));
            assert(collides_at(start, steps, tampered, j));
        } else {
            match steps.last() {
                StepModel::SiblingOnLeft(s) => {
                    if s + x == s + y {
                        lemma_concat_cancel(s, x, s, y);
                    }
                },
                StepModel::SiblingOnRight(s) => {
                    if x + s == y + s {
                        lemma_concat_cancel(x, s, y, s);
                    }
                },
            }
            assert(collides_at(start, steps, tampered, n));
        }
    }
}

} // verus!
