//! Inclusion and consistency proofs: their structures and the verification
//! algorithms that recompute a root from a path of sibling steps.
use vstd::prelude::*;

use crate::hasher::{Hasher, bytes_eq, copy_bytes, copy_slice, digests_view, lemma_digests_push};
use crate::consistency::{path_consistency_roots, reconstruct_consistency_roots};
use crate::mr::{nary_mr, spec_nary_mr};

verus! {

/// A single level in a Merkle proof path.
#[derive(Debug, Clone, PartialEq, Eq)]
pub struct ProofStep {
    /// Sibling digests at this level (excluding the path node); empty for a
    /// promoted (singleton) node.
    pub siblings: Vec<Vec<u8>>,
    /// Position of the path node among all children (0-indexed).
    pub position: usize,
}

/// Inclusion proof: path from a leaf to the root.
#[derive(Debug, Clone, PartialEq, Eq)]
pub struct InclusionProof {
    /// 0-based leaf index of the target.
    pub index: u64,
    /// Size of the tree for which this proof is valid.
    pub tree_size: u64,
    /// Path steps from leaf to root.
    pub path: Vec<ProofStep>,
}

/// Consistency proof: the tree at `old_size` is a prefix of the tree at
/// `new_size`.
#[derive(Debug, Clone, PartialEq, Eq)]
pub struct ConsistencyProof {
    /// Size of the older tree.
    pub old_size: u64,
    /// Size of the newer tree.
    pub new_size: u64,
    /// Arity of the log both trees belong to.
    pub log_arity: u64,
    /// Starting hash: the boundary node of the old tree.
    pub start_hash: Vec<u8>,
    /// Path steps from the boundary to the root.
    pub path: Vec<ProofStep>,
}

/// A step as plain values: its sibling digests and the path node's position.
pub open spec fn step_view(s: ProofStep) -> (Seq<Seq<u8>>, nat) {
    (digests_view(s.siblings@), s.position as nat)
}

/// The steps of a path as plain values.
pub open spec fn steps_view(path: Seq<ProofStep>) -> Seq<(Seq<Seq<u8>>, nat)> {
    path.map_values(|s: ProofStep| step_view(s))
}

/// The children of a step's parent: the siblings with `cur` inserted at `pos`.
pub open spec fn with_child(sibs: Seq<Seq<u8>>, cur: Seq<u8>, pos: nat) -> Seq<Seq<u8>> {
    sibs.take(pos as int) + seq![cur] + sibs.skip(pos as int)
}

/// One step of path recomputation: a step with no sibling (a promoted node,
/// which honest paths omit) fails, as does a step whose position exceeds its
/// siblings; any other step hashes the parent.
pub open spec fn apply_step<H: Hasher>(h: H, cur: Option<Seq<u8>>, s: (Seq<Seq<u8>>, nat)) -> Option<
    Seq<u8>,
> {
    match cur {
        None => None,
        Some(c) => if s.0.len() == 0 || s.1 > s.0.len() {
            None
        } else {
            Some(spec_nary_mr(h, with_child(s.0, c, s.1)))
        },
    }
}

/// The digest a path recomputes from `start`, applying its steps in order;
/// `None` when a step is malformed.
pub open spec fn path_root<H: Hasher>(h: H, start: Seq<u8>, steps: Seq<(Seq<Seq<u8>>, nat)>) -> Option<
    Seq<u8>,
>
    decreases steps.len(),
{
    if steps.len() == 0 {
        Some(start)
    } else {
        apply_step(h, path_root(h, start, steps.drop_last()), steps.last())
    }
}

/// Copies of the digests `v[lo..hi]`.
pub(crate) fn copy_range(v: &Vec<Vec<u8>>, lo: usize, hi: usize) -> (r: Vec<Vec<u8>>)
    requires
        lo <= hi <= v@.len(),
    ensures
        digests_view(r@) == digests_view(v@).subrange(lo as int, hi as int),
{
    let mut r: Vec<Vec<u8>> = Vec::new();
    let mut i: usize = lo;
    while i < hi
        invariant
            lo <= i <= hi <= v@.len(),
            digests_view(r@) == digests_view(v@).subrange(lo as int, i as int),
        decreases hi - i,
    {
        let ghost before = r@;
        let c = copy_bytes(&v[i]);
        r.push(c);
        proof {
            lemma_digests_push(before, c);
            assert(digests_view(r@) =~= digests_view(v@).subrange(lo as int, i + 1));
        }
        i = i + 1;
    }
    r
}

/// The parent a step forms over `cur`: the siblings with `cur` at `position`.
pub(crate) fn step_parent<H: Hasher>(hasher: &H, cur: &Vec<u8>, step: &ProofStep) -> (parent: Vec<u8>)
    requires
        step.position <= step.siblings@.len(),
    ensures
        parent@ == spec_nary_mr(*hasher, with_child(step_view(*step).0, cur@, step.position as nat)),
{
    let pos = step.position;
    let mut children = copy_range(&step.siblings, 0, pos);
    let ghost left = children@;
    children.push(copy_bytes(cur));
    proof {
        lemma_digests_push(left, children@.last());
    }
    let ghost mid = children@;
    let mut right = copy_range(&step.siblings, pos, step.siblings.len());
    children.append(&mut right);
    proof {
        let sv = digests_view(step.siblings@);
        assert(digests_view(children@) =~= digests_view(mid) + sv.subrange(
            pos as int,
            sv.len() as int,
        ));
        assert(sv.take(pos as int) =~= sv.subrange(0, pos as int));
        assert(sv.skip(pos as int) =~= sv.subrange(pos as int, sv.len() as int));
        assert(digests_view(children@) =~= with_child(sv, cur@, pos as nat));
    }
    nary_mr(hasher, children.as_slice())
}

/// Verify an inclusion proof: true exactly when the proof's index lies below
/// its tree size and its path recomputes `root` from `leaf_hash`.
pub fn verify_inclusion<H: Hasher>(
    hasher: &H,
    leaf_hash: &[u8],
    proof: &InclusionProof,
    root: &[u8],
) -> (ok: bool)
    ensures
        ok == (proof.index < proof.tree_size && path_root(
            *hasher,
            leaf_hash@,
            steps_view(proof.path@),
        ) == Some(root@)),
{
    if proof.index >= proof.tree_size {
        return false;
    }
    let ghost steps = steps_view(proof.path@);
    let mut current: Vec<u8> = copy_slice(leaf_hash);
    proof {
        assert(current@ =~= leaf_hash@);
    }
    let mut i: usize = 0;
    while i < proof.path.len()
        invariant
            steps == steps_view(proof.path@),
            i <= proof.path@.len(),
            path_root(*hasher, leaf_hash@, steps.take(i as int)) == Some(current@),
        decreases proof.path@.len() - i,
    {
        let step = &proof.path[i];
        proof {
            assert(steps.take(i + 1).drop_last() =~= steps.take(i as int));
            assert(steps.take(i + 1).last() == step_view(*step));
        }
        if step.siblings.len() == 0 || step.position > step.siblings.len() {
            proof {
                lemma_path_root_fails(*hasher, leaf_hash@, steps, i as int);
            }
            return false;
        }
        current = step_parent(hasher, &current, step);
        i = i + 1;
    }
    proof {
        assert(steps.take(proof.path@.len() as int) =~= steps);
    }
    bytes_eq(current.as_slice(), root)
}

/// Once a step is malformed, the whole path fails.
pub proof fn lemma_path_root_fails<H: Hasher>(
    h: H,
    start: Seq<u8>,
    steps: Seq<(Seq<Seq<u8>>, nat)>,
    i: int,
)
    requires
        0 <= i < steps.len(),
        path_root(h, start, steps.take(i + 1)) is None,
    ensures
        path_root(h, start, steps) is None,
    decreases steps.len() - i,
{
    if i + 1 < steps.len() {
        assert(steps.take(i + 2).drop_last() =~= steps.take(i + 1));
        lemma_path_root_fails(h, start, steps, i + 1);
    } else {
        assert(steps.take(i + 1) =~= steps);
    }
}

/// Verify a consistency proof: true exactly when the path, followed at the
/// proof's sizes and arity, yields `old_root` and `new_root`
/// (`path_consistency_roots`).
pub fn verify_consistency<H: Hasher>(
    hasher: &H,
    proof: &ConsistencyProof,
    old_root: &[u8],
    new_root: &[u8],
) -> (ok: bool)
    ensures
        ok == (path_consistency_roots(
            *hasher,
            proof.old_size as nat,
            proof.new_size as nat,
            proof.log_arity as nat,
            proof.start_hash@,
            steps_view(proof.path@),
        ) == Some((old_root@, new_root@))),
{
    match reconstruct_consistency_roots(
        hasher,
        proof.old_size,
        proof.new_size,
        proof.log_arity,
        proof.start_hash.as_slice(),
        proof.path.as_slice(),
    ) {
        None => false,
        Some((o, n)) => {
            let a = bytes_eq(o.as_slice(), old_root);
            let b = bytes_eq(n.as_slice(), new_root);
            a && b
        },
    }
}

/// `s` without its element at `i`.
pub open spec fn without(s: Seq<Seq<u8>>, i: nat) -> Seq<Seq<u8>> {
    s.take(i as int) + s.skip(i as int + 1)
}

/// The steps that carry frontier peak `t` of `cur` through the frontier fold:
/// while more than `k` peaks remain the rightmost `k` merge (a step when the
/// target is among them); a final step joins the last few.
pub open spec fn merge_steps<H: Hasher>(h: H, cur: Seq<Seq<u8>>, t: nat, k: nat) -> Seq<
    (Seq<Seq<u8>>, nat),
>
    decreases cur.len(),
{
    if k < 2 || cur.len() <= k {
        if cur.len() > 1 {
            seq![(without(cur, t), t)]
        } else {
            seq![]
        }
    } else {
        let split = (cur.len() - k) as nat;
        let next = cur.take(split as int).push(spec_nary_mr(h, cur.skip(split as int)));
        if t >= split {
            seq![(without(cur.skip(split as int), (t - split) as nat), (t - split) as nat)]
                + merge_steps(h, next, split, k)
        } else {
            merge_steps(h, next, t, k)
        }
    }
}

/// Recomputing along `a + b` is recomputing along `a`, then along `b`.
pub proof fn lemma_path_root_append<H: Hasher>(
    h: H,
    start: Seq<u8>,
    a: Seq<(Seq<Seq<u8>>, nat)>,
    b: Seq<(Seq<Seq<u8>>, nat)>,
)
    ensures
        path_root(h, start, a + b) == match path_root(h, start, a) {
            Some(x) => path_root(h, x, b),
            None => None,
        },
    decreases b.len(),
{
    if b.len() == 0 {
        assert(a + b =~= a);
    } else {
        assert((a + b).drop_last() =~= a + b.drop_last());
        assert((a + b).last() == b.last());
        lemma_path_root_append(h, start, a, b.drop_last());
        match path_root(h, start, a) {
            Some(x) => {},
            None => {
                assert(path_root(h, start, a + b.drop_last()) is None);
            },
        }
    }
}

/// Inserting an element back where it was removed restores the sequence.
pub proof fn lemma_with_without(s: Seq<Seq<u8>>, i: nat)
    requires
        i < s.len(),
    ensures
        with_child(without(s, i), s[i as int], i) == s,
        without(s, i).len() == s.len() - 1,
{
    let w = without(s, i);
    assert(w.take(i as int) =~= s.take(i as int));
    assert(w.skip(i as int) =~= s.skip(i as int + 1));
    assert(with_child(w, s[i as int], i) =~= s);
}

/// The frontier steps carry the target peak to the fold of all the peaks.
pub proof fn lemma_merge_steps_fold<H: Hasher>(h: H, cur: Seq<Seq<u8>>, t: nat, k: nat)
    requires
        k >= 2,
        t < cur.len(),
    ensures
        path_root(h, cur[t as int], merge_steps(h, cur, t, k)) == Some(
            crate::model::fold_frontier(h, cur, k),
        ),
    decreases cur.len(),
{
    if cur.len() <= k {
        if cur.len() > 1 {
            lemma_with_without(cur, t);
            let st = seq![(without(cur, t), t)];
            assert(st.drop_last() =~= Seq::<(Seq<Seq<u8>>, nat)>::empty());
            assert(path_root(h, cur[t as int], st.drop_last()) == Some(cur[t as int]));
            assert(st.last() == (without(cur, t), t));
            assert(merge_steps(h, cur, t, k) == st);
        } else {
            assert(t == 0);
            assert(cur =~= seq![cur[0]]);
        }
    } else {
        let split = (cur.len() - k) as nat;
        let right = cur.skip(split as int);
        let next = cur.take(split as int).push(spec_nary_mr(h, right));
        if t >= split {
            let tt = (t - split) as nat;
            lemma_with_without(right, tt);
            let first = seq![(without(right, tt), tt)];
            assert(first.drop_last() =~= Seq::<(Seq<Seq<u8>>, nat)>::empty());
            assert(path_root(h, cur[t as int], first) == Some(spec_nary_mr(h, right))) by {
                assert(right[tt as int] == cur[t as int]);
                assert(path_root(h, cur[t as int], first.drop_last()) == Some(cur[t as int]));
                assert(first.last() == (without(right, tt), tt));
                assert(without(right, tt).len() >= 1);
            }
            lemma_merge_steps_fold(h, next, split, k);
            lemma_path_root_append(h, cur[t as int], first, merge_steps(h, next, split, k));
        } else {
            assert(next[t as int] == cur[t as int]);
            lemma_merge_steps_fold(h, next, t, k);
        }
    }
}

/// A step whose siblings are `cur` without its element at `t`.
fn step_without(cur: &Vec<Vec<u8>>, lo: usize, t: usize) -> (step: ProofStep)
    requires
        lo <= t < cur@.len(),
    ensures
        step_view(step) == (
            without(digests_view(cur@).skip(lo as int), (t - lo) as nat),
            (t - lo) as nat,
        ),
{
    let mut siblings: Vec<Vec<u8>> = Vec::new();
    let mut j: usize = lo;
    let ghost s = digests_view(cur@).skip(lo as int);
    let ghost tt = (t - lo) as nat;
    while j < cur.len()
        invariant
            lo <= t < cur@.len(),
            lo <= j <= cur@.len(),
            s == digests_view(cur@).skip(lo as int),
            tt == t - lo,
            j <= t ==> digests_view(siblings@) == s.take(j - lo),
            j > t ==> digests_view(siblings@) == without(s, tt).take(j - lo - 1),
        decreases cur@.len() - j,
    {
        if j != t {
            let ghost before = siblings@;
            let c = copy_bytes(&cur[j]);
            siblings.push(c);
            proof {
                lemma_digests_push(before, c);
                assert(s[j - lo] == cur@[j as int]@);
                if j < t {
                    assert(digests_view(siblings@) =~= s.take(j + 1 - lo));
                } else {
                    assert(digests_view(siblings@) =~= without(s, tt).take(j + 1 - lo - 1));
                }
            }
        } else {
            proof {
                assert(without(s, tt).take(0) =~= Seq::<Seq<u8>>::empty());
                assert(s.take(j - lo) =~= without(s, tt).take(j - lo));
            }
        }
        j = j + 1;
    }
    proof {
        assert(without(s, tt).take(cur@.len() - lo - 1) =~= without(s, tt));
    }
    ProofStep { siblings, position: t - lo }
}

/// Fold the ordered frontier hashes across the canonical frontier-reduction
/// loop, appending to `bisect_path` the steps that carry peak `target_idx` to
/// the member root.
pub fn merge_frontier_paths<H: Hasher>(
    hashes: Vec<Vec<u8>>,
    target_idx: usize,
    k: usize,
    hasher: &H,
    bisect_path: &mut Vec<ProofStep>,
)
    requires
        k >= 2,
        target_idx < hashes@.len(),
    ensures
        steps_view(final(bisect_path)@) == steps_view(old(bisect_path)@) + merge_steps(
            *hasher,
            digests_view(hashes@),
            target_idx as nat,
            k as nat,
        ),
{
    let ghost goal = merge_steps(*hasher, digests_view(hashes@), target_idx as nat, k as nat);
    let ghost p0 = steps_view(bisect_path@);
    let mut current = hashes;
    let mut target = target_idx;
    while current.len() > k
        invariant
            k >= 2,
            target < current@.len(),
            steps_view(bisect_path@) + merge_steps(
                *hasher,
                digests_view(current@),
                target as nat,
                k as nat,
            ) == p0 + goal,
        decreases current@.len(),
    {
        let split = current.len() - k;
        let ghost before = digests_view(current@);
        if target >= split {
            let step = step_without(&current, split, target);
            let ghost pb = bisect_path@;
            bisect_path.push(step);
            proof {
                assert(steps_view(bisect_path@) =~= steps_view(pb).push(step_view(step)));
            }
            target = split;
        }
        let right = current.split_off(split);
        let merged = nary_mr(hasher, right.as_slice());
        current.push(merged);
        proof {
            assert(digests_view(right@) =~= before.skip(split as int));
            assert(digests_view(current@) =~= before.take(split as int).push(
                spec_nary_mr(*hasher, before.skip(split as int)),
            ));
            let m = merge_steps(*hasher, before, target_idx as nat, k as nat);
            assert(steps_view(bisect_path@) + merge_steps(
                *hasher,
                digests_view(current@),
                target as nat,
                k as nat,
            ) =~= p0 + goal);
        }
    }
    if current.len() > 1 {
        let step = step_without(&current, 0, target);
        let ghost pb = bisect_path@;
        bisect_path.push(step);
        proof {
            assert(digests_view(current@).skip(0) =~= digests_view(current@));
            assert(steps_view(bisect_path@) =~= steps_view(pb).push(step_view(step)));
            assert(steps_view(bisect_path@) =~= p0 + goal);
        }
    } else {
        proof {
            assert(steps_view(bisect_path@) =~= p0 + goal);
        }
    }
}

} // verus!
