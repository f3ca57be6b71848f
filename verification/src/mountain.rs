//! The Merkle Mountain Range bagging of a frontier's peaks: the backward bag
//! that folds the perfect-subtree peaks into one root, the inclusion skeleton
//! that pins a proof against it, and the increment-style consistency proof
//! built from inclusion and bagging alone.
use vstd::prelude::*;

use crate::hasher::{Hasher, bytes_eq, copy_bytes, copy_slice, digests_view, lemma_digests_push};
use crate::mr::{nary_mr, spec_nary_mr};
use crate::topology::{
    checked_pow, coords_view, find_peak, frontier_for_size, frontier_spec, lemma_frontier_within, lemma_pow_positive,
    lemma_pow_succ, peak_holds, peak_of, pow,
};
use crate::proofs::{ProofStep, apply_step, path_root, step_parent, step_view, steps_view, with_child, without, lemma_with_without, lemma_path_root_append};

verus! {

/// One node of the bag tree: a frontier peak by its index, or a hashing node
/// over its children, left to right.
#[derive(Debug, PartialEq, Eq)]
pub enum BagNode {
    /// A frontier peak at index `f_idx` in the frontier order.
    Peak(usize),
    /// A hashing bag node over its children, left to right.
    Bag(Vec<BagNode>),
}

/// `node` is the backward bag over the peaks `[start, count)` at arity `k`: a
/// single peak promotes to itself, at most `k` peaks fold into one node, and
/// more than `k` put the oldest `k - 1` peaks as direct children and the bag
/// of the rest as the last child.
pub open spec fn shape_ok(node: BagNode, start: nat, count: nat, k: nat) -> bool
    decreases node,
{
    if start >= count || count > usize::MAX + 1 {
        false
    } else if count - start == 1 {
        node == BagNode::Peak(start as usize)
    } else {
        match node {
            BagNode::Peak(_) => false,
            BagNode::Bag(ch) => if count - start <= k {
                &&& ch.len() == count - start
                &&& forall|i: int| 0 <= i < ch.len() ==> ch@[i] == BagNode::Peak((start + i) as usize)
            } else {
                &&& k >= 2
                &&& ch.len() == k
                &&& forall|i: int| 0 <= i < k - 1 ==> ch@[i] == BagNode::Peak((start + i) as usize)
                &&& shape_ok(ch@[k - 1], (start + k - 1) as nat, count, k)
            },
        }
    }
}

/// The peaks `[lo, hi)` as a list of peak nodes.
fn peak_run(lo: usize, hi: usize) -> (r: Vec<BagNode>)
    requires
        lo <= hi,
    ensures
        r.len() == hi - lo,
        forall|i: int| 0 <= i < r.len() ==> r@[i] == BagNode::Peak((lo + i) as usize),
{
    let mut r: Vec<BagNode> = Vec::new();
    let mut i = lo;
    while i < hi
        invariant
            lo <= i <= hi,
            r.len() == i - lo,
            forall|j: int| 0 <= j < r.len() ==> r@[j] == BagNode::Peak((lo + j) as usize),
        decreases hi - i,
    {
        r.push(BagNode::Peak(i));
        i = i + 1;
    }
    r
}

/// Build the bag over the peaks `[start, peak_count)`.
pub fn bag_shape_from(start: usize, peak_count: usize, k: usize) -> (node: BagNode)
    requires
        start < peak_count,
        peak_count - start == 1 || k >= 2,
    ensures
        shape_ok(node, start as nat, peak_count as nat, k as nat),
    decreases peak_count - start,
{
    let rem = peak_count - start;
    if rem == 1 {
        return BagNode::Peak(start);
    }
    if rem <= k {
        return BagNode::Bag(peak_run(start, peak_count));
    }
    let mut children = peak_run(start, start + k - 1);
    let rest = bag_shape_from(start + k - 1, peak_count, k);
    children.push(rest);
    proof {
        assert(children@[k - 1] == rest);
    }
    BagNode::Bag(children)
}

/// Build the backward bag over `peak_count` peaks at arity `k`; `None` for an
/// empty peak set.
pub fn bag_shape(peak_count: usize, k: usize) -> (shape: Option<BagNode>)
    requires
        peak_count <= 1 || k >= 2,
    ensures
        shape is None <==> peak_count == 0,
        shape matches Some(node) ==> shape_ok(node, 0, peak_count as nat, k as nat),
{
    if peak_count == 0 {
        return None;
    }
    Some(bag_shape_from(0, peak_count, k))
}

/// Whether `node`, the bag over the peaks `[start, count)`, covers the peak
/// `target`.
pub fn covers_peak(
    node: &BagNode,
    target: usize,
    Ghost(start): Ghost<nat>,
    Ghost(count): Ghost<nat>,
    Ghost(k): Ghost<nat>,
) -> (b: bool)
    requires
        shape_ok(*node, start, count, k),
    ensures
        b == (start <= target < count),
    decreases count - start,
{
    match node {
        BagNode::Peak(f_idx) => *f_idx == target,
        BagNode::Bag(children) => {
            let ghost rem = count - start;
            let mut i: usize = 0;
            while i < children.len()
                invariant
                    *node == BagNode::Bag(*children),
                    shape_ok(*node, start, count, k),
                    rem == count - start,
                    rem >= 2,
                    i <= children.len(),
                    !(start <= target < (if rem > k && i == k { count as int } else { start + i })),
                decreases children.len() - i,
            {
                let ghost last = rem > k && i == k - 1;
                let ghost s2: nat = (start + i) as nat;
                let ghost c2: nat = if last { count } else { (start + i + 1) as nat };
                let hit = covers_peak(&children[i], target, Ghost(s2), Ghost(c2), Ghost(k));
                if hit {
                    return true;
                }
                i = i + 1;
            }
            false
        },
    }
}


/// The root of the backward bag over the peaks `[start, len)`: one peak
/// promotes, at most `k` fold into one node, more than `k` hash the oldest
/// `k - 1` with the bag of the rest.
pub open spec fn bag_from<H: Hasher>(h: H, peaks: Seq<Seq<u8>>, start: nat, k: nat) -> Seq<u8>
    decreases peaks.len() - start,
{
    if start >= peaks.len() {
        seq![]
    } else if peaks.len() - start == 1 {
        peaks[start as int]
    } else if peaks.len() - start <= k || k < 2 {
        spec_nary_mr(h, peaks.subrange(start as int, peaks.len() as int))
    } else {
        spec_nary_mr(
            h,
            peaks.subrange(start as int, start + k - 1).push(
                bag_from(h, peaks, (start + k - 1) as nat, k),
            ),
        )
    }
}

/// The digests of the children of the bag node over `[start, len)`.
pub open spec fn bag_children<H: Hasher>(h: H, peaks: Seq<Seq<u8>>, start: nat, k: nat) -> Seq<
    Seq<u8>,
> {
    if peaks.len() - start <= k {
        peaks.subrange(start as int, peaks.len() as int)
    } else {
        peaks.subrange(start as int, start + k - 1).push(bag_from(h, peaks, (start + k - 1) as nat, k))
    }
}

/// The member root a frontier's peaks bag into: the empty root for no peaks.
pub open spec fn bag_root<H: Hasher>(h: H, peaks: Seq<Seq<u8>>, k: nat) -> Seq<u8> {
    if peaks.len() == 0 {
        h.spec_empty()
    } else {
        bag_from(h, peaks, 0, k)
    }
}

/// The digests of the children of `Bag(children)`, the bag over `[start, len)`.
fn child_digests<H: Hasher>(
    hasher: &H,
    children: &Vec<BagNode>,
    peaks: &[Vec<u8>],
    Ghost(start): Ghost<nat>,
    Ghost(k): Ghost<nat>,
) -> (r: Vec<Vec<u8>>)
    requires
        shape_ok(BagNode::Bag(*children), start, peaks@.len(), k),
        peaks@.len() - start >= 2,
    ensures
        digests_view(r@) == bag_children(*hasher, digests_view(peaks@), start, k),
    decreases peaks@.len() - start, 0nat,
{
    let ghost n = peaks@.len();
    let ghost ps = digests_view(peaks@);
    let ghost want = bag_children(*hasher, ps, start, k);
    let mut out: Vec<Vec<u8>> = Vec::new();
    let mut i: usize = 0;
    while i < children.len()
        invariant
            shape_ok(BagNode::Bag(*children), start, n, k),
            n == peaks@.len(),
            ps == digests_view(peaks@),
            want == bag_children(*hasher, ps, start, k),
            n - start >= 2,
            children.len() == want.len(),
            i <= children.len(),
            digests_view(out@) == want.take(i as int),
        decreases children.len() - i,
    {
        let ghost before = out@;
        match &children[i] {
            BagNode::Peak(f) => {
                proof {
                    if n - start > k && i == k - 1 {
                        assert(shape_ok(children@[i as int], (start + k - 1) as nat, n, k));
                        assert(false);
                    }
                    assert(children@[i as int] == BagNode::Peak((start + i) as usize));
                    assert(want[i as int] == ps[start + i]);
                }
                out.push(copy_bytes(&peaks[*f]));
            },
            BagNode::Bag(_) => {
                proof {
                    assert(n - start > k && i == k - 1);
                }
                let d = eval_bag(hasher, &children[i], peaks, Ghost((start + k - 1) as nat), Ghost(k));
                out.push(d);
            },
        }
        proof {
            lemma_digests_push(before, out@.last());
            assert(want.take(i + 1) =~= want.take(i as int).push(want[i as int]));
        }
        i = i + 1;
    }
    proof {
        assert(want.take(i as int) =~= want);
    }
    out
}

/// Evaluate the bag over `[start, len)` to its digest.
fn eval_bag<H: Hasher>(
    hasher: &H,
    node: &BagNode,
    peaks: &[Vec<u8>],
    Ghost(start): Ghost<nat>,
    Ghost(k): Ghost<nat>,
) -> (r: Vec<u8>)
    requires
        shape_ok(*node, start, peaks@.len(), k),
    ensures
        r@ == bag_from(*hasher, digests_view(peaks@), start, k),
    decreases peaks@.len() - start, 1nat,
{
    match node {
        BagNode::Peak(f_idx) => copy_bytes(&peaks[*f_idx]),
        BagNode::Bag(children) => {
            let ds = child_digests(hasher, children, peaks, Ghost(start), Ghost(k));
            nary_mr(hasher, ds.as_slice())
        },
    }
}

/// Bag a frontier's peaks into the member root; the empty root for no peaks.
pub fn bag_peaks<H: Hasher>(hasher: &H, peaks: &[Vec<u8>], k: u64) -> (root: Vec<u8>)
    requires
        peaks@.len() <= 1 || 2 <= k <= usize::MAX,
    ensures
        root@ == bag_root(*hasher, digests_view(peaks@), k as nat),
{
    let kk = k as usize;
    match bag_shape(peaks.len(), kk) {
        None => hasher.empty(),
        Some(shape) => eval_bag(hasher, &shape, peaks, Ghost(0), Ghost(kk as nat)),
    }
}


/// The steps of the bag path from the root of the bag over `[start, len)`
/// down to peak `target`, root first: at each bag node crossed, the other
/// children's digests and the position of the child on the path.
pub open spec fn bag_steps_from<H: Hasher>(
    h: H,
    peaks: Seq<Seq<u8>>,
    start: nat,
    k: nat,
    target: nat,
) -> Seq<(Seq<Seq<u8>>, nat)>
    decreases peaks.len() - start,
{
    let n = peaks.len();
    if start >= n || n - start == 1 || target < start || target >= n || k < 2 {
        seq![]
    } else {
        let ch = bag_children(h, peaks, start, k);
        if n - start <= k || target < start + k - 1 {
            seq![(without(ch, (target - start) as nat), (target - start) as nat)]
        } else {
            seq![(without(ch, (k - 1) as nat), (k - 1) as nat)] + bag_steps_from(
                h,
                peaks,
                (start + k - 1) as nat,
                k,
                target,
            )
        }
    }
}

/// The bag path of peak `target`, ordered from the peak up to the root.
pub open spec fn bag_path_spec<H: Hasher>(h: H, peaks: Seq<Seq<u8>>, target: nat, k: nat) -> Seq<
    (Seq<Seq<u8>>, nat),
> {
    bag_steps_from(h, peaks, 0, k, target).reverse()
}

/// Along its bag path, a peak recomputes the bag over `[start, len)`.
proof fn lemma_bag_steps_root<H: Hasher>(h: H, peaks: Seq<Seq<u8>>, start: nat, k: nat, target: nat)
    requires
        k >= 2,
        start <= target < peaks.len(),
    ensures
        path_root(h, peaks[target as int], bag_steps_from(h, peaks, start, k, target).reverse())
            == Some(bag_from(h, peaks, start, k)),
    decreases peaks.len() - start,
{
    let n = peaks.len();
    let steps = bag_steps_from(h, peaks, start, k, target);
    if n - start == 1 {
        assert(steps.reverse() =~= Seq::<(Seq<Seq<u8>>, nat)>::empty());
    } else {
        let ch = bag_children(h, peaks, start, k);
        if n - start <= k || target < start + k - 1 {
            let t = (target - start) as nat;
            assert(ch[t as int] == peaks[target as int]);
            lemma_with_without(ch, t);
            let st = seq![(without(ch, t), t)];
            assert(steps.reverse() =~= st);
            assert(st.drop_last() =~= Seq::<(Seq<Seq<u8>>, nat)>::empty());
            assert(path_root(h, peaks[target as int], st.drop_last()) == Some(peaks[target as int]));
            if n - start <= k {
                assert(ch =~= peaks.subrange(start as int, n as int));
            }
        } else {
            let t = (k - 1) as nat;
            let rest = bag_steps_from(h, peaks, (start + k - 1) as nat, k, target);
            let st = seq![(without(ch, t), t)];
            lemma_bag_steps_root(h, peaks, (start + k - 1) as nat, k, target);
            assert(steps == st + rest);
            assert(steps.reverse() =~= rest.reverse() + st);
            lemma_path_root_append(h, peaks[target as int], rest.reverse(), st);
            let inner = bag_from(h, peaks, (start + k - 1) as nat, k);
            assert(ch[t as int] == inner);
            lemma_with_without(ch, t);
            assert(st.drop_last() =~= Seq::<(Seq<Seq<u8>>, nat)>::empty());
            assert(path_root(h, inner, st.drop_last()) == Some(inner));
        }
    }
}

/// Prove-to-peak then bag: every peak of a frontier recomputes the bagged
/// member root along its bag path.
pub proof fn lemma_bag_path_root<H: Hasher>(h: H, peaks: Seq<Seq<u8>>, target: nat, k: nat)
    requires
        k >= 2,
        target < peaks.len(),
    ensures
        path_root(h, peaks[target as int], bag_path_spec(h, peaks, target, k)) == Some(
            bag_root(h, peaks, k),
        ),
{
    lemma_bag_steps_root(h, peaks, 0, k, target);
}

/// A formed peak is permanent: appending a peak leaves the bag path of every
/// earlier peak recomputing the new bagged root from the same peak digest.
pub proof fn lemma_witness_survives_append<H: Hasher>(
    h: H,
    peaks: Seq<Seq<u8>>,
    extra: Seq<u8>,
    target: nat,
    k: nat,
)
    requires
        k >= 2,
        target < peaks.len(),
    ensures
        peaks.push(extra)[target as int] == peaks[target as int],
        path_root(h, peaks[target as int], bag_path_spec(h, peaks.push(extra), target, k)) == Some(
            bag_root(h, peaks.push(extra), k),
        ),
{
    lemma_bag_path_root(h, peaks.push(extra), target, k);
}

/// The index of the child of `Bag(children)`, the bag over `[start, len)`,
/// that covers `target`; `children.len()` when none does.
fn find_cover(
    children: &Vec<BagNode>,
    target: usize,
    Ghost(start): Ghost<nat>,
    Ghost(count): Ghost<nat>,
    Ghost(k): Ghost<nat>,
) -> (pos: usize)
    requires
        shape_ok(BagNode::Bag(*children), start, count, k),
        count - start >= 2,
    ensures
        !(start <= target < count) ==> pos == children.len(),
        start <= target < count ==> pos == (if count - start > k && target >= start + k - 1 {
            k - 1
        } else {
            target - start
        }),
{
    let ghost rem = count - start;
    let mut i: usize = 0;
    while i < children.len()
        invariant
            shape_ok(BagNode::Bag(*children), start, count, k),
            rem == count - start,
            rem >= 2,
            i <= children.len(),
            !(start <= target < (if rem > k && i == k { count as int } else { start + i })),
        decreases children.len() - i,
    {
        let ghost last = rem > k && i == k - 1;
        let ghost s2: nat = (start + i) as nat;
        let ghost c2: nat = if last { count } else { (start + i + 1) as nat };
        if covers_peak(&children[i], target, Ghost(s2), Ghost(c2), Ghost(k)) {
            return i;
        }
        i = i + 1;
    }
    i
}

/// `ds` without its element at `pos`.
fn digests_without(ds: &Vec<Vec<u8>>, pos: usize) -> (r: Vec<Vec<u8>>)
    requires
        pos < ds.len(),
    ensures
        digests_view(r@) == without(digests_view(ds@), pos as nat),
{
    let ghost dv = digests_view(ds@);
    let mut r: Vec<Vec<u8>> = Vec::new();
    let mut i: usize = 0;
    while i < ds.len()
        invariant
            pos < ds.len(),
            dv == digests_view(ds@),
            i <= ds.len(),
            digests_view(r@) == (if i <= pos {
                dv.take(i as int)
            } else {
                without(dv.take(i as int), pos as nat)
            }),
        decreases ds.len() - i,
    {
        let ghost before = r@;
        if i != pos {
            r.push(copy_bytes(&ds[i]));
            proof {
                lemma_digests_push(before, r@.last());
            }
        }
        proof {
            let a = dv.take(i as int);
            let b = dv.take(i + 1);
            assert(b =~= a.push(dv[i as int]));
            if i < pos {
                assert(digests_view(r@) =~= b);
            } else if i == pos {
                assert(without(b, pos as nat) =~= a);
            } else {
                assert(without(b, pos as nat) =~= without(a, pos as nat).push(dv[i as int]));
            }
        }
        i = i + 1;
    }
    proof {
        assert(dv.take(i as int) =~= dv);
    }
    r
}

/// Walk from `node`, the bag over `[start, len)`, down to peak `f_idx`,
/// pushing one step per bag node crossed (root first).
fn descend_bag_path<H: Hasher>(
    node: &BagNode,
    f_idx: usize,
    peaks: &[Vec<u8>],
    hasher: &H,
    out: &mut Vec<ProofStep>,
    Ghost(start): Ghost<nat>,
    Ghost(k): Ghost<nat>,
) -> (found: bool)
    requires
        shape_ok(*node, start, peaks@.len(), k),
    ensures
        found == (start <= f_idx < peaks@.len()),
        steps_view(final(out)@) == steps_view(old(out)@) + bag_steps_from(
            *hasher,
            digests_view(peaks@),
            start,
            k,
            f_idx as nat,
        ),
    decreases peaks@.len() - start,
{
    let ghost n = peaks@.len();
    let ghost ps = digests_view(peaks@);
    match node {
        BagNode::Peak(idx) => {
            proof {
                assert(steps_view(out@) =~= steps_view(old(out)@) + Seq::empty());
            }
            *idx == f_idx
        },
        BagNode::Bag(children) => {
            let position = find_cover(children, f_idx, Ghost(start), Ghost(n), Ghost(k));
            if position == children.len() {
                proof {
                    assert(steps_view(out@) =~= steps_view(old(out)@) + Seq::empty());
                }
                return false;
            }
            let ds = child_digests(hasher, children, peaks, Ghost(start), Ghost(k));
            proof {
                assert(digests_view(ds@).len() == ds@.len());
                assert(bag_children(*hasher, ps, start, k).len() == children.len());
            }
            let siblings = digests_without(&ds, position);
            let step = ProofStep { siblings, position };
            let ghost before = out@;
            out.push(step);
            proof {
                assert(steps_view(out@) =~= steps_view(before).push(crate::proofs::step_view(step)));
            }
            match &children[position] {
                BagNode::Peak(idx) => {
                    proof {
                        if n - start > k && position == k - 1 {
                            assert(shape_ok(children@[position as int], (start + k - 1) as nat, n, k));
                            assert(false);
                        }
                        assert(children@[position as int] == BagNode::Peak((start + position) as usize));
                        let t = (f_idx - start) as nat;
                        assert(bag_steps_from(*hasher, ps, start, k, f_idx as nat) =~= seq![
                            (without(bag_children(*hasher, ps, start, k), t), t),
                        ]);
                        assert(steps_view(out@) =~= steps_view(old(out)@) + bag_steps_from(
                            *hasher,
                            ps,
                            start,
                            k,
                            f_idx as nat,
                        ));
                    }
                    *idx == f_idx
                },
                BagNode::Bag(_) => {
                    proof {
                        assert(n - start > k && position == k - 1);
                    }
                    let ghost mid = out@;
                    let found = descend_bag_path(
                        &children[position],
                        f_idx,
                        peaks,
                        hasher,
                        out,
                        Ghost((start + k - 1) as nat),
                        Ghost(k),
                    );
                    proof {
                        let rest = bag_steps_from(*hasher, ps, (start + k - 1) as nat, k, f_idx as nat);
                        let t = (k - 1) as nat;
                        assert(bag_steps_from(*hasher, ps, start, k, f_idx as nat) =~= seq![
                            (without(bag_children(*hasher, ps, start, k), t), t),
                        ] + rest);
                        assert(steps_view(out@) =~= steps_view(old(out)@) + bag_steps_from(
                            *hasher,
                            ps,
                            start,
                            k,
                            f_idx as nat,
                        ));
                    }
                    found
                },
            }
        },
    }
}

/// The steps of `v` in reverse order.
fn reverse_steps(v: Vec<ProofStep>) -> (r: Vec<ProofStep>)
    ensures
        steps_view(r@) == steps_view(v@).reverse(),
{
    let mut r: Vec<ProofStep> = Vec::new();
    let mut v = v;
    let ghost orig = v@;
    while v.len() > 0
        invariant
            orig.len() == v@.len() + r@.len(),
            v@ == orig.take(v@.len() as int),
            steps_view(r@) == steps_view(orig.skip(v@.len() as int)).reverse(),
        decreases v@.len(),
    {
        let ghost before = r@;
        let ghost len = v@.len();
        let s = v.pop().unwrap();
        r.push(s);
        proof {
            assert(v@ =~= orig.take(v@.len() as int));
            assert(steps_view(orig.skip(v@.len() as int)) =~= seq![crate::proofs::step_view(s)]
                + steps_view(orig.skip(len as int)));
            assert(steps_view(r@) =~= steps_view(before).push(crate::proofs::step_view(s)));
            assert(steps_view(orig.skip(v@.len() as int)).reverse() =~= steps_view(
                orig.skip(len as int),
            ).reverse().push(crate::proofs::step_view(s)));
        }
    }
    proof {
        assert(orig.skip(0) =~= orig);
    }
    r
}

/// The bag path of peak `f_idx`, ordered from the peak up to the root; empty
/// when the peak is the only one or there are none.
pub fn bag_path<H: Hasher>(peaks: &[Vec<u8>], f_idx: usize, hasher: &H, k: u64) -> (steps: Vec<
    ProofStep,
>)
    requires
        peaks@.len() <= 1 || 2 <= k <= usize::MAX,
    ensures
        steps_view(steps@) == bag_path_spec(*hasher, digests_view(peaks@), f_idx as nat, k as nat),
{
    let mut steps: Vec<ProofStep> = Vec::new();
    let kk = k as usize;
    match bag_shape(peaks.len(), kk) {
        Some(shape) => {
            let _ = descend_bag_path(&shape, f_idx, peaks, hasher, &mut steps, Ghost(0), Ghost(kk as nat));
            proof {
                assert(steps_view(Seq::<ProofStep>::empty()) =~= Seq::empty());
            }
            reverse_steps(steps)
        },
        None => {
            proof {
                assert(steps_view(steps@) =~= bag_path_spec(*hasher, digests_view(peaks@), f_idx as nat, k as nat));
            }
            steps
        },
    }
}


/// One step of an inclusion skeleton: the position of the path node among
/// its parent's children and how many siblings it has.
#[derive(Debug, Clone, Copy, PartialEq, Eq)]
pub struct SkeletonStep {
    /// Position of the path node among its parent's children.
    pub position: usize,
    /// Number of siblings of the path node.
    pub sibling_count: usize,
}

/// Skeleton steps as plain values `(position, sibling_count)`.
pub open spec fn skels_view(v: Seq<SkeletonStep>) -> Seq<(nat, nat)> {
    v.map_values(|s: SkeletonStep| (s.position as nat, s.sibling_count as nat))
}

/// The skeleton of the bag path from the root of the bag over `[start, n)`
/// down to peak `target`, root first.
pub open spec fn bag_skel(n: nat, start: nat, k: nat, target: nat) -> Seq<(nat, nat)>
    decreases n - start,
{
    if start >= n || n - start == 1 || target < start || target >= n || k < 2 {
        seq![]
    } else if n - start <= k {
        seq![((target - start) as nat, (n - start - 1) as nat)]
    } else if target < start + k - 1 {
        seq![((target - start) as nat, (k - 1) as nat)]
    } else {
        seq![((k - 1) as nat, (k - 1) as nat)] + bag_skel(n, (start + k - 1) as nat, k, target)
    }
}

/// The steps inside a perfect mountain of `height` levels from the leaf at
/// `offset` up to the peak: the base-`k` digits of the offset, low first,
/// each with `k - 1` siblings.
pub open spec fn digit_steps(offset: nat, height: nat, k: nat) -> Seq<(nat, nat)> {
    Seq::new(height, |i: int| (((offset / pow(k, i as nat)) % k) as nat, (k - 1) as nat))
}

/// The skeleton steps inside a perfect mountain of `height` levels from the
/// leaf at `off0`: its base-`k` digits, low first.
pub(crate) fn digit_skeleton(off0: u64, height: u32, k: u64) -> (steps: Vec<SkeletonStep>)
    requires
        2 <= k <= 256,
    ensures
        skels_view(steps@) == digit_steps(off0 as nat, height as nat, k as nat),
{
    let k_usize = k as usize;
    let mut steps: Vec<SkeletonStep> = Vec::new();
    let mut offset = off0;
    let mut i: u32 = 0;
    proof {
        assert(pow(k as nat, 0) == 1);
        assert(skels_view(steps@) =~= digit_steps(off0 as nat, 0, k as nat));
    }
    while i < height
        invariant
            2 <= k <= 256,
            k_usize == k,
            i <= height,
            offset as nat == (off0 as nat) / pow(k as nat, i as nat),
            skels_view(steps@) == digit_steps(off0 as nat, i as nat, k as nat),
        decreases height - i,
    {
        let ghost before = steps@;
        steps.push(SkeletonStep { position: (offset % k) as usize, sibling_count: k_usize - 1 });
        proof {
            lemma_pow_positive(k as nat, i as nat);
            lemma_pow_succ(k as nat, i as nat);
            vstd::arithmetic::div_mod::lemma_div_denominator(
                off0 as int,
                pow(k as nat, i as nat) as int,
                k as int,
            );
            assert(pow(k as nat, i as nat) * k == k * pow(k as nat, i as nat)) by (nonlinear_arith);
            let ds = digit_steps(off0 as nat, (i + 1) as nat, k as nat);
            assert(ds[i as int] == (((off0 as nat / pow(k as nat, i as nat)) % (k as nat)) as nat, (k - 1) as nat));
            assert(skels_view(steps@).last() == ((offset % k) as nat, (k - 1) as nat));
            assert(skels_view(steps@) =~= skels_view(before).push(skels_view(steps@).last()));
            assert(skels_view(steps@) =~= ds);
        }
        offset = offset / k;
        i = i + 1;
    }
    steps
}

/// The inclusion skeleton of leaf `index` in a log of `n` leaves at arity
/// `k`, leaf to root: the digit steps inside its mountain, then the bag
/// steps from the mountain's peak to the root. `None` for an arity outside
/// `2..=256`, an empty log, or an index outside it.
pub open spec fn mountain_skel(k: nat, n: nat, index: nat) -> Option<Seq<(nat, nat)>> {
    if !(2 <= k <= 256) || n == 0 || index >= n {
        None
    } else {
        let fs = frontier_spec(n, k);
        let f = peak_of(fs, index, k);
        Some(
            digit_steps((index - fs[f].0) as nat, fs[f].1, k) + bag_skel(
                fs.len(),
                0,
                k,
                f as nat,
            ).reverse(),
        )
    }
}

/// Walk from `node`, the bag over `[start, count)`, down to peak `target`,
/// pushing one skeleton step per bag node crossed (root first).
fn descend_bag(
    node: &BagNode,
    target: usize,
    out: &mut Vec<SkeletonStep>,
    Ghost(start): Ghost<nat>,
    Ghost(count): Ghost<nat>,
    Ghost(k): Ghost<nat>,
) -> (found: bool)
    requires
        shape_ok(*node, start, count, k),
    ensures
        found == (start <= target < count),
        skels_view(final(out)@) == skels_view(old(out)@) + bag_skel(count, start, k, target as nat),
    decreases count - start,
{
    match node {
        BagNode::Peak(f_idx) => {
            proof {
                assert(skels_view(out@) =~= skels_view(old(out)@) + Seq::empty());
            }
            *f_idx == target
        },
        BagNode::Bag(children) => {
            let position = find_cover(children, target, Ghost(start), Ghost(count), Ghost(k));
            if position == children.len() {
                proof {
                    assert(skels_view(out@) =~= skels_view(old(out)@) + Seq::empty());
                }
                return false;
            }
            let step = SkeletonStep { position, sibling_count: children.len() - 1 };
            let ghost before = out@;
            out.push(step);
            proof {
                assert(skels_view(out@) =~= skels_view(before).push(
                    (position as nat, (children.len() - 1) as nat),
                ));
            }
            match &children[position] {
                BagNode::Peak(f_idx) => {
                    proof {
                        if count - start > k && position == k - 1 {
                            assert(shape_ok(children@[position as int], (start + k - 1) as nat, count, k));
                            assert(false);
                        }
                        assert(children@[position as int] == BagNode::Peak((start + position) as usize));
                        assert(skels_view(out@) =~= skels_view(old(out)@) + bag_skel(
                            count,
                            start,
                            k,
                            target as nat,
                        ));
                    }
                    *f_idx == target
                },
                BagNode::Bag(_) => {
                    proof {
                        assert(count - start > k && position == k - 1);
                    }
                    let found = descend_bag(
                        &children[position],
                        target,
                        out,
                        Ghost((start + k - 1) as nat),
                        Ghost(count),
                        Ghost(k),
                    );
                    proof {
                        assert(skels_view(out@) =~= skels_view(old(out)@) + bag_skel(
                            count,
                            start,
                            k,
                            target as nat,
                        ));
                    }
                    found
                },
            }
        },
    }
}

/// Append to `steps` the bag-path skeleton of peak `f_idx` in `shape`, the
/// bag over `[0, count)`, ordered from the peak up to the root.
fn bag_path_steps(
    shape: &BagNode,
    f_idx: usize,
    steps: &mut Vec<SkeletonStep>,
    Ghost(count): Ghost<nat>,
    Ghost(k): Ghost<nat>,
)
    requires
        shape_ok(*shape, 0, count, k),
    ensures
        skels_view(final(steps)@) == skels_view(old(steps)@) + bag_skel(count, 0, k, f_idx as nat).reverse(),
{
    let mut down: Vec<SkeletonStep> = Vec::new();
    let _ = descend_bag(shape, f_idx, &mut down, Ghost(0), Ghost(count), Ghost(k));
    proof {
        assert(skels_view(Seq::<SkeletonStep>::empty()) =~= Seq::empty());
    }
    let ghost d = skels_view(down@);
    let ghost base = skels_view(steps@);
    let mut i = down.len();
    while i > 0
        invariant
            i <= down@.len(),
            d == skels_view(down@),
            skels_view(steps@) == base + d.skip(i as int).reverse(),
        decreases i,
    {
        i = i - 1;
        let ghost before = steps@;
        steps.push(down[i]);
        proof {
            assert(d.skip(i as int) =~= seq![d[i as int]] + d.skip(i + 1));
            assert(d.skip(i as int).reverse() =~= d.skip(i + 1).reverse().push(d[i as int]));
            assert(skels_view(steps@) =~= skels_view(before).push(d[i as int]));
        }
    }
    proof {
        assert(d.skip(0) =~= d);
    }
}

/// The inclusion skeleton of leaf `index` in a log of `tree_size` leaves at
/// arity `k`, leaf to root; `None` for an arity outside `2..=256`, an empty
/// log, or an index outside it.
pub fn mountain_skeleton(k: u64, tree_size: u64, index: u64) -> (sk: Option<Vec<SkeletonStep>>)
    ensures
        match sk {
            Some(v) => mountain_skel(k as nat, tree_size as nat, index as nat) == Some(skels_view(v@)),
            None => mountain_skel(k as nat, tree_size as nat, index as nat) is None,
        },
{
    if k < 2 || k > 256 {
        return None;
    }
    let coords = frontier_for_size(tree_size, k);
    proof {
        if tree_size > 0 {
            crate::topology::lemma_frontier_covers(tree_size as nat, k as nat, 0, 0);
        }
    }
    if coords.len() == 0 || index >= tree_size {
        return None;
    }
    let ghost fs = frontier_spec(tree_size as nat, k as nat);
    let f_idx = find_peak(&coords, index, tree_size, k);
    let (left, height) = coords[f_idx];
    proof {
        assert(fs[f_idx as int] == (left as nat, height as nat));
        lemma_frontier_within(tree_size as nat, k as nat, 0);
        assert(fs[f_idx as int].0 + pow(k as nat, fs[f_idx as int].1) <= tree_size);
    }
    let k_usize = k as usize;
    let mut steps = digit_skeleton(index - left, height, k);
    let shape = match bag_shape(coords.len(), k_usize) {
        Some(s) => s,
        None => return None,
    };
    bag_path_steps(&shape, f_idx, &mut steps, Ghost(coords.len() as nat), Ghost(k as nat));
    Some(steps)
}


/// A path is pinned by a skeleton: as many steps, each at the skeleton's
/// position with the skeleton's number of siblings.
pub open spec fn pinned(sk: Seq<(nat, nat)>, steps: Seq<(Seq<Seq<u8>>, nat)>) -> bool {
    &&& sk.len() == steps.len()
    &&& forall|i: int|
        #![trigger steps[i]]
        0 <= i < sk.len() ==> (steps[i].1 == sk[i].0 && steps[i].0.len() == sk[i].1)
}

/// The digest a path pinned by `skeleton` recomputes from `leaf`; `None`
/// when the path does not match the skeleton or a step is malformed.
pub open spec fn skeleton_root<H: Hasher>(
    h: H,
    leaf: Seq<u8>,
    sk: Seq<(nat, nat)>,
    steps: Seq<(Seq<Seq<u8>>, nat)>,
) -> Option<Seq<u8>> {
    if pinned(sk, steps) {
        path_root(h, leaf, steps)
    } else {
        None
    }
}

/// Recompute the root from `leaf` along `path`, checking each step against
/// `skeleton`.
pub fn reconstruct_inclusion_root<H: Hasher>(
    hasher: &H,
    leaf: &[u8],
    skeleton: &[SkeletonStep],
    path: &[ProofStep],
) -> (root: Option<Vec<u8>>)
    ensures
        match root {
            Some(r) => skeleton_root(*hasher, leaf@, skels_view(skeleton@), steps_view(path@)) == Some(r@),
            None => skeleton_root(*hasher, leaf@, skels_view(skeleton@), steps_view(path@)) is None,
        },
{
    let ghost sk = skels_view(skeleton@);
    let ghost steps = steps_view(path@);
    if skeleton.len() != path.len() {
        return None;
    }
    let mut i: usize = 0;
    while i < path.len()
        invariant
            sk == skels_view(skeleton@),
            steps == steps_view(path@),
            skeleton@.len() == path@.len(),
            i <= path@.len(),
            forall|j: int|
                #![trigger steps[j]]
                0 <= j < i ==> (steps[j].1 == sk[j].0 && steps[j].0.len() == sk[j].1),
        decreases path@.len() - i,
    {
        if path[i].position != skeleton[i].position || path[i].siblings.len() != skeleton[i].sibling_count {
            proof {
                assert(!(steps[i as int].1 == sk[i as int].0 && steps[i as int].0.len() == sk[i as int].1));
                assert(sk.len() == skeleton@.len());
                assert(!pinned(sk, steps));
            }
            return None;
        }
        i = i + 1;
    }
    let mut current: Vec<u8> = copy_slice(leaf);
    let mut i: usize = 0;
    while i < path.len()
        invariant
            steps == steps_view(path@),
            i <= path@.len(),
            path_root(*hasher, leaf@, steps.take(i as int)) == Some(current@),
        decreases path@.len() - i,
    {
        let step = &path[i];
        proof {
            assert(steps.take(i + 1).drop_last() =~= steps.take(i as int));
            assert(steps.take(i + 1).last() == step_view(*step));
        }
        if step.siblings.len() == 0 || step.position > step.siblings.len() {
            proof {
                crate::proofs::lemma_path_root_fails(*hasher, leaf@, steps, i as int);
            }
            return None;
        }
        current = step_parent(hasher, &current, step);
        i = i + 1;
    }
    proof {
        assert(steps.take(path@.len() as int) =~= steps);
    }
    Some(current)
}

/// The older peaks that merged into the boundary mountain: the left
/// siblings along a climb, highest step first.
pub open spec fn merged_left(steps: Seq<(Seq<Seq<u8>>, nat)>) -> Seq<Seq<u8>>
    decreases steps.len(),
{
    if steps.len() == 0 {
        seq![]
    } else {
        let s = steps.last();
        let left = if s.1 <= s.0.len() { s.1 } else { s.0.len() };
        s.0.take(left as int) + merged_left(steps.drop_last())
    }
}

/// The (old root, new root) pair a consistency proof reconstructs, or
/// `None` when it is malformed: the boundary peak (the old frontier's last)
/// must climb along `path`, pinned by the slice of its inclusion skeleton
/// between the boundary's height and its mountain's, to
/// `new_peaks[split]`; the new root bags `new_peaks`, the old root bags the
/// new peaks left of the boundary mountain, the older peaks that merged into
/// it, and the boundary peak.
pub open spec fn consistency_roots<H: Hasher>(
    h: H,
    old_size: nat,
    new_size: nat,
    k: nat,
    boundary: Seq<u8>,
    path: Seq<(Seq<Seq<u8>>, nat)>,
    new_peaks: Seq<Seq<u8>>,
    split: nat,
) -> Option<(Seq<u8>, Seq<u8>)> {
    let dl = h.spec_empty().len();
    let ofs = frontier_spec(old_size, k);
    let nfs = frontier_spec(new_size, k);
    if dl == 0 || dl > 64 || boundary.len() != dl || old_size == 0 || old_size >= new_size || !(2
        <= k <= 256) {
        None
    } else if new_peaks.len() != nfs.len() || split >= nfs.len() || exists|i: int|
        0 <= i < new_peaks.len() && #[trigger] new_peaks[i].len() != dl {
        None
    } else {
        let b = ofs.last();
        let nb = nfs[split as int];
        if b.0 < nb.0 || b.0 >= nb.0 + pow(k, nb.1) || nb.1 < b.1 {
            None
        } else {
            match mountain_skel(k, new_size, b.0) {
                None => None,
                Some(sk) => if sk.len() < nb.1 {
                    None
                } else if skeleton_root(h, boundary, sk.subrange(b.1 as int, nb.1 as int), path) != Some(
                    new_peaks[split as int],
                ) {
                    None
                } else {
                    Some(
                        (
                            bag_root(
                                h,
                                new_peaks.take(split as int) + merged_left(path) + seq![boundary],
                                k,
                            ),
                            bag_root(h, new_peaks, k),
                        ),
                    )
                },
            }
        }
    }
}

/// Reconstruct the old and new roots from a consistency proof: the boundary
/// peak's climb to its new mountain, the new frontier peaks, and the slot of
/// that mountain. `None` when the proof is malformed.
#[verifier::rlimit(50)]
pub fn reconstruct_consistency_roots<H: Hasher>(
    hasher: &H,
    old_size: u64,
    new_size: u64,
    arity: u64,
    boundary_hash: &[u8],
    peak_path: &[ProofStep],
    new_peaks: &[Vec<u8>],
    split_index: usize,
) -> (roots: Option<(Vec<u8>, Vec<u8>)>)
    ensures
        match roots {
            Some((o, n)) => consistency_roots(
                *hasher,
                old_size as nat,
                new_size as nat,
                arity as nat,
                boundary_hash@,
                steps_view(peak_path@),
                digests_view(new_peaks@),
                split_index as nat,
            ) == Some((o@, n@)),
            None => consistency_roots(
                *hasher,
                old_size as nat,
                new_size as nat,
                arity as nat,
                boundary_hash@,
                steps_view(peak_path@),
                digests_view(new_peaks@),
                split_index as nat,
            ) is None,
        },
{
    let ghost h = *hasher;
    let ghost np = digests_view(new_peaks@);
    let ghost path = steps_view(peak_path@);
    let digest_len = hasher.empty().len();
    if digest_len == 0 || digest_len > 64 {
        return None;
    }
    if boundary_hash.len() != digest_len {
        return None;
    }
    if old_size == 0 || old_size >= new_size {
        return None;
    }
    if arity < 2 || arity > 256 {
        return None;
    }
    let k = arity;
    let old_coords = frontier_for_size(old_size, k);
    let new_coords = frontier_for_size(new_size, k);
    proof {
        crate::topology::lemma_frontier_covers(old_size as nat, k as nat, 0, 0);
        lemma_frontier_within(new_size as nat, k as nat, 0);
    }
    let (boundary_left, boundary_height) = old_coords[old_coords.len() - 1];
    if new_peaks.len() != new_coords.len() {
        return None;
    }
    if split_index >= new_coords.len() {
        return None;
    }
    if !all_of_len(new_peaks, digest_len) {
        return None;
    }
    let ghost ofs = frontier_spec(old_size as nat, k as nat);
    let ghost nfs = frontier_spec(new_size as nat, k as nat);
    proof {
        assert(ofs.last() == (boundary_left as nat, boundary_height as nat));
    }
    let (new_left, new_height) = new_coords[split_index];
    proof {
        assert(nfs[split_index as int] == (new_left as nat, new_height as nat));
        assert(nfs[split_index as int].0 + pow(k as nat, nfs[split_index as int].1) <= new_size);
    }
    let cap = match checked_pow(k, new_height) {
        Some(c) => c,
        None => return None,
    };
    let limit = new_left + cap;
    if boundary_left < new_left || boundary_left >= limit {
        return None;
    }
    if new_height < boundary_height {
        return None;
    }
    let full_skeleton = match mountain_skeleton(k, new_size, boundary_left) {
        Some(s) => s,
        None => return None,
    };
    let bh = boundary_height as usize;
    let nh = new_height as usize;
    if full_skeleton.len() < nh {
        return None;
    }
    let climb = slice_skeleton(&full_skeleton, bh, nh);
    let recovered = match reconstruct_inclusion_root(hasher, boundary_hash, climb.as_slice(), peak_path) {
        Some(r) => r,
        None => return None,
    };
    if !bytes_eq(recovered.as_slice(), new_peaks[split_index].as_slice()) {
        return None;
    }
    let computed_new_root = bag_peaks(hasher, new_peaks, k);
    let old_peaks = old_peak_list(new_peaks, split_index, peak_path, boundary_hash);
    let computed_old_root = bag_peaks(hasher, old_peaks.as_slice(), k);
    Some((computed_old_root, computed_new_root))
}

/// Whether every digest of `ds` has `len` bytes.
fn all_of_len(ds: &[Vec<u8>], len: usize) -> (b: bool)
    ensures
        b == (forall|i: int| 0 <= i < ds@.len() ==> #[trigger] digests_view(ds@)[i].len() == len),
{
    let ghost dv = digests_view(ds@);
    let mut j: usize = 0;
    while j < ds.len()
        invariant
            dv == digests_view(ds@),
            j <= ds@.len(),
            forall|i: int| 0 <= i < j ==> #[trigger] dv[i].len() == len,
        decreases ds@.len() - j,
    {
        if ds[j].len() != len {
            proof {
                assert(dv[j as int].len() != len);
            }
            return false;
        }
        j = j + 1;
    }
    true
}

/// The skeleton steps `sk[lo..hi]`.
fn slice_skeleton(sk: &Vec<SkeletonStep>, lo: usize, hi: usize) -> (r: Vec<SkeletonStep>)
    requires
        lo <= hi <= sk.len(),
    ensures
        skels_view(r@) == skels_view(sk@).subrange(lo as int, hi as int),
{
    let mut r: Vec<SkeletonStep> = Vec::new();
    let mut i = lo;
    while i < hi
        invariant
            lo <= i <= hi <= sk.len(),
            skels_view(r@) == skels_view(sk@).subrange(lo as int, i as int),
        decreases hi - i,
    {
        let ghost before = r@;
        r.push(sk[i]);
        proof {
            assert(skels_view(r@) =~= skels_view(before).push(skels_view(sk@)[i as int]));
            assert(skels_view(r@) =~= skels_view(sk@).subrange(lo as int, i + 1));
        }
        i = i + 1;
    }
    r
}

/// The old frontier's peaks recovered from a consistency proof: the new peaks
/// left of the boundary mountain, the left siblings along the climb (highest
/// step first), then the boundary peak.
fn old_peak_list(
    new_peaks: &[Vec<u8>],
    split_index: usize,
    peak_path: &[ProofStep],
    boundary_hash: &[u8],
) -> (r: Vec<Vec<u8>>)
    requires
        split_index <= new_peaks.len(),
    ensures
        digests_view(r@) == digests_view(new_peaks@).take(split_index as int) + merged_left(
            steps_view(peak_path@),
        ) + seq![boundary_hash@],
{
    let ghost np = digests_view(new_peaks@);
    let ghost path = steps_view(peak_path@);
    let mut out: Vec<Vec<u8>> = Vec::new();
    let mut i: usize = 0;
    while i < split_index
        invariant
            split_index <= new_peaks@.len(),
            np == digests_view(new_peaks@),
            i <= split_index,
            digests_view(out@) == np.take(i as int),
        decreases split_index - i,
    {
        let ghost before = out@;
        out.push(copy_bytes(&new_peaks[i]));
        proof {
            lemma_digests_push(before, out@.last());
            assert(np.take(i + 1) =~= np.take(i as int).push(np[i as int]));
        }
        i = i + 1;
    }
    let mut m = peak_path.len();
    proof {
        assert(path.skip(m as int) =~= Seq::<(Seq<Seq<u8>>, nat)>::empty());
        assert(path.take(m as int) =~= path);
    }
    while m > 0
        invariant
            m <= peak_path@.len(),
            path == steps_view(peak_path@),
            np == digests_view(new_peaks@),
            split_index <= new_peaks@.len(),
            digests_view(out@) + merged_left(path.take(m as int)) == np.take(split_index as int)
                + merged_left(path),
        decreases m,
    {
        m = m - 1;
        let step = &peak_path[m];
        let left = if step.position < step.siblings.len() {
            step.position
        } else {
            step.siblings.len()
        };
        let ghost sv = step_view(*step);
        let ghost out0 = digests_view(out@);
        proof {
            assert(path.take(m + 1).last() == sv);
            assert(path.take(m + 1).drop_last() =~= path.take(m as int));
            assert(merged_left(path.take(m + 1)) == sv.0.take(left as int) + merged_left(path.take(m as int)));
        }
        let mut q: usize = 0;
        while q < left
            invariant
                left <= step.siblings@.len(),
                sv == step_view(*step),
                q <= left,
                digests_view(out@) == out0 + sv.0.take(q as int),
            decreases left - q,
        {
            let ghost before = out@;
            out.push(copy_bytes(&step.siblings[q]));
            proof {
                lemma_digests_push(before, out@.last());
                assert(sv.0.take(q + 1) =~= sv.0.take(q as int).push(sv.0[q as int]));
            }
            q = q + 1;
        }
        proof {
            assert(digests_view(out@) + merged_left(path.take(m as int)) =~= out0 + (sv.0.take(
                left as int,
            ) + merged_left(path.take(m as int))));
        }
    }
    let ghost before = out@;
    out.push(copy_slice(boundary_hash));
    proof {
        lemma_digests_push(before, out@.last());
        assert(merged_left(path.take(0)) =~= Seq::<Seq<u8>>::empty());
        assert(digests_view(before) =~= np.take(split_index as int) + merged_left(path));
    }
    out
}

/// Mountain consistency proof: the old tree's rightmost frontier peak is
/// included at one slot of the new tree's frontier, and the new frontier
/// peaks bag to the new root.
#[derive(Debug, Clone, PartialEq, Eq)]
pub struct MountainConsistencyProof {
    /// The old tree's rightmost frontier node, its last (smallest) peak.
    pub boundary_hash: Vec<u8>,
    /// Inclusion path lifting `boundary_hash` to `new_peaks[split_index]`.
    pub peak_path: Vec<ProofStep>,
    /// The new tree's frontier peaks, left to right.
    pub new_peaks: Vec<Vec<u8>>,
    /// The slot of the boundary peak's mountain in `new_peaks`.
    pub split_index: usize,
}

/// Verify a consistency proof: true exactly when it reconstructs `old_root`
/// and `new_root`.
pub fn verify_consistency<H: Hasher>(
    hasher: &H,
    old_size: u64,
    new_size: u64,
    arity: u64,
    boundary_hash: &[u8],
    peak_path: &[ProofStep],
    new_peaks: &[Vec<u8>],
    split_index: usize,
    old_root: &[u8],
    new_root: &[u8],
) -> (ok: bool)
    ensures
        ok == (consistency_roots(
            *hasher,
            old_size as nat,
            new_size as nat,
            arity as nat,
            boundary_hash@,
            steps_view(peak_path@),
            digests_view(new_peaks@),
            split_index as nat,
        ) == Some((old_root@, new_root@))),
{
    match reconstruct_consistency_roots(
        hasher,
        old_size,
        new_size,
        arity,
        boundary_hash,
        peak_path,
        new_peaks,
        split_index,
    ) {
        Some((o, n)) => {
            let a = bytes_eq(o.as_slice(), old_root);
            let b = bytes_eq(n.as_slice(), new_root);
            a && b
        },
        None => false,
    }
}

} // verus!
