//! What an accepting inclusion path commits to, under a collision-free hash
//! and along paths whose parents are all hashed nodes (no step collapses
//! equal children): a skeleton and a root admit one such path only, and the
//! path pinned by the rebalanced skeleton of a position starts from the cell
//! at that position. Promoted steps are rejected outright.
use vstd::prelude::*;

use crate::hasher::Hasher;
use crate::mountain::{pinned, skeleton_root};
use crate::mr::{all_null, spec_nary_mr};
use crate::proofs::{lemma_with_without, merge_steps, path_root, with_child, without};
use crate::shape::group_skel;
use crate::log::{bisect_down, inclusion_steps, lemma_inclusion_complete, peak_values, siblings_of, vals_agree};
use crate::model::{member_root, peaks, perfect};
use crate::shape::rebalanced_skel;
use crate::topology::{frontier_spec, lemma_first_peak, lemma_frontier_covers, peak_holds, peak_of};
use crate::mountain::{bag_children, bag_path_spec, bag_root, bag_skel, bag_steps_from, digit_steps, lemma_bag_path_root};
use crate::topology::{lemma_pow_adds, lemma_pow_positive, lemma_pow_succ, pow};
use crate::consistency::{Entry, child_coords, climb, climb_step, final_merge, lookup, merge_phase, node_entries, path_consistency_roots};
use crate::proofs::apply_step;
use crate::consistency::inputs_ok;
use crate::log::{consistency_steps, lemma_peak_values};
use crate::acceptance::{lemma_boundary, lemma_consistency_accepted};
use crate::mountain::{bag_from, consistency_roots, merged_left, mountain_skel};
use crate::topology::{aligned, const_run, lemma_aligned_lower, lemma_frontier_const, lemma_frontier_split};
use crate::log::{lemma_bisect_root, lemma_multiple_gap, mountain_inclusion_steps, mountain_proof, mountain_proof_fits};
use crate::topology::lemma_frontier_aligned;
use crate::acceptance::lemma_climb_bisect;
use crate::topology::{frontier_at, lemma_frontier_unfold, lemma_frontier_within, max_height};

verus! {

/// A collision-free hash: two lists of at least two children with one node
/// digest are the same list.
pub open spec fn collision_free<H: Hasher>(h: H) -> bool {
    forall|a: Seq<Seq<u8>>, b: Seq<Seq<u8>>|
        a.len() >= 2 && b.len() >= 2 && #[trigger] h.spec_node(a) == #[trigger] h.spec_node(b) ==> a == b
}

/// Every step of the path from `start` forms a hashed node: at no step do
/// all the children share the value carried up (no collapse).
pub open spec fn no_collapse<H: Hasher>(h: H, start: Seq<u8>, steps: Seq<(Seq<Seq<u8>>, nat)>) -> bool {
    forall|i: int|
        #![trigger steps[i]]
        0 <= i < steps.len() ==> match path_root(h, start, steps.take(i)) {
            Some(c) => !all_null(with_child(steps[i].0, c, steps[i].1), c),
            None => true,
        }
}

/// Under a collision-free hash, the root over two or more children that
/// do not all share one value fixes them.
proof fn lemma_parent_fixes_children<H: Hasher>(h: H, a: Seq<Seq<u8>>, b: Seq<Seq<u8>>)
    requires
        collision_free(h),
        a.len() >= 2,
        a.len() == b.len(),
        !all_null(a, a[0]),
        !all_null(b, b[0]),
        spec_nary_mr(h, a) == spec_nary_mr(h, b),
    ensures
        a == b,
{
    assert(h.spec_node(a) == h.spec_node(b));
}

/// Two parents that place their path child at one position agree on that
/// child and on its siblings when they agree as lists.
proof fn lemma_with_child_parts(s1: Seq<Seq<u8>>, c1: Seq<u8>, s2: Seq<Seq<u8>>, c2: Seq<u8>, p: nat)
    requires
        p <= s1.len(),
        s1.len() == s2.len(),
        with_child(s1, c1, p) == with_child(s2, c2, p),
    ensures
        c1 == c2,
        s1 == s2,
{
    let w1 = with_child(s1, c1, p);
    let w2 = with_child(s2, c2, p);
    assert(w1[p as int] == c1);
    assert(w2[p as int] == c2);
    assert forall|i: int| 0 <= i < s1.len() implies s1[i] == s2[i] by {
        if i < p {
            assert(w1[i] == s1[i]);
            assert(w2[i] == s2[i]);
        } else {
            assert(w1[i + 1] == s1[i]);
            assert(w2[i + 1] == s2[i]);
        }
    }
    assert(s1 =~= s2);
}

/// Every step of `sk` has at least one sibling.
pub open spec fn no_lone_step(sk: Seq<(nat, nat)>) -> bool {
    forall|i: int| 0 <= i < sk.len() ==> #[trigger] sk[i].1 >= 1
}

/// At most one accepting path per skeleton and root: under a collision-free
/// hash, two paths pinned by one skeleton with a sibling at every step, none
/// of whose steps collapses equal children, that recompute the same root
/// start from the same leaf and carry the same steps.
pub proof fn lemma_pinned_path_unique<H: Hasher>(
    h: H,
    sk: Seq<(nat, nat)>,
    l1: Seq<u8>,
    s1: Seq<(Seq<Seq<u8>>, nat)>,
    l2: Seq<u8>,
    s2: Seq<(Seq<Seq<u8>>, nat)>,
)
    requires
        collision_free(h),
        no_lone_step(sk),
        no_collapse(h, l1, s1),
        no_collapse(h, l2, s2),
        skeleton_root(h, l1, sk, s1) is Some,
        skeleton_root(h, l1, sk, s1) == skeleton_root(h, l2, sk, s2),
    ensures
        l1 == l2,
        s1 == s2,
    decreases sk.len(),
{
    assert(pinned(sk, s1) && pinned(sk, s2));
    if sk.len() == 0 {
        assert(s1 =~= s2);
    } else {
        let n = sk.len() - 1;
        let d = sk.drop_last();
        let t1 = s1.drop_last();
        let t2 = s2.drop_last();
        assert(pinned(d, t1)) by {
            assert forall|i: int| #![trigger t1[i]] 0 <= i < d.len() implies (t1[i].1 == d[i].0 && t1[i].0.len()
                == d[i].1) by {
                assert(s1[i] == t1[i]);
                assert(sk[i] == d[i]);
            }
        }
        assert(pinned(d, t2)) by {
            assert forall|i: int| #![trigger t2[i]] 0 <= i < d.len() implies (t2[i].1 == d[i].0 && t2[i].0.len()
                == d[i].1) by {
                assert(s2[i] == t2[i]);
                assert(sk[i] == d[i]);
            }
        }
        assert(no_lone_step(d)) by {
            assert forall|i: int| 0 <= i < d.len() implies #[trigger] d[i].1 >= 1 by {
                assert(sk[i] == d[i]);
            }
        }
        let st1 = s1.last();
        let st2 = s2.last();
        assert(st1 == s1[n]);
        assert(st2 == s2[n]);
        assert(sk[n].1 >= 1);
        assert(st1.0.len() == sk[n].1 && st1.1 == sk[n].0);
        assert(st2.0.len() == sk[n].1 && st2.1 == sk[n].0);
        let c1 = path_root(h, l1, t1)->0;
        let c2 = path_root(h, l2, t2)->0;
        assert(path_root(h, l1, t1) is Some);
        assert(path_root(h, l2, t2) is Some);
        let p = st1.1;
        let w1 = with_child(st1.0, c1, p);
        let w2 = with_child(st2.0, c2, p);
        assert(w1.len() == st1.0.len() + 1);
        assert(w2.len() == st2.0.len() + 1);
        assert(s1.take(n) =~= t1);
        assert(s2.take(n) =~= t2);
        assert(!all_null(w1, c1));
        assert(!all_null(w2, c2));
        assert(w1[p as int] == c1);
        assert(w2[p as int] == c2);
        assert(!all_null(w1, w1[0]));
        assert(!all_null(w2, w2[0]));
        lemma_parent_fixes_children(h, w1, w2);
        lemma_with_child_parts(st1.0, c1, st2.0, c2, p);
        assert(no_collapse(h, l1, t1)) by {
            assert forall|i: int| #![trigger t1[i]] 0 <= i < t1.len() implies match path_root(h, l1, t1.take(i)) {
                Some(c) => !all_null(with_child(t1[i].0, c, t1[i].1), c),
                None => true,
            } by {
                assert(t1.take(i) =~= s1.take(i));
                assert(t1[i] == s1[i]);
            }
        }
        assert(no_collapse(h, l2, t2)) by {
            assert forall|i: int| #![trigger t2[i]] 0 <= i < t2.len() implies match path_root(h, l2, t2.take(i)) {
                Some(c) => !all_null(with_child(t2[i].0, c, t2[i].1), c),
                None => true,
            } by {
                assert(t2.take(i) =~= s2.take(i));
                assert(t2[i] == s2[i]);
            }
        }
        lemma_pinned_path_unique(h, d, l1, t1, l2, t2);
        assert(s1 =~= t1.push(st1));
        assert(s2 =~= t2.push(st2));
    }
}


/// Pinning is kept by concatenation.
proof fn lemma_pinned_concat(a1: Seq<(nat, nat)>, b1: Seq<(Seq<Seq<u8>>, nat)>, a2: Seq<(nat, nat)>, b2: Seq<(Seq<Seq<u8>>, nat)>)
    requires
        pinned(a1, b1),
        pinned(a2, b2),
    ensures
        pinned(a1 + a2, b1 + b2),
{
    let a = a1 + a2;
    let b = b1 + b2;
    assert forall|i: int| #![trigger b[i]] 0 <= i < a.len() implies (b[i].1 == a[i].0 && b[i].0.len() == a[i].1) by {
        if i < a1.len() {
            assert(b[i] == b1[i]);
            assert(a[i] == a1[i]);
        } else {
            assert(b[i] == b2[i - a1.len()]);
            assert(a[i] == a2[i - a1.len()]);
        }
    }
}

/// No lone step is kept by concatenation.
proof fn lemma_no_lone_concat(a1: Seq<(nat, nat)>, a2: Seq<(nat, nat)>)
    requires
        no_lone_step(a1),
        no_lone_step(a2),
    ensures
        no_lone_step(a1 + a2),
{
    let a = a1 + a2;
    assert forall|i: int| 0 <= i < a.len() implies #[trigger] a[i].1 >= 1 by {
        if i < a1.len() {
            assert(a[i] == a1[i]);
        } else {
            assert(a[i] == a2[i - a1.len()]);
        }
    }
}

/// Every grouping step has a sibling.
proof fn lemma_group_skel_no_lone(m: nat, j: nat, k: nat)
    ensures
        no_lone_step(group_skel(m, j, k)),
    decreases m,
{
    if k < 2 || j >= m || m <= 1 {
    } else if m <= k {
    } else if j + k >= m {
        lemma_group_skel_no_lone((m - k + 1) as nat, (m - k) as nat, k);
        lemma_no_lone_concat(seq![((j + k - m) as nat, (k - 1) as nat)], group_skel((m - k + 1) as nat, (m - k) as nat, k));
    } else {
        lemma_group_skel_no_lone((m - k + 1) as nat, j, k);
    }
}

/// The frontier-fold steps of peak `t` are pinned by its grouping skeleton.
proof fn lemma_merge_pinned<H: Hasher>(h: H, cur: Seq<Seq<u8>>, t: nat, k: nat)
    requires
        k >= 2,
        t < cur.len(),
    ensures
        pinned(group_skel(cur.len(), t, k), merge_steps(h, cur, t, k)),
    decreases cur.len(),
{
    let m = cur.len();
    let st = merge_steps(h, cur, t, k);
    let sk = group_skel(m, t, k);
    if m <= k {
        if m > 1 {
            lemma_with_without(cur, t);
            assert(st[0] == (without(cur, t), t));
        }
    } else {
        let split = (m - k) as nat;
        let next = cur.take(split as int).push(spec_nary_mr(h, cur.skip(split as int)));
        if t >= split {
            let tail = cur.skip(split as int);
            lemma_with_without(tail, (t - split) as nat);
            let head = seq![(without(tail, (t - split) as nat), (t - split) as nat)];
            let hs = seq![((t + k - m) as nat, (k - 1) as nat)];
            assert(pinned(hs, head)) by {
                assert(head[0] == (without(tail, (t - split) as nat), (t - split) as nat));
            }
            lemma_merge_pinned(h, next, split, k);
            lemma_pinned_concat(hs, head, group_skel((m - k + 1) as nat, (m - k) as nat, k), merge_steps(h, next, split, k));
        } else {
            lemma_merge_pinned(h, next, t, k);
        }
    }
}


/// A base-`k` digit below position `m` is the same in `x` and in `x` taken
/// modulo `k^m`.
proof fn lemma_digit_of_rem(x: nat, k: nat, i: nat, m: nat)
    requires
        k >= 2,
        i < m,
    ensures
        (x % pow(k, m)) / pow(k, i) % k == x / pow(k, i) % k,
{
    let q = pow(k, i);
    let r = pow(k, (m - i - 1) as nat);
    lemma_pow_adds(k, i, (m - i) as nat);
    assert(i + (m - i) as nat == m);
    lemma_pow_succ(k, (m - i - 1) as nat);
    assert((m - i - 1) as nat + 1 == (m - i) as nat);
    lemma_pow_positive(k, i);
    lemma_pow_positive(k, (m - i - 1) as nat);
    let pm = pow(k, m);
    assert(pm == (q * k) * r) by (nonlinear_arith)
        requires
            pm == q * pow(k, (m - i) as nat),
            pow(k, (m - i) as nat) == k * r,
    ;
    assert(q * k > 0) by (nonlinear_arith)
        requires
            q > 0,
            k > 0,
    ;
    let y = x % pm;
    vstd::arithmetic::div_mod::lemma_mod_mod(x as int, (q * k) as int, r as int);
    assert(y % (q * k) == x % (q * k));
    vstd::arithmetic::div_mod::lemma_mod_breakdown(x as int, q as int, k as int);
    vstd::arithmetic::div_mod::lemma_mod_breakdown(y as int, q as int, k as int);
    let a = x / q % k;
    let b = y / q % k;
    assert(x % (q * k) == q * a + x % q);
    assert(y % (q * k) == q * b + y % q);
    vstd::arithmetic::div_mod::lemma_fundamental_div_mod_converse(
        (x % (q * k)) as int,
        q as int,
        a as int,
        (x % q) as int,
    );
    vstd::arithmetic::div_mod::lemma_fundamental_div_mod_converse(
        (y % (q * k)) as int,
        q as int,
        b as int,
        (y % q) as int,
    );
}

/// An accepting inclusion path commits the cell at its position: under a
/// collision-free hash, a path pinned by the rebalanced skeleton of `index`
/// in a log of `n` cells that recomputes the member root of those cells
/// starts from the cell at `index`, and is the honest inclusion path, when
/// neither it nor the honest path collapses equal children at a step.
pub proof fn lemma_inclusion_sound<H: Hasher>(
    h: H,
    cells: Seq<Seq<u8>>,
    n: nat,
    index: nat,
    k: nat,
    leaf: Seq<u8>,
    steps: Seq<(Seq<Seq<u8>>, nat)>,
)
    requires
        2 <= k <= 256,
        index < n <= cells.len(),
        collision_free(h),
        no_collapse(h, leaf, steps),
        no_collapse(
            h,
            cells[index as int],
            inclusion_steps(h, |l: nat, ht: nat| perfect(h, cells, l, ht, k), n, index, k),
        ),
        rebalanced_skel(k, n, index) matches Some(sk) && skeleton_root(h, leaf, sk, steps) == Some(
            member_root(h, cells.take(n as int), k),
        ),
    ensures
        leaf == cells[index as int],
        steps == inclusion_steps(h, |l: nat, ht: nat| perfect(h, cells, l, ht, k), n, index, k),
{
    let vals = |l: nat, ht: nat| perfect(h, cells, l, ht, k);
    assert(vals_agree(h, vals, cells, n, k));
    lemma_inclusion_complete(h, vals, cells, n, index, k);
    let honest = inclusion_steps(h, vals, n, index, k);
    let fs = frontier_spec(n, k);
    lemma_frontier_covers(n, k, 0, index);
    let w = choose|i: int|
        0 <= i < fs.len() && #[trigger] fs[i].0 <= index && index < fs[i].0 + pow(k, fs[i].1);
    assert(peak_holds(fs, w, index, k));
    lemma_first_peak(fs, index, k, w);
    let f = peak_of(fs, index, k);
    let sk = rebalanced_skel(k, n, index)->0;
    let ds = digit_steps((index - fs[f].0) as nat, fs[f].1, k);
    let gs = group_skel(fs.len(), f as nat, k);
    assert(sk == ds + gs);
    let pv = peak_values(vals, n, k);
    assert(pv.len() == fs.len());
    lemma_bisect_pinned(vals, fs[f].0, fs[f].1, index, 0, k);
    assert(ds.subrange(0, fs[f].1 as int) =~= ds);
    lemma_merge_pinned(h, pv, f as nat, k);
    lemma_pinned_concat(ds, bisect_down(vals, fs[f].0, fs[f].1, index, 0, k).reverse(), gs, crate::proofs::merge_steps(h, pv, f as nat, k));
    assert(no_lone_step(ds));
    lemma_group_skel_no_lone(fs.len(), f as nat, k);
    lemma_no_lone_concat(ds, gs);
    assert(skeleton_root(h, cells[index as int], sk, honest) == Some(member_root(h, cells.take(n as int), k)));
    lemma_pinned_path_unique(h, sk, leaf, steps, cells[index as int], honest);
}


/// Promoted steps are rejected: a path with a step that carries no sibling
/// recomputes no root, so verifiers turn it down.
pub proof fn lemma_promoted_step_rejected<H: Hasher>(
    h: H,
    start: Seq<u8>,
    steps: Seq<(Seq<Seq<u8>>, nat)>,
    i: int,
)
    requires
        0 <= i < steps.len(),
        steps[i].0.len() == 0,
    ensures
        path_root(h, start, steps) is None,
{
    let t = steps.take(i + 1);
    assert(t.drop_last() =~= steps.take(i));
    assert(t.last() == steps[i]);
    assert(path_root(h, start, t) is None);
    crate::proofs::lemma_path_root_fails(h, start, steps, i);
}

/// Pinning is kept by reversing both the skeleton and the path.
proof fn lemma_pinned_reverse(a: Seq<(nat, nat)>, b: Seq<(Seq<Seq<u8>>, nat)>)
    requires
        pinned(a, b),
    ensures
        pinned(a.reverse(), b.reverse()),
{
    let ar = a.reverse();
    let br = b.reverse();
    assert forall|i: int| #![trigger br[i]] 0 <= i < ar.len() implies (br[i].1 == ar[i].0 && br[i].0.len() == ar[i].1) by {
        let j = a.len() - 1 - i;
        assert(br[i] == b[j]);
        assert(ar[i] == a[j]);
    }
}

/// The bag steps of a peak, root first, are pinned by its bag skeleton, and
/// every bag step has a sibling.
proof fn lemma_bag_steps_pinned<H: Hasher>(h: H, pk: Seq<Seq<u8>>, start: nat, k: nat, target: nat)
    requires
        k >= 2,
        start <= target < pk.len(),
    ensures
        pinned(bag_skel(pk.len(), start, k, target), bag_steps_from(h, pk, start, k, target)),
        no_lone_step(bag_skel(pk.len(), start, k, target)),
    decreases pk.len() - start,
{
    let n = pk.len();
    let sk = bag_skel(n, start, k, target);
    let st = bag_steps_from(h, pk, start, k, target);
    if n - start == 1 {
    } else {
        let ch = bag_children(h, pk, start, k);
        if n - start <= k || target < start + k - 1 {
            let t = (target - start) as nat;
            assert(ch.len() == if n - start <= k { (n - start) as nat } else { k });
            lemma_with_without(ch, t);
            assert(st[0] == (crate::proofs::without(ch, t), t));
        } else {
            let t = (k - 1) as nat;
            assert(ch.len() == k);
            lemma_with_without(ch, t);
            let head = seq![(crate::proofs::without(ch, t), t)];
            let hs = seq![((k - 1) as nat, (k - 1) as nat)];
            assert(pinned(hs, head)) by {
                assert(head[0] == (crate::proofs::without(ch, t), t));
            }
            lemma_bag_steps_pinned(h, pk, (start + k - 1) as nat, k, target);
            let rs = bag_skel(n, (start + k - 1) as nat, k, target);
            lemma_pinned_concat(hs, head, rs, bag_steps_from(h, pk, (start + k - 1) as nat, k, target));
            lemma_no_lone_concat(hs, rs);
            assert(sk == hs + rs);
        }
    }
}

/// A bag path verifies its peak: the bag path of peak `f` among `peaks`,
/// checked against that peak's bag skeleton (peak first), recomputes the
/// bagged root from the peak.
pub proof fn lemma_bag_path_verifies<H: Hasher>(h: H, peaks: Seq<Seq<u8>>, f: nat, k: nat)
    requires
        k >= 2,
        f < peaks.len(),
    ensures
        skeleton_root(h, peaks[f as int], bag_skel(peaks.len(), 0, k, f).reverse(), bag_path_spec(h, peaks, f, k))
            == Some(bag_root(h, peaks, k)),
{
    lemma_bag_steps_pinned(h, peaks, 0, k, f);
    lemma_pinned_reverse(bag_skel(peaks.len(), 0, k, f), bag_steps_from(h, peaks, 0, k, f));
    lemma_bag_path_root(h, peaks, f, k);
}


/// Recomputing along `s + r` is one step of `s` from `x`, then along `r`.
proof fn lemma_path_root_cons<H: Hasher>(h: H, x: Seq<u8>, s: (Seq<Seq<u8>>, nat), r: Seq<(Seq<Seq<u8>>, nat)>)
    ensures
        path_root(h, x, seq![s] + r) == match apply_step(h, Some(x), s) {
            Some(y) => path_root(h, y, r),
            None => None,
        },
{
    crate::proofs::lemma_path_root_append(h, x, seq![s], r);
    let e = Seq::<(Seq<Seq<u8>>, nat)>::empty();
    assert(seq![s].drop_last() =~= e);
    assert(path_root(h, x, e) == Some(x));
    assert(seq![s].last() == s);
    assert(path_root(h, x, seq![s]) == apply_step(h, path_root(h, x, seq![s].drop_last()), seq![s].last()));
}

/// The positions of `steps` read as a base-`k` number, first step lowest.
pub open spec fn dsum(steps: Seq<(Seq<Seq<u8>>, nat)>, k: nat) -> nat
    decreases steps.len(),
{
    if steps.len() == 0 {
        0
    } else {
        steps[0].1 + k * dsum(steps.skip(1), k)
    }
}

/// Base-`k` digits are unique: two runs of positions below `k` of one
/// length that read as the same number are the same positions.
proof fn lemma_dsum_unique(s1: Seq<(Seq<Seq<u8>>, nat)>, s2: Seq<(Seq<Seq<u8>>, nat)>, k: nat)
    requires
        k >= 2,
        s1.len() == s2.len(),
        forall|i: int| 0 <= i < s1.len() ==> #[trigger] s1[i].1 < k,
        forall|i: int| 0 <= i < s2.len() ==> #[trigger] s2[i].1 < k,
        dsum(s1, k) == dsum(s2, k),
    ensures
        forall|i: int| 0 <= i < s1.len() ==> #[trigger] s1[i].1 == s2[i].1,
    decreases s1.len(),
{
    if s1.len() > 0 {
        let d1 = dsum(s1.skip(1), k);
        let d2 = dsum(s2.skip(1), k);
        assert(s1[0].1 < k && s2[0].1 < k);
        assert(dsum(s1, k) == d1 * k + s1[0].1) by (nonlinear_arith)
            requires
                dsum(s1, k) == s1[0].1 + k * d1,
        ;
        assert(dsum(s2, k) == d2 * k + s2[0].1) by (nonlinear_arith)
            requires
                dsum(s2, k) == s2[0].1 + k * d2,
        ;
        vstd::arithmetic::div_mod::lemma_fundamental_div_mod_converse(
            dsum(s1, k) as int,
            k as int,
            d1 as int,
            s1[0].1 as int,
        );
        vstd::arithmetic::div_mod::lemma_fundamental_div_mod_converse(
            dsum(s2, k) as int,
            k as int,
            d2 as int,
            s2[0].1 as int,
        );
        assert(s1[0].1 == s2[0].1);
        assert(d1 == d2);
        assert forall|i: int| 0 <= i < s1.skip(1).len() implies #[trigger] s1.skip(1)[i].1 < k by {
            assert(s1.skip(1)[i] == s1[i + 1]);
        }
        assert forall|i: int| 0 <= i < s2.skip(1).len() implies #[trigger] s2.skip(1)[i].1 < k by {
            assert(s2.skip(1)[i] == s2[i + 1]);
        }
        lemma_dsum_unique(s1.skip(1), s2.skip(1), k);
        assert forall|i: int| 0 <= i < s1.len() implies #[trigger] s1[i].1 == s2[i].1 by {
            if i > 0 {
                assert(s1.skip(1)[i - 1] == s1[i]);
                assert(s2.skip(1)[i - 1] == s2[i]);
            }
        }
    }
}

/// What a climb that succeeds gives: the digest the path recomputes, a left
/// edge that the positions (as a base-`k` number scaled by `k^ht`) lead down
/// from, positions below `k` with `k - 1` siblings each, and entries of which
/// only the last (the top node) sits as high as the climb ends.
proof fn lemma_climb_facts<H: Hasher>(
    h: H,
    k: nat,
    es: Seq<Entry>,
    left: nat,
    ht: nat,
    cur: Seq<u8>,
    steps: Seq<(Seq<Seq<u8>>, nat)>,
)
    requires
        k >= 2,
        climb(h, k, es, left, ht, cur, steps) is Some,
    ensures
        ({
            let c = climb(h, k, es, left, ht, cur, steps)->0;
            &&& path_root(h, cur, steps) == Some(c.2)
            &&& c.1 + pow(k, ht) * dsum(steps, k) == left
            &&& forall|i: int| 0 <= i < steps.len() ==> #[trigger] steps[i].1 < k && steps[i].0.len() + 1 == k
            &&& c.0.len() >= es.len()
            &&& c.0.take(es.len() as int) == es
            &&& steps.len() > 0 ==> c.0.last() == ((c.1, ht + steps.len()), c.2)
            &&& forall|i: int| es.len() <= i < c.0.len() - 1 ==> (#[trigger] c.0[i]).0.1 < ht + steps.len()
            &&& steps.len() == 0 ==> c == (es, left, cur)
        }),
    decreases steps.len(),
{
    if steps.len() == 0 {
        assert(es.take(es.len() as int) =~= es);
        assert(path_root(h, cur, steps) == Some(cur));
        assert(dsum(steps, k) == 0);
        assert(pow(k, ht) * dsum(steps, k) == 0) by (nonlinear_arith)
            requires
                dsum(steps, k) == 0,
        ;
        assert(climb(h, k, es, left, ht, cur, steps) == Some((es, left, cur)));
    } else {
        let s0 = steps[0];
        let rest = steps.skip(1);
        let c1 = climb_step(h, k, es, left, ht, cur, s0)->0;
        let cc = pow(k, ht);
        lemma_pow_positive(k, ht);
        lemma_pow_succ(k, ht);
        lemma_climb_facts(h, k, c1.0, c1.1, ht + 1, c1.2, rest);
        let c = climb(h, k, es, left, ht, cur, steps)->0;
        assert(c == climb(h, k, c1.0, c1.1, ht + 1, c1.2, rest)->0);
        // digest
        assert(steps =~= seq![s0] + rest);
        lemma_path_root_cons(h, cur, s0, rest);
        assert(apply_step(h, Some(cur), s0) == Some(c1.2));
        // left edge
        let d = dsum(rest, k);
        assert(c1.1 == left - s0.1 * cc);
        assert(c.1 + pow(k, ht + 1) * d == c1.1);
        assert(c.1 + cc * dsum(steps, k) == left) by (nonlinear_arith)
            requires
                c.1 + pow(k, ht + 1) * d == c1.1,
                pow(k, ht + 1) == k * cc,
                c1.1 == left - s0.1 * cc,
                s0.1 * cc <= left,
                dsum(steps, k) == s0.1 + k * d,
        ;
        // positions
        assert forall|i: int| 0 <= i < steps.len() implies #[trigger] steps[i].1 < k && steps[i].0.len() + 1 == k by {
            if i > 0 {
                assert(rest[i - 1] == steps[i]);
            }
        }
        // entries
        let new1 = node_entries(child_coords(c1.1, cc, ht, k), s0.0, s0.1);
        assert(c1.0 == (es + new1).push(((c1.1, ht + 1), c1.2)));
        assert(c1.0.take(es.len() as int) =~= es);
        assert(c.0.take(es.len() as int) =~= es) by {
            assert(c.0.take(c1.0.len() as int) == c1.0);
            assert forall|i: int| 0 <= i < es.len() implies c.0[i] == es[i] by {
                assert(c.0.take(c1.0.len() as int)[i] == c1.0[i]);
            }
        }
        assert forall|i: int| es.len() <= i < c.0.len() - 1 implies (#[trigger] c.0[i]).0.1 < ht + steps.len() by {
            if i < c1.0.len() {
                assert(c.0.take(c1.0.len() as int)[i] == c1.0[i]);
                assert(c.0[i] == c1.0[i]);
                if i < es.len() + new1.len() {
                    let j = i - es.len();
                    assert(c1.0[i] == new1[j]);
                    assert(child_coords(c1.1, cc, ht, k)[crate::consistency::slot(j, s0.1)].1 == ht);
                } else {
                    assert(c1.0[i] == ((c1.1, ht + 1), c1.2));
                    if rest.len() == 0 {
                        assert(false);
                    }
                }
            }
        }
    }
}

/// A digest found at `key` was recorded there by some entry.
proof fn lemma_lookup_key(es: Seq<Entry>, key: (nat, nat))
    requires
        lookup(es, key) is Some,
    ensures
        exists|i: int| 0 <= i < es.len() && (#[trigger] es[i]).0 == key,
    decreases es.len(),
{
    if es.last().0 == key {
        assert(es[es.len() - 1].0 == key);
    } else {
        lemma_lookup_key(es.drop_last(), key);
        let i = choose|i: int| 0 <= i < es.drop_last().len() && (#[trigger] es.drop_last()[i]).0 == key;
        assert(es[i] == es.drop_last()[i]);
    }
}

/// The one node a climb from `b` records as high as it ends is its top:
/// a digest found there sits at the climb's final left edge and is the
/// digest the climb recomputes.
proof fn lemma_climb_top<H: Hasher>(
    h: H,
    k: nat,
    b: (nat, nat),
    start: Seq<u8>,
    cs: Seq<(Seq<Seq<u8>>, nat)>,
    key: (nat, nat),
)
    requires
        k >= 2,
        climb(h, k, seq![(b, start)], b.0, b.1, start, cs) is Some,
        key.1 == b.1 + cs.len(),
        climb(h, k, seq![(b, start)], b.0, b.1, start, cs) matches Some(c) && lookup(c.0, key) is Some,
    ensures
        ({
            let c = climb(h, k, seq![(b, start)], b.0, b.1, start, cs)->0;
            &&& key.0 == c.1
            &&& lookup(c.0, key) == Some(c.2)
        }),
{
    let es0 = seq![(b, start)];
    let c = climb(h, k, es0, b.0, b.1, start, cs)->0;
    lemma_climb_facts(h, k, es0, b.0, b.1, start, cs);
    lemma_lookup_key(c.0, key);
    let i = choose|i: int| 0 <= i < c.0.len() && (#[trigger] c.0[i]).0 == key;
    if cs.len() == 0 {
        assert(c.0 == es0);
        assert(c.0[0] == (b, start));
    } else {
        if i == 0 {
            assert(c.0.take(1)[0] == es0[0]);
            assert(c.0[0] == (b, start));
            assert(false);
        } else if i < c.0.len() - 1 {
            assert(c.0[i].0.1 < b.1 + cs.len());
            assert(false);
        }
        assert(c.0.last() == c.0[i]);
    }
}

/// How a merge phase and the last merge after it use their steps: they
/// take the carried node, consume a prefix of the steps pinned by the
/// grouping skeleton of position `t`, and that prefix recomputes the new
/// root from the carried digest.
proof fn lemma_merge_shape<H: Hasher>(
    h: H,
    k: nat,
    fr: Seq<(nat, nat)>,
    t: nat,
    th: Option<Seq<u8>>,
    es: Seq<Entry>,
    steps: Seq<(Seq<Seq<u8>>, nat)>,
) -> (u: nat)
    requires
        k >= 2,
        t < fr.len(),
        merge_phase(h, k, fr, t, th, es, steps) matches Some(m) && final_merge(h, m.0, m.1, m.2, m.3, m.4) is Some,
    ensures
        u <= steps.len(),
        th is Some,
        ({
            let m = merge_phase(h, k, fr, t, th, es, steps)->0;
            let fm = final_merge(h, m.0, m.1, m.2, m.3, m.4)->0;
            &&& fm.2 == steps.skip(u as int)
            &&& pinned(group_skel(fr.len(), t, k), steps.take(u as int))
            &&& path_root(h, th->0, steps.take(u as int)) == Some(fm.0)
        }),
    decreases fr.len(),
{
    let ml = fr.len();
    if ml <= k {
        let x = th->0;
        if ml <= 1 {
            assert(steps.take(0) =~= Seq::<(Seq<Seq<u8>>, nat)>::empty());
            assert(steps.skip(0) =~= steps);
            assert(path_root(h, x, steps.take(0)) == Some(x));
            0
        } else {
            let s0 = steps[0];
            let e = Seq::<(Seq<Seq<u8>>, nat)>::empty();
            assert(steps.take(1) =~= seq![s0] + e);
            lemma_path_root_cons(h, x, s0, e);
            assert(path_root(h, spec_nary_mr(h, with_child(s0.0, x, s0.1)), e) == Some(
                spec_nary_mr(h, with_child(s0.0, x, s0.1)),
            ));
            assert(group_skel(ml, t, k) == seq![(t, (ml - 1) as nat)]);
            assert(steps.take(1)[0] == s0);
            1
        }
    } else {
        let split = (ml - k) as nat;
        let parent = (fr[split as int].0, fr[split as int].1 + 1);
        let next = fr.take(split as int).push(parent);
        if t < split {
            let u = lemma_merge_shape(h, k, next, t, th, es, steps);
            assert(group_skel(ml, t, k) == group_skel((ml - k + 1) as nat, t, k));
            u
        } else {
            let x = th->0;
            let s0 = steps[0];
            let p = spec_nary_mr(h, with_child(s0.0, x, s0.1));
            let es2 = (es + node_entries(fr.skip(split as int), s0.0, s0.1)).push((parent, p));
            let rest = steps.skip(1);
            let u1 = lemma_merge_shape(h, k, next, split, Some(p), es2, rest);
            let u = u1 + 1;
            assert(steps.take(u as int) =~= seq![s0] + rest.take(u1 as int));
            assert(rest.skip(u1 as int) =~= steps.skip(u as int));
            lemma_path_root_cons(h, x, s0, rest.take(u1 as int));
            let hs = seq![((t + k - ml) as nat, (k - 1) as nat)];
            assert(pinned(hs, seq![s0])) by {
                assert(seq![s0][0] == s0);
            }
            lemma_pinned_concat(hs, seq![s0], group_skel((ml - k + 1) as nat, split, k), rest.take(u1 as int));
            assert(group_skel(ml, t, k) == hs + group_skel((ml - k + 1) as nat, split, k));
            u
        }
    }
}

/// The shape of an accepted consistency path: its first steps climb from
/// the old boundary peak to the new frontier peak holding it (positions
/// below `k`, `k - 1` siblings each, leading down from that peak's left
/// edge to the boundary's), the rest is pinned by the grouping skeleton of
/// that peak, and the whole path recomputes the new root from its start.
#[verifier::rlimit(60)]
proof fn lemma_accepted_shape<H: Hasher>(
    h: H,
    o: nat,
    n: nat,
    k: nat,
    start: Seq<u8>,
    steps: Seq<(Seq<Seq<u8>>, nat)>,
)
    requires
        path_consistency_roots(h, o, n, k, start, steps) is Some,
    ensures
        ({
            let b = frontier_spec(o, k).last();
            let nfs = frontier_spec(n, k);
            let f = peak_of(nfs, b.0, k);
            let bs = (nfs[f].1 - b.1) as nat;
            &&& 2 <= k <= 256
            &&& 0 <= f < nfs.len()
            &&& b.1 <= nfs[f].1
            &&& bs <= steps.len()
            &&& path_consistency_roots(h, o, n, k, start, steps) matches Some(r) && path_root(h, start, steps) == Some(r.1)
            &&& pinned(group_skel(nfs.len(), f as nat, k), steps.skip(bs as int))
            &&& forall|i: int| 0 <= i < bs ==> #[trigger] steps[i].1 < k && steps[i].0.len() + 1 == k
            &&& nfs[f].0 + pow(k, b.1) * dsum(steps.take(bs as int), k) == b.0
        }),
{
    let r = path_consistency_roots(h, o, n, k, start, steps)->0;
    let ofs = frontier_spec(o, k);
    let nfs = frontier_spec(n, k);
    let b = ofs.last();
    let fb = lemma_boundary(o, n, k);
    let f = peak_of(nfs, b.0, k);
    let bs = (nfs[f].1 - b.1) as nat;
    let es0 = seq![(b, start)];
    let cs = steps.take(bs as int);
    let tail = steps.skip(bs as int);
    let c = climb(h, k, es0, b.0, b.1, start, cs)->0;
    lemma_climb_facts(h, k, es0, b.0, b.1, start, cs);
    let th = lookup(c.0, nfs[f]);
    let m = merge_phase(h, k, nfs, f as nat, th, c.0, tail)->0;
    let fm = final_merge(h, m.0, m.1, m.2, m.3, m.4)->0;
    let u = lemma_merge_shape(h, k, nfs, f as nat, th, c.0, tail);
    assert(tail.take(u as int) =~= tail);
    lemma_climb_top(h, k, b, start, cs, nfs[f]);
    assert(th == Some(c.2));
    crate::proofs::lemma_path_root_append(h, start, cs, tail);
    assert(cs + tail =~= steps);
    assert(fm.0 == r.1);
    assert forall|i: int| 0 <= i < bs implies #[trigger] steps[i].1 < k && steps[i].0.len() + 1 == k by {
        assert(cs[i] == steps[i]);
    }
}

/// At most one accepted consistency path per pair of sizes and new root:
/// under a collision-free hash, two paths between the same sizes that both
/// pass the check and recompute the same new root, neither collapsing
/// equal children at a step, start from the same digest and carry the same
/// steps, so they yield the same old root.
pub proof fn lemma_consistency_path_unique<H: Hasher>(
    h: H,
    o: nat,
    n: nat,
    k: nat,
    l1: Seq<u8>,
    s1: Seq<(Seq<Seq<u8>>, nat)>,
    l2: Seq<u8>,
    s2: Seq<(Seq<Seq<u8>>, nat)>,
)
    requires
        collision_free(h),
        no_collapse(h, l1, s1),
        no_collapse(h, l2, s2),
        path_consistency_roots(h, o, n, k, l1, s1) matches Some(r1) && path_consistency_roots(h, o, n, k, l2, s2)
            matches Some(r2) && r1.1 == r2.1,
    ensures
        l1 == l2,
        s1 == s2,
        path_consistency_roots(h, o, n, k, l1, s1) == path_consistency_roots(h, o, n, k, l2, s2),
{
    lemma_accepted_shape(h, o, n, k, l1, s1);
    lemma_accepted_shape(h, o, n, k, l2, s2);
    let b = frontier_spec(o, k).last();
    let nfs = frontier_spec(n, k);
    let f = peak_of(nfs, b.0, k);
    let bs = (nfs[f].1 - b.1) as nat;
    let c1 = s1.take(bs as int);
    let c2 = s2.take(bs as int);
    let pw = pow(k, b.1);
    lemma_pow_positive(k, b.1);
    assert(dsum(c1, k) == dsum(c2, k)) by (nonlinear_arith)
        requires
            pw > 0,
            nfs[f].0 + pw * dsum(c1, k) == b.0,
            nfs[f].0 + pw * dsum(c2, k) == b.0,
    ;
    assert forall|i: int| 0 <= i < c1.len() implies #[trigger] c1[i].1 < k by {
        assert(c1[i] == s1[i]);
    }
    assert forall|i: int| 0 <= i < c2.len() implies #[trigger] c2[i].1 < k by {
        assert(c2[i] == s2[i]);
    }
    lemma_dsum_unique(c1, c2, k);
    let skc = Seq::new(bs, |i: int| (c1[i].1, c1[i].0.len()));
    assert(pinned(skc, c1)) by {
        assert forall|i: int| #![trigger c1[i]] 0 <= i < skc.len() implies (c1[i].1 == skc[i].0 && c1[i].0.len()
            == skc[i].1) by {}
    }
    assert(pinned(skc, c2)) by {
        assert forall|i: int| #![trigger c2[i]] 0 <= i < skc.len() implies (c2[i].1 == skc[i].0 && c2[i].0.len()
            == skc[i].1) by {
            assert(c1[i].1 == c2[i].1);
            assert(c1[i] == s1[i]);
            assert(c2[i] == s2[i]);
        }
    }
    assert(no_lone_step(skc)) by {
        assert forall|i: int| 0 <= i < skc.len() implies #[trigger] skc[i].1 >= 1 by {
            assert(c1[i] == s1[i]);
        }
    }
    let gs = group_skel(nfs.len(), f as nat, k);
    lemma_group_skel_no_lone(nfs.len(), f as nat, k);
    lemma_no_lone_concat(skc, gs);
    lemma_pinned_concat(skc, c1, gs, s1.skip(bs as int));
    lemma_pinned_concat(skc, c2, gs, s2.skip(bs as int));
    assert(c1 + s1.skip(bs as int) =~= s1);
    assert(c2 + s2.skip(bs as int) =~= s2);
    lemma_pinned_path_unique(h, skc + gs, l1, s1, l2, s2);
}

/// Consistency soundness: under a collision-free hash, a consistency path
/// between `o` and `n` cells that passes the check and recomputes the
/// member root of the first `n` cells yields the member root of the first
/// `o` cells as the old root, when neither it nor the honest path between
/// those sizes collapses equal children at a step (the honest path being
/// within the check's bounds).
pub proof fn lemma_consistency_sound<H: Hasher>(
    h: H,
    cells: Seq<Seq<u8>>,
    o: nat,
    n: nat,
    k: nat,
    start: Seq<u8>,
    steps: Seq<(Seq<Seq<u8>>, nat)>,
    old_root: Seq<u8>,
)
    requires
        collision_free(h),
        2 <= k <= 256,
        0 < o < n <= cells.len(),
        n <= u64::MAX,
        no_collapse(h, start, steps),
        consistency_steps(h, |l: nat, ht: nat| perfect(h, cells, l, ht, k), o, n, k) matches Some(c) && inputs_ok(
            h.spec_empty().len(),
            c.0,
            o,
            n,
            k,
            c.1,
        ) && no_collapse(h, c.0, c.1),
        path_consistency_roots(h, o, n, k, start, steps) == Some(
            (old_root, member_root(h, cells.take(n as int), k)),
        ),
    ensures
        old_root == member_root(h, cells.take(o as int), k),
{
    let vals = |l: nat, ht: nat| perfect(h, cells, l, ht, k);
    assert(vals_agree(h, vals, cells, n, k));
    assert(vals_agree(h, vals, cells, o, k));
    lemma_consistency_accepted(h, vals, cells, o, n, k);
    lemma_peak_values(h, vals, cells, o, k);
    lemma_peak_values(h, vals, cells, n, k);
    let c = consistency_steps(h, vals, o, n, k)->0;
    lemma_consistency_path_unique(h, o, n, k, start, steps, c.0, c.1);
}

/// Every node of the bag over the peaks `[start, len)` hashes: no bag node
/// with two or more children has them all share one value.
pub open spec fn bag_hashes<H: Hasher>(h: H, peaks: Seq<Seq<u8>>, start: nat, k: nat) -> bool
    decreases peaks.len() - start,
{
    if start >= peaks.len() || peaks.len() - start == 1 || k < 2 {
        true
    } else {
        &&& !all_null(bag_children(h, peaks, start, k), bag_children(h, peaks, start, k)[0])
        &&& (peaks.len() - start <= k || bag_hashes(h, peaks, (start + k - 1) as nat, k))
    }
}

/// Under a collision-free hash, the bag over `[start, len)` of peaks whose
/// bag nodes all hash fixes those peaks.
proof fn lemma_bag_unique<H: Hasher>(h: H, p1: Seq<Seq<u8>>, p2: Seq<Seq<u8>>, start: nat, k: nat)
    requires
        collision_free(h),
        k >= 2,
        start < p1.len(),
        p1.len() == p2.len(),
        bag_hashes(h, p1, start, k),
        bag_hashes(h, p2, start, k),
        bag_from(h, p1, start, k) == bag_from(h, p2, start, k),
    ensures
        p1.subrange(start as int, p1.len() as int) == p2.subrange(start as int, p2.len() as int),
    decreases p1.len() - start,
{
    let len = p1.len();
    if len - start == 1 {
        assert(p1.subrange(start as int, len as int) =~= seq![p1[start as int]]);
        assert(p2.subrange(start as int, len as int) =~= seq![p2[start as int]]);
    } else {
        let c1 = bag_children(h, p1, start, k);
        let c2 = bag_children(h, p2, start, k);
        lemma_parent_fixes_children(h, c1, c2);
        if len - start <= k {
        } else {
            let m = (start + k - 1) as nat;
            assert(c1.last() == bag_from(h, p1, m, k));
            assert(c2.last() == bag_from(h, p2, m, k));
            lemma_bag_unique(h, p1, p2, m, k);
            assert forall|i: int| start <= i < len implies p1[i] == p2[i] by {
                if i < m {
                    assert(c1[i - start] == p1[i]);
                    assert(c2[i - start] == p2[i]);
                } else {
                    assert(p1.subrange(m as int, len as int)[i - m] == p1[i]);
                    assert(p2.subrange(m as int, len as int)[i - m] == p2[i]);
                }
            }
            assert(p1.subrange(start as int, len as int) =~= p2.subrange(start as int, len as int));
        }
    }
}

/// No two subtrees of a frontier hold one position.
proof fn lemma_frontier_disjoint(n: nat, k: nat, base: nat, index: nat, i: int, j: int)
    requires
        k >= 2,
        peak_holds(frontier_at(n, k, base), i, index, k),
        peak_holds(frontier_at(n, k, base), j, index, k),
    ensures
        i == j,
    decreases n,
{
    let fs = frontier_at(n, k, base);
    lemma_frontier_unfold(n, k, base);
    let c = pow(k, max_height(n, k));
    let rest = frontier_at((n - c) as nat, k, base + c);
    lemma_frontier_within((n - c) as nat, k, base + c);
    assert(fs[0] == (base, max_height(n, k)));
    if i > 0 && j > 0 {
        assert(fs[i] == rest[i - 1]);
        assert(fs[j] == rest[j - 1]);
        assert(peak_holds(rest, i - 1, index, k));
        assert(peak_holds(rest, j - 1, index, k));
        lemma_frontier_disjoint((n - c) as nat, k, base + c, index, i - 1, j - 1);
    } else if i > 0 {
        assert(fs[i] == rest[i - 1]);
        assert(base + c <= rest[i - 1].0);
    } else if j > 0 {
        assert(fs[j] == rest[j - 1]);
        assert(base + c <= rest[j - 1].0);
    }
}

/// Every step of a mountain inclusion skeleton has a sibling.
proof fn lemma_mountain_skel_no_lone<H: Hasher>(h: H, k: nat, n: nat, index: nat)
    requires
        mountain_skel(k, n, index) is Some,
    ensures
        no_lone_step(mountain_skel(k, n, index)->0),
{
    let fs = frontier_spec(n, k);
    lemma_frontier_covers(n, k, 0, index);
    let w = choose|i: int|
        0 <= i < fs.len() && #[trigger] fs[i].0 <= index && index < fs[i].0 + pow(k, fs[i].1);
    assert(peak_holds(fs, w, index, k));
    lemma_first_peak(fs, index, k, w);
    let f = peak_of(fs, index, k);
    let ds = digit_steps((index - fs[f].0) as nat, fs[f].1, k);
    let pk = Seq::new(fs.len(), |i: int| Seq::<u8>::empty());
    lemma_bag_steps_pinned(h, pk, 0, k, f as nat);
    let bs = bag_skel(fs.len(), 0, k, f as nat);
    let br = bs.reverse();
    assert(no_lone_step(br)) by {
        assert forall|i: int| 0 <= i < br.len() implies #[trigger] br[i].1 >= 1 by {
            assert(br[i] == bs[bs.len() - 1 - i]);
        }
    }
    assert(no_lone_step(ds));
    lemma_no_lone_concat(ds, br);
}

/// At most one accepted mountain consistency proof per pair of sizes and
/// new root: under a collision-free hash, two proofs between the same sizes
/// that both pass the check and bag to the same new root, whose climbs
/// collapse no equal children and whose new peaks bag with every bag node
/// hashed, carry the same boundary peak, climb, new peaks and slot, so they
/// yield the same old root.
pub proof fn lemma_mountain_consistency_unique<H: Hasher>(
    h: H,
    o: nat,
    n: nat,
    k: nat,
    b1: Seq<u8>,
    p1: Seq<(Seq<Seq<u8>>, nat)>,
    np1: Seq<Seq<u8>>,
    s1: nat,
    b2: Seq<u8>,
    p2: Seq<(Seq<Seq<u8>>, nat)>,
    np2: Seq<Seq<u8>>,
    s2: nat,
)
    requires
        collision_free(h),
        no_collapse(h, b1, p1),
        no_collapse(h, b2, p2),
        bag_hashes(h, np1, 0, k),
        bag_hashes(h, np2, 0, k),
        consistency_roots(h, o, n, k, b1, p1, np1, s1) matches Some(r1) && consistency_roots(
            h,
            o,
            n,
            k,
            b2,
            p2,
            np2,
            s2,
        ) matches Some(r2) && r1.1 == r2.1,
    ensures
        b1 == b2,
        p1 == p2,
        np1 == np2,
        s1 == s2,
        consistency_roots(h, o, n, k, b1, p1, np1, s1) == consistency_roots(h, o, n, k, b2, p2, np2, s2),
{
    let nfs = frontier_spec(n, k);
    let b = frontier_spec(o, k).last();
    lemma_frontier_covers(n, k, 0, 0);
    assert(np1.len() == nfs.len() && np1.len() > 0);
    assert(bag_from(h, np1, 0, k) == bag_from(h, np2, 0, k));
    lemma_bag_unique(h, np1, np2, 0, k);
    assert(np1 =~= np1.subrange(0, np1.len() as int));
    assert(np2 =~= np2.subrange(0, np2.len() as int));
    assert(peak_holds(nfs, s1 as int, b.0, k));
    assert(peak_holds(nfs, s2 as int, b.0, k));
    lemma_frontier_disjoint(n, k, 0, b.0, s1 as int, s2 as int);
    let nb = nfs[s1 as int];
    let sk = mountain_skel(k, n, b.0)->0;
    let sl = sk.subrange(b.1 as int, nb.1 as int);
    lemma_mountain_skel_no_lone(h, k, n, b.0);
    assert(no_lone_step(sl)) by {
        assert forall|i: int| 0 <= i < sl.len() implies #[trigger] sl[i].1 >= 1 by {
            assert(sl[i] == sk[i + b.1]);
        }
    }
    lemma_pinned_path_unique(h, sl, b1, p1, b2, p2);
}

/// Moving right by whole subtrees of height `hc` from a left edge aligned
/// one level up keeps the edge aligned at height `hc`.
proof fn lemma_aligned_step(l: nat, c: nat, k: nat, hc: nat)
    requires
        k >= 2,
        aligned(l, hc + 1, k),
    ensures
        aligned(l + c * pow(k, hc), hc, k),
{
    let p = pow(k, hc);
    lemma_pow_succ(k, hc);
    lemma_pow_positive(k, hc);
    let kp = pow(k, hc + 1);
    assert(kp > 0) by (nonlinear_arith)
        requires
            kp == k * p,
            k >= 2,
            p > 0,
    ;
    vstd::arithmetic::div_mod::lemma_fundamental_div_mod(l as int, kp as int);
    let q = l / kp;
    assert(l == kp * q);
    assert(l + c * p == (k * q + c) * p) by (nonlinear_arith)
        requires
            l == kp * q,
            kp == k * p,
    ;
    vstd::arithmetic::div_mod::lemma_mod_multiples_basic((k * q + c) as int, p as int);
}

/// The older peaks a bisection climb passes on its left, highest first, are
/// the frontier of the cells from its top node's left edge to the end of
/// the node it starts from, but that node itself.
proof fn lemma_merged_left_bisect(vals: spec_fn(nat, nat) -> Seq<u8>, l: nat, ht: nat, t: nat, th: nat, k: nat)
    requires
        k >= 2,
        th <= ht,
        aligned(l, ht, k),
        aligned(t, th, k),
        l <= t,
        t + pow(k, th) <= l + pow(k, ht),
        frontier_at((t + pow(k, th) - l) as nat, k, l).last() == (t, th),
    ensures
        merged_left(bisect_down(vals, l, ht, t, th, k).reverse()) == frontier_at(
            (t + pow(k, th) - l) as nat,
            k,
            l,
        ).drop_last().map_values(|c: (nat, nat)| vals(c.0, c.1)),
    decreases ht,
{
    let m = (t + pow(k, th) - l) as nat;
    let bd = bisect_down(vals, l, ht, t, th, k);
    lemma_pow_positive(k, th);
    if ht == th {
        assert(t == l);
        assert(1 * pow(k, th) == pow(k, th));
        lemma_frontier_const(l, 1, th, k);
        assert(bd.reverse() =~= Seq::<(Seq<Seq<u8>>, nat)>::empty());
        assert(frontier_at(m, k, l).drop_last() =~= Seq::<(nat, nat)>::empty());
        assert(frontier_at(m, k, l).drop_last().map_values(|c: (nat, nat)| vals(c.0, c.1)) =~= Seq::<
            Seq<u8>,
        >::empty());
    } else {
        let hc = (ht - 1) as nat;
        let p = pow(k, hc);
        lemma_pow_succ(k, hc);
        lemma_pow_positive(k, hc);
        let off = (t - l) as nat;
        let c = off / p;
        assert(off < k * p);
        assert(c < k) by (nonlinear_arith)
            requires
                p > 0,
                off < k * p,
                c == off / p,
        ;
        vstd::arithmetic::div_mod::lemma_fundamental_div_mod(off as int, p as int);
        let r = off % p;
        assert(off == p * c + r);
        assert(c * p == p * c) by (nonlinear_arith);
        let l2 = l + c * p;
        lemma_aligned_step(l, c, k, hc);
        // the rest of the climb starts inside the child at `l2`
        lemma_aligned_lower(l, k, th, ht);
        vstd::arithmetic::div_mod::lemma_mod_self_0(p as int);
        lemma_aligned_lower(p, k, th, hc);
        assert(r % pow(k, th) == 0) by {
            let q = pow(k, th);
            vstd::arithmetic::div_mod::lemma_fundamental_div_mod(l as int, q as int);
            vstd::arithmetic::div_mod::lemma_fundamental_div_mod(t as int, q as int);
            vstd::arithmetic::div_mod::lemma_fundamental_div_mod(p as int, q as int);
            let a = l / q;
            let b2 = t / q;
            let e = p / q;
            assert(r == q * (b2 - a - c * e)) by (nonlinear_arith)
                requires
                    l == q * a,
                    t == q * b2,
                    p == q * e,
                    t - l == p * c + r,
            ;
            assert(b2 - a - c * e >= 0) by (nonlinear_arith)
                requires
                    r == q * (b2 - a - c * e),
                    r >= 0,
                    q > 0,
            ;
            vstd::arithmetic::div_mod::lemma_mod_multiples_basic((b2 - a - c * e) as int, q as int);
            assert((b2 - a - c * e) * q == q * (b2 - a - c * e)) by (nonlinear_arith);
        }
        lemma_multiple_gap(r, p, pow(k, th));
        assert(r + pow(k, th) <= p);
        let x = (siblings_of(vals, l, hc, c, k), c);
        let rest = bisect_down(vals, l2, hc, t, th, k);
        assert(bd == seq![x] + rest);
        assert(bd.reverse() =~= rest.reverse() + seq![x]);
        assert((rest.reverse() + seq![x]).drop_last() =~= rest.reverse());
        assert((rest.reverse() + seq![x]).last() == x);
        let left_sibs = x.0.take(c as int);
        assert(merged_left(bd.reverse()) == left_sibs + merged_left(rest.reverse()));
        let cr = const_run(l, c, hc, k);
        assert(left_sibs =~= cr.map_values(|cc: (nat, nat)| vals(cc.0, cc.1)));
        let e2 = (r + pow(k, th)) as nat;
        if e2 < p {
            lemma_frontier_split(c, hc, e2, l, k);
            lemma_frontier_const(l, c, hc, k);
            assert(m == c * p + e2);
            let tail = frontier_at(e2, k, l2);
            assert(frontier_at(m, k, l) == cr + tail);
            assert(tail.len() > 0) by {
                lemma_frontier_covers(e2, k, l2, l2);
            }
            assert(tail.last() == (t, th));
            assert(t + pow(k, th) - l2 == e2);
            lemma_merged_left_bisect(vals, l2, hc, t, th, k);
            assert(frontier_at(m, k, l).drop_last() =~= cr + tail.drop_last());
            assert((cr + tail.drop_last()).map_values(|cc: (nat, nat)| vals(cc.0, cc.1)) =~= cr.map_values(
                |cc: (nat, nat)| vals(cc.0, cc.1),
            ) + tail.drop_last().map_values(|cc: (nat, nat)| vals(cc.0, cc.1)));
        } else {
            assert(e2 == p);
            assert(m == (c + 1) * p) by (nonlinear_arith)
                requires
                    m == p * c + r + pow(k, th),
                    e2 == p,
                    e2 == r + pow(k, th),
            ;
            if c + 1 == k {
                lemma_frontier_const(l, 1, ht, k);
                assert(m == 1 * pow(k, ht)) by (nonlinear_arith)
                    requires
                        m == (c + 1) * p,
                        c + 1 == k,
                        pow(k, ht) == k * p,
                ;
                assert(frontier_at(m, k, l).last() == (l, ht));
                assert(false);
            }
            lemma_frontier_const(l, c + 1, hc, k);
            let full = const_run(l, c + 1, hc, k);
            assert(frontier_at(m, k, l) == full);
            assert(full.last() == ((l + c * p) as nat, hc));
            assert(th == hc);
            assert(rest =~= Seq::<(Seq<Seq<u8>>, nat)>::empty());
            assert(rest.reverse() =~= Seq::<(Seq<Seq<u8>>, nat)>::empty());
            assert(full.drop_last() =~= cr);
            assert(left_sibs + Seq::<Seq<u8>>::empty() =~= left_sibs);
        }
    }
}

/// The bisection steps from a perfect subtree down to the node of height
/// `th` holding a cell, taken lowest first, are pinned by the base-`k`
/// digits of the cell's offset from position `th` on.
proof fn lemma_bisect_pinned(vals: spec_fn(nat, nat) -> Seq<u8>, l: nat, ht: nat, target: nat, th: nat, k: nat)
    requires
        k >= 2,
        th <= ht,
        l <= target < l + pow(k, ht),
    ensures
        pinned(
            digit_steps((target - l) as nat, ht, k).subrange(th as int, ht as int),
            bisect_down(vals, l, ht, target, th, k).reverse(),
        ),
    decreases ht,
{
    let off = (target - l) as nat;
    let bd = bisect_down(vals, l, ht, target, th, k);
    if ht == th {
        assert(digit_steps(off, ht, k).subrange(th as int, ht as int) =~= Seq::<(nat, nat)>::empty());
        assert(bd.reverse() =~= Seq::<(Seq<Seq<u8>>, nat)>::empty());
    } else {
        let hc = (ht - 1) as nat;
        let p = pow(k, hc);
        lemma_pow_succ(k, hc);
        lemma_pow_positive(k, hc);
        let c = off / p;
        assert(off < k * p);
        assert(c < k) by (nonlinear_arith)
            requires
                p > 0,
                off < k * p,
                c == off / p,
        ;
        vstd::arithmetic::div_mod::lemma_fundamental_div_mod(off as int, p as int);
        assert(off == p * c + off % p);
        assert(c * p == p * c) by (nonlinear_arith);
        let l2 = l + c * p;
        assert(target - l2 == off % p);
        assert(l2 <= target < l2 + p);
        let rest = bisect_down(vals, l2, hc, target, th, k);
        lemma_bisect_pinned(vals, l2, hc, target, th, k);
        let x = (siblings_of(vals, l, hc, c, k), c);
        assert(bd == seq![x] + rest);
        assert(bd.reverse() =~= rest.reverse() + seq![x]);
        let ds = digit_steps(off, ht, k);
        let dr = digit_steps((off % p) as nat, hc, k);
        assert(ds =~= dr + seq![(c, (k - 1) as nat)]) by {
            assert forall|i: int| 0 <= i < ht implies #[trigger] ds[i] == (dr + seq![(c, (k - 1) as nat)])[i] by {
                if i < hc {
                    lemma_digit_of_rem(off, k, i as nat, hc);
                } else {
                    assert(i == hc);
                    vstd::arithmetic::div_mod::lemma_small_mod(c, k);
                }
            }
        }
        assert(ds.subrange(th as int, ht as int) =~= dr.subrange(th as int, hc as int) + seq![(c, (k - 1) as nat)]);
        assert(pinned(seq![(c, (k - 1) as nat)], seq![x])) by {
            assert(seq![x][0] == x);
        }
        lemma_pinned_concat(dr.subrange(th as int, hc as int), rest.reverse(), seq![(c, (k - 1) as nat)], seq![x]);
    }
}

/// The climb of the mountain consistency proof from the old boundary peak,
/// pinned by the slice of the boundary's inclusion skeleton between its
/// height and its mountain's, reaches that mountain's peak.
proof fn lemma_mountain_climb<H: Hasher>(
    h: H,
    vals: spec_fn(nat, nat) -> Seq<u8>,
    cells: Seq<Seq<u8>>,
    o: nat,
    n: nat,
    k: nat,
    f: int,
)
    requires
        2 <= k <= 256,
        0 < o < n <= u64::MAX,
        vals_agree(h, vals, cells, n, k),
        ({
            let ofs = frontier_spec(o, k);
            let nfs = frontier_spec(n, k);
            let b = ofs.last();
            let l = nfs[f].0;
            let hh = nfs[f].1;
            &&& f == peak_of(nfs, b.0, k)
            &&& 0 <= f < nfs.len()
            &&& l <= b.0
            &&& b.1 <= hh
            &&& b.0 + pow(k, b.1) == o
            &&& o <= l + pow(k, hh)
            &&& l + pow(k, hh) <= n
            &&& frontier_at((o - l) as nat, k, l).last() == b
            &&& aligned(l, hh, k)
            &&& aligned(b.0, b.1, k)
        }),
    ensures
        ({
            let b = frontier_spec(o, k).last();
            let nfs = frontier_spec(n, k);
            mountain_skel(k, n, b.0) matches Some(sk) && sk.len() >= nfs[f].1 && skeleton_root(
                h,
                vals(b.0, b.1),
                sk.subrange(b.1 as int, nfs[f].1 as int),
                mountain_proof(vals, o, n, k).1,
            ) == Some(vals(nfs[f].0, nfs[f].1))
        }),
{
    let nfs = frontier_spec(n, k);
    let b = frontier_spec(o, k).last();
    let l = nfs[f].0;
    let hh = nfs[f].1;
    let path = mountain_proof(vals, o, n, k).1;
    let es0 = seq![(b, vals(b.0, b.1))];
    let x = lemma_climb_bisect(h, vals, cells, n, k, l, hh, b.0, b.1, es0);
    lemma_climb_facts(h, k, es0, b.0, b.1, vals(b.0, b.1), path);
    lemma_pow_positive(k, b.1);
    lemma_bisect_pinned(vals, l, hh, b.0, b.1, k);
    let ds = digit_steps((b.0 - l) as nat, hh, k);
    let sk = mountain_skel(k, n, b.0)->0;
    assert(sk.subrange(b.1 as int, hh as int) =~= ds.subrange(b.1 as int, hh as int));
}

/// The old frontier peaks are the new peaks left of the boundary's
/// mountain, the older peaks its climb passes on the left, and the boundary.
proof fn lemma_mountain_old_peaks(vals: spec_fn(nat, nat) -> Seq<u8>, o: nat, n: nat, k: nat, f: int)
    requires
        2 <= k <= 256,
        ({
            let ofs = frontier_spec(o, k);
            let nfs = frontier_spec(n, k);
            let b = ofs.last();
            let l = nfs[f].0;
            let hh = nfs[f].1;
            let inner = frontier_at((o - l) as nat, k, l);
            &&& f == peak_of(nfs, b.0, k)
            &&& 0 <= f < nfs.len()
            &&& l <= b.0
            &&& b.1 <= hh
            &&& b.0 + pow(k, b.1) == o
            &&& o <= l + pow(k, hh)
            &&& ofs == nfs.take(f) + inner
            &&& inner.len() > 0
            &&& inner.last() == b
            &&& aligned(l, hh, k)
            &&& aligned(b.0, b.1, k)
        }),
    ensures
        ({
            let p = mountain_proof(vals, o, n, k);
            let b = frontier_spec(o, k).last();
            peak_values(vals, o, k) == p.2.take(f) + merged_left(p.1) + seq![vals(b.0, b.1)]
        }),
{
    let ofs = frontier_spec(o, k);
    let nfs = frontier_spec(n, k);
    let b = ofs.last();
    let l = nfs[f].0;
    let hh = nfs[f].1;
    let inner = frontier_at((o - l) as nat, k, l);
    let p = mountain_proof(vals, o, n, k);
    let path = p.1;
    let np = p.2;
    lemma_merged_left_bisect(vals, l, hh, b.0, b.1, k);
    let pv = |c: (nat, nat)| vals(c.0, c.1);
    let ml = merged_left(path);
    assert(ml == inner.drop_last().map_values(pv));
    let rhs = np.take(f) + ml + seq![vals(b.0, b.1)];
    assert(ofs.len() == f + inner.len());
    assert forall|i: int| 0 <= i < ofs.len() implies #[trigger] peak_values(vals, o, k)[i] == rhs[i] by {
        if i < f {
            assert(ofs[i] == nfs[i]);
        } else if i < ofs.len() - 1 {
            assert(ofs[i] == inner[i - f]);
            assert(inner[i - f] == inner.drop_last()[i - f]);
            assert(ml[i - f] == pv(inner.drop_last()[i - f]));
        } else {
            assert(ofs[i] == inner[inner.len() - 1]);
        }
    }
    assert(peak_values(vals, o, k) =~= rhs);
}

/// The mountain consistency proof built from node values that agree with
/// the cells is accepted: it yields the bags of the old and of the new
/// frontier peaks.
pub proof fn lemma_mountain_consistency_accepted<H: Hasher>(
    h: H,
    vals: spec_fn(nat, nat) -> Seq<u8>,
    cells: Seq<Seq<u8>>,
    o: nat,
    n: nat,
    k: nat,
)
    requires
        2 <= k <= 256,
        0 < o < n <= u64::MAX,
        vals_agree(h, vals, cells, n, k),
        mountain_proof_fits(h.spec_empty().len(), mountain_proof(vals, o, n, k)),
    ensures
        ({
            let p = mountain_proof(vals, o, n, k);
            consistency_roots(h, o, n, k, p.0, p.1, p.2, p.3) == Some(
                (bag_root(h, peak_values(vals, o, k), k), bag_root(h, peak_values(vals, n, k), k)),
            )
        }),
{
    let ofs = frontier_spec(o, k);
    let nfs = frontier_spec(n, k);
    let b = ofs.last();
    let f = lemma_boundary(o, n, k);
    let hh = nfs[f].1;
    lemma_pow_positive(k, b.1);
    lemma_pow_positive(k, hh);
    if hh < b.1 {
        crate::topology::lemma_pow_strict(k, hh, b.1);
        assert(false);
    }
    lemma_mountain_climb(h, vals, cells, o, n, k, f);
    lemma_mountain_old_peaks(vals, o, n, k, f);
    let p = mountain_proof(vals, o, n, k);
    assert(p.2.len() == nfs.len());
    assert(p.2[f] == vals(nfs[f].0, nfs[f].1));
}

/// Mountain consistency soundness: under a collision-free hash, a mountain
/// consistency proof between `o` and `n` cells that passes the check and
/// bags to the bag of the first `n` cells' frontier peaks yields the bag of
/// the first `o` cells' frontier peaks as the old root, when neither it nor
/// the proof built from the cells collapses equal children in its climb or
/// its bag (the built proof's digests having the hasher's length).
pub proof fn lemma_mountain_consistency_sound<H: Hasher>(
    h: H,
    cells: Seq<Seq<u8>>,
    o: nat,
    n: nat,
    k: nat,
    boundary: Seq<u8>,
    path: Seq<(Seq<Seq<u8>>, nat)>,
    new_peaks: Seq<Seq<u8>>,
    split: nat,
    old_root: Seq<u8>,
)
    requires
        collision_free(h),
        2 <= k <= 256,
        0 < o < n <= cells.len(),
        n <= u64::MAX,
        no_collapse(h, boundary, path),
        bag_hashes(h, new_peaks, 0, k),
        ({
            let mp = mountain_proof(|l: nat, ht: nat| perfect(h, cells, l, ht, k), o, n, k);
            &&& mountain_proof_fits(h.spec_empty().len(), mp)
            &&& no_collapse(h, mp.0, mp.1)
            &&& bag_hashes(h, mp.2, 0, k)
        }),
        consistency_roots(h, o, n, k, boundary, path, new_peaks, split) == Some(
            (old_root, bag_root(h, peaks(h, cells.take(n as int), k), k)),
        ),
    ensures
        old_root == bag_root(h, peaks(h, cells.take(o as int), k), k),
{
    let vals = |l: nat, ht: nat| perfect(h, cells, l, ht, k);
    assert(vals_agree(h, vals, cells, n, k));
    assert(vals_agree(h, vals, cells, o, k));
    lemma_mountain_consistency_accepted(h, vals, cells, o, n, k);
    lemma_peak_values(h, vals, cells, o, k);
    lemma_peak_values(h, vals, cells, n, k);
    let mp = mountain_proof(vals, o, n, k);
    lemma_mountain_consistency_unique(h, o, n, k, boundary, path, new_peaks, split, mp.0, mp.1, mp.2, mp.3);
}

/// A bag path commits its peak: under a collision-free hash, a digest that
/// a path pinned by the bag skeleton of peak `f` (peak first) carries to
/// the bag of `peaks` is that peak, and the path is its bag path, when
/// neither path collapses equal children at a step.
pub proof fn lemma_bag_path_sound<H: Hasher>(
    h: H,
    peaks: Seq<Seq<u8>>,
    f: nat,
    k: nat,
    w: Seq<u8>,
    steps: Seq<(Seq<Seq<u8>>, nat)>,
)
    requires
        collision_free(h),
        k >= 2,
        f < peaks.len(),
        no_collapse(h, w, steps),
        no_collapse(h, peaks[f as int], bag_path_spec(h, peaks, f, k)),
        skeleton_root(h, w, bag_skel(peaks.len(), 0, k, f).reverse(), steps) == Some(bag_root(h, peaks, k)),
    ensures
        w == peaks[f as int],
        steps == bag_path_spec(h, peaks, f, k),
{
    lemma_bag_path_verifies(h, peaks, f, k);
    lemma_bag_steps_pinned(h, peaks, 0, k, f);
    let bs = bag_skel(peaks.len(), 0, k, f);
    let br = bs.reverse();
    assert(no_lone_step(br)) by {
        assert forall|i: int| 0 <= i < br.len() implies #[trigger] br[i].1 >= 1 by {
            assert(br[i] == bs[bs.len() - 1 - i]);
        }
    }
    lemma_pinned_path_unique(h, br, w, steps, peaks[f as int], bag_path_spec(h, peaks, f, k));
}

/// The mountain inclusion path of `index`, over node values that agree with
/// the cells, is pinned by the mountain skeleton of `index` and carries the
/// cell at `index` to the bag of the frontier peaks of the first `n` cells.
pub proof fn lemma_mountain_inclusion_complete<H: Hasher>(
    h: H,
    vals: spec_fn(nat, nat) -> Seq<u8>,
    cells: Seq<Seq<u8>>,
    n: nat,
    index: nat,
    k: nat,
)
    requires
        2 <= k <= 256,
        index < n <= cells.len(),
        vals_agree(h, vals, cells, n, k),
    ensures
        mountain_skel(k, n, index) matches Some(sk) && skeleton_root(
            h,
            cells[index as int],
            sk,
            mountain_inclusion_steps(h, vals, n, index, k),
        ) == Some(bag_root(h, peaks(h, cells.take(n as int), k), k)),
{
    let fs = frontier_spec(n, k);
    lemma_frontier_covers(n, k, 0, index);
    let w = choose|i: int|
        0 <= i < fs.len() && #[trigger] fs[i].0 <= index && index < fs[i].0 + pow(k, fs[i].1);
    assert(peak_holds(fs, w, index, k));
    lemma_first_peak(fs, index, k, w);
    let f = peak_of(fs, index, k);
    lemma_frontier_within(n, k, 0);
    lemma_frontier_aligned(n, k, 0);
    let l = fs[f].0;
    let ht = fs[f].1;
    assert(aligned(l, ht, k));
    assert(aligned(index, 0, k)) by {
        assert(pow(k, 0) == 1);
    }
    assert(perfect(h, cells, index, 0, k) == cells[index as int]);
    lemma_bisect_root(h, vals, cells, n, l, ht, index, 0, k);
    let a = bisect_down(vals, l, ht, index, 0, k).reverse();
    let pv = peak_values(vals, n, k);
    lemma_peak_values(h, vals, cells, n, k);
    assert(pv[f] == perfect(h, cells, l, ht, k)) by {
        assert(pv[f] == vals(l, ht));
    }
    let bp = bag_path_spec(h, pv, f as nat, k);
    lemma_bag_path_verifies(h, pv, f as nat, k);
    crate::proofs::lemma_path_root_append(h, cells[index as int], a, bp);
    lemma_bisect_pinned(vals, l, ht, index, 0, k);
    let ds = digit_steps((index - l) as nat, ht, k);
    assert(ds.subrange(0, ht as int) =~= ds);
    let br = bag_skel(pv.len(), 0, k, f as nat).reverse();
    lemma_pinned_concat(ds, a, br, bp);
    assert(mountain_skel(k, n, index) == Some(ds + br));
}

/// An accepting mountain inclusion path commits the cell at its position:
/// under a collision-free hash, a path pinned by the mountain skeleton of
/// `index` in a log of `n` cells that carries `leaf` to the bag of the
/// first `n` cells' frontier peaks starts from the cell at `index` and is
/// its mountain inclusion path, when neither path collapses equal children
/// at a step.
pub proof fn lemma_mountain_inclusion_sound<H: Hasher>(
    h: H,
    cells: Seq<Seq<u8>>,
    n: nat,
    index: nat,
    k: nat,
    leaf: Seq<u8>,
    steps: Seq<(Seq<Seq<u8>>, nat)>,
)
    requires
        2 <= k <= 256,
        index < n <= cells.len(),
        collision_free(h),
        no_collapse(h, leaf, steps),
        no_collapse(
            h,
            cells[index as int],
            mountain_inclusion_steps(h, |l: nat, ht: nat| perfect(h, cells, l, ht, k), n, index, k),
        ),
        mountain_skel(k, n, index) matches Some(sk) && skeleton_root(h, leaf, sk, steps) == Some(
            bag_root(h, peaks(h, cells.take(n as int), k), k),
        ),
    ensures
        leaf == cells[index as int],
        steps == mountain_inclusion_steps(h, |l: nat, ht: nat| perfect(h, cells, l, ht, k), n, index, k),
{
    let vals = |l: nat, ht: nat| perfect(h, cells, l, ht, k);
    assert(vals_agree(h, vals, cells, n, k));
    lemma_mountain_inclusion_complete(h, vals, cells, n, index, k);
    lemma_mountain_skel_no_lone(h, k, n, index);
    let sk = mountain_skel(k, n, index)->0;
    lemma_pinned_path_unique(h, sk, leaf, steps, cells[index as int], mountain_inclusion_steps(h, vals, n, index, k));
}

} // verus!
