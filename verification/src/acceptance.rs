//! Every consistency path the log builds over node values that agree with
//! its cells is accepted, and yields the member roots at both sizes.
use vstd::prelude::*;

use crate::consistency::{
    Entry,
    child_coords,
    climb,
    climb_step,
    final_merge,
    inputs_ok,
    lookup,
    merge_phase,
    path_consistency_roots,
    read_back,
    node_entries,
    sibs_fit,
    slot,
};
use crate::hasher::Hasher;
use crate::log::{bisect_down, consistency_steps, lemma_multiple_gap, peak_values, siblings_of, vals_agree};
use crate::model::{perfect, perfect_children};
use crate::mr::spec_nary_mr;
use crate::model::fold_frontier;
use crate::proofs::{lemma_with_without, merge_steps, with_child, without};
use crate::topology::{
    aligned,
    frontier_spec,
    lemma_first_peak,
    lemma_frontier_aligned,
    lemma_frontier_covers,
    lemma_pow_strict,
    peak_holds,
    peak_of,
    const_run,
    frontier_at,
    lemma_aligned_child,
    lemma_aligned_lower,
    lemma_frontier_const,
    lemma_frontier_split,
    lemma_frontier_unfold,
    lemma_frontier_within,
    lemma_max_height_bounds,
    lemma_max_height_unique,
    lemma_pow_monotone,
    lemma_pow_positive,
    lemma_pow_succ,
    max_height,
    pow,
};

verus! {

/// The subtrees of a frontier come left to right without overlap.
pub proof fn lemma_frontier_sorted(n: nat, k: nat, base: nat)
    requires
        k >= 2,
    ensures
        forall|i: int, j: int|
            0 <= i < j < frontier_at(n, k, base).len() ==> #[trigger] frontier_at(n, k, base)[i].0
                + pow(k, frontier_at(n, k, base)[i].1) <= #[trigger] frontier_at(n, k, base)[j].0,
    decreases n,
{
    if n >= 1 {
        lemma_frontier_unfold(n, k, base);
        let h = max_height(n, k);
        let c = pow(k, h);
        let fs = frontier_at(n, k, base);
        let rest = frontier_at((n - c) as nat, k, base + c);
        lemma_frontier_sorted((n - c) as nat, k, base + c);
        lemma_frontier_within((n - c) as nat, k, base + c);
        assert forall|i: int, j: int| 0 <= i < j < fs.len() implies #[trigger] fs[i].0 + pow(k, fs[i].1)
            <= #[trigger] fs[j].0 by {
            assert(fs[j] == rest[j - 1]);
            if i > 0 {
                assert(fs[i] == rest[i - 1]);
            }
        }
    }
}

/// Two sizes whose frontiers agree up to subtree `f` of the larger: the
/// smaller's frontier is that prefix followed by the frontier of what it
/// holds from subtree `f`'s left edge on.
pub proof fn lemma_frontier_prefix(n: nat, o: nat, k: nat, base: nat, f: int)
    requires
        k >= 2,
        o <= n,
        0 <= f < frontier_at(n, k, base).len(),
        frontier_at(n, k, base)[f].0 <= base + o,
    ensures
        frontier_at(o, k, base) == frontier_at(n, k, base).take(f) + frontier_at(
            (base + o - frontier_at(n, k, base)[f].0) as nat,
            k,
            frontier_at(n, k, base)[f].0,
        ),
    decreases f,
{
    let fs = frontier_at(n, k, base);
    lemma_frontier_within(n, k, base);
    if f == 0 {
        lemma_frontier_unfold(n, k, base);
        assert(fs[0].0 == base);
        assert(fs.take(0) + frontier_at(o, k, base) =~= frontier_at(o, k, base));
    } else {
        lemma_frontier_unfold(n, k, base);
        let h = max_height(n, k);
        let c = pow(k, h);
        let rest = frontier_at((n - c) as nat, k, base + c);
        lemma_frontier_within((n - c) as nat, k, base + c);
        assert(fs[f] == rest[f - 1]);
        assert(o >= c);
        lemma_max_height_bounds(n, k);
        lemma_max_height_unique(o, k, h);
        lemma_frontier_unfold(o, k, base);
        lemma_frontier_prefix((n - c) as nat, (o - c) as nat, k, base + c, f - 1);
        assert(fs.take(f) =~= seq![(base, h)] + rest.take(f - 1));
        assert(frontier_at(o, k, base) =~= seq![(base, h)] + frontier_at((o - c) as nat, k, base + c));
        assert((base + c + (o - c) - rest[f - 1].0) as nat == (base + o - fs[f].0) as nat);
    }
}


/// Every recorded digest is the node value at its coordinate.
pub open spec fn good_vals(vals: spec_fn(nat, nat) -> Seq<u8>, x: Seq<Entry>) -> bool {
    forall|i: int| 0 <= i < x.len() ==> (#[trigger] x[i]).1 == vals(x[i].0.0, x[i].0.1)
}

/// Some digest is recorded at `c`.
pub open spec fn recorded(x: Seq<Entry>, c: (nat, nat)) -> bool {
    exists|i: int| 0 <= i < x.len() && (#[trigger] x[i]).0 == c
}

/// Climbing along `a + b` is climbing along `a`, then along `b`.
pub proof fn lemma_climb_append<H: Hasher>(
    h: H,
    k: nat,
    es: Seq<Entry>,
    left: nat,
    ht: nat,
    cur: Seq<u8>,
    a: Seq<(Seq<Seq<u8>>, nat)>,
    b: Seq<(Seq<Seq<u8>>, nat)>,
)
    ensures
        climb(h, k, es, left, ht, cur, a + b) == match climb(h, k, es, left, ht, cur, a) {
            None => None,
            Some(c) => climb(h, k, c.0, c.1, ht + a.len(), c.2, b),
        },
    decreases a.len(),
{
    if a.len() == 0 {
        assert(a + b =~= b);
    } else {
        assert((a + b)[0] == a[0]);
        assert((a + b).skip(1) =~= a.skip(1) + b);
        match climb_step(h, k, es, left, ht, cur, a[0]) {
            None => {},
            Some(c) => {
                lemma_climb_append(h, k, c.0, c.1, ht + 1, c.2, a.skip(1), b);
                assert(ht + 1 + a.skip(1).len() == ht + a.len());
            },
        }
    }
}

/// Node values that agree with the cells hash each aligned node from its
/// `k` children.
pub proof fn lemma_parent_value<H: Hasher>(
    h: H,
    vals: spec_fn(nat, nat) -> Seq<u8>,
    cells: Seq<Seq<u8>>,
    n: nat,
    k: nat,
    left: nat,
    hc: nat,
)
    requires
        k >= 2,
        vals_agree(h, vals, cells, n, k),
        aligned(left, hc + 1, k),
        left + pow(k, hc + 1) <= n,
    ensures
        vals(left, hc + 1) == spec_nary_mr(
            h,
            Seq::new(k, |j: int| vals((left + j * pow(k, hc)) as nat, hc)),
        ),
{
    let p = pow(k, hc);
    lemma_pow_succ(k, hc);
    lemma_pow_positive(k, hc);
    assert(vals(left, hc + 1) == perfect(h, cells, left, hc + 1, k));
    assert(perfect(h, cells, left, hc + 1, k) == spec_nary_mr(h, perfect_children(h, cells, left, hc, k)));
    assert forall|j: int| 0 <= j < k implies #[trigger] perfect_children(h, cells, left, hc, k)[j]
        == vals((left + j * p) as nat, hc) by {
        lemma_aligned_child(left, hc, k, j as nat);
        assert((j + 1) * p <= k * p) by (nonlinear_arith)
            requires
                j + 1 <= k,
                p >= 1,
        ;
        assert(left + j * p + p == left + (j + 1) * p) by (nonlinear_arith);
        assert(vals((left + j * p) as nat, hc) == perfect(h, cells, (left + j * p) as nat, hc, k));
    }
    assert(perfect_children(h, cells, left, hc, k) =~= Seq::new(
        k,
        |j: int| vals((left + j * pow(k, hc)) as nat, hc),
    ));
}


/// The climb along the bisection path from the node `(target, th)` up to
/// the node `(left, height)` holding it, over node values that agree with
/// the cells, rebuilds the node's value; what it records are node values,
/// and it records every subtree of the frontier of the cells from `left` to
/// the end of `target` but that node itself.
pub proof fn lemma_climb_bisect<H: Hasher>(
    h: H,
    vals: spec_fn(nat, nat) -> Seq<u8>,
    cells: Seq<Seq<u8>>,
    n: nat,
    k: nat,
    left: nat,
    height: nat,
    target: nat,
    th: nat,
    es0: Seq<Entry>,
) -> (x: Seq<Entry>)
    requires
        2 <= k <= 256,
        n <= u64::MAX,
        vals_agree(h, vals, cells, n, k),
        aligned(left, height, k),
        aligned(target, th, k),
        th <= height,
        left <= target,
        target + pow(k, th) <= left + pow(k, height),
        left + pow(k, height) <= n,
        frontier_at((target + pow(k, th) - left) as nat, k, left).last() == (target, th),
    ensures
        bisect_down(vals, left, height, target, th, k).len() == height - th,
        climb(
            h,
            k,
            es0,
            target,
            th,
            vals(target, th),
            bisect_down(vals, left, height, target, th, k).reverse(),
        ) == Some((es0 + x, left, vals(left, height))),
        good_vals(vals, x),
        height > th ==> x.len() > 0 && x.last() == ((left, height), vals(left, height)),
        forall|i: int|
            0 <= i < frontier_at((target + pow(k, th) - left) as nat, k, left).len() ==> {
                let c = #[trigger] frontier_at((target + pow(k, th) - left) as nat, k, left)[i];
                c == (target, th) || recorded(x, c)
            },
    decreases height,
{
    lemma_pow_positive(k, th);
    lemma_pow_positive(k, height);
    let m = (target + pow(k, th) - left) as nat;
    if height <= th {
        assert(target == left);
        assert(bisect_down(vals, left, height, target, th, k) =~= Seq::<(Seq<Seq<u8>>, nat)>::empty());
        assert(bisect_down(vals, left, height, target, th, k).reverse() =~= Seq::<(Seq<Seq<u8>>, nat)>::empty());
        assert(es0 + Seq::<Entry>::empty() =~= es0);
        lemma_frontier_const(left, 1, th, k);
        assert(1 * pow(k, th) == pow(k, th));
        assert(frontier_at(m, k, left) =~= const_run(left, 1, th, k));
        assert(const_run(left, 1, th, k)[0] == (left, th)) by {
            assert(left + 0 * pow(k, th) == left);
        }
        Seq::<Entry>::empty()
    } else {
        let hc = (height - 1) as nat;
        let p = pow(k, hc);
        lemma_pow_positive(k, hc);
        lemma_pow_succ(k, hc);
        assert(height == hc + 1);
        let off = (target - left) as nat;
        assert(off < k * p);
        let c = off / p;
        crate::log::lemma_child_index(off, p, k);
        let left2 = left + c * p;
        let sibs = siblings_of(vals, left, hc, c, k);
        let step = (sibs, c);
        let rest = bisect_down(vals, left2, hc, target, th, k);
        assert(bisect_down(vals, left, height, target, th, k) == seq![step] + rest);
        // the child holding the target
        lemma_aligned_child(left, hc, k, c);
        lemma_aligned_lower(target, k, th, th);
        lemma_aligned_child(left, hc, k, c + 1);
        assert(left + (c + 1) * p == left2 + p) by (nonlinear_arith)
            requires
                left2 == left + c * p,
        ;
        lemma_aligned_lower(left2 + p, k, th, hc);
        lemma_aligned_lower(left2, k, th, hc);
        lemma_pow_monotone(k, th, hc);
        assert(target < left2 + p);
        lemma_multiple_gap(target, left2 + p, pow(k, th));
        assert(left2 + p <= left + pow(k, height)) by (nonlinear_arith)
            requires
                left2 == left + c * p,
                c + 1 <= k,
                pow(k, height) == k * p,
        ;
        let r = (target + pow(k, th) - left2) as nat;
        assert(m == c * p + r);
        // the frontier from `left` splits at the child
        if r < p {
            lemma_frontier_split(c, hc, r, left, k);
            lemma_frontier_const(left, c, hc, k);
            assert(frontier_at(m, k, left) == const_run(left, c, hc, k) + frontier_at(r, k, left2));
        } else {
            assert(r == p);
            assert(m == (c + 1) * p) by (nonlinear_arith)
                requires
                    m == c * p + r,
                    r == p,
            ;
            if c + 1 == k {
                lemma_frontier_const(left, 1, height, k);
                assert(m == 1 * pow(k, height));
                assert(const_run(left, 1, height, k)[0] == (left, height)) by {
                    assert(left + 0 * pow(k, height) == left);
                }
                assert(frontier_at(m, k, left).last() == (left, height));
                assert(false);
            }
            lemma_frontier_const(left, c + 1, hc, k);
            assert(frontier_at(m, k, left) == const_run(left, c + 1, hc, k));
            assert(const_run(left, c + 1, hc, k).last() == (left2, hc));
            assert(left2 == target && hc == th);
        }
        assert(frontier_at(r, k, left2).last() == (target, th)) by {
            if r < p {
                lemma_frontier_unfold(r, k, left2);
                assert(frontier_at(r, k, left2).len() > 0);
                assert(frontier_at(m, k, left).last() == frontier_at(r, k, left2).last());
            } else {
                lemma_frontier_const(left2, 1, hc, k);
                assert(r == 1 * p);
                assert(const_run(left2, 1, hc, k)[0] == (left2, hc)) by {
                    assert(left2 + 0 * p == left2);
                }
            }
        }
        let x1 = lemma_climb_bisect(h, vals, cells, n, k, left2, hc, target, th, es0);
        // the step to the parent
        let cur = vals(left2, hc);
        assert(left2 == left + c * pow(k, hc));
        lemma_climb_append(h, k, es0, target, th, vals(target, th), rest.reverse(), seq![step]);
        assert((seq![step] + rest).reverse() =~= rest.reverse() + seq![step]);
        assert(th + rest.reverse().len() == hc);
        let children = Seq::new(k, |j: int| vals((left + j * p) as nat, hc));
        assert(with_child(sibs, cur, c) =~= children) by {
            assert forall|j: int| 0 <= j < k implies #[trigger] with_child(sibs, cur, c)[j] == children[j] by {
                if j < c {
                    assert(with_child(sibs, cur, c)[j] == sibs[j]);
                } else if j == c {
                } else {
                    assert(with_child(sibs, cur, c)[j] == sibs[j - 1]);
                }
            }
        }
        lemma_parent_value(h, vals, cells, n, k, left, hc);
        assert(c * p <= left2);
        assert(sibs_fit(left, p, c, sibs.len())) by {
            assert forall|j: int| 0 <= j < sibs.len() implies left + slot(j, c) * p <= u64::MAX by {
                assert(slot(j, c) < k);
                assert(slot(j, c) * p <= k * p) by (nonlinear_arith)
                    requires
                        slot(j, c) < k,
                        p >= 1,
                ;
            }
        }
        let ne = node_entries(child_coords(left, p, hc, k), sibs, c);
        let x = (x1 + ne).push(((left, height), vals(left, height)));
        assert(climb_step(h, k, es0 + x1, left2, hc, cur, step) == Some(
            (((es0 + x1) + ne).push(((left, hc + 1), vals(left, height))), left, vals(left, height)),
        ));
        assert(((es0 + x1) + ne).push(((left, hc + 1), vals(left, height))) =~= es0 + x);
        assert(climb(h, k, es0 + x, left, height, vals(left, height), seq![step].skip(1)) == Some(
            (es0 + x, left, vals(left, height)),
        )) by {
            assert(seq![step].skip(1) =~= Seq::<(Seq<Seq<u8>>, nat)>::empty());
        }
        assert(good_vals(vals, x)) by {
            assert forall|i: int| 0 <= i < x.len() implies (#[trigger] x[i]).1 == vals(x[i].0.0, x[i].0.1) by {
                if i < x1.len() {
                    assert(x[i] == x1[i]);
                } else if i < x1.len() + ne.len() {
                    let j = i - x1.len();
                    assert(x[i] == ne[j]);
                    assert(slot(j, c) < k);
                    assert(child_coords(left, p, hc, k)[slot(j, c)] == ((left + slot(j, c) * p) as nat, hc));
                }
            }
        }
        assert forall|i: int| 0 <= i < frontier_at(m, k, left).len() implies {
            let cc = #[trigger] frontier_at(m, k, left)[i];
            cc == (target, th) || recorded(x, cc)
        } by {
            let cc = frontier_at(m, k, left)[i];
            if i < c {
                assert(cc == const_run(left, c, hc, k)[i] || cc == const_run(left, c + 1, hc, k)[i]);
                assert(cc == ((left + i * p) as nat, hc));
                let j = i;
                assert(slot(j, c) == j);
                assert(ne[j] == (child_coords(left, p, hc, k)[j], sibs[j]));
                assert(x[x1.len() + j] == ne[j]);
            } else if r < p {
                let ii = i - c;
                assert(cc == frontier_at(r, k, left2)[ii]);
                if cc != (target, th) {
                    let w = choose|w: int| 0 <= w < x1.len() && (#[trigger] x1[w]).0 == cc;
                    assert(x[w] == x1[w]);
                }
            } else {
                assert(i == c);
                assert(cc == const_run(left, c + 1, hc, k)[c as int]);
            }
        }
        x
    }
}


/// A coordinate that sits on the left edge of a subtree `nfs[j]` but
/// higher than it: the label a frontier merge gives its parent.
pub open spec fn is_label(nfs: Seq<(nat, nat)>, c: (nat, nat)) -> bool {
    exists|j: int| 0 <= j < nfs.len() && c.0 == (#[trigger] nfs[j]).0 && c.1 > nfs[j].1
}

/// A recorded digest is the node value at its coordinate, or sits at a
/// merge label.
pub open spec fn good_entry(vals: spec_fn(nat, nat) -> Seq<u8>, nfs: Seq<(nat, nat)>, e: Entry) -> bool {
    e.1 == vals(e.0.0, e.0.1) || is_label(nfs, e.0)
}

/// A node of the frontier fold is one of the subtrees `nfs` with its value
/// `pv`, or a merge label.
pub open spec fn orig_or_label(nfs: Seq<(nat, nat)>, pv: Seq<Seq<u8>>, c: (nat, nat), v: Seq<u8>) -> bool {
    (exists|j: int| 0 <= j < nfs.len() && c == (#[trigger] nfs[j]) && v == pv[j]) || is_label(nfs, c)
}

/// The state of the frontier fold over the subtrees `nfs` with values `pv`
/// carrying subtree `f0`: nodes `fr` with values `cur`, the carried one at
/// `t`, everything left of it untouched, every node a subtree or a label,
/// every recorded digest good, and each subtree left of `f0` either still
/// left of the carried node or recorded with its value.
pub open spec fn fold_inv(
    vals: spec_fn(nat, nat) -> Seq<u8>,
    nfs: Seq<(nat, nat)>,
    pv: Seq<Seq<u8>>,
    f0: nat,
    fr: Seq<(nat, nat)>,
    cur: Seq<Seq<u8>>,
    t: nat,
    es: Seq<Entry>,
) -> bool {
    &&& fr.len() == cur.len()
    &&& t < fr.len()
    &&& t <= f0
    &&& forall|i: int| 0 <= i < t ==> fr[i] == nfs[i] && cur[i] == pv[i]
    &&& forall|i: int| 0 <= i < fr.len() ==> orig_or_label(nfs, pv, #[trigger] fr[i], cur[i])
    &&& forall|i: int| 0 <= i < es.len() ==> good_entry(vals, nfs, #[trigger] es[i])
    &&& forall|i: int| 0 <= i < f0 ==> i < t || #[trigger] recorded_pair(es, nfs[i], pv[i])
}

/// The pair `(c, v)` is among the recorded digests.
pub open spec fn recorded_pair(es: Seq<Entry>, c: (nat, nat), v: Seq<u8>) -> bool {
    exists|w: int| 0 <= w < es.len() && #[trigger] es[w] == (c, v)
}

/// The step left for the last merge.
pub open spec fn final_steps(cur: Seq<Seq<u8>>, t: nat) -> Seq<(Seq<Seq<u8>>, nat)> {
    if cur.len() > 1 {
        seq![(without(cur, t), t)]
    } else {
        seq![]
    }
}

/// Recording the siblings of a node among `fr`, `cur` records node/value
/// pairs of the fold.
proof fn lemma_node_entries_pairs(fr: Seq<(nat, nat)>, cur: Seq<Seq<u8>>, lo: nat, pos: nat, len: nat)
    requires
        fr.len() == cur.len(),
        lo + len == fr.len(),
        pos < len,
    ensures
        node_entries(fr.skip(lo as int), without(cur.skip(lo as int), pos), pos).len() == len - 1,
        forall|w: int|
            0 <= w < len - 1 ==> #[trigger] node_entries(
                fr.skip(lo as int),
                without(cur.skip(lo as int), pos),
                pos,
            )[w] == (fr[lo + slot(w, pos)], cur[lo + slot(w, pos)]),
{
    let right = cur.skip(lo as int);
    assert forall|w: int| 0 <= w < len - 1 implies #[trigger] node_entries(
        fr.skip(lo as int),
        without(right, pos),
        pos,
    )[w] == (fr[lo + slot(w, pos)], cur[lo + slot(w, pos)]) by {
        if w < pos {
            assert(without(right, pos)[w] == right[w]);
        } else {
            assert(without(right, pos)[w] == right[w + 1]);
        }
    }
}

/// The frontier fold keeps its invariant, consumes the merge steps that
/// carry the node at `t`, keeps the fold of the values, and leaves at most
/// `k` nodes and the step for the last merge.
pub proof fn lemma_merge_run<H: Hasher>(
    h: H,
    vals: spec_fn(nat, nat) -> Seq<u8>,
    k: nat,
    nfs: Seq<(nat, nat)>,
    pv: Seq<Seq<u8>>,
    f0: nat,
    fr: Seq<(nat, nat)>,
    cur: Seq<Seq<u8>>,
    t: nat,
    es: Seq<Entry>,
) -> (r: (Seq<(nat, nat)>, Seq<Seq<u8>>, nat, Seq<Entry>))
    requires
        k >= 2,
        pv.len() == nfs.len(),
        forall|j: int| 0 <= j < nfs.len() ==> #[trigger] pv[j] == vals(nfs[j].0, nfs[j].1),
        fold_inv(vals, nfs, pv, f0, fr, cur, t, es),
    ensures
        merge_phase(h, k, fr, t, Some(cur[t as int]), es, merge_steps(h, cur, t, k)) == Some(
            (r.0, r.2, Some(r.1[r.2 as int]), r.3, final_steps(r.1, r.2)),
        ),
        r.1.len() <= k,
        fold_frontier(h, r.1, k) == fold_frontier(h, cur, k),
        fold_inv(vals, nfs, pv, f0, r.0, r.1, r.2, r.3),
        r.3.len() >= es.len(),
        forall|i: int| 0 <= i < es.len() ==> #[trigger] r.3[i] == es[i],
    decreases fr.len(),
{
    if fr.len() <= k {
        (fr, cur, t, es)
    } else {
        let split = (fr.len() - k) as nat;
        let right = cur.skip(split as int);
        let p = spec_nary_mr(h, right);
        let pc = (fr[split as int].0, fr[split as int].1 + 1);
        let nfr = fr.take(split as int).push(pc);
        let ncur = cur.take(split as int).push(p);
        assert(fold_frontier(h, cur, k) == fold_frontier(h, ncur, k));
        assert(is_label(nfs, pc)) by {
            if exists|j: int| 0 <= j < nfs.len() && fr[split as int] == (#[trigger] nfs[j]) && cur[split as int] == pv[j] {
                let j = choose|j: int| 0 <= j < nfs.len() && fr[split as int] == (#[trigger] nfs[j]) && cur[split as int] == pv[j];
                assert(pc.0 == nfs[j].0 && pc.1 > nfs[j].1);
            } else {
                assert(orig_or_label(nfs, pv, fr[split as int], cur[split as int]));
                let j = choose|j: int| 0 <= j < nfs.len() && fr[split as int].0 == (#[trigger] nfs[j]).0 && fr[split as int].1 > nfs[j].1;
                assert(pc.0 == nfs[j].0 && pc.1 > nfs[j].1);
            }
        }
        if t < split {
            assert(ncur[t as int] == cur[t as int]);
            assert(fold_inv(vals, nfs, pv, f0, nfr, ncur, t, es)) by {
                assert forall|i: int| 0 <= i < nfr.len() implies orig_or_label(nfs, pv, #[trigger] nfr[i], ncur[i]) by {
                    if i < split {
                        assert(nfr[i] == fr[i] && ncur[i] == cur[i]);
                    }
                }
            }
            let r = lemma_merge_run(h, vals, k, nfs, pv, f0, nfr, ncur, t, es);
            r
        } else {
            let tt = (t - split) as nat;
            let sibs = without(right, tt);
            lemma_with_without(right, tt);
            assert(right[tt as int] == cur[t as int]);
            lemma_node_entries_pairs(fr, cur, split, tt, k);
            let ne = node_entries(fr.skip(split as int), sibs, tt);
            let nes = (es + ne).push((pc, p));
            let steps = merge_steps(h, cur, t, k);
            assert(steps == seq![(sibs, tt)] + merge_steps(h, ncur, split, k));
            assert(steps[0] == (sibs, tt));
            assert(steps.skip(1) =~= merge_steps(h, ncur, split, k));
            assert(ncur[split as int] == p);
            assert(fold_inv(vals, nfs, pv, f0, nfr, ncur, split, nes)) by {
                assert forall|i: int| 0 <= i < split implies nfr[i] == nfs[i] && ncur[i] == pv[i] by {
                    assert(nfr[i] == fr[i] && ncur[i] == cur[i]);
                }
                assert forall|i: int| 0 <= i < nfr.len() implies orig_or_label(nfs, pv, #[trigger] nfr[i], ncur[i]) by {
                    if i < split {
                        assert(nfr[i] == fr[i] && ncur[i] == cur[i]);
                    }
                }
                assert forall|i: int| 0 <= i < nes.len() implies good_entry(vals, nfs, #[trigger] nes[i]) by {
                    if i < es.len() {
                        assert(nes[i] == es[i]);
                    } else if i < es.len() + ne.len() {
                        let w = i - es.len();
                        assert(nes[i] == ne[w]);
                        let q = split + slot(w, tt);
                        assert(ne[w] == (fr[q], cur[q]));
                        assert(orig_or_label(nfs, pv, fr[q], cur[q]));
                        if exists|j: int| 0 <= j < nfs.len() && fr[q] == (#[trigger] nfs[j]) && cur[q] == pv[j] {
                            let j = choose|j: int| 0 <= j < nfs.len() && fr[q] == (#[trigger] nfs[j]) && cur[q] == pv[j];
                            assert(pv[j] == vals(nfs[j].0, nfs[j].1));
                        }
                    } else {
                        assert(nes[i] == (pc, p));
                    }
                }
                assert forall|i: int| 0 <= i < f0 implies i < split || #[trigger] recorded_pair(nes, nfs[i], pv[i]) by {
                    if i >= split {
                        if i < t {
                            let w = i - split;
                            assert(slot(w, tt) == w);
                            assert(ne[w] == (fr[i], cur[i]));
                            assert(nes[es.len() + w] == ne[w]);
                        } else {
                            assert(recorded_pair(es, nfs[i], pv[i]));
                            let w0 = choose|w: int| 0 <= w < es.len() && #[trigger] es[w] == (nfs[i], pv[i]);
                            assert(nes[w0] == es[w0]);
                        }
                    } else {
                    }
                }
            }
            let r = lemma_merge_run(h, vals, k, nfs, pv, f0, nfr, ncur, split, nes);
            assert forall|i: int| 0 <= i < es.len() implies #[trigger] r.3[i] == es[i] by {
                assert(r.3[i] == nes[i]);
                assert(nes[i] == es[i]);
            }
            r
        }
    }
}

/// The last merge yields the fold of the values, records node/value pairs,
/// and leaves no step; afterwards every subtree left of `f0` is recorded.
pub proof fn lemma_final_merge<H: Hasher>(
    h: H,
    vals: spec_fn(nat, nat) -> Seq<u8>,
    k: nat,
    nfs: Seq<(nat, nat)>,
    pv: Seq<Seq<u8>>,
    f0: nat,
    fr: Seq<(nat, nat)>,
    cur: Seq<Seq<u8>>,
    t: nat,
    es: Seq<Entry>,
) -> (z: Seq<Entry>)
    requires
        k >= 2,
        pv.len() == nfs.len(),
        forall|j: int| 0 <= j < nfs.len() ==> #[trigger] pv[j] == vals(nfs[j].0, nfs[j].1),
        fold_inv(vals, nfs, pv, f0, fr, cur, t, es),
        cur.len() <= k,
    ensures
        final_merge(h, fr, t, Some(cur[t as int]), es, final_steps(cur, t)) == Some(
            (fold_frontier(h, cur, k), z, Seq::<(Seq<Seq<u8>>, nat)>::empty()),
        ),
        forall|i: int| 0 <= i < z.len() ==> good_entry(vals, nfs, #[trigger] z[i]),
        forall|i: int| 0 <= i < f0 ==> #[trigger] recorded_pair(z, nfs[i], pv[i]),
        z.len() >= es.len(),
        forall|i: int| 0 <= i < es.len() ==> #[trigger] z[i] == es[i],
{
    if cur.len() <= 1 {
        assert(final_steps(cur, t) =~= Seq::<(Seq<Seq<u8>>, nat)>::empty());
        assert(t == 0);
        es
    } else {
        let sibs = without(cur, t);
        lemma_with_without(cur, t);
        lemma_node_entries_pairs(fr, cur, 0, t, cur.len());
        assert(fr.skip(0) =~= fr);
        assert(cur.skip(0) =~= cur);
        let ne = node_entries(fr, sibs, t);
        let z = es + ne;
        assert(final_steps(cur, t).skip(1) =~= Seq::<(Seq<Seq<u8>>, nat)>::empty());
        assert forall|i: int| 0 <= i < z.len() implies good_entry(vals, nfs, #[trigger] z[i]) by {
            if i < es.len() {
                assert(z[i] == es[i]);
            } else {
                let w = i - es.len();
                assert(z[i] == ne[w]);
                let q = slot(w, t);
                assert(ne[w] == (fr[q], cur[q]));
                assert(orig_or_label(nfs, pv, fr[q], cur[q]));
                if exists|j: int| 0 <= j < nfs.len() && fr[q] == (#[trigger] nfs[j]) && cur[q] == pv[j] {
                    let j = choose|j: int| 0 <= j < nfs.len() && fr[q] == (#[trigger] nfs[j]) && cur[q] == pv[j];
                    assert(pv[j] == vals(nfs[j].0, nfs[j].1));
                }
            }
        }
        assert forall|i: int| 0 <= i < f0 implies #[trigger] recorded_pair(z, nfs[i], pv[i]) by {
            if i < t {
                assert(slot(i, t) == i);
                assert(ne[i] == (fr[i], cur[i]));
                assert(z[es.len() + i] == ne[i]);
            } else {
                assert(recorded_pair(es, nfs[i], pv[i]));
                let w0 = choose|w: int| 0 <= w < es.len() && #[trigger] es[w] == (nfs[i], pv[i]);
                assert(z[w0] == es[w0]);
            }
        }
        z
    }
}

/// A digest recorded at `c`, where every digest recorded there is `v`, is
/// what a lookup of `c` gives.
pub proof fn lemma_lookup_good(es: Seq<Entry>, c: (nat, nat), v: Seq<u8>)
    requires
        exists|i: int| 0 <= i < es.len() && (#[trigger] es[i]).0 == c,
        forall|i: int| 0 <= i < es.len() && (#[trigger] es[i]).0 == c ==> es[i].1 == v,
    ensures
        lookup(es, c) == Some(v),
    decreases es.len(),
{
    if es.last().0 != c {
        let i = choose|i: int| 0 <= i < es.len() && (#[trigger] es[i]).0 == c;
        assert(i < es.len() - 1);
        assert(es.drop_last()[i] == es[i]);
        assert forall|j: int| 0 <= j < es.drop_last().len() && (#[trigger] es.drop_last()[j]).0 == c implies es.drop_last()[j].1 == v by {
            assert(es.drop_last()[j] == es[j]);
        }
        lemma_lookup_good(es.drop_last(), c, v);
    }
}


/// No subtree of the frontier of `o` sits at a merge label of the frontier
/// of `n`, whose subtree `f` holds the last of them.
proof fn lemma_old_not_label(o: nat, n: nat, k: nat, f: int)
    requires
        k >= 2,
        0 < o <= n,
        0 <= f < frontier_spec(n, k).len(),
        frontier_spec(n, k)[f].0 <= o,
        o <= frontier_spec(n, k)[f].0 + pow(k, frontier_spec(n, k)[f].1),
        frontier_spec(o, k) == frontier_spec(n, k).take(f) + frontier_at(
            (o - frontier_spec(n, k)[f].0) as nat,
            k,
            frontier_spec(n, k)[f].0,
        ),
    ensures
        forall|i: int|
            0 <= i < frontier_spec(o, k).len() ==> !is_label(frontier_spec(n, k), #[trigger] frontier_spec(o, k)[i]),
{
    let nfs = frontier_spec(n, k);
    let ofs = frontier_spec(o, k);
    let l = nfs[f].0;
    let hh = nfs[f].1;
    let inner = frontier_at((o - l) as nat, k, l);
    lemma_frontier_sorted(n, k, 0);
    lemma_frontier_within((o - l) as nat, k, l);
    assert forall|i: int| 0 <= i < ofs.len() implies !is_label(nfs, #[trigger] ofs[i]) by {
        let oc = ofs[i];
        if is_label(nfs, oc) {
            let j = choose|j: int| 0 <= j < nfs.len() && oc.0 == (#[trigger] nfs[j]).0 && oc.1 > nfs[j].1;
            lemma_pow_positive(k, nfs[j].1);
            lemma_pow_positive(k, oc.1);
            if i < f {
                assert(oc == nfs[i]);
                lemma_pow_positive(k, nfs[i].1);
                if j < i {
                    assert(nfs[j].0 + pow(k, nfs[j].1) <= nfs[i].0);
                } else if j > i {
                    assert(nfs[i].0 + pow(k, nfs[i].1) <= nfs[j].0);
                }
            } else {
                assert(oc == inner[i - f]);
                if j < f {
                    assert(nfs[j].0 + pow(k, nfs[j].1) <= nfs[f].0);
                } else if j > f {
                    lemma_pow_positive(k, hh);
                    assert(nfs[f].0 + pow(k, nfs[f].1) <= nfs[j].0);
                } else {
                    lemma_pow_strict(k, hh, oc.1);
                }
            }
        }
    }
}

/// The last subtree of a frontier ends where the cells do.
pub proof fn lemma_frontier_last_end(n: nat, k: nat, base: nat)
    requires
        k >= 2,
        n >= 1,
    ensures
        frontier_at(n, k, base).len() > 0,
        frontier_at(n, k, base).last().0 + pow(k, frontier_at(n, k, base).last().1) == base + n,
    decreases n,
{
    lemma_frontier_unfold(n, k, base);
    let h = max_height(n, k);
    let c = pow(k, h);
    let fs = frontier_at(n, k, base);
    if n - c == 0 {
        assert(frontier_at(0, k, base + c) =~= Seq::<(nat, nat)>::empty());
        assert(fs =~= seq![(base, h)]);
    } else {
        lemma_frontier_last_end((n - c) as nat, k, base + c);
        let rest = frontier_at((n - c) as nat, k, base + c);
        assert(fs.last() == rest.last());
    }
}

/// Where the last subtree of the frontier of `o` sits in the frontier of a
/// larger `n`: inside subtree `f` of it, which starts the rest of the old
/// frontier after the common prefix, and which ends at or after `o`.
pub(crate) proof fn lemma_boundary(o: nat, n: nat, k: nat) -> (f: int)
    requires
        2 <= k <= 256,
        0 < o < n,
    ensures
        ({
            let ofs = frontier_spec(o, k);
            let nfs = frontier_spec(n, k);
            let b = ofs.last();
            let l = nfs[f].0;
            let hh = nfs[f].1;
            let inner = frontier_at((o - l) as nat, k, l);
            &&& ofs.len() > 0
            &&& f == peak_of(nfs, b.0, k)
            &&& 0 <= f < nfs.len()
            &&& peak_holds(nfs, f, b.0, k)
            &&& l <= b.0
            &&& b.0 + pow(k, b.1) == o
            &&& o <= l + pow(k, hh)
            &&& l + pow(k, hh) <= n
            &&& ofs == nfs.take(f) + inner
            &&& inner.len() > 0
            &&& inner.last() == b
            &&& aligned(l, hh, k)
            &&& aligned(b.0, b.1, k)
        }),
{
    let ofs = frontier_spec(o, k);
    let nfs = frontier_spec(n, k);
    lemma_frontier_last_end(o, k, 0);
    let b = ofs.last();
    lemma_pow_positive(k, b.1);
    lemma_frontier_covers(n, k, 0, b.0);
    let w = choose|i: int|
        0 <= i < frontier_at(n, k, 0).len() && #[trigger] frontier_at(n, k, 0)[i].0 <= b.0 && b.0
            < frontier_at(n, k, 0)[i].0 + pow(k, frontier_at(n, k, 0)[i].1);
    assert(peak_holds(nfs, w, b.0, k));
    lemma_first_peak(nfs, b.0, k, w);
    let f = peak_of(nfs, b.0, k);
    let l = nfs[f].0;
    let hh = nfs[f].1;
    lemma_frontier_within(n, k, 0);
    lemma_frontier_prefix(n, o, k, 0, f);
    let inner = frontier_at((o - l) as nat, k, l);
    lemma_frontier_last_end((o - l) as nat, k, l);
    assert(inner.last() == b) by {
        assert(ofs.last() == (nfs.take(f) + inner).last());
    }
    lemma_frontier_prefix(n, n, k, 0, f);
    lemma_frontier_unfold((n - l) as nat, k, l);
    assert(nfs[f] == (nfs.take(f) + frontier_at((n - l) as nat, k, l))[f]);
    assert(hh == max_height((n - l) as nat, k));
    lemma_max_height_bounds((n - l) as nat, k);
    assert(o - l <= pow(k, hh)) by {
        if o - l > pow(k, hh) {
            lemma_max_height_unique((o - l) as nat, k, hh);
            lemma_frontier_unfold((o - l) as nat, k, l);
            let rest = frontier_at((o - l - pow(k, hh)) as nat, k, l + pow(k, hh));
            lemma_frontier_last_end((o - l - pow(k, hh)) as nat, k, l + pow(k, hh));
            lemma_frontier_within((o - l - pow(k, hh)) as nat, k, l + pow(k, hh));
            assert(inner.last() == rest.last());
            assert(rest.last() == rest[rest.len() - 1]);
        }
    }
    lemma_frontier_aligned(n, k, 0);
    lemma_frontier_aligned(o, k, 0);
    assert(b == ofs[ofs.len() - 1]);
    f
}

/// Once every old peak is recorded, every digest is good, and no old peak
/// sits at a merge label, the old peaks read back as their node values.
proof fn lemma_read_back_old(
    vals: spec_fn(nat, nat) -> Seq<u8>,
    nfs: Seq<(nat, nat)>,
    ofs: Seq<(nat, nat)>,
    z: Seq<Entry>,
)
    requires
        forall|i: int| 0 <= i < ofs.len() ==> recorded(z, #[trigger] ofs[i]),
        forall|i: int| 0 <= i < ofs.len() ==> !is_label(nfs, #[trigger] ofs[i]),
        forall|i: int| 0 <= i < z.len() ==> good_entry(vals, nfs, #[trigger] z[i]),
    ensures
        read_back(z, ofs) == Some(ofs.map_values(|c: (nat, nat)| vals(c.0, c.1))),
{
    assert forall|i: int| 0 <= i < ofs.len() implies lookup(z, #[trigger] ofs[i]) == Some(
        vals(ofs[i].0, ofs[i].1),
    ) by {
        let oc = ofs[i];
        assert(recorded(z, oc));
        assert forall|q: int| 0 <= q < z.len() && (#[trigger] z[q]).0 == oc implies z[q].1 == vals(
            oc.0,
            oc.1,
        ) by {
            assert(good_entry(vals, nfs, z[q]));
        }
        lemma_lookup_good(z, oc, vals(oc.0, oc.1));
    }
    assert(ofs.map_values(|c: (nat, nat)| lookup(z, c)->0) =~= ofs.map_values(
        |c: (nat, nat)| vals(c.0, c.1),
    ));
}

/// Every consistency path the log builds over node values that agree with
/// the cells, and that keeps the verifier's bounds, is accepted: followed
/// between the two sizes it yields the fold of the old peaks and the fold of
/// the new peaks.
#[verifier::rlimit(60)]
pub proof fn lemma_consistency_accepted<H: Hasher>(
    h: H,
    vals: spec_fn(nat, nat) -> Seq<u8>,
    cells: Seq<Seq<u8>>,
    o: nat,
    n: nat,
    k: nat,
)
    requires
        2 <= k <= 256,
        0 < o < n <= u64::MAX,
        vals_agree(h, vals, cells, n, k),
        consistency_steps(h, vals, o, n, k) matches Some(c) && inputs_ok(
            h.spec_empty().len(),
            c.0,
            o,
            n,
            k,
            c.1,
        ),
    ensures
        consistency_steps(h, vals, o, n, k) matches Some(c) && path_consistency_roots(h, o, n, k, c.0, c.1)
            == Some(
            (fold_frontier(h, peak_values(vals, o, k), k), fold_frontier(h, peak_values(vals, n, k), k)),
        ),
{
    let ofs = frontier_spec(o, k);
    let nfs = frontier_spec(n, k);
    let c = consistency_steps(h, vals, o, n, k)->0;
    let f = lemma_boundary(o, n, k);
    let b = ofs.last();
    let l = nfs[f].0;
    let hh = nfs[f].1;
    let inner = frontier_at((o - l) as nat, k, l);
    assert(hh >= b.1);
    let bs = (hh - b.1) as nat;
    let start = vals(b.0, b.1);
    let es0 = seq![(b, start)];
    let x = lemma_climb_bisect(h, vals, cells, n, k, l, hh, b.0, b.1, es0);
    let d = bisect_down(vals, l, hh, b.0, b.1, k);
    let pv = peak_values(vals, n, k);
    let ms = merge_steps(h, pv, f as nat, k);
    assert(c.0 == start);
    assert(c.1 == d.reverse() + ms);
    assert(c.1.take(bs as int) =~= d.reverse());
    assert(c.1.skip(bs as int) =~= ms);
    let es1 = es0 + x;
    assert(lookup(es1, nfs[f]) == Some(vals(l, hh))) by {
        if hh > b.1 {
            assert(es1.last() == x.last());
        } else {
            assert(x.len() == 0) by {
                if x.len() > 0 {
                }
            }
            assert(b.0 == l);
            assert(es1 =~= es0);
        }
    }
    assert(pv.len() == nfs.len());
    assert forall|j: int| 0 <= j < nfs.len() implies #[trigger] pv[j] == vals(nfs[j].0, nfs[j].1) by {}
    assert(fold_inv(vals, nfs, pv, f as nat, nfs, pv, f as nat, es1)) by {
        assert forall|i: int| 0 <= i < nfs.len() implies orig_or_label(nfs, pv, #[trigger] nfs[i], pv[i]) by {
            assert(nfs[i] == nfs[i] && pv[i] == pv[i]);
        }
        assert forall|i: int| 0 <= i < es1.len() implies good_entry(vals, nfs, #[trigger] es1[i]) by {
            if i > 0 {
                assert(es1[i] == x[i - 1]);
            }
        }
    }
    let r = lemma_merge_run(h, vals, k, nfs, pv, f as nat, nfs, pv, f as nat, es1);
    let z = lemma_final_merge(h, vals, k, nfs, pv, f as nat, r.0, r.1, r.2, r.3);
    lemma_old_not_label(o, n, k, f);
    assert forall|i: int| 0 <= i < ofs.len() implies recorded(z, #[trigger] ofs[i]) by {
        let oc = ofs[i];
        if i < f {
            assert(oc == nfs[i]);
            assert(recorded_pair(z, nfs[i], pv[i]));
            let w2 = choose|w: int| 0 <= w < z.len() && #[trigger] z[w] == (nfs[i], pv[i]);
            assert(z[w2].0 == oc);
        } else {
            assert(oc == inner[i - f]);
            if oc == b {
                assert(z[0] == r.3[0]);
                assert(r.3[0] == es1[0]);
                assert(z[0].0 == oc);
            } else {
                assert(recorded(x, oc));
                let w2 = choose|w: int| 0 <= w < x.len() && (#[trigger] x[w]).0 == oc;
                assert(z[w2 + 1] == r.3[w2 + 1]);
                assert(r.3[w2 + 1] == es1[w2 + 1]);
                assert(es1[w2 + 1] == x[w2]);
            }
        }
    }
    lemma_read_back_old(vals, nfs, ofs, z);
    assert(ofs.map_values(|cc: (nat, nat)| vals(cc.0, cc.1)) == peak_values(vals, o, k));
}

} // verus!
