//! Recomputing both roots from a consistency path by node coordinates: the
//! path climbs from the old boundary peak to the new frontier peak holding
//! it, then across the new frontier fold, and every digest it reveals is
//! recorded under its `(left, height)` coordinate so the old frontier peaks
//! can be read back.
use vstd::prelude::*;

use crate::hasher::{Hasher, copy_bytes, copy_slice, digests_view};
use crate::model::{fold_frontier, fold_peaks};
use crate::mr::spec_nary_mr;
use crate::proofs::{ProofStep, step_parent, step_view, steps_view, with_child};
use crate::topology::{
    checked_pow,
    coords_view,
    find_peak,
    frontier_at,
    frontier_for_size,
    frontier_spec,
    lemma_frontier_unfold,
    lemma_frontier_within,
    lemma_max_height_bounds,
    lemma_pow_base_monotone,
    lemma_pow_monotone,
    lemma_pow_positive,
    lemma_pow_succ,
    lemma_pow_u64_height,
    lemma_pow2_64,
    max_height,
    peak_of,
    pow,
};

verus! {

/// A recorded digest: its node coordinate `(left, height)` and its value.
pub type Entry = ((nat, nat), Seq<u8>);

/// The recorded digests of a list of entries, in insertion order.
pub open spec fn entries_view(v: Seq<((u64, u32), Vec<u8>)>) -> Seq<Entry> {
    v.map_values(|e: ((u64, u32), Vec<u8>)| ((e.0.0 as nat, e.0.1 as nat), e.1@))
}

/// The digest last recorded at `key`, if any.
pub open spec fn lookup(es: Seq<Entry>, key: (nat, nat)) -> Option<Seq<u8>>
    decreases es.len(),
{
    if es.len() == 0 {
        None
    } else if es.last().0 == key {
        Some(es.last().1)
    } else {
        lookup(es.drop_last(), key)
    }
}

/// An optional digest as plain bytes.
pub open spec fn opt_view(o: Option<Vec<u8>>) -> Option<Seq<u8>> {
    match o {
        Some(v) => Some(v@),
        None => None,
    }
}

/// Sibling `j` of a step sits at child slot `j` before the path node's
/// position and at `j + 1` from it on.
pub open spec fn slot(j: int, pos: nat) -> int {
    if j < pos {
        j
    } else {
        j + 1
    }
}

/// The siblings of a step recorded at the coordinates of the nodes they
/// stand for.
pub open spec fn node_entries(nodes: Seq<(nat, nat)>, sibs: Seq<Seq<u8>>, pos: nat) -> Seq<Entry> {
    Seq::new(sibs.len(), |j: int| (nodes[slot(j, pos)], sibs[j]))
}

/// The `n` children of height `ht` of a parent at `left`, each `cc` wide.
pub open spec fn child_coords(left: nat, cc: nat, ht: nat, n: nat) -> Seq<(nat, nat)> {
    Seq::new(n, |i: int| ((left + i * cc) as nat, ht))
}

/// Every sibling's child coordinate fits in a `u64`.
pub open spec fn sibs_fit(left: nat, cc: nat, pos: nat, n: nat) -> bool {
    forall|j: int| 0 <= j < n ==> left + slot(j, pos) * cc <= u64::MAX
}

/// One climbing step from the node at `(left, ht)` with digest `cur`: the
/// step must carry `k - 1` siblings around a position that keeps the parent
/// at or right of 0; the siblings and the parent are recorded. Yields the
/// entries, the parent's left edge and its digest.
pub open spec fn climb_step<H: Hasher>(
    h: H,
    k: nat,
    es: Seq<Entry>,
    left: nat,
    ht: nat,
    cur: Seq<u8>,
    s: (Seq<Seq<u8>>, nat),
) -> Option<(Seq<Entry>, nat, Seq<u8>)> {
    let cc = pow(k, ht);
    let off = s.1 * cc;
    if s.0.len() + 1 != k || s.1 > s.0.len() || cc > u64::MAX || off > left {
        None
    } else {
        let pl = (left - off) as nat;
        if !sibs_fit(pl, cc, s.1, s.0.len()) {
            None
        } else {
            let p = spec_nary_mr(h, with_child(s.0, cur, s.1));
            Some(
                (
                    (es + node_entries(child_coords(pl, cc, ht, k), s.0, s.1)).push(((pl, ht + 1), p)),
                    pl,
                    p,
                ),
            )
        }
    }
}

/// Climbing along `steps`, one level each.
pub open spec fn climb<H: Hasher>(
    h: H,
    k: nat,
    es: Seq<Entry>,
    left: nat,
    ht: nat,
    cur: Seq<u8>,
    steps: Seq<(Seq<Seq<u8>>, nat)>,
) -> Option<(Seq<Entry>, nat, Seq<u8>)>
    decreases steps.len(),
{
    if steps.len() == 0 {
        Some((es, left, cur))
    } else {
        match climb_step(h, k, es, left, ht, cur, steps[0]) {
            None => None,
            Some(c) => climb(h, k, c.0, c.1, ht + 1, c.2, steps.skip(1)),
        }
    }
}

/// The frontier fold over coordinates `fr` carrying the node at `t`, whose
/// digest is `th`: while more than `k` nodes remain the rightmost `k` merge;
/// a merge that takes the carried node consumes a step with `k - 1` siblings
/// at its position and records them and the parent. Yields the remaining
/// nodes, the carried node's position and digest, the entries and the steps
/// left over.
pub open spec fn merge_phase<H: Hasher>(
    h: H,
    k: nat,
    fr: Seq<(nat, nat)>,
    t: nat,
    th: Option<Seq<u8>>,
    es: Seq<Entry>,
    steps: Seq<(Seq<Seq<u8>>, nat)>,
) -> Option<(Seq<(nat, nat)>, nat, Option<Seq<u8>>, Seq<Entry>, Seq<(Seq<Seq<u8>>, nat)>)>
    decreases fr.len(),
{
    if k < 2 || fr.len() <= k {
        Some((fr, t, th, es, steps))
    } else {
        let split = (fr.len() - k) as nat;
        let parent = (fr[split as int].0, fr[split as int].1 + 1);
        let next = fr.take(split as int).push(parent);
        if t < split {
            merge_phase(h, k, next, t, th, es, steps)
        } else if steps.len() == 0 || steps[0].1 != t - split || steps[0].0.len() + 1 != k {
            None
        } else {
            match th {
                None => None,
                Some(x) => {
                    let s = steps[0];
                    let p = spec_nary_mr(h, with_child(s.0, x, s.1));
                    merge_phase(
                        h,
                        k,
                        next,
                        split,
                        Some(p),
                        (es + node_entries(fr.skip(split as int), s.0, s.1)).push((parent, p)),
                        steps.skip(1),
                    )
                },
            }
        }
    }
}

/// The last merge over the remaining nodes `fr`: none when one is left,
/// else one step whose siblings are all the other nodes. Yields the new
/// root, the entries and the steps left over.
pub open spec fn final_merge<H: Hasher>(
    h: H,
    fr: Seq<(nat, nat)>,
    t: nat,
    th: Option<Seq<u8>>,
    es: Seq<Entry>,
    steps: Seq<(Seq<Seq<u8>>, nat)>,
) -> Option<(Seq<u8>, Seq<Entry>, Seq<(Seq<Seq<u8>>, nat)>)> {
    match th {
        None => None,
        Some(x) => if fr.len() <= 1 {
            Some((x, es, steps))
        } else if steps.len() == 0 || steps[0].1 != t || steps[0].0.len() + 1 != fr.len() {
            None
        } else {
            Some(
                (
                    spec_nary_mr(h, with_child(steps[0].0, x, t)),
                    es + node_entries(fr, steps[0].0, t),
                    steps.skip(1),
                ),
            )
        },
    }
}

/// The digests recorded at every coordinate of `cs`; `None` when one is
/// missing.
pub open spec fn read_back(es: Seq<Entry>, cs: Seq<(nat, nat)>) -> Option<Seq<Seq<u8>>> {
    if forall|i: int| 0 <= i < cs.len() ==> lookup(es, #[trigger] cs[i]) is Some {
        Some(cs.map_values(|c: (nat, nat)| lookup(es, c)->0))
    } else {
        None
    }
}

/// The bounds a consistency path must keep before it is followed: digests
/// of the hasher's length `dl` (1 to 64 bytes), sizes `0 < old < new`, an
/// arity from 2 to 256, at most 256 steps of at most 256 siblings.
pub open spec fn inputs_ok(
    dl: nat,
    start: Seq<u8>,
    old_size: nat,
    new_size: nat,
    k: nat,
    steps: Seq<(Seq<Seq<u8>>, nat)>,
) -> bool {
    &&& 1 <= dl <= 64
    &&& start.len() == dl
    &&& 0 < old_size < new_size
    &&& 2 <= k <= 256
    &&& steps.len() <= 256
    &&& forall|i: int|
        0 <= i < steps.len() ==> {
            &&& (#[trigger] steps[i]).0.len() <= 256
            &&& forall|j: int| 0 <= j < steps[i].0.len() ==> (#[trigger] steps[i].0[j]).len() == dl
        }
}

/// The (old root, new root) pair a consistency path yields: it climbs from
/// the old boundary peak to the new frontier peak holding it, carries that
/// peak across the new frontier fold, must use every step, and the old root
/// folds the old frontier peaks read back from what the path revealed.
pub open spec fn path_consistency_roots<H: Hasher>(
    h: H,
    old_size: nat,
    new_size: nat,
    k: nat,
    start: Seq<u8>,
    steps: Seq<(Seq<Seq<u8>>, nat)>,
) -> Option<(Seq<u8>, Seq<u8>)> {
    if !inputs_ok(h.spec_empty().len(), start, old_size, new_size, k, steps) {
        None
    } else {
        let ofs = frontier_spec(old_size, k);
        let nfs = frontier_spec(new_size, k);
        let b = ofs.last();
        let f = peak_of(nfs, b.0, k);
        let nh = nfs[f].1;
        if nh < b.1 || steps.len() < nh - b.1 {
            None
        } else {
            let bs = nh - b.1;
            match climb(h, k, seq![(b, start)], b.0, b.1, start, steps.take(bs)) {
                None => None,
                Some(c) => match merge_phase(
                    h,
                    k,
                    nfs,
                    f as nat,
                    lookup(c.0, nfs[f]),
                    c.0,
                    steps.skip(bs),
                ) {
                    None => None,
                    Some(m) => match final_merge(h, m.0, m.1, m.2, m.3, m.4) {
                        None => None,
                        Some(fm) => if fm.2.len() != 0 {
                            None
                        } else {
                            match read_back(fm.1, ofs) {
                                None => None,
                                Some(ov) => Some((fold_frontier(h, ov, k), fm.0)),
                            }
                        },
                    },
                },
            }
        }
    }
}

/// A frontier of fewer than `(d + 1) * k^j` cells has at most
/// `d + (k - 1) * j` subtrees.
pub proof fn lemma_frontier_len(n: nat, k: nat, base: nat, d: nat, j: nat)
    requires
        k >= 2,
        d < k,
        n < (d + 1) * pow(k, j),
    ensures
        frontier_at(n, k, base).len() <= d + (k - 1) * j,
    decreases n, j,
{
    if n == 0 {
        assert(frontier_at(0, k, base).len() == 0);
        assert(0 <= d + (k - 1) * j) by (nonlinear_arith)
            requires
                k >= 2,
        ;
    } else {
        let h = max_height(n, k);
        let c = pow(k, h);
        lemma_frontier_unfold(n, k, base);
        lemma_max_height_bounds(n, k);
        lemma_pow_succ(k, h);
        lemma_pow_positive(k, j);
        if h == j {
            assert(d >= 1) by (nonlinear_arith)
                requires
                    c <= n,
                    n < (d + 1) * c,
            ;
            assert((n - c) < ((d - 1) as nat + 1) * c) by (nonlinear_arith)
                requires
                    n < (d + 1) * c,
                    d >= 1,
            ;
            lemma_frontier_len((n - c) as nat, k, base + c, (d - 1) as nat, j);
        } else if h < j {
            assert(n < ((k - 1) as nat + 1) * c) by (nonlinear_arith)
                requires
                    n < k * c,
                    k >= 2,
            ;
            lemma_frontier_len(n, k, base, (k - 1) as nat, h);
            assert((k - 1) + (k - 1) * h <= d + (k - 1) * j) by (nonlinear_arith)
                requires
                    h < j,
                    k >= 2,
            ;
        } else {
            lemma_pow_succ(k, j);
            lemma_pow_monotone(k, j + 1, h);
            assert((d + 1) * pow(k, j) <= k * pow(k, j)) by (nonlinear_arith)
                requires
                    d < k,
            ;
        }
    }
}

/// A frontier of a `u64` count has at most `64 * (k - 1)` subtrees, each
/// lower than 64.
pub proof fn lemma_frontier_small(n: nat, k: nat)
    requires
        2 <= k <= 256,
        n <= u64::MAX,
    ensures
        frontier_spec(n, k).len() <= 64 * 255,
        forall|i: int|
            0 <= i < frontier_spec(n, k).len() ==> (#[trigger] frontier_spec(n, k)[i]).1 < 64,
{
    lemma_pow_base_monotone(2, k, 64);
    lemma_pow2_64();
    assert(pow(2, 64) <= pow(k, 64));
    assert(n < (0 + 1) * pow(k, 64)) by (nonlinear_arith)
        requires
            n < pow(k, 64),
    ;
    lemma_frontier_len(n, k, 0, 0, 64);
    assert((k - 1) * 64 <= 64 * 255) by (nonlinear_arith)
        requires
            k <= 256,
    ;
    lemma_frontier_within(n, k, 0);
    assert forall|i: int| 0 <= i < frontier_spec(n, k).len() implies (#[trigger] frontier_spec(
        n,
        k,
    )[i]).1 < 64 by {
        let c = frontier_spec(n, k)[i];
        lemma_pow_u64_height(k, c.1);
    }
}

/// The digest last recorded at `key`.
fn lookup_entry(es: &Vec<((u64, u32), Vec<u8>)>, key: (u64, u32)) -> (r: Option<Vec<u8>>)
    ensures
        opt_view(r) == lookup(entries_view(es@), (key.0 as nat, key.1 as nat)),
{
    let ghost ev = entries_view(es@);
    let ghost kk = (key.0 as nat, key.1 as nat);
    let mut i: usize = es.len();
    proof {
        assert(ev.take(i as int) =~= ev);
    }
    while i > 0
        invariant
            ev == entries_view(es@),
            kk == (key.0 as nat, key.1 as nat),
            i <= es@.len(),
            lookup(ev, kk) == lookup(ev.take(i as int), kk),
        decreases i,
    {
        let e = &es[i - 1];
        proof {
            assert(ev.take(i as int).last() == ev[i - 1]);
            assert(ev[i - 1] == ((e.0.0 as nat, e.0.1 as nat), e.1@));
            assert(ev.take(i as int).drop_last() =~= ev.take(i - 1));
        }
        if e.0.0 == key.0 && e.0.1 == key.1 {
            let v = copy_bytes(&e.1);
            proof {
                let tk = ev.take(i as int);
                assert(tk.len() > 0);
                assert(tk.last().0 == kk);
                assert(lookup(tk, kk) == Some(tk.last().1));
                assert(tk.last().1 == v@);
            }
            return Some(v);
        }
        proof {
            let tk = ev.take(i as int);
            assert(tk.last().0 != kk);
            assert(lookup(tk, kk) == lookup(tk.drop_last(), kk));
        }
        i = i - 1;
    }
    None
}


/// One climbing step (`climb_step`) from the node at `(left, ht)` with
/// digest `cur`, recording into `es`; yields the parent's left edge and
/// digest.
fn climb_one<H: Hasher>(
    hasher: &H,
    k: u64,
    es: &mut Vec<((u64, u32), Vec<u8>)>,
    left: u64,
    ht: u32,
    cur: &Vec<u8>,
    step: &ProofStep,
) -> (r: Option<(u64, Vec<u8>)>)
    requires
        2 <= k <= 256,
        ht < 64,
        step.siblings@.len() <= 256,
    ensures
        match climb_step(
            *hasher,
            k as nat,
            entries_view(old(es)@),
            left as nat,
            ht as nat,
            cur@,
            step_view(*step),
        ) {
            None => r is None,
            Some(c) => r matches Some(p) && p.0 == c.1 && p.1@ == c.2 && entries_view(final(es)@)
                == c.0,
        },
{
    let n = step.siblings.len();
    let pos = step.position;
    let ghost sibs = digests_view(step.siblings@);
    if n + 1 != k as usize || pos > n {
        return None;
    }
    let cc = match checked_pow(k, ht) {
        Some(c) => c,
        None => {
            return None;
        },
    };
    assert((pos as u128) * (cc as u128) <= 256 * 0xFFFF_FFFF_FFFF_FFFFu128) by (nonlinear_arith)
        requires
            pos <= 256,
            cc <= 0xFFFF_FFFF_FFFF_FFFFu64,
    ;
    let off: u128 = (pos as u128) * (cc as u128);
    if off > left as u128 {
        return None;
    }
    let pl: u64 = left - (off as u64);
    let ghost e0 = entries_view(es@);
    let ghost nodes = child_coords(pl as nat, cc as nat, ht as nat, k as nat);
    let ghost ne = node_entries(nodes, sibs, pos as nat);
    let mut j: usize = 0;
    while j < n
        invariant
            n == step.siblings@.len(),
            n <= 256,
            n + 1 == k,
            2 <= k <= 256,
            cc == pow(k as nat, ht as nat),
            off == pos * cc,
            off <= left,
            pl == left - off,
            pos <= n,
            pos == step.position,
            sibs == digests_view(step.siblings@),
            ht < 64,
            nodes == child_coords(pl as nat, cc as nat, ht as nat, k as nat),
            ne == node_entries(nodes, sibs, pos as nat),
            j <= n,
            entries_view(es@) == e0 + ne.take(j as int),
            forall|jj: int| 0 <= jj < j ==> pl + slot(jj, pos as nat) * cc <= u64::MAX,
        decreases n - j,
    {
        let m: u128 = if j < pos {
            j as u128
        } else {
            j as u128 + 1
        };
        assert(m * (cc as u128) <= 257 * 0xFFFF_FFFF_FFFF_FFFFu128) by (nonlinear_arith)
            requires
                m <= 257,
                cc <= 0xFFFF_FFFF_FFFF_FFFFu64,
        ;
        let c: u128 = (pl as u128) + m * (cc as u128);
        assert(c == pl + slot(j as int, pos as nat) * cc);
        if c > 0xFFFF_FFFF_FFFF_FFFFu128 {
            proof {
                assert(!sibs_fit(pl as nat, cc as nat, pos as nat, n as nat));
            }
            return None;
        }
        let ghost before = es@;
        es.push(((c as u64, ht), copy_bytes(&step.siblings[j])));
        proof {
            assert(slot(j as int, pos as nat) < k);
            assert(nodes[slot(j as int, pos as nat)] == ((c as u64) as nat, ht as nat));
            assert(ne[j as int] == (nodes[slot(j as int, pos as nat)], sibs[j as int]));
            assert(entries_view(es@) =~= entries_view(before).push(ne[j as int]));
            assert(entries_view(es@) =~= e0 + ne.take(j + 1));
        }
        j = j + 1;
    }
    proof {
        assert(ne.take(n as int) =~= ne);
        assert(sibs_fit(pl as nat, cc as nat, pos as nat, n as nat));
    }
    let p = step_parent(hasher, cur, step);
    let ghost before = es@;
    es.push(((pl, ht + 1), copy_bytes(&p)));
    proof {
        assert(entries_view(es@) =~= entries_view(before).push(((pl as nat, (ht + 1) as nat), p@)));
    }
    Some((pl, p))
}


/// Climbing along the first `bs` steps of `path` from the node at
/// `(left, ht)` with digest `cur`, recording into `es`.
fn climb_path<H: Hasher>(
    hasher: &H,
    k: u64,
    es: &mut Vec<((u64, u32), Vec<u8>)>,
    left: u64,
    ht: u32,
    cur: Vec<u8>,
    path: &[ProofStep],
    bs: usize,
) -> (r: Option<(u64, Vec<u8>)>)
    requires
        2 <= k <= 256,
        bs <= path@.len(),
        ht + bs < 64,
        forall|i: int| 0 <= i < path@.len() ==> (#[trigger] path@[i]).siblings@.len() <= 256,
    ensures
        match climb(
            *hasher,
            k as nat,
            entries_view(old(es)@),
            left as nat,
            ht as nat,
            cur@,
            steps_view(path@).take(bs as int),
        ) {
            None => r is None,
            Some(c) => r matches Some(p) && p.0 == c.1 && p.1@ == c.2 && entries_view(final(es)@)
                == c.0,
        },
{
    let ghost whole = steps_view(path@).take(bs as int);
    let ghost goal = climb(*hasher, k as nat, entries_view(es@), left as nat, ht as nat, cur@, whole);
    let mut cl = left;
    let mut ch = ht;
    let mut cd = cur;
    let mut i: usize = 0;
    proof {
        assert(whole.skip(0) =~= whole);
    }
    while i < bs
        invariant
            2 <= k <= 256,
            bs <= path@.len(),
            ht + bs < 64,
            forall|i: int| 0 <= i < path@.len() ==> (#[trigger] path@[i]).siblings@.len() <= 256,
            whole == steps_view(path@).take(bs as int),
            goal == climb(
                *hasher,
                k as nat,
                entries_view(old(es)@),
                left as nat,
                ht as nat,
                cur@,
                whole,
            ),
            i <= bs,
            ch == ht + i,
            goal == climb(
                *hasher,
                k as nat,
                entries_view(es@),
                cl as nat,
                ch as nat,
                cd@,
                whole.skip(i as int),
            ),
        decreases bs - i,
    {
        let step = &path[i];
        proof {
            assert(whole.skip(i as int)[0] == step_view(*step));
            assert(whole.skip(i as int).skip(1) =~= whole.skip(i + 1));
        }
        match climb_one(hasher, k, es, cl, ch, &cd, step) {
            None => {
                return None;
            },
            Some((pl, p)) => {
                cl = pl;
                cd = p;
            },
        }
        ch = ch + 1;
        i = i + 1;
    }
    Some((cl, cd))
}

/// Record the siblings of `step` at the coordinates of the nodes from `lo`
/// on that they stand for.
fn push_node_entries(
    es: &mut Vec<((u64, u32), Vec<u8>)>,
    nodes: &Vec<(u64, u32)>,
    lo: usize,
    step: &ProofStep,
)
    requires
        step.position <= step.siblings@.len(),
        lo + step.siblings@.len() + 1 <= nodes@.len(),
    ensures
        entries_view(final(es)@) == entries_view(old(es)@) + node_entries(
            coords_view(nodes@).skip(lo as int),
            digests_view(step.siblings@),
            step.position as nat,
        ),
{
    let ghost e0 = entries_view(es@);
    let ghost ne = node_entries(
        coords_view(nodes@).skip(lo as int),
        digests_view(step.siblings@),
        step.position as nat,
    );
    let pos = step.position;
    let nl = nodes.len();
    let mut j: usize = 0;
    while j < step.siblings.len()
        invariant
            nl == nodes@.len(),
            pos == step.position,
            pos <= step.siblings@.len(),
            lo + step.siblings@.len() + 1 <= nodes@.len(),
            ne == node_entries(
                coords_view(nodes@).skip(lo as int),
                digests_view(step.siblings@),
                pos as nat,
            ),
            j <= step.siblings@.len(),
            entries_view(es@) == e0 + ne.take(j as int),
        decreases step.siblings@.len() - j,
    {
        let at = if j < pos {
            lo + j
        } else {
            lo + j + 1
        };
        let ghost before = es@;
        es.push((nodes[at], copy_bytes(&step.siblings[j])));
        proof {
            assert(at == lo + slot(j as int, pos as nat));
            assert(coords_view(nodes@).skip(lo as int)[slot(j as int, pos as nat)] == coords_view(
                nodes@,
            )[at as int]);
            assert(entries_view(es@) =~= entries_view(before).push(ne[j as int]));
            assert(entries_view(es@) =~= e0 + ne.take(j + 1));
        }
        j = j + 1;
    }
    proof {
        assert(ne.take(step.siblings@.len() as int) =~= ne);
    }
}


/// The frontier fold (`merge_phase`) over the nodes `fr` carrying the node
/// at `t` with digest `th`, consuming `path` from `idx`; yields the nodes
/// left, the carried node's position and digest, and the next step index.
fn merge_path<H: Hasher>(
    hasher: &H,
    k: u64,
    fr: Vec<(u64, u32)>,
    t: usize,
    th: Option<Vec<u8>>,
    es: &mut Vec<((u64, u32), Vec<u8>)>,
    path: &[ProofStep],
    idx: usize,
) -> (r: Option<(Vec<(u64, u32)>, usize, Option<Vec<u8>>, usize)>)
    requires
        2 <= k <= 256,
        t < fr@.len(),
        idx <= path@.len(),
        fr@.len() <= 64 * 255,
        forall|i: int| 0 <= i < fr@.len() ==> (#[trigger] fr@[i]).1 < 64,
        forall|i: int| 0 <= i < path@.len() ==> (#[trigger] path@[i]).siblings@.len() <= 256,
    ensures
        match merge_phase(
            *hasher,
            k as nat,
            coords_view(fr@),
            t as nat,
            opt_view(th),
            entries_view(old(es)@),
            steps_view(path@).skip(idx as int),
        ) {
            None => r is None,
            Some(m) => r matches Some(q) && coords_view(q.0@) == m.0 && q.1 == m.1 && opt_view(q.2)
                == m.2 && entries_view(final(es)@) == m.3 && q.3 <= path@.len() && steps_view(
                path@,
            ).skip(q.3 as int) == m.4 && q.1 < q.0@.len(),
        },
{
    let ghost l0 = fr@.len();
    let ghost goal = merge_phase(
        *hasher,
        k as nat,
        coords_view(fr@),
        t as nat,
        opt_view(th),
        entries_view(es@),
        steps_view(path@).skip(idx as int),
    );
    let mut cfr = fr;
    let mut ct = t;
    let mut cth = th;
    let mut cidx = idx;
    let ku = k as usize;
    while cfr.len() > ku
        invariant
            2 <= k <= 256,
            ku == k,
            goal == merge_phase(
                *hasher,
                k as nat,
                coords_view(fr@),
                t as nat,
                opt_view(th),
                entries_view(old(es)@),
                steps_view(path@).skip(idx as int),
            ),
            goal == merge_phase(
                *hasher,
                k as nat,
                coords_view(cfr@),
                ct as nat,
                opt_view(cth),
                entries_view(es@),
                steps_view(path@).skip(cidx as int),
            ),
            ct < cfr@.len(),
            cidx <= path@.len(),
            l0 <= 64 * 255,
            cfr@.len() <= l0,
            forall|i: int| 0 <= i < cfr@.len() ==> (#[trigger] cfr@[i]).1 <= 64 + (l0 - cfr@.len()),
            forall|i: int| 0 <= i < path@.len() ==> (#[trigger] path@[i]).siblings@.len() <= 256,
        decreases cfr@.len(),
    {
        let split = cfr.len() - ku;
        let (pl, ph0) = cfr[split];
        let ph = ph0 + 1;
        let ghost cv = coords_view(cfr@);
        let ghost fb = cfr@;
        let ghost ss = steps_view(path@).skip(cidx as int);
        let ghost parent = (cv[split as int].0, cv[split as int].1 + 1);
        let ghost next = cv.take(split as int).push(parent);
        proof {
            assert(cv[split as int] == (pl as nat, ph0 as nat));
        }
        if ct >= split {
            if cidx >= path.len() {
                proof {
                    assert(ss.len() == 0);
                    assert(merge_phase(*hasher, k as nat, cv, ct as nat, opt_view(cth), entries_view(es@), ss) is None);
                }
                return None;
            }
            let step = &path[cidx];
            proof {
                assert(ss[0] == step_view(*step));
            }
            if step.position != ct - split || step.siblings.len() + 1 != ku {
                proof {
                    assert(merge_phase(*hasher, k as nat, cv, ct as nat, opt_view(cth), entries_view(es@), ss) is None);
                }
                return None;
            }
            let x = match &cth {
                Some(x) => copy_bytes(x),
                None => {
                    return None;
                },
            };
            push_node_entries(es, &cfr, split, step);
            let p = step_parent(hasher, &x, step);
            let ghost before = es@;
            es.push(((pl, ph), copy_bytes(&p)));
            proof {
                assert(entries_view(es@) =~= entries_view(before).push((parent, p@)));
            }
            cfr.truncate(split);
            cfr.push((pl, ph));
            ct = split;
            cth = Some(p);
            cidx = cidx + 1;
            proof {
                assert(ss.skip(1) =~= steps_view(path@).skip(cidx as int));
                assert(coords_view(cfr@) =~= next);
            }
        } else {
            cfr.truncate(split);
            cfr.push((pl, ph));
            proof {
                assert(coords_view(cfr@) =~= next);
            }
        }
        proof {
            assert forall|i: int| 0 <= i < cfr@.len() implies (#[trigger] cfr@[i]).1 <= 64 + (l0
                - cfr@.len()) by {
                if i < split {
                    assert(cfr@[i] == fb[i]);
                } else {
                    assert(cfr@[i] == (pl, ph));
                    assert(fb[split as int].1 == ph0);
                }
            }
        }
    }
    Some((cfr, ct, cth, cidx))
}


/// The last merge (`final_merge`) over the nodes `fr` carrying the node at
/// `t` with digest `th`; yields the new root and the next step index.
fn final_step<H: Hasher>(
    hasher: &H,
    fr: &Vec<(u64, u32)>,
    t: usize,
    th: Option<Vec<u8>>,
    es: &mut Vec<((u64, u32), Vec<u8>)>,
    path: &[ProofStep],
    idx: usize,
) -> (r: Option<(Vec<u8>, usize)>)
    requires
        t < fr@.len(),
        idx <= path@.len(),
        forall|i: int| 0 <= i < path@.len() ==> (#[trigger] path@[i]).siblings@.len() <= 256,
    ensures
        match final_merge(
            *hasher,
            coords_view(fr@),
            t as nat,
            opt_view(th),
            entries_view(old(es)@),
            steps_view(path@).skip(idx as int),
        ) {
            None => r is None,
            Some(fm) => r matches Some(q) && q.0@ == fm.0 && entries_view(final(es)@) == fm.1 && q.1
                <= path@.len() && steps_view(path@).skip(q.1 as int) == fm.2,
        },
{
    let ghost ss = steps_view(path@).skip(idx as int);
    let x = match th {
        Some(x) => x,
        None => {
            return None;
        },
    };
    if fr.len() <= 1 {
        return Some((x, idx));
    }
    if idx >= path.len() {
        return None;
    }
    let step = &path[idx];
    proof {
        assert(ss[0] == step_view(*step));
    }
    if step.position != t || step.siblings.len() + 1 != fr.len() {
        return None;
    }
    push_node_entries(es, fr, 0, step);
    proof {
        assert(coords_view(fr@).skip(0) =~= coords_view(fr@));
        assert(ss.skip(1) =~= steps_view(path@).skip(idx + 1));
    }
    let p = step_parent(hasher, &x, step);
    Some((p, idx + 1))
}

/// The digests recorded at each of the coordinates `cs` (`read_back`).
fn read_old_peaks(es: &Vec<((u64, u32), Vec<u8>)>, cs: &Vec<(u64, u32)>) -> (r: Option<
    Vec<Vec<u8>>,
>)
    ensures
        match read_back(entries_view(es@), coords_view(cs@)) {
            None => r is None,
            Some(ov) => r matches Some(v) && digests_view(v@) == ov,
        },
{
    let ghost ev = entries_view(es@);
    let ghost cv = coords_view(cs@);
    let mut out: Vec<Vec<u8>> = Vec::new();
    let mut i: usize = 0;
    while i < cs.len()
        invariant
            ev == entries_view(es@),
            cv == coords_view(cs@),
            i <= cs@.len(),
            forall|j: int| 0 <= j < i ==> lookup(ev, #[trigger] cv[j]) is Some,
            digests_view(out@) == cv.take(i as int).map_values(|c: (nat, nat)| lookup(ev, c)->0),
        decreases cs@.len() - i,
    {
        let c = cs[i];
        proof {
            assert(cv[i as int] == (c.0 as nat, c.1 as nat));
        }
        match lookup_entry(es, c) {
            None => {
                proof {
                    assert(lookup(ev, cv[i as int]) is None);
                }
                return None;
            },
            Some(v) => {
                let ghost before = out@;
                out.push(v);
                proof {
                    crate::hasher::lemma_digests_push(before, v);
                    assert(digests_view(out@) =~= cv.take(i + 1).map_values(
                        |c: (nat, nat)| lookup(ev, c)->0,
                    ));
                }
            },
        }
        i = i + 1;
    }
    proof {
        assert(cv.take(cs@.len() as int) =~= cv);
    }
    Some(out)
}

/// Whether a consistency path keeps the bounds of `inputs_ok`.
fn inputs_valid<H: Hasher>(
    hasher: &H,
    start: &[u8],
    old_size: u64,
    new_size: u64,
    k: u64,
    path: &[ProofStep],
) -> (b: bool)
    ensures
        b == inputs_ok(
            hasher.spec_empty().len(),
            start@,
            old_size as nat,
            new_size as nat,
            k as nat,
            steps_view(path@),
        ),
{
    let ghost steps = steps_view(path@);
    let e = hasher.empty();
    let dl = e.len();
    if dl == 0 || dl > 64 || start.len() != dl || old_size == 0 || old_size >= new_size || k < 2
        || k > 256 || path.len() > 256 {
        return false;
    }
    let mut i: usize = 0;
    while i < path.len()
        invariant
            steps == steps_view(path@),
            dl == hasher.spec_empty().len(),
            i <= path@.len(),
            forall|ii: int|
                0 <= ii < i ==> {
                    &&& (#[trigger] steps[ii]).0.len() <= 256
                    &&& forall|j: int|
                        0 <= j < steps[ii].0.len() ==> (#[trigger] steps[ii].0[j]).len() == dl
                },
        decreases path@.len() - i,
    {
        let sibs = &path[i].siblings;
        proof {
            assert(steps[i as int].0 == digests_view(sibs@));
        }
        if sibs.len() > 256 {
            return false;
        }
        let mut j: usize = 0;
        while j < sibs.len()
            invariant
                steps == steps_view(path@),
                dl == hasher.spec_empty().len(),
                i < path@.len(),
                sibs == path@[i as int].siblings,
                steps[i as int].0 == digests_view(sibs@),
                j <= sibs@.len(),
                forall|jj: int| 0 <= jj < j ==> (#[trigger] steps[i as int].0[jj]).len() == dl,
            decreases sibs@.len() - j,
        {
            proof {
                assert(steps[i as int].0[j as int] == sibs@[j as int]@);
            }
            if sibs[j].len() != dl {
                return false;
            }
            j = j + 1;
        }
        i = i + 1;
    }
    true
}

/// Recompute the old and new roots from a consistency path between logs of
/// `old_size` and `new_size` cells at arity `log_arity`
/// (`path_consistency_roots`); `None` when the path does not fit them.
pub fn reconstruct_consistency_roots<H: Hasher>(
    hasher: &H,
    old_size: u64,
    new_size: u64,
    log_arity: u64,
    start_hash: &[u8],
    path: &[ProofStep],
) -> (r: Option<(Vec<u8>, Vec<u8>)>)
    ensures
        match path_consistency_roots(
            *hasher,
            old_size as nat,
            new_size as nat,
            log_arity as nat,
            start_hash@,
            steps_view(path@),
        ) {
            None => r is None,
            Some(p) => r matches Some(q) && q.0@ == p.0 && q.1@ == p.1,
        },
{
    let ghost steps = steps_view(path@);
    if !inputs_valid(hasher, start_hash, old_size, new_size, log_arity, path) {
        return None;
    }
    let k = log_arity;
    let ghost kn = k as nat;
    let ofs = frontier_for_size(old_size, k);
    let nfs = frontier_for_size(new_size, k);
    let ghost ofv = frontier_spec(old_size as nat, kn);
    let ghost nfv = frontier_spec(new_size as nat, kn);
    proof {
        lemma_frontier_unfold(old_size as nat, kn, 0);
        lemma_frontier_within(old_size as nat, kn, 0);
        lemma_frontier_small(new_size as nat, kn);
        lemma_frontier_small(old_size as nat, kn);
        assert forall|i: int| 0 <= i < path@.len() implies (#[trigger] path@[i]).siblings@.len()
            <= 256 by {
            assert(steps[i].0 == digests_view(path@[i].siblings@));
        }
    }
    let (bl, bh) = ofs[ofs.len() - 1];
    proof {
        assert(ofv.last() == (bl as nat, bh as nat));
        assert(ofv[ofv.len() - 1] == ofv.last());
    }
    let f = find_peak(&nfs, bl, new_size, k);
    let (nl, nh) = nfs[f];
    proof {
        assert(nfv[f as int] == (nl as nat, nh as nat));
    }
    if nh < bh {
        return None;
    }
    let bs = (nh - bh) as usize;
    if path.len() < bs {
        return None;
    }
    let mut es: Vec<((u64, u32), Vec<u8>)> = Vec::new();
    es.push(((bl, bh), copy_slice(start_hash)));
    proof {
        assert(entries_view(es@) =~= seq![(ofv.last(), start_hash@)]);
    }
    let climbed = climb_path(hasher, k, &mut es, bl, bh, copy_slice(start_hash), path, bs);
    if climbed.is_none() {
        return None;
    }
    let th = lookup_entry(&es, (nl, nh));
    let fr = crate::topology::copy_coords(&nfs);
    proof {
        assert forall|i: int| 0 <= i < fr@.len() implies (#[trigger] fr@[i]).1 < 64 by {
            assert(nfv[i].1 == fr@[i].1);
        }
    }
    let (fr2, t2, th2, idx2) = match merge_path(hasher, k, fr, f, th, &mut es, path, bs) {
        None => {
            return None;
        },
        Some(m) => m,
    };
    let (new_root, idx3) = match final_step(hasher, &fr2, t2, th2, &mut es, path, idx2) {
        None => {
            return None;
        },
        Some(x) => x,
    };
    if idx3 != path.len() {
        return None;
    }
    let ov = match read_old_peaks(&es, &ofs) {
        None => {
            return None;
        },
        Some(v) => v,
    };
    let old_root = fold_peaks(hasher, ov, k);
    Some((old_root, new_root))
}

} // verus!
