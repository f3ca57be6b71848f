//! Rebuilding the root of a range of an algorithm's tree from the store:
//! null projections for the ranges its epochs do not touch, stored nodes for
//! perfect ranges it covers whole, and recomputation everywhere else. The
//! nodes recomputed over perfect ranges come back alongside, so a caller can
//! persist them.
use vstd::prelude::*;

use crate::engine::{
    LogKind, epochs_active_at, epochs_active_range, epochs_fully_active, spec_active_range,
    spec_fully_active, spec_is_active_at,
};
use crate::hasher::{Hasher, digests_view, lemma_digests_push};
use crate::log::{Error, node_key};
use crate::model::{fold_frontier, fold_peaks};
use crate::mr::{nary_mr, spec_nary_mr};
use crate::storage::Storage;
use crate::topology::{
    checked_pow, coords_view, frontier_for_size, frontier_spec, lemma_frontier_unfold,
    lemma_frontier_within, lemma_max_height_unique, lemma_pow_adds, lemma_pow_positive,
    lemma_pow_strict, lemma_pow_succ, max_height, pow,
};

verus! {

/// A recomputed node as plain values: left, height, digest.
pub type MixedNode = (nat, nat, Seq<u8>);

/// The recomputed nodes as plain values.
pub open spec fn mixed_view(m: Seq<(u64, u32, Vec<u8>)>) -> Seq<MixedNode> {
    m.map_values(|t: (u64, u32, Vec<u8>)| (t.0 as nat, t.1 as nat, t.2@))
}

/// A stored node read back: `None` when its length is not the digest
/// length, the null constant when none is stored.
pub open spec fn stored_or_null<H: Hasher>(
    h: H,
    nodes: Map<(u64, u64), Seq<u8>>,
    alg_id: u64,
    left: nat,
    height: nat,
) -> Option<Seq<u8>> {
    let key = (alg_id, node_key(left, height));
    if nodes.contains_key(key) {
        if nodes[key].len() == h.spec_null().len() {
            Some(nodes[key])
        } else {
            None
        }
    } else {
        Some(h.spec_null())
    }
}

/// Whether every entry of `kids` is a result.
pub open spec fn all_some(kids: Seq<Option<(Seq<u8>, Seq<MixedNode>)>>) -> bool {
    forall|j: int| 0 <= j < kids.len() ==> (#[trigger] kids[j]) is Some
}

/// The digests of a list of results.
pub open spec fn kid_digests(kids: Seq<Option<(Seq<u8>, Seq<MixedNode>)>>) -> Seq<Seq<u8>> {
    kids.map_values(|x: Option<(Seq<u8>, Seq<MixedNode>)>| (x->0).0)
}

/// The recomputed nodes of a list of results, in order.
pub open spec fn kid_mixed(kids: Seq<Option<(Seq<u8>, Seq<MixedNode>)>>) -> Seq<MixedNode> {
    kids.map_values(|x: Option<(Seq<u8>, Seq<MixedNode>)>| (x->0).1).flatten()
}

/// The rebuilt results of the `k` equal children of the range `[lo, hi)`.
pub open spec fn child_results<H: Hasher>(
    h: H,
    leaves: Seq<Seq<u8>>,
    nodes: Map<(u64, u64), Seq<u8>>,
    alg_id: u64,
    e: Seq<(u64, u64)>,
    kind: LogKind,
    lo: nat,
    hi: nat,
    k: nat,
) -> Seq<Option<(Seq<u8>, Seq<MixedNode>)>>
    decreases hi - lo, 0nat,
{
    let size = (hi - lo) as nat;
    let cs = if k == 0 { 0 } else { size / k };
    Seq::new(
        k,
        |j: int|
            if 0 <= j && cs < size && lo < hi {
                rebuild(h, leaves, nodes, alg_id, e, kind, (lo + j * cs) as nat, (lo + j * cs + cs) as nat, k)
            } else {
                None
            },
    )
}

/// The rebuilt results of the frontier parts of the range `[lo, hi)`.
pub open spec fn part_results<H: Hasher>(
    h: H,
    leaves: Seq<Seq<u8>>,
    nodes: Map<(u64, u64), Seq<u8>>,
    alg_id: u64,
    e: Seq<(u64, u64)>,
    kind: LogKind,
    lo: nat,
    hi: nat,
    k: nat,
) -> Seq<Option<(Seq<u8>, Seq<MixedNode>)>>
    decreases hi - lo, 0nat,
{
    let size = (hi - lo) as nat;
    let parts = frontier_spec(size, k);
    Seq::new(
        parts.len(),
        |i: int|
            if 0 <= i < parts.len() && pow(k, parts[i].1) < size && lo < hi {
                rebuild(h, leaves, nodes, alg_id, e, kind, lo + parts[i].0, lo + parts[i].0 + pow(k, parts[i].1), k)
            } else {
                None
            },
    )
}

/// The root of positions `[lo, hi)` of algorithm `alg_id` with epochs `e`,
/// rebuilt from the stored leaves and nodes, with the nodes recomputed over
/// perfect ranges (in order, children first); `None` when a stored digest
/// has the wrong length or a flat leaf is missing.
///
/// An empty range is the empty root; a range the epochs do not touch is the
/// null constant; a single position is its leaf digest (flat), its stored
/// node (subtree) or null; a perfect range covered whole by one epoch is its
/// stored node when present; any other perfect range hashes its `k` equal
/// children, and a range that is not perfect folds its frontier parts.
pub open spec fn rebuild<H: Hasher>(
    h: H,
    leaves: Seq<Seq<u8>>,
    nodes: Map<(u64, u64), Seq<u8>>,
    alg_id: u64,
    e: Seq<(u64, u64)>,
    kind: LogKind,
    lo: nat,
    hi: nat,
    k: nat,
) -> Option<(Seq<u8>, Seq<MixedNode>)>
    decreases hi - lo, 1nat,
{
    if hi <= lo {
        Some((h.spec_empty(), seq![]))
    } else if hi - lo == 1 {
        if !spec_is_active_at(e, lo as int) {
            Some((h.spec_null(), seq![]))
        } else if kind == LogKind::Subtree {
            match stored_or_null(h, nodes, alg_id, lo, 0) {
                Some(v) => Some((v, seq![])),
                None => None,
            }
        } else if lo < leaves.len() {
            Some((h.spec_leaf(leaves[lo as int]), seq![]))
        } else {
            None
        }
    } else if !spec_active_range(e, lo as int, hi as int) {
        Some((h.spec_null(), seq![]))
    } else if k < 2 {
        None
    } else {
        let size = (hi - lo) as nat;
        let ht = max_height(size, k);
        if pow(k, ht) == size {
            if spec_fully_active(e, lo as int, hi as int) && nodes.contains_key(
                (alg_id, node_key(lo, ht)),
            ) {
                match stored_or_null(h, nodes, alg_id, lo, ht) {
                    Some(v) => Some((v, seq![])),
                    None => None,
                }
            } else {
                let kids = child_results(h, leaves, nodes, alg_id, e, kind, lo, hi, k);
                if all_some(kids) {
                    let hash = spec_nary_mr(h, kid_digests(kids));
                    Some((hash, kid_mixed(kids).push((lo, ht, hash))))
                } else {
                    None
                }
            }
        } else {
            let kids = part_results(h, leaves, nodes, alg_id, e, kind, lo, hi, k);
            if all_some(kids) {
                Some((fold_frontier(h, kid_digests(kids), k), kid_mixed(kids)))
            } else {
                None
            }
        }
    }
}


/// The height of `size` as a power of `k`: `Some(h)` with `k^h == size`, or
/// `None` when `size` is no power of `k`.
fn power_height(size: u64, k: u64) -> (r: Option<u32>)
    requires
        2 <= k,
        size >= 1,
    ensures
        match r {
            Some(ht) => pow(k as nat, ht as nat) == size && ht == max_height(size as nat, k as nat),
            None => pow(k as nat, max_height(size as nat, k as nat)) != size,
        },
{
    let mut temp = size;
    let mut count: u32 = 0;
    proof {
        assert(pow(k as nat, 0) == 1);
    }
    while temp % k == 0
        invariant
            2 <= k,
            temp >= 1,
            size == temp * pow(k as nat, count as nat),
            count < 64,
            pow(k as nat, count as nat) <= size,
        decreases temp,
    {
        proof {
            lemma_pow_succ(k as nat, count as nat);
            assert(temp / k >= 1 && temp / k < temp && temp == k * (temp / k)) by (nonlinear_arith)
                requires
                    temp % k == 0,
                    temp >= 1,
                    k >= 2,
            ;
            assert(size == (temp / k) * pow(k as nat, (count + 1) as nat)) by (nonlinear_arith)
                requires
                    size == temp * pow(k as nat, count as nat),
                    temp == k * (temp / k),
                    pow(k as nat, (count + 1) as nat) == k * pow(k as nat, count as nat),
            ;
            lemma_pow_positive(k as nat, count as nat);
            assert(pow(k as nat, (count + 1) as nat) <= size) by (nonlinear_arith)
                requires
                    size == (temp / k) * pow(k as nat, (count + 1) as nat),
                    temp / k >= 1,
            ;
            crate::topology::lemma_pow_u64_height(k as nat, (count + 1) as nat);
        }
        temp = temp / k;
        count = count + 1;
    }
    let ghost m = max_height(size as nat, k as nat);
    proof {
        crate::topology::lemma_max_height_bounds(size as nat, k as nat);
    }
    if temp == 1 {
        proof {
            lemma_pow_succ(k as nat, count as nat);
            lemma_pow_positive(k as nat, count as nat);
            assert(size < pow(k as nat, (count + 1) as nat)) by (nonlinear_arith)
                requires
                    size == pow(k as nat, count as nat),
                    pow(k as nat, (count + 1) as nat) == k * pow(k as nat, count as nat),
                    k >= 2,
                    pow(k as nat, count as nat) >= 1,
            ;
            lemma_max_height_unique(size as nat, k as nat, count as nat);
        }
        Some(count)
    } else {
        proof {
            if pow(k as nat, m) == size {
                let c = count as nat;
                if m >= c {
                    lemma_pow_adds(k as nat, c, (m - c) as nat);
                    let q = pow(k as nat, (m - c) as nat);
                    lemma_pow_positive(k as nat, c);
                    assert(temp == q) by (nonlinear_arith)
                        requires
                            size == temp * pow(k as nat, c),
                            size == pow(k as nat, c) * q,
                            pow(k as nat, c) >= 1,
                    ;
                    if m - c >= 1 {
                        lemma_pow_succ(k as nat, (m - c - 1) as nat);
                        assert(q % (k as nat) == 0) by (nonlinear_arith)
                            requires
                                q == k * pow(k as nat, (m - c - 1) as nat),
                                k >= 2,
                        ;
                    } else {
                        assert(q == 1);
                    }
                } else {
                    lemma_pow_strict(k as nat, m, c);
                    assert(temp * pow(k as nat, c) >= pow(k as nat, c)) by (nonlinear_arith)
                        requires
                            temp >= 1,
                    ;
                }
            }
        }
        None
    }
}


/// The stored node at `(left, height)` of `alg_id`: `None` when none is
/// stored, a `CorruptedMetadata` error when it has the wrong length.
fn read_node<S: Storage, H: Hasher>(
    storage: &S,
    alg_id: u64,
    hasher: &H,
    left: u64,
    height: u32,
) -> (r: Result<Option<Vec<u8>>, Error<S::Error>>)
    ensures
        r matches Ok(Some(v)) ==> stored_or_null(*hasher, storage.spec_nodes(), alg_id, left as nat, height as nat)
            == Some(v@) && storage.spec_nodes().contains_key((alg_id, node_key(left as nat, height as nat))),
        r matches Ok(None) ==> !storage.spec_nodes().contains_key((alg_id, node_key(left as nat, height as nat))),
        stored_or_null(*hasher, storage.spec_nodes(), alg_id, left as nat, height as nat) is None ==> r is Err,
        r matches Err(e) ==> e is Storage || e is CorruptedMetadata,
        r matches Err(Error::CorruptedMetadata { .. }) ==> stored_or_null(
            *hasher,
            storage.spec_nodes(),
            alg_id,
            left as nat,
            height as nat,
        ) is None,
{
    let key = (left << 16) | (height as u64 & 0xFFFF);
    match storage.get_node(alg_id, key) {
        Err(e) => Err(Error::Storage(e)),
        Ok(None) => Ok(None),
        Ok(Some(hash)) => {
            let expected = hasher.null().len();
            if hash.len() != expected {
                Err(
                    Error::CorruptedMetadata {
                        alg_id,
                        reason: "stored node has the wrong digest length".to_owned(),
                    },
                )
            } else {
                Ok(Some(hash))
            }
        },
    }
}

/// Recompute the root of positions `[lo, hi)` of algorithm `alg_id` with
/// epochs `epochs` from the store, with the nodes recomputed over perfect
/// ranges. A success is the rebuilt root; a range whose rebuild fails (a
/// stored digest of the wrong length, a missing flat leaf) is an error, as is
/// a failed read.
pub fn reconstruct_subtree_root<S: Storage, H: Hasher>(
    storage: &S,
    alg_id: u64,
    hasher: &H,
    epochs: &Vec<(u64, u64)>,
    lo: u64,
    hi: u64,
    k: u64,
    kind: LogKind,
) -> (r: Result<(Vec<u8>, Vec<(u64, u32, Vec<u8>)>), Error<S::Error>>)
    requires
        lo <= hi,
        2 <= k <= 256,
    ensures
        r matches Ok((d, m)) ==> rebuild(
            *hasher,
            storage.spec_leaves(),
            storage.spec_nodes(),
            alg_id,
            epochs@,
            kind,
            lo as nat,
            hi as nat,
            k as nat,
        ) == Some((d@, mixed_view(m@))),
        rebuild(
            *hasher,
            storage.spec_leaves(),
            storage.spec_nodes(),
            alg_id,
            epochs@,
            kind,
            lo as nat,
            hi as nat,
            k as nat,
        ) is None ==> r is Err,
        r matches Err(e) ==> e is Storage || e is CorruptedMetadata,
        lo == hi ==> (r matches Ok((d, m)) && d@ == hasher.spec_empty() && m@.len() == 0),
        r matches Err(Error::CorruptedMetadata { .. }) ==> rebuild(
            *hasher,
            storage.spec_leaves(),
            storage.spec_nodes(),
            alg_id,
            epochs@,
            kind,
            lo as nat,
            hi as nat,
            k as nat,
        ) is None,
    decreases hi - lo, 1nat,
{
    let ghost empty_mixed = mixed_view(Seq::<(u64, u32, Vec<u8>)>::empty());
    proof {
        assert(empty_mixed =~= Seq::<MixedNode>::empty());
    }
    let size = hi - lo;
    if size == 0 {
        return Ok((hasher.empty(), Vec::new()));
    }
    if size == 1 {
        if epochs_active_at(epochs, lo) {
            if kind == LogKind::Subtree {
                return match read_node(storage, alg_id, hasher, lo, 0) {
                    Err(e) => Err(e),
                    Ok(Some(hash)) => Ok((hash, Vec::new())),
                    Ok(None) => Ok((hasher.null(), Vec::new())),
                };
            } else {
                let data = match storage.get_leaf(lo) {
                    Ok(d) => d,
                    Err(e) => return Err(Error::Storage(e)),
                };
                return Ok((hasher.leaf(data.as_slice()), Vec::new()));
            }
        }
        return Ok((hasher.null(), Vec::new()));
    }
    if !epochs_active_range(epochs, lo, hi) {
        return Ok((hasher.null(), Vec::new()));
    }
    match power_height(size, k) {
        Some(height) => {
            if epochs_fully_active(epochs, lo, hi) {
                match read_node(storage, alg_id, hasher, lo, height) {
                    Err(e) => {
                        return Err(e);
                    },
                    Ok(Some(hash)) => {
                        return Ok((hash, Vec::new()));
                    },
                    Ok(None) => {},
                }
            }
            rebuild_children(storage, alg_id, hasher, epochs, lo, hi, k, kind, height)
        },
        None => rebuild_parts(storage, alg_id, hasher, epochs, lo, hi, k, kind),
    }
}

/// The rebuilt children of the perfect range `[lo, hi)` of height `height`
/// that no stored node covers whole: their digests hashed, and their
/// recomputed nodes followed by this one.
fn rebuild_children<S: Storage, H: Hasher>(
    storage: &S,
    alg_id: u64,
    hasher: &H,
    epochs: &Vec<(u64, u64)>,
    lo: u64,
    hi: u64,
    k: u64,
    kind: LogKind,
    height: u32,
) -> (r: Result<(Vec<u8>, Vec<(u64, u32, Vec<u8>)>), Error<S::Error>>)
    requires
        lo < hi,
        hi - lo >= 2,
        2 <= k <= 256,
        pow(k as nat, height as nat) == hi - lo,
        height == max_height((hi - lo) as nat, k as nat),
        spec_active_range(epochs@, lo as int, hi as int),
        !(spec_fully_active(epochs@, lo as int, hi as int) && storage.spec_nodes().contains_key(
            (alg_id, node_key(lo as nat, height as nat)),
        )),
    ensures
        r matches Ok((d, m)) ==> rebuild(
            *hasher,
            storage.spec_leaves(),
            storage.spec_nodes(),
            alg_id,
            epochs@,
            kind,
            lo as nat,
            hi as nat,
            k as nat,
        ) == Some((d@, mixed_view(m@))),
        rebuild(
            *hasher,
            storage.spec_leaves(),
            storage.spec_nodes(),
            alg_id,
            epochs@,
            kind,
            lo as nat,
            hi as nat,
            k as nat,
        ) is None ==> r is Err,
        r matches Err(e) ==> e is Storage || e is CorruptedMetadata,
        r matches Err(Error::CorruptedMetadata { .. }) ==> rebuild(
            *hasher,
            storage.spec_leaves(),
            storage.spec_nodes(),
            alg_id,
            epochs@,
            kind,
            lo as nat,
            hi as nat,
            k as nat,
        ) is None,
    decreases hi - lo, 0nat,
{
    let ghost h = *hasher;
    let ghost leaves = storage.spec_leaves();
    let ghost nodes = storage.spec_nodes();
    let size = hi - lo;
    let child_size = size / k;
    let ghost sz = size as nat;
    let ghost cs = child_size as nat;
    proof {
        assert(height >= 1) by {
            if height == 0 {
                assert(pow(k as nat, 0) == 1);
            }
        }
        lemma_pow_succ(k as nat, (height - 1) as nat);
        lemma_pow_positive(k as nat, (height - 1) as nat);
        assert(cs == pow(k as nat, (height - 1) as nat) && cs < sz && k * cs == sz) by (nonlinear_arith)
            requires
                sz == k * pow(k as nat, (height - 1) as nat),
                cs == sz / (k as nat),
                k >= 2,
                pow(k as nat, (height - 1) as nat) >= 1,
        ;
    }
    let ghost kids = child_results(h, leaves, nodes, alg_id, epochs@, kind, lo as nat, hi as nat, k as nat);
    let mut child_hashes: Vec<Vec<u8>> = Vec::new();
    let mut mixed: Vec<(u64, u32, Vec<u8>)> = Vec::new();
    let mut j: u64 = 0;
    proof {
        assert(kids.take(0).map_values(|x: Option<(Seq<u8>, Seq<MixedNode>)>| (x->0).1)
            =~= Seq::<Seq<MixedNode>>::empty());
        assert(mixed_view(mixed@) =~= kid_mixed(kids.take(0)));
        assert(digests_view(child_hashes@) =~= kid_digests(kids.take(0)));
    }
    while j < k
        invariant
            2 <= k <= 256,
            lo < hi,
            sz == hi - lo,
            cs == child_size,
            cs == sz / (k as nat),
            cs < sz,
            k * cs == sz,
            h == *hasher,
            leaves == storage.spec_leaves(),
            nodes == storage.spec_nodes(),
            kids.len() == k,
            kids == child_results(h, leaves, nodes, alg_id, epochs@, kind, lo as nat, hi as nat, k as nat),
            pow(k as nat, height as nat) == hi - lo,
            height == max_height((hi - lo) as nat, k as nat),
            spec_active_range(epochs@, lo as int, hi as int),
            !(spec_fully_active(epochs@, lo as int, hi as int) && nodes.contains_key(
                (alg_id, node_key(lo as nat, height as nat)),
            )),
            j <= k,
            all_some(kids.take(j as int)),
            digests_view(child_hashes@) == kid_digests(kids.take(j as int)),
            mixed_view(mixed@) == kid_mixed(kids.take(j as int)),
        decreases k - j,
    {
        proof {
            assert(j * cs + cs <= k * cs) by (nonlinear_arith)
                requires
                    j < k,
            ;
        }
        let c_lo = lo + j * child_size;
        let c_hi = c_lo + child_size;
        let res = reconstruct_subtree_root(storage, alg_id, hasher, epochs, c_lo, c_hi, k, kind);
        proof {
            assert(kids[j as int] == rebuild(h, leaves, nodes, alg_id, epochs@, kind, c_lo as nat, c_hi as nat, k as nat));
        }
        let (child_hash, child_mixed) = match res {
            Ok(p) => p,
            Err(e) => {
                proof {
                    if e is CorruptedMetadata {
                        assert(kids[j as int] is None);
                        assert(!all_some(kids));
                    }
                }
                return Err(e);
            },
        };
        let ghost before_h = child_hashes@;
        let ghost before_m = mixed@;
        let ghost kid = kids[j as int];
        child_hashes.push(child_hash);
        let mut cm = child_mixed;
        let ghost cmv = cm@;
        mixed.append(&mut cm);
        proof {
            let f1 = |x: Option<(Seq<u8>, Seq<MixedNode>)>| (x->0).0;
            let f2 = |x: Option<(Seq<u8>, Seq<MixedNode>)>| (x->0).1;
            assert(kids.take(j + 1) =~= kids.take(j as int).push(kid));
            assert(kids.take(j + 1).map_values(f1) =~= kids.take(j as int).map_values(f1).push(f1(kid)));
            assert(kids.take(j + 1).map_values(f2) =~= kids.take(j as int).map_values(f2).push(f2(kid)));
            kids.take(j as int).map_values(f2).lemma_flatten_push(f2(kid));
            lemma_digests_push(before_h, child_hashes@.last());
            assert(mixed_view(mixed@) =~= mixed_view(before_m) + mixed_view(cmv));
            assert(all_some(kids.take(j + 1)));
        }
        j = j + 1;
    }
    proof {
        assert(kids.take(k as int) =~= kids);
    }
    let hash = nary_mr(hasher, child_hashes.as_slice());
    let ghost before_m = mixed@;
    mixed.push((lo, height, crate::hasher::copy_bytes(&hash)));
    proof {
        assert(mixed_view(mixed@) =~= mixed_view(before_m).push((lo as nat, height as nat, hash@)));
        assert(all_some(kids));
        assert(kid_digests(kids) == digests_view(child_hashes@));
        assert(rebuild(h, leaves, nodes, alg_id, epochs@, kind, lo as nat, hi as nat, k as nat) == Some(
            (hash@, kid_mixed(kids).push((lo as nat, height as nat, hash@))),
        ));
    }
    Ok((hash, mixed))
}

/// The rebuilt frontier parts of the range `[lo, hi)`, which is no perfect
/// range: their digests folded, and their recomputed nodes in order.
fn rebuild_parts<S: Storage, H: Hasher>(
    storage: &S,
    alg_id: u64,
    hasher: &H,
    epochs: &Vec<(u64, u64)>,
    lo: u64,
    hi: u64,
    k: u64,
    kind: LogKind,
) -> (r: Result<(Vec<u8>, Vec<(u64, u32, Vec<u8>)>), Error<S::Error>>)
    requires
        lo < hi,
        hi - lo >= 2,
        2 <= k <= 256,
        pow(k as nat, max_height((hi - lo) as nat, k as nat)) != hi - lo,
        spec_active_range(epochs@, lo as int, hi as int),
    ensures
        r matches Ok((d, m)) ==> rebuild(
            *hasher,
            storage.spec_leaves(),
            storage.spec_nodes(),
            alg_id,
            epochs@,
            kind,
            lo as nat,
            hi as nat,
            k as nat,
        ) == Some((d@, mixed_view(m@))),
        rebuild(
            *hasher,
            storage.spec_leaves(),
            storage.spec_nodes(),
            alg_id,
            epochs@,
            kind,
            lo as nat,
            hi as nat,
            k as nat,
        ) is None ==> r is Err,
        r matches Err(e) ==> e is Storage || e is CorruptedMetadata,
        r matches Err(Error::CorruptedMetadata { .. }) ==> rebuild(
            *hasher,
            storage.spec_leaves(),
            storage.spec_nodes(),
            alg_id,
            epochs@,
            kind,
            lo as nat,
            hi as nat,
            k as nat,
        ) is None,
    decreases hi - lo, 0nat,
{
    let ghost h = *hasher;
    let ghost leaves = storage.spec_leaves();
    let ghost nodes = storage.spec_nodes();
    let size = hi - lo;
    let ghost sz = size as nat;
    let coords = frontier_for_size(size, k);
    let ghost parts = frontier_spec(sz, k as nat);
    let ghost m = max_height(sz, k as nat);
    proof {
        lemma_frontier_within(sz, k as nat, 0);
        crate::topology::lemma_max_height_bounds(sz, k as nat);
        assert forall|i: int| 0 <= i < parts.len() implies pow(k as nat, #[trigger] parts[i].1) < sz by {
            if parts[i].1 > m {
                lemma_pow_strict(k as nat, m, parts[i].1);
                crate::topology::lemma_pow_monotone(k as nat, m + 1, parts[i].1);
            } else {
                crate::topology::lemma_pow_monotone(k as nat, parts[i].1, m);
            }
        }
    }
    let ghost kids = part_results(h, leaves, nodes, alg_id, epochs@, kind, lo as nat, hi as nat, k as nat);
    let mut comps: Vec<Vec<u8>> = Vec::new();
    let mut mixed: Vec<(u64, u32, Vec<u8>)> = Vec::new();
    let mut i: usize = 0;
    proof {
        assert(kids.take(0).map_values(|x: Option<(Seq<u8>, Seq<MixedNode>)>| (x->0).1)
            =~= Seq::<Seq<MixedNode>>::empty());
        assert(mixed_view(mixed@) =~= kid_mixed(kids.take(0)));
        assert(digests_view(comps@) =~= kid_digests(kids.take(0)));
    }
    while i < coords.len()
        invariant
            2 <= k <= 256,
            lo < hi,
            sz == hi - lo,
            h == *hasher,
            leaves == storage.spec_leaves(),
            nodes == storage.spec_nodes(),
            coords_view(coords@) == parts,
            parts == frontier_spec(sz, k as nat),
            forall|t: int| 0 <= t < parts.len() ==> #[trigger] parts[t].0 + pow(k as nat, parts[t].1) <= sz,
            forall|t: int| 0 <= t < parts.len() ==> pow(k as nat, #[trigger] parts[t].1) < sz,
            kids.len() == parts.len(),
            kids == part_results(h, leaves, nodes, alg_id, epochs@, kind, lo as nat, hi as nat, k as nat),
            i <= coords@.len(),
            all_some(kids.take(i as int)),
            digests_view(comps@) == kid_digests(kids.take(i as int)),
            mixed_view(mixed@) == kid_mixed(kids.take(i as int)),
        decreases coords@.len() - i,
    {
        let (part_left, part_height) = coords[i];
        proof {
            assert(parts[i as int] == (part_left as nat, part_height as nat));
        }
        let cap = match checked_pow(k, part_height) {
            Some(c) => c,
            None => {
                proof {
                    assert(false);
                }
                0
            },
        };
        let c_lo = lo + part_left;
        let c_hi = c_lo + cap;
        let res = reconstruct_subtree_root(storage, alg_id, hasher, epochs, c_lo, c_hi, k, kind);
        proof {
            assert(kids[i as int] == rebuild(h, leaves, nodes, alg_id, epochs@, kind, c_lo as nat, c_hi as nat, k as nat));
        }
        let (part_root, part_mixed) = match res {
            Ok(p) => p,
            Err(e) => {
                proof {
                    if e is CorruptedMetadata {
                        assert(kids[i as int] is None);
                        assert(!all_some(kids));
                    }
                }
                return Err(e);
            },
        };
        let ghost before_h = comps@;
        let ghost before_m = mixed@;
        let ghost kid = kids[i as int];
        comps.push(part_root);
        let mut pm = part_mixed;
        let ghost pmv = pm@;
        mixed.append(&mut pm);
        proof {
            let f1 = |x: Option<(Seq<u8>, Seq<MixedNode>)>| (x->0).0;
            let f2 = |x: Option<(Seq<u8>, Seq<MixedNode>)>| (x->0).1;
            assert(kids.take(i + 1) =~= kids.take(i as int).push(kid));
            assert(kids.take(i + 1).map_values(f1) =~= kids.take(i as int).map_values(f1).push(f1(kid)));
            assert(kids.take(i + 1).map_values(f2) =~= kids.take(i as int).map_values(f2).push(f2(kid)));
            kids.take(i as int).map_values(f2).lemma_flatten_push(f2(kid));
            lemma_digests_push(before_h, comps@.last());
            assert(mixed_view(mixed@) =~= mixed_view(before_m) + mixed_view(pmv));
            assert(all_some(kids.take(i + 1)));
        }
        i = i + 1;
    }
    proof {
        assert(kids.take(parts.len() as int) =~= kids);
    }
    let root = fold_peaks(hasher, comps, k);
    proof {
        assert(rebuild(h, leaves, nodes, alg_id, epochs@, kind, lo as nat, hi as nat, k as nat) == Some(
            (root@, kid_mixed(kids)),
        ));
    }
    Ok((root, mixed))
}


/// The rebuilt results of the frontier subtrees of a log of `n` positions.
pub open spec fn peak_results<H: Hasher>(
    h: H,
    leaves: Seq<Seq<u8>>,
    nodes: Map<(u64, u64), Seq<u8>>,
    alg_id: u64,
    e: Seq<(u64, u64)>,
    kind: LogKind,
    n: nat,
    k: nat,
) -> Seq<Option<(Seq<u8>, Seq<MixedNode>)>> {
    frontier_spec(n, k).map_values(
        |c: (nat, nat)| rebuild(h, leaves, nodes, alg_id, e, kind, c.0, c.0 + pow(k, c.1), k),
    )
}

/// The node map after storing the recomputed nodes `mixed` of `alg_id`, in
/// order.
pub open spec fn apply_mixed(
    nodes: Map<(u64, u64), Seq<u8>>,
    alg_id: u64,
    mixed: Seq<MixedNode>,
) -> Map<(u64, u64), Seq<u8>>
    decreases mixed.len(),
{
    if mixed.len() == 0 {
        nodes
    } else {
        apply_mixed(nodes, alg_id, mixed.drop_last()).insert(
            (alg_id, node_key(mixed.last().0, mixed.last().1)),
            mixed.last().2,
        )
    }
}

} // verus!
