//! The single-algorithm engine's reads over the store: one algorithm's node
//! digests (null for ranges its epochs do not touch), its frontier peaks,
//! its member root at a size, and its view rebuilt from the store.
use vstd::prelude::*;

use crate::engine::{AlgView, Error, spec_active_range, spec_effective_size_at, spec_epochs_valid,
    spec_is_active, spec_tree_size, validate_epochs};
use crate::hasher::{Hasher, digests_view, lemma_digests_push};
use crate::log::{bisect_down, consistency_steps, inclusion_steps, lemma_child_index, node_key, peak_values, reversed, siblings_of};
use crate::proofs::{ConsistencyProof, InclusionProof, ProofStep, merge_frontier_paths, steps_view};
use crate::model::{fold_frontier, fold_peaks};
use crate::storage::{Storage, copy_epochs};
use crate::topology::{checked_pow, coords_view, find_peak, frontier_for_size, frontier_spec, lemma_frontier_within, lemma_pow_positive, lemma_pow_succ, pow};

verus! {

/// The digest read for the node at `(left, height)` of algorithm `alg_id`
/// with epochs `e`: null for a range the epochs do not touch (or one past
/// the `u64` range), else the stored node when it has the digest length;
/// `None` when it is missing or of another length.
pub open spec fn read_value<H: Hasher>(
    h: H,
    nodes: Map<(u64, u64), Seq<u8>>,
    alg_id: u64,
    e: Seq<(u64, u64)>,
    k: nat,
    left: nat,
    height: nat,
) -> Option<Seq<u8>> {
    let cap = pow(k, height);
    if cap > u64::MAX || left + cap > u64::MAX || !spec_active_range(e, left as int, (left + cap) as int) {
        Some(h.spec_null())
    } else {
        let key = (alg_id, node_key(left, height));
        if nodes.contains_key(key) && nodes[key].len() == h.spec_null().len() {
            Some(nodes[key])
        } else {
            None
        }
    }
}

/// The digests the reads give, the empty sequence where a read fails.
pub open spec fn read_vals<H: Hasher>(
    h: H,
    nodes: Map<(u64, u64), Seq<u8>>,
    alg_id: u64,
    e: Seq<(u64, u64)>,
    k: nat,
) -> spec_fn(nat, nat) -> Seq<u8> {
    |l: nat, ht: nat|
        match read_value(h, nodes, alg_id, e, k, l, ht) {
            Some(v) => v,
            None => Seq::<u8>::empty(),
        }
}

/// Every frontier peak of `n` cells reads back.
pub open spec fn peaks_read<H: Hasher>(
    h: H,
    nodes: Map<(u64, u64), Seq<u8>>,
    alg_id: u64,
    e: Seq<(u64, u64)>,
    n: nat,
    k: nat,
) -> bool {
    forall|i: int|
        0 <= i < frontier_spec(n, k).len() ==> (#[trigger] read_value(
            h,
            nodes,
            alg_id,
            e,
            k,
            frontier_spec(n, k)[i].0,
            frontier_spec(n, k)[i].1,
        )) is Some
}

/// The digest of the node at `(left, height)` of algorithm `alg_id` with
/// view `view` (`read_value`): null for a range its epochs do not touch;
/// a missing node, or one of another length than the digests, in a range
/// they touch is corrupt.
pub fn get_node_hash<S: Storage, H: Hasher>(
    storage: &S,
    view: &AlgView<H>,
    alg_id: u64,
    left: u64,
    height: u32,
    arity: u64,
) -> (r: Result<Vec<u8>, Error<S::Error>>)
    requires
        arity >= 1,
    ensures
        r matches Ok(v) ==> read_value(
            view.hasher,
            storage.spec_nodes(),
            alg_id,
            view.epochs@,
            arity as nat,
            left as nat,
            height as nat,
        ) == Some(v@),
        read_value(
            view.hasher,
            storage.spec_nodes(),
            alg_id,
            view.epochs@,
            arity as nat,
            left as nat,
            height as nat,
        ) is None ==> r is Err,
        r matches Err(e) ==> e is Read || (e matches Error::Corrupted { alg_id: a, .. } && a == alg_id),
{
    let cap = match checked_pow(arity, height) {
        Some(c) => c,
        None => {
            return Ok(view.hasher.null());
        },
    };
    let limit = match left.checked_add(cap) {
        Some(v) => v,
        None => {
            return Ok(view.hasher.null());
        },
    };
    if !view.active_range(left, limit) {
        return Ok(view.hasher.null());
    }
    let key = (left << 16) | (height as u64 & 0xFFFF);
    proof {
        assert(key == node_key(left as nat, height as nat));
    }
    match storage.get_node(alg_id, key) {
        Err(e) => Err(Error::Read(e)),
        Ok(None) => Err(
            Error::Corrupted { alg_id, reason: "missing internal node in an active range".to_owned() },
        ),
        Ok(Some(hash)) => {
            let expected = view.hasher.null().len();
            if hash.len() != expected {
                Err(
                    Error::Corrupted { alg_id, reason: "stored node has the wrong digest length".to_owned() },
                )
            } else {
                Ok(hash)
            }
        },
    }
}

/// The digest of the frontier peak at `(left, height)` (`get_node_hash`).
pub fn peak_at<S: Storage, H: Hasher>(
    storage: &S,
    view: &AlgView<H>,
    alg_id: u64,
    left: u64,
    height: u32,
    arity: u64,
) -> (r: Result<Vec<u8>, Error<S::Error>>)
    requires
        arity >= 1,
    ensures
        r matches Ok(v) ==> read_value(
            view.hasher,
            storage.spec_nodes(),
            alg_id,
            view.epochs@,
            arity as nat,
            left as nat,
            height as nat,
        ) == Some(v@),
        read_value(
            view.hasher,
            storage.spec_nodes(),
            alg_id,
            view.epochs@,
            arity as nat,
            left as nat,
            height as nat,
        ) is None ==> r is Err,
        r matches Err(e) ==> e is Read || (e matches Error::Corrupted { alg_id: a, .. } && a == alg_id),
{
    get_node_hash(storage, view, alg_id, left, height, arity)
}

/// The digests of the frontier peaks of a tree of `size` cells, left to
/// right; an error when one does not read back.
pub fn frontier_peaks<S: Storage, H: Hasher>(
    storage: &S,
    view: &AlgView<H>,
    alg_id: u64,
    size: u64,
    arity: u64,
) -> (r: Result<Vec<Vec<u8>>, Error<S::Error>>)
    requires
        arity >= 2,
    ensures
        r matches Ok(ps) ==> peaks_read(
            view.hasher,
            storage.spec_nodes(),
            alg_id,
            view.epochs@,
            size as nat,
            arity as nat,
        ) && digests_view(ps@) == peak_values(
            read_vals(view.hasher, storage.spec_nodes(), alg_id, view.epochs@, arity as nat),
            size as nat,
            arity as nat,
        ),
        !peaks_read(view.hasher, storage.spec_nodes(), alg_id, view.epochs@, size as nat, arity as nat)
            ==> r is Err,
        r matches Err(e) ==> e is Read || (e matches Error::Corrupted { alg_id: a, .. } && a == alg_id),
{
    let ghost h = view.hasher;
    let ghost nodes = storage.spec_nodes();
    let ghost e = view.epochs@;
    let ghost kn = arity as nat;
    let ghost vals = read_vals(h, nodes, alg_id, e, kn);
    let coords = frontier_for_size(size, arity);
    let ghost fs = frontier_spec(size as nat, kn);
    let mut peaks: Vec<Vec<u8>> = Vec::new();
    let mut i: usize = 0;
    while i < coords.len()
        invariant
            arity >= 2,
            h == view.hasher,
            nodes == storage.spec_nodes(),
            e == view.epochs@,
            kn == arity as nat,
            vals == read_vals(h, nodes, alg_id, e, kn),
            fs == frontier_spec(size as nat, kn),
            coords_view(coords@) == fs,
            i <= coords@.len(),
            forall|j: int| 0 <= j < i ==> (#[trigger] read_value(h, nodes, alg_id, e, kn, fs[j].0, fs[j].1)) is Some,
            digests_view(peaks@) == peak_values(vals, size as nat, kn).take(i as int),
        decreases coords@.len() - i,
    {
        let (l, ht) = coords[i];
        proof {
            assert(fs[i as int] == (l as nat, ht as nat));
        }
        let v = match get_node_hash(storage, view, alg_id, l, ht, arity) {
            Ok(v) => v,
            Err(err) => {
                return Err(err);
            },
        };
        let ghost before = peaks@;
        peaks.push(v);
        proof {
            lemma_digests_push(before, v);
            assert(digests_view(peaks@) =~= peak_values(vals, size as nat, kn).take(i + 1));
        }
        i = i + 1;
    }
    proof {
        assert(peak_values(vals, size as nat, kn).take(coords@.len() as int) =~= peak_values(
            vals,
            size as nat,
            kn,
        ));
    }
    Ok(peaks)
}

/// The member root of the algorithm at the historical global size `size`:
/// the fold of the peaks read at its effective size then (the empty root for
/// none).
pub fn root_for_at<S: Storage, H: Hasher>(
    storage: &S,
    view: &AlgView<H>,
    alg_id: u64,
    size: u64,
    arity: u64,
) -> (r: Result<Vec<u8>, Error<S::Error>>)
    requires
        2 <= arity <= 256,
    ensures
        ({
            let n = spec_effective_size_at(view.epochs@, size) as nat;
            let h = view.hasher;
            let nodes = storage.spec_nodes();
            &&& r matches Ok(root) ==> root@ == fold_frontier(
                h,
                peak_values(read_vals(h, nodes, alg_id, view.epochs@, arity as nat), n, arity as nat),
                arity as nat,
            )
            &&& !peaks_read(h, nodes, alg_id, view.epochs@, n, arity as nat) ==> r is Err
        }),
        spec_effective_size_at(view.epochs@, size) == 0 ==> (r matches Ok(root) && root@ == view.hasher.spec_empty()),
        r matches Err(e) ==> e is Read || (e matches Error::Corrupted { alg_id: a, .. } && a == alg_id),
{
    let alg_size = view.effective_size_at(size);
    if alg_size == 0 {
        proof {
            assert(frontier_spec(0, arity as nat) =~= Seq::<(nat, nat)>::empty());
            assert(peak_values(
                read_vals(view.hasher, storage.spec_nodes(), alg_id, view.epochs@, arity as nat),
                0,
                arity as nat,
            ) =~= Seq::<Seq<u8>>::empty());
        }
        return Ok(view.hasher.empty());
    }
    let peaks = match frontier_peaks(storage, view, alg_id, alg_size, arity) {
        Ok(p) => p,
        Err(e) => {
            return Err(e);
        },
    };
    Ok(fold_peaks(&view.hasher, peaks, arity))
}

/// Rebuild an algorithm's view from the store at global size `global_size`:
/// its hasher and epochs as given, its frontier the peaks read back at its
/// tree size (null for ranges its epochs do not touch). Refused as corrupt
/// when the epochs are not well formed or a peak does not read back.
pub fn reconstruct_view<S: Storage, H: Hasher>(
    storage: &S,
    alg_id: u64,
    hasher: H,
    epochs: &[(u64, u64)],
    global_size: u64,
    arity: u64,
) -> (r: Result<AlgView<H>, Error<S::Error>>)
    requires
        2 <= arity <= 256,
    ensures
        !spec_epochs_valid(epochs@, global_size) ==> r is Err,
        r matches Ok(v) ==> {
            let n = if spec_is_active(epochs@) { global_size } else { epochs@.last().1 };
            &&& spec_epochs_valid(epochs@, global_size)
            &&& v.hasher == hasher
            &&& v.epochs@ == epochs@
            &&& coords_view(v.frontier_coords@) == frontier_spec(n as nat, arity as nat)
            &&& peaks_read(hasher, storage.spec_nodes(), alg_id, epochs@, n as nat, arity as nat)
            &&& digests_view(v.frontier@) == peak_values(
                read_vals(hasher, storage.spec_nodes(), alg_id, epochs@, arity as nat),
                n as nat,
                arity as nat,
            )
        },
        r matches Err(e) ==> e is Read || (e matches Error::Corrupted { alg_id: a, .. } && a == alg_id),
{
    match validate_epochs::<S::Error>(alg_id, epochs, global_size) {
        Err(e) => {
            return Err(e);
        },
        Ok(()) => {},
    }
    let last_end = epochs[epochs.len() - 1].1;
    let tree_size = if last_end == u64::MAX {
        global_size
    } else {
        last_end
    };
    let mut view = AlgView {
        hasher,
        epochs: copy_epochs(epochs),
        frontier: Vec::new(),
        frontier_coords: Vec::new(),
    };
    if tree_size == 0 {
        proof {
            assert(frontier_spec(0, arity as nat) =~= Seq::<(nat, nat)>::empty());
            assert(coords_view(view.frontier_coords@) =~= Seq::<(nat, nat)>::empty());
            assert(digests_view(view.frontier@) =~= Seq::<Seq<u8>>::empty());
        }
        return Ok(view);
    }
    let peaks = match frontier_peaks(storage, &view, alg_id, tree_size, arity) {
        Ok(p) => p,
        Err(e) => {
            return Err(e);
        },
    };
    view.frontier = peaks;
    view.frontier_coords = frontier_for_size(tree_size, arity);
    Ok(view)
}


/// Walk from the node `(left, height)` down to the height-`target_height`
/// node holding `target`, appending one step per level (top first): the
/// siblings of the child on the way, as read.
fn log_level_bisection_path_to_height<S: Storage, H: Hasher>(
    storage: &S,
    view: &AlgView<H>,
    alg_id: u64,
    left: u64,
    height: u32,
    target: u64,
    target_height: u32,
    arity: u64,
    path: &mut Vec<ProofStep>,
) -> (r: Result<(), Error<S::Error>>)
    requires
        2 <= arity <= 256,
        target_height <= height,
        left <= target,
        target < left + pow(arity as nat, height as nat),
        left + pow(arity as nat, height as nat) <= u64::MAX,
    ensures
        r matches Err(e) ==> e is Read || (e matches Error::Corrupted { alg_id: a, .. } && a == alg_id),
        r is Ok ==> steps_view(final(path)@) == steps_view(old(path)@) + bisect_down(
            read_vals(view.hasher, storage.spec_nodes(), alg_id, view.epochs@, arity as nat),
            left as nat,
            height as nat,
            target as nat,
            target_height as nat,
            arity as nat,
        ),
{
    let k = arity;
    let ghost kn = k as nat;
    let ghost vals = read_vals(view.hasher, storage.spec_nodes(), alg_id, view.epochs@, kn);
    let ghost goal = steps_view(path@) + bisect_down(
        vals,
        left as nat,
        height as nat,
        target as nat,
        target_height as nat,
        kn,
    );
    let mut curr_left = left;
    let mut curr_height = height;
    while curr_height > target_height
        invariant
            kn == k as nat,
            2 <= k <= 256,
            vals == read_vals(view.hasher, storage.spec_nodes(), alg_id, view.epochs@, kn),
            target_height <= curr_height,
            curr_left <= target,
            target < curr_left + pow(kn, curr_height as nat),
            curr_left + pow(kn, curr_height as nat) <= left + pow(kn, height as nat),
            left + pow(kn, height as nat) <= u64::MAX,
            steps_view(path@) + bisect_down(
                vals,
                curr_left as nat,
                curr_height as nat,
                target as nat,
                target_height as nat,
                kn,
            ) == goal,
        decreases curr_height,
    {
        let hc = curr_height - 1;
        proof {
            lemma_pow_succ(kn, hc as nat);
            lemma_pow_positive(kn, hc as nat);
        }
        let cap = match checked_pow(k, hc) {
            Some(c) => c,
            None => {
                proof {
                    assert(pow(kn, hc as nat) <= pow(kn, curr_height as nat)) by (nonlinear_arith)
                        requires
                            pow(kn, curr_height as nat) == kn * pow(kn, hc as nat),
                            kn >= 2,
                    ;
                }
                return Ok(());
            },
        };
        let child_idx = (target - curr_left) / cap;
        proof {
            lemma_child_index((target - curr_left) as nat, cap as nat, kn);
            assert(child_idx * cap + cap == (child_idx + 1) * cap) by (nonlinear_arith);
            assert(kn * cap == pow(kn, curr_height as nat));
        }
        let mut siblings: Vec<Vec<u8>> = Vec::new();
        let ghost sib = siblings_of(vals, curr_left as nat, hc as nat, child_idx as nat, kn);
        let mut j: u64 = 0;
        while j < k
            invariant
                kn == k as nat,
                2 <= k <= 256,
                vals == read_vals(view.hasher, storage.spec_nodes(), alg_id, view.epochs@, kn),
                cap == pow(kn, hc as nat),
                cap >= 1,
                child_idx < k,
                curr_left + k * cap <= u64::MAX,
                j <= k,
                sib == siblings_of(vals, curr_left as nat, hc as nat, child_idx as nat, kn),
                digests_view(siblings@) == sib.take(if j <= child_idx { j as int } else { j - 1 }),
            decreases k - j,
        {
            if j != child_idx {
                proof {
                    assert(j * cap <= k * cap) by (nonlinear_arith)
                        requires
                            j <= k,
                            cap >= 1,
                    ;
                }
                let c_left = curr_left + j * cap;
                let v = match get_node_hash(storage, view, alg_id, c_left, hc, k) {
                    Ok(v) => v,
                    Err(e) => {
                        return Err(e);
                    },
                };
                let ghost before = siblings@;
                siblings.push(v);
                proof {
                    lemma_digests_push(before, v);
                    let pos = if j < child_idx { j as int } else { j - 1 };
                    assert(sib[pos] == vals(
                        (curr_left + (if pos < child_idx { pos } else { pos + 1 }) * pow(kn, hc as nat)) as nat,
                        hc as nat,
                    ));
                    assert(digests_view(siblings@) =~= sib.take(pos + 1));
                }
            }
            j = j + 1;
        }
        proof {
            assert(sib.len() == kn - 1);
            assert(sib.take(kn - 1) =~= sib);
        }
        let step = ProofStep { siblings, position: child_idx as usize };
        let ghost before_path = path@;
        path.push(step);
        proof {
            assert(steps_view(path@) =~= steps_view(before_path).push((sib, child_idx as nat)));
            let rest = bisect_down(
                vals,
                (curr_left + child_idx * cap) as nat,
                hc as nat,
                target as nat,
                target_height as nat,
                kn,
            );
            assert(bisect_down(
                vals,
                curr_left as nat,
                curr_height as nat,
                target as nat,
                target_height as nat,
                kn,
            ) == seq![(sib, child_idx as nat)] + rest);
            assert(steps_view(before_path) + (seq![(sib, child_idx as nat)] + rest)
                =~= steps_view(path@) + rest);
        }
        curr_left = curr_left + child_idx * cap;
        curr_height = hc;
    }
    proof {
        assert(bisect_down(
            vals,
            curr_left as nat,
            curr_height as nat,
            target as nat,
            target_height as nat,
            kn,
        ) =~= Seq::<(Seq<Seq<u8>>, nat)>::empty());
        assert(steps_view(path@) + Seq::<(Seq<Seq<u8>>, nat)>::empty() =~= steps_view(path@));
    }
    Ok(())
}

/// Generate an inclusion proof for `index` in the tree of size `tree_size`
/// of the algorithm with view `view` at global size `global_size`: `None`
/// when `tree_size` is 0, `index` is not below it, or it exceeds the
/// algorithm's tree size; otherwise the inclusion path over the digests as
/// read.
#[verifier::rlimit(80)]
pub fn inclusion_proof<S: Storage, H: Hasher>(
    storage: &S,
    view: &AlgView<H>,
    alg_id: u64,
    index: u64,
    tree_size: u64,
    global_size: u64,
    arity: u64,
) -> (r: Result<Option<InclusionProof>, Error<S::Error>>)
    requires
        2 <= arity <= 256,
    ensures
        ({
            let bad = tree_size == 0 || index >= tree_size || tree_size > spec_tree_size(
                view.epochs@,
                global_size,
            );
            &&& bad ==> r == Ok::<Option<InclusionProof>, Error<S::Error>>(None)
            &&& r matches Ok(None) ==> bad
            &&& r matches Ok(Some(p)) ==> {
                &&& p.index == index
                &&& p.tree_size == tree_size
                &&& steps_view(p.path@) == inclusion_steps(
                    view.hasher,
                    read_vals(view.hasher, storage.spec_nodes(), alg_id, view.epochs@, arity as nat),
                    tree_size as nat,
                    index as nat,
                    arity as nat,
                )
            }
        }),
        r matches Err(e) ==> e is Read || (e matches Error::Corrupted { alg_id: a, .. } && a == alg_id),
{
    let max_size = view.tree_size(global_size);
    if tree_size == 0 || index >= tree_size || tree_size > max_size {
        return Ok(None);
    }
    let k = arity;
    let ghost kn = k as nat;
    let coords = frontier_for_size(tree_size, k);
    let f = find_peak(&coords, index, tree_size, k);
    let ghost fs = frontier_spec(tree_size as nat, kn);
    let (left, height) = coords[f];
    proof {
        assert(fs[f as int] == (left as nat, height as nat));
        lemma_frontier_within(tree_size as nat, kn, 0);
    }
    let mut down: Vec<ProofStep> = Vec::new();
    match log_level_bisection_path_to_height(storage, view, alg_id, left, height, index, 0, k, &mut down) {
        Ok(()) => {},
        Err(e) => {
            return Err(e);
        },
    }
    proof {
        assert(steps_view(down@) =~= bisect_down(
            read_vals(view.hasher, storage.spec_nodes(), alg_id, view.epochs@, kn),
            left as nat,
            height as nat,
            index as nat,
            0,
            kn,
        ));
    }
    let mut path = reversed(down);
    let hashes = match frontier_peaks(storage, view, alg_id, tree_size, k) {
        Ok(h) => h,
        Err(e) => {
            return Err(e);
        },
    };
    proof {
        assert(digests_view(hashes@).len() == hashes@.len());
        assert(peak_values(read_vals(view.hasher, storage.spec_nodes(), alg_id, view.epochs@, kn), tree_size as nat, kn).len() == fs.len());
    }
    merge_frontier_paths(hashes, f, k as usize, &view.hasher, &mut path);
    Ok(Some(InclusionProof { index, tree_size, path }))
}

/// Generate a consistency proof from the tree of size `old_size` to the
/// tree of size `new_size` of the algorithm with view `view` at global size
/// `global_size`: `None` exactly when `old_size` is 0, not below `new_size`,
/// or `new_size` exceeds the algorithm's tree size; otherwise the boundary
/// digest and the consistency path over the digests as read.
#[verifier::rlimit(80)]
pub fn consistency_proof<S: Storage, H: Hasher>(
    storage: &S,
    view: &AlgView<H>,
    alg_id: u64,
    old_size: u64,
    new_size: u64,
    global_size: u64,
    arity: u64,
) -> (r: Result<Option<ConsistencyProof>, Error<S::Error>>)
    requires
        2 <= arity <= 256,
    ensures
        ({
            let bad = old_size == 0 || old_size >= new_size || new_size > spec_tree_size(
                view.epochs@,
                global_size,
            );
            let steps = consistency_steps(
                view.hasher,
                read_vals(view.hasher, storage.spec_nodes(), alg_id, view.epochs@, arity as nat),
                old_size as nat,
                new_size as nat,
                arity as nat,
            );
            &&& bad ==> r == Ok::<Option<ConsistencyProof>, Error<S::Error>>(None)
            &&& r matches Ok(None) ==> bad
            &&& r matches Ok(Some(p)) ==> {
                &&& !bad
                &&& p.old_size == old_size
                &&& p.new_size == new_size
                &&& p.log_arity == arity
                &&& steps == Some((p.start_hash@, steps_view(p.path@)))
            }
        }),
        r matches Err(e) ==> e is Read || (e matches Error::Corrupted { alg_id: a, .. } && a == alg_id),
{
    let max_size = view.tree_size(global_size);
    if old_size == 0 || old_size >= new_size || new_size > max_size {
        return Ok(None);
    }
    let k = arity;
    let ghost kn = k as nat;
    let ghost vals = read_vals(view.hasher, storage.spec_nodes(), alg_id, view.epochs@, kn);
    let old_coords = frontier_for_size(old_size, k);
    let ghost ofs = frontier_spec(old_size as nat, kn);
    proof {
        crate::topology::lemma_frontier_unfold(old_size as nat, kn, 0);
        lemma_frontier_within(old_size as nat, kn, 0);
    }
    let (boundary_left, boundary_height) = old_coords[old_coords.len() - 1];
    proof {
        assert(ofs[ofs.len() - 1] == (boundary_left as nat, boundary_height as nat));
        assert(ofs.last() == ofs[ofs.len() - 1]);
        lemma_pow_positive(kn, boundary_height as nat);
    }
    let start_hash = match get_node_hash(storage, view, alg_id, boundary_left, boundary_height, k) {
        Ok(v) => v,
        Err(e) => {
            return Err(e);
        },
    };
    let new_coords = frontier_for_size(new_size, k);
    let ghost nfs = frontier_spec(new_size as nat, kn);
    let f = find_peak(&new_coords, boundary_left, new_size, k);
    let (left, height) = new_coords[f];
    proof {
        assert(nfs[f as int] == (left as nat, height as nat));
        lemma_frontier_within(new_size as nat, kn, 0);
    }
    if height < boundary_height {
        proof {
            let fb = crate::acceptance::lemma_boundary(old_size as nat, new_size as nat, kn);
            lemma_pow_positive(kn, height as nat);
            crate::topology::lemma_pow_strict(kn, height as nat, boundary_height as nat);
        }
        return Ok(None);
    }
    let mut down: Vec<ProofStep> = Vec::new();
    match log_level_bisection_path_to_height(storage, view, alg_id, left, height, boundary_left, boundary_height, k, &mut down) {
        Ok(()) => {},
        Err(e) => {
            return Err(e);
        },
    }
    proof {
        assert(steps_view(down@) =~= bisect_down(
            vals,
            left as nat,
            height as nat,
            boundary_left as nat,
            boundary_height as nat,
            kn,
        ));
    }
    let mut path = reversed(down);
    let hashes = match frontier_peaks(storage, view, alg_id, new_size, k) {
        Ok(h) => h,
        Err(e) => {
            return Err(e);
        },
    };
    merge_frontier_paths(hashes, f, k as usize, &view.hasher, &mut path);
    Ok(Some(ConsistencyProof { old_size, new_size, log_arity: k, start_hash, path }))
}

} // verus!
