//! The multi-algorithm n-ary Merkle append-only log: a storage backend, an
//! arity, and one frontier per registered hashing algorithm, each with its
//! own epoch timeline.
use vstd::prelude::*;

use crate::engine::{
    AlgView, LogKind, spec_effective_size_at, spec_epochs_at, validate_epochs, epochs_reason, carry, compute_root, spec_active_range, spec_epochs_valid, spec_is_active,
    spec_is_active_at, spec_tree_size, spec_first_activation,
};
use crate::hasher::{Hasher, copy_bytes, copy_digests, digests_view};
use crate::model::{
    fold_frontier, fold_peaks, lemma_perfect_agree, lemma_perfect_null, member_root, peaks, perfect,
    perfect_children,
};
use crate::mr::{Subtree, evaluate, spec_evaluate, spec_nary_mr};
use crate::rebuild::{
    MixedNode, all_some, apply_mixed, kid_digests, kid_mixed, mixed_view, peak_results, rebuild,
    reconstruct_subtree_root,
};
use crate::storage::{
    Storage, metas_listed, copy_epochs, lemma_lookup_absent, lemma_lookup_found, lemma_lookup_found_some, lemma_lookup_some_index,
    lemma_lookup_parallel, lemma_lookup_push, lemma_lookup_update, lookup,
};
use crate::consistency::{inputs_ok, opt_view, path_consistency_roots};
use crate::mountain::{MountainConsistencyProof, bag_path_spec, bag_root, consistency_roots};
use crate::proofs::{
    ConsistencyProof, InclusionProof, ProofStep, lemma_merge_steps_fold,
    lemma_path_root_append, merge_frontier_paths, merge_steps, path_root, step_view, steps_view,
    with_child,
};
use crate::topology::{
    aligned, checked_pow, find_peak, lemma_first_peak, peak_holds, peak_of, coords_view, copy_coords, frontier_for_size, frontier_spec,
    lemma_aligned_add, lemma_aligned_child, lemma_aligned_lower, lemma_frontier_aligned,
    lemma_frontier_covers, lemma_frontier_within, lemma_pow_positive, lemma_pow_succ,
    lemma_pow_u64_height, pow, trailing_count, carry_state, lemma_carry_step, lemma_carry_done, lemma_carry_start,
};

verus! {

/// The most log-level appends a log accepts.
pub const MAX_COUNT: u64 = 0x8000_0000_0000;

/// Log error, parameterised by the storage backend's error type.
#[derive(Debug, Clone, PartialEq, Eq)]
pub enum Error<E> {
    /// An error wrapper around the storage backend's error type.
    Storage(E),
    /// Algorithm not found.
    UnknownAlgorithm(u64),
    /// Algorithm already registered.
    DuplicateAlgorithm(u64),
    /// Algorithm is frozen (deactivated) and cannot be modified.
    FrozenAlgorithm(u64),
    /// Algorithm is active and cannot be resumed.
    AlgorithmActive(u64),
    /// No algorithms are active.
    NoActiveAlgorithms,
    /// Index out of bounds.
    IndexOutOfBounds {
        /// The requested index.
        index: u64,
        /// The algorithm's tree size.
        tree_size: u64,
    },
    /// Persisted metadata does not match provided hashers on restore.
    OrphanedMetadata(u64),
    /// Provided hasher has no matching persisted metadata on restore.
    UnknownMetadata(u64),
    /// Persistent metadata is corrupted.
    CorruptedMetadata {
        /// The algorithm ID.
        alg_id: u64,
        /// Description of why it is corrupted.
        reason: String,
    },
    /// The committed epochs are not well formed at the sealed size.
    MalformedSeal,
}

/// Configuration for the n-ary Merkle log.
#[derive(Debug, Clone, Copy, PartialEq, Eq)]
pub struct TreeConfig {
    /// Arity for log-level nodes (`2 <= arity <= 256`); controls the base-k
    /// carry reduction schedule.
    pub arity: u64,
}

impl Default for TreeConfig {
    fn default() -> (c: Self)
        ensures
            c.arity == 2,
    {
        TreeConfig { arity: 2 }
    }
}

/// A registered algorithm: its ID, its single-tree view, and (as ghost
/// state) the cells it has committed when the log built them itself.
pub struct AlgState<H: Hasher> {
    alg_id: u64,
    view: AlgView<H>,
    cells: Ghost<Option<Seq<Seq<u8>>>>,
}

/// An n-ary Merkle append-only log.
pub struct NaryMerkleLog<S: Storage, H: Hasher> {
    storage: S,
    config: TreeConfig,
    algs: Vec<AlgState<H>>,
    /// Total number of log-level appends (leaves for `Flat`, subtrees for
    /// `Subtree`).
    count: u64,
    /// Whether appends are flat leaf or subtree appends.
    kind: LogKind,
}

/// Every cell at a position the epochs do not cover is the null constant.
pub open spec fn cells_fit<H: Hasher>(h: H, epochs: Seq<(u64, u64)>, cells: Seq<Seq<u8>>) -> bool {
    forall|i: int|
        0 <= i < cells.len() && !spec_is_active_at(epochs, i) ==> #[trigger] cells[i]
            == h.spec_null()
}

/// The state of one algorithm is coherent at global size `count`: its epochs
/// are well formed, its frontier has the shape of its tree size, and when
/// its cells are known its frontier holds their peaks.
pub open spec fn alg_ok<H: Hasher>(
    view: AlgView<H>,
    cells: Option<Seq<Seq<u8>>>,
    count: u64,
    k: nat,
) -> bool {
    let n = spec_tree_size(view.epochs@, count);
    &&& spec_epochs_valid(view.epochs@, count)
    &&& view.frontier_shaped(n as nat, k)
    &&& cells matches Some(c) ==> {
        &&& c.len() == n
        &&& view.frontier_matches(c, k)
        &&& cells_fit(view.hasher, view.epochs@, c)
    }
}

/// The digest an append contributes for an algorithm active at its position.
pub open spec fn appended_digest<H: Hasher>(h: H, data: Seq<u8>, subtree: Option<&Subtree>) -> Seq<u8> {
    match subtree {
        Some(t) => spec_evaluate(h, *t),
        None => h.spec_leaf(data),
    }
}

/// The cell an append at `count` adds for an algorithm with `epochs`.
pub open spec fn appended_cell<H: Hasher>(
    h: H,
    epochs: Seq<(u64, u64)>,
    count: u64,
    data: Seq<u8>,
    subtree: Option<&Subtree>,
) -> Seq<u8> {
    if spec_is_active_at(epochs, count as int) {
        appended_digest(h, data, subtree)
    } else {
        h.spec_null()
    }
}

/// The storage key packing `left` above the low 16 bits of `height`.
pub open spec fn key_bits(left: u64, height: u64) -> u64 {
    (left << 16u64) | (height & 0xFFFFu64)
}

/// The storage key of the node at `(left, height)`.
pub open spec fn node_key(left: nat, height: nat) -> u64 {
    key_bits(left as u64, height as u64)
}

/// Node keys are distinct for lefts below `2^48` and heights below `2^16`.
proof fn lemma_key_bits_injective(l1: u64, h1: u64, l2: u64, h2: u64)
    by (bit_vector)
    requires
        l1 < 0x1_0000_0000_0000u64,
        l2 < 0x1_0000_0000_0000u64,
        h1 < 0x10000u64,
        h2 < 0x10000u64,
        key_bits(l1, h1) == key_bits(l2, h2),
    ensures
        l1 == l2,
        h1 == h2,
{
}

/// No node of algorithm `alg_id` is stored.
pub open spec fn clean(nodes: Map<(u64, u64), Seq<u8>>, alg_id: u64) -> bool {
    forall|key: u64| !(#[trigger] nodes.contains_key((alg_id, key)))
}

/// The digest the log reads back for the node at `(left, height)` of
/// algorithm `alg_id` with view `v`: the null constant for a range the
/// epochs do not touch (or one past the `u64` range), else the stored node,
/// or null when none is stored.
pub open spec fn node_value<H: Hasher>(
    nodes: Map<(u64, u64), Seq<u8>>,
    alg_id: u64,
    v: AlgView<H>,
    k: nat,
    left: nat,
    height: nat,
) -> Seq<u8> {
    let cap = pow(k, height);
    if height > u32::MAX || left + cap > u64::MAX || !spec_active_range(
        v.epochs@,
        left as int,
        (left + cap) as int,
    ) {
        v.hasher.spec_null()
    } else {
        let key = node_key(left, height);
        if nodes.contains_key((alg_id, key)) {
            nodes[(alg_id, key)]
        } else {
            v.hasher.spec_null()
        }
    }
}

/// The siblings of child `c` among the `k` children of height `hc` at
/// `left`, read through `vals`.
pub open spec fn siblings_of(vals: spec_fn(nat, nat) -> Seq<u8>, left: nat, hc: nat, c: nat, k: nat) -> Seq<
    Seq<u8>,
> {
    Seq::new(
        (k - 1) as nat,
        |j: int| vals((left + (if j < c { j } else { j + 1 }) * pow(k, hc)) as nat, hc),
    )
}

/// The bisection steps from the node `(left, height)` down to the node of
/// height `th` holding `target`, top step first.
pub open spec fn bisect_down(
    vals: spec_fn(nat, nat) -> Seq<u8>,
    left: nat,
    height: nat,
    target: nat,
    th: nat,
    k: nat,
) -> Seq<(Seq<Seq<u8>>, nat)>
    decreases height,
{
    if height <= th || k < 2 || target < left {
        seq![]
    } else {
        let hc = (height - 1) as nat;
        let p = pow(k, hc);
        let c = ((target - left) as nat / p) as nat;
        seq![(siblings_of(vals, left, hc, c, k), c)] + bisect_down(
            vals,
            left + c * p,
            hc,
            target,
            th,
            k,
        )
    }
}

/// The first algorithm of `metas` whose last epoch is open, with that
/// epoch's start.
pub open spec fn first_open(metas: Seq<(u64, Vec<(u64, u64)>)>) -> Option<(u64, u64)>
    decreases metas.len(),
{
    if metas.len() == 0 {
        None
    } else if metas[0].1@.len() > 0 && metas[0].1@.last().1 == u64::MAX {
        Some((metas[0].0, metas[0].1@.last().0))
    } else {
        first_open(metas.skip(1))
    }
}

/// The largest end among the closed last epochs of `metas` (0 for none).
pub open spec fn max_frozen_end(metas: Seq<(u64, Vec<(u64, u64)>)>) -> u64
    decreases metas.len(),
{
    if metas.len() == 0 {
        0
    } else {
        let rest = max_frozen_end(metas.drop_last());
        let e = metas.last().1@;
        if e.len() > 0 && e.last().1 != u64::MAX && e.last().1 > rest {
            e.last().1
        } else {
            rest
        }
    }
}

/// The first height-0 node of `alg_id` found missing when probing from
/// `high` upward by doubling (from 0 to 1), or the largest `u64` when
/// doubling would leave the `u64` range first.
pub open spec fn probe_up(nodes: Map<(u64, u64), Seq<u8>>, alg_id: u64, high: u64) -> u64
    decreases u64::MAX - high,
{
    if !nodes.contains_key((alg_id, key_bits(high, 0))) {
        high
    } else if high == 0 {
        probe_up(nodes, alg_id, 1)
    } else if high > u64::MAX / 2 {
        u64::MAX
    } else {
        probe_up(nodes, alg_id, (high * 2) as u64)
    }
}

/// Bisecting `[low, high)`: the boundary the search finds, moving right of
/// a present height-0 node of `alg_id` at the midpoint and left of a
/// missing one.
pub open spec fn probe_down(nodes: Map<(u64, u64), Seq<u8>>, alg_id: u64, low: u64, high: u64) -> u64
    decreases high - low,
{
    if low >= high {
        low
    } else {
        let mid = (low + (high - low) / 2) as u64;
        if nodes.contains_key((alg_id, key_bits(mid, 0))) {
            probe_down(nodes, alg_id, (mid + 1) as u64, high)
        } else {
            probe_down(nodes, alg_id, low, mid)
        }
    }
}

/// The size the store's probe finds: the leaf count when leaves are stored;
/// else, with no open epoch, the latest closed end; else the boundary of the
/// first open algorithm's height-0 nodes found by doubling from its open
/// epoch's start, then bisecting.
pub open spec fn probed_size(
    leaves: Seq<Seq<u8>>,
    nodes: Map<(u64, u64), Seq<u8>>,
    metas: Seq<(u64, Vec<(u64, u64)>)>,
) -> nat {
    if leaves.len() > 0 {
        leaves.len()
    } else {
        match first_open(metas) {
            None => max_frozen_end(metas) as nat,
            Some((id, start)) => probe_down(nodes, id, start, probe_up(nodes, id, start)) as nat,
        }
    }
}

/// `n` is the size the store admits: the size its probe finds
/// (`probed_size`), which is the leaf count when leaves are stored; else,
/// with no open epoch, the latest closed end; else a boundary of the first
/// open algorithm's height-0 nodes at or after its open epoch's start (the
/// node just below present or `n` the start, the node at `n` absent or `n`
/// the largest `u64`).
pub open spec fn size_admitted(
    leaves: Seq<Seq<u8>>,
    nodes: Map<(u64, u64), Seq<u8>>,
    metas: Seq<(u64, Vec<(u64, u64)>)>,
    n: u64,
) -> bool {
    &&& n == probed_size(leaves, nodes, metas)
    &&& size_bounds(leaves, nodes, metas, n)
}

/// Where a size the store admits stands: the leaf count when leaves are
/// stored; else, with no open epoch, the latest closed end; else between a
/// present and a missing height-0 node of the first open algorithm, at or
/// after its open epoch's start.
pub open spec fn size_bounds(
    leaves: Seq<Seq<u8>>,
    nodes: Map<(u64, u64), Seq<u8>>,
    metas: Seq<(u64, Vec<(u64, u64)>)>,
    n: u64,
) -> bool {
    if leaves.len() > 0 {
        n == leaves.len()
    } else {
        match first_open(metas) {
            None => n == max_frozen_end(metas),
            Some((id, start)) => {
                &&& start <= n
                &&& (n == start || nodes.contains_key((id, key_bits((n - 1) as u64, 0))))
                &&& (n == u64::MAX || !nodes.contains_key((id, key_bits(n, 0))))
            },
        }
    }
}

/// The frontier an algorithm reads back from the store at tree size `n`:
/// null for a subtree its epochs do not touch, else the stored node.
pub open spec fn loaded_frontier<H: Hasher>(
    h: H,
    nodes: Map<(u64, u64), Seq<u8>>,
    alg_id: u64,
    e: Seq<(u64, u64)>,
    n: nat,
    k: nat,
) -> Seq<Option<Seq<u8>>> {
    frontier_spec(n, k).map_values(
        |c: (nat, nat)|
            if !spec_active_range(e, c.0 as int, (c.0 + pow(k, c.1)) as int) {
                Some(h.spec_null())
            } else if nodes.contains_key((alg_id, node_key(c.0, c.1))) {
                Some(nodes[(alg_id, node_key(c.0, c.1))])
            } else {
                None
            },
    )
}

impl<S: Storage, H: Hasher> NaryMerkleLog<S, H> {
    /// The registered algorithm IDs, in registration order.
    pub closed spec fn spec_ids(&self) -> Seq<u64> {
        self.algs@.map_values(|a: AlgState<H>| a.alg_id)
    }

    /// The view of algorithm `alg_id`, if registered.
    pub closed spec fn spec_alg(&self, alg_id: u64) -> Option<AlgView<H>> {
        lookup(views_seq(self.algs@), alg_id)
    }

    /// The cells algorithm `alg_id` has committed, when the log built them
    /// itself (`None` for an unregistered algorithm or one whose history was
    /// read back from storage).
    pub closed spec fn spec_cells(&self, alg_id: u64) -> Option<Seq<Seq<u8>>> {
        match lookup(cells_seq(self.algs@), alg_id) {
            Some(c) => c,
            None => None,
        }
    }

    /// Total number of log-level appends.
    pub closed spec fn spec_count(&self) -> u64 {
        self.count
    }

    /// The log kind.
    pub closed spec fn spec_kind(&self) -> LogKind {
        self.kind
    }

    /// The configured arity.
    pub closed spec fn spec_arity(&self) -> u64 {
        self.config.arity
    }

    /// The storage backend.
    pub closed spec fn spec_storage(&self) -> S {
        self.storage
    }

    /// The log's invariant: a supported arity, a count within capacity,
    /// distinct algorithm IDs, and each algorithm coherent at the count.
    pub closed spec fn wf(&self) -> bool {
        &&& 2 <= self.config.arity <= 256
        &&& self.count <= MAX_COUNT
        &&& forall|i: int, j: int|
            0 <= i < j < self.algs@.len() ==> self.algs@[i].alg_id != self.algs@[j].alg_id
        &&& forall|i: int|
            0 <= i < self.algs@.len() ==> alg_ok(
                #[trigger] self.algs@[i].view,
                self.algs@[i].cells@,
                self.count,
                self.config.arity as nat,
            )
        &&& forall|i: int|
            0 <= i < self.algs@.len() ==> ((#[trigger] self.algs@[i]).cells@ matches Some(c) ==> nodes_ok(
                self.storage.spec_nodes(),
                self.algs@[i].alg_id,
                self.algs@[i].view,
                c,
                self.config.arity as nat,
            ))
    }
}

/// The node values a log reads for algorithm `alg_id` with view `v`.
pub open spec fn vals_of<H: Hasher>(
    nodes: Map<(u64, u64), Seq<u8>>,
    alg_id: u64,
    v: AlgView<H>,
    k: nat,
) -> spec_fn(nat, nat) -> Seq<u8> {
    |l: nat, ht: nat| node_value(nodes, alg_id, v, k, l, ht)
}

/// The stored nodes of algorithm `alg_id` agree with its cells: each aligned
/// subtree within the cells reads back as its perfect digest, and no aligned
/// subtree past them (within capacity) is stored.
pub open spec fn nodes_ok<H: Hasher>(
    nodes: Map<(u64, u64), Seq<u8>>,
    alg_id: u64,
    v: AlgView<H>,
    cells: Seq<Seq<u8>>,
    k: nat,
) -> bool {
    &&& vals_agree(v.hasher, vals_of(nodes, alg_id, v, k), cells, cells.len(), k)
    &&& forall|l: nat, ht: nat|
        aligned(l, ht, k) && cells.len() < l + pow(k, ht) <= MAX_COUNT ==> !nodes.contains_key(
            (alg_id, #[trigger] node_key(l, ht)),
        )
}

/// The `(alg_id, view)` pairs of a list of states.
spec fn views_seq<H: Hasher>(algs: Seq<AlgState<H>>) -> Seq<(u64, AlgView<H>)> {
    algs.map_values(|a: AlgState<H>| (a.alg_id, a.view))
}

/// The `(alg_id, cells)` pairs of a list of states.
spec fn cells_seq<H: Hasher>(algs: Seq<AlgState<H>>) -> Seq<(u64, Option<Seq<Seq<u8>>>)> {
    algs.map_values(|a: AlgState<H>| (a.alg_id, a.cells@))
}

/// `count` null cells.
pub open spec fn null_cells<H: Hasher>(h: H, count: nat) -> Seq<Seq<u8>> {
    Seq::new(count, |i: int| h.spec_null())
}

/// A log of null cells has null peaks.
proof fn lemma_null_peaks<H: Hasher>(h: H, count: nat, k: nat)
    requires
        k >= 2,
    ensures
        peaks(h, null_cells(h, count), k) == Seq::new(
            frontier_spec(count, k).len(),
            |i: int| h.spec_null(),
        ),
{
    let c = null_cells(h, count);
    let fs = frontier_spec(count, k);
    lemma_frontier_within(count, k, 0);
    assert forall|i: int| 0 <= i < fs.len() implies #[trigger] perfect(h, c, fs[i].0, fs[i].1, k)
        == h.spec_null() by {
        lemma_perfect_null(h, c, fs[i].0, fs[i].1, k);
    }
    assert(peaks(h, c, k) =~= Seq::new(fs.len(), |i: int| h.spec_null()));
}

/// Probe the store for the log's size: the leaf count when leaves are
/// stored; else, with no open epoch, the latest closed end; else a boundary
/// of the first open algorithm's height-0 nodes, found by doubling and then
/// bisecting from its open epoch's start.
fn determine_global_size<S: Storage>(storage: &S, metas: &Vec<(u64, Vec<(u64, u64)>)>) -> (r: Result<
    u64,
    Error<S::Error>,
>)
    ensures
        r matches Ok(n) ==> size_admitted(storage.spec_leaves(), storage.spec_nodes(), metas@, n),
        r matches Err(e) ==> e is Storage,
{
    let leaf_len = storage.len();
    if leaf_len > 0 {
        return Ok(leaf_len);
    }
    let mut max_end: u64 = 0;
    let mut open: Option<(u64, u64)> = None;
    let mut i: usize = 0;
    while i < metas.len()
        invariant
            i <= metas@.len(),
            max_end == max_frozen_end(metas@.take(i as int)),
            open is None ==> first_open(metas@.take(i as int)) is None,
            open matches Some(p) ==> first_open(metas@) == Some(p),
        decreases metas@.len() - i,
    {
        let ghost t = metas@.take(i + 1);
        proof {
            assert(t.drop_last() =~= metas@.take(i as int));
            assert(t.last() == metas@[i as int]);
            lemma_first_open_push(metas@.take(i as int), metas@[i as int]);
            assert(metas@.take(i as int).push(metas@[i as int]) =~= t);
        }
        let n = metas[i].1.len();
        proof {
            let x = metas@[i as int];
            assert(seq![x].skip(1) =~= Seq::<(u64, Vec<(u64, u64)>)>::empty());
            assert(first_open(seq![x].skip(1)) is None);
        }
        if n > 0 {
            let (start, end) = metas[i].1[n - 1];
            if end == u64::MAX {
                if open.is_none() {
                    proof {
                        lemma_first_open_prefix(metas@, i as int);
                    }
                    open = Some((metas[i].0, start));
                }
            } else if end > max_end {
                max_end = end;
            }
        }
        i = i + 1;
    }
    proof {
        assert(metas@.take(metas@.len() as int) =~= metas@);
    }
    let (alg_id, start) = match open {
        None => {
            return Ok(max_end);
        },
        Some(p) => p,
    };
    let low0 = start;
    let mut high = start;
    let ghost nodes = storage.spec_nodes();
    loop
        invariant_except_break
            probe_up(nodes, alg_id, high) == probe_up(nodes, alg_id, start),
        invariant
            low0 == start <= high,
            nodes == storage.spec_nodes(),
        ensures
            low0 <= high,
            high == u64::MAX || !storage.spec_nodes().contains_key((alg_id, key_bits(high, 0))),
            high == probe_up(nodes, alg_id, start),
        decreases u64::MAX - high,
    {
        match storage.get_node(alg_id, high << 16) {
            Err(e) => {
                return Err(Error::Storage(e));
            },
            Ok(None) => {
                proof {
                    assert((high << 16) == key_bits(high, 0)) by (bit_vector);
                }
                break;
            },
            Ok(Some(_)) => {
                proof {
                    assert((high << 16) == key_bits(high, 0)) by (bit_vector);
                }
            },
        }
        let ghost was = high;
        if high == 0 {
            high = 1;
        } else {
            match high.checked_mul(2) {
                Some(nh) => {
                    high = nh;
                },
                None => {
                    proof {
                        assert(was > u64::MAX / 2);
                        assert(probe_up(nodes, alg_id, was) == u64::MAX);
                    }
                    high = u64::MAX;
                    break;
                },
            }
        }
    }
    let mut low = low0;
    let mut size = low;
    let ghost high0 = high;
    while low < high
        invariant
            start <= low <= high,
            size == low,
            nodes == storage.spec_nodes(),
            probe_down(nodes, alg_id, low, high) == probe_down(nodes, alg_id, start, high0),
            high0 == probe_up(nodes, alg_id, start),
            low == start || storage.spec_nodes().contains_key((alg_id, key_bits((low - 1) as u64, 0))),
            high == u64::MAX || !storage.spec_nodes().contains_key((alg_id, key_bits(high, 0))),
        decreases high - low,
    {
        let mid = low + (high - low) / 2;
        match storage.get_node(alg_id, mid << 16) {
            Err(e) => {
                return Err(Error::Storage(e));
            },
            Ok(found) => {
                proof {
                    assert((mid << 16) == key_bits(mid, 0)) by (bit_vector);
                }
                if found.is_some() {
                    size = mid + 1;
                    low = mid + 1;
                } else {
                    high = mid;
                }
            },
        }
    }
    Ok(size)
}

/// The first open algorithm of a list extended by one entry.
proof fn lemma_first_open_push(v: Seq<(u64, Vec<(u64, u64)>)>, x: (u64, Vec<(u64, u64)>))
    ensures
        first_open(v.push(x)) == match first_open(v) {
            Some(p) => Some(p),
            None => first_open(seq![x]),
        },
    decreases v.len(),
{
    if v.len() > 0 {
        assert(v.push(x).skip(1) =~= v.skip(1).push(x));
        lemma_first_open_push(v.skip(1), x);
    } else {
        assert(v.push(x) =~= seq![x]);
    }
}

/// When the first `i` entries have no open algorithm and entry `i` is open,
/// entry `i` is the first open one.
proof fn lemma_first_open_prefix(v: Seq<(u64, Vec<(u64, u64)>)>, i: int)
    requires
        0 <= i < v.len(),
        first_open(v.take(i)) is None,
        v[i].1@.len() > 0 && v[i].1@.last().1 == u64::MAX,
    ensures
        first_open(v) == Some((v[i].0, v[i].1@.last().0)),
    decreases i,
{
    if i > 0 {
        assert(v.take(i).skip(1) =~= v.skip(1).take(i - 1));
        assert(v.take(i)[0] == v[0]);
        lemma_first_open_prefix(v.skip(1), i - 1);
    }
}

/// Some frontier subtree of a tree of `n` cells that the epochs `e` touch
/// has no node of algorithm `alg_id` stored.
pub open spec fn frontier_missing(
    nodes: Map<(u64, u64), Seq<u8>>,
    alg_id: u64,
    e: Seq<(u64, u64)>,
    n: nat,
    k: nat,
) -> bool {
    exists|i: int|
        0 <= i < frontier_spec(n, k).len() && {
            let c = #[trigger] frontier_spec(n, k)[i];
            &&& spec_active_range(e, c.0 as int, (c.0 + pow(k, c.1)) as int)
            &&& !nodes.contains_key((alg_id, node_key(c.0, c.1)))
        }
}

/// Read an algorithm's state back from the store at global size
/// `global_size`: its epochs validated, its frontier at its tree size read
/// from the stored nodes (null where its epochs do not reach).
fn load_alg<S: Storage, H: Hasher>(
    storage: &S,
    alg_id: u64,
    hasher: H,
    epochs: Vec<(u64, u64)>,
    global_size: u64,
    k: u64,
) -> (r: Result<AlgState<H>, Error<S::Error>>)
    requires
        2 <= k <= 256,
    ensures
        r matches Ok(st) ==> {
            let n = spec_tree_size(epochs@, global_size) as nat;
            &&& st.alg_id == alg_id
            &&& st.view.hasher == hasher
            &&& st.view.epochs@ == epochs@
            &&& st.cells@ is None
            &&& alg_ok(st.view, None, global_size, k as nat)
            &&& forall|i: int|
                0 <= i < st.view.frontier@.len() ==> #[trigger] loaded_frontier(
                    hasher,
                    storage.spec_nodes(),
                    alg_id,
                    epochs@,
                    n,
                    k as nat,
                )[i] == Some(st.view.frontier@[i]@)
        },
        !spec_epochs_valid(epochs@, global_size) ==> (r matches Err(Error::CorruptedMetadata { alg_id: a, reason })
            && a == alg_id && epochs_reason(epochs@, global_size) == Some(reason@)),
        r matches Err(e) ==> (e is Storage || (e matches Error::CorruptedMetadata { alg_id: a, .. } && a == alg_id)),
        r matches Err(Error::CorruptedMetadata { .. }) ==> !spec_epochs_valid(epochs@, global_size) || frontier_missing(
            storage.spec_nodes(),
            alg_id,
            epochs@,
            spec_tree_size(epochs@, global_size) as nat,
            k as nat,
        ),
{
    match validate_epochs::<S::Error>(alg_id, epochs.as_slice(), global_size) {
        Err(e) => {
            let reason = match e {
                crate::engine::Error::Corrupted { reason, .. } => reason,
                crate::engine::Error::Read(_) => {
                    proof {
                        assert(false);
                    }
                    "invalid epoch sequence".to_owned()
                },
            };
            return Err(Error::CorruptedMetadata { alg_id, reason });
        },
        Ok(()) => {},
    }
    let last = epochs[epochs.len() - 1];
    let tree_size = if last.1 == u64::MAX {
        global_size
    } else {
        last.1
    };
    let coords = frontier_for_size(tree_size, k);
    let ghost n = tree_size as nat;
    let ghost fs = frontier_spec(n, k as nat);
    let ghost lf = loaded_frontier(hasher, storage.spec_nodes(), alg_id, epochs@, n, k as nat);
    proof {
        lemma_frontier_within(n, k as nat, 0);
        assert(tree_size == spec_tree_size(epochs@, global_size));
    }
    let mut frontier: Vec<Vec<u8>> = Vec::new();
    let mut i: usize = 0;
    while i < coords.len()
        invariant
            2 <= k <= 256,
            coords_view(coords@) == fs,
            fs == frontier_spec(n, k as nat),
            n == tree_size,
            n == spec_tree_size(epochs@, global_size) as nat,
            lf == loaded_frontier(hasher, storage.spec_nodes(), alg_id, epochs@, n, k as nat),
            spec_epochs_valid(epochs@, global_size),
            forall|t: int| 0 <= t < fs.len() ==> #[trigger] fs[t].0 + pow(k as nat, fs[t].1) <= n,
            i <= coords@.len(),
            frontier@.len() == i,
            forall|t: int| 0 <= t < i ==> #[trigger] lf[t] == Some(frontier@[t]@),
        decreases coords@.len() - i,
    {
        let (left, height) = coords[i];
        proof {
            assert(fs[i as int] == (left as nat, height as nat));
        }
        let cap = match checked_pow(k, height) {
            Some(c) => c,
            None => {
                proof {
                    assert(false);
                }
                0
            },
        };
        let hash = if !crate::engine::epochs_active_range(&epochs, left, left + cap) {
            hasher.null()
        } else {
            let key = (left << 16) | (height as u64 & 0xFFFF);
            match storage.get_node(alg_id, key) {
                Err(e) => {
                    return Err(Error::Storage(e));
                },
                Ok(None) => {
                    proof {
                        assert(lf[i as int] is None);
                        let c = frontier_spec(n, k as nat)[i as int];
                        assert(c == (left as nat, height as nat));
                        assert(spec_active_range(epochs@, c.0 as int, (c.0 + pow(k as nat, c.1)) as int));
                        assert(!storage.spec_nodes().contains_key((alg_id, node_key(c.0, c.1))));
                        assert(frontier_missing(storage.spec_nodes(), alg_id, epochs@, n, k as nat));
                    }
                    return Err(
                        Error::CorruptedMetadata {
                            alg_id,
                            reason: "missing frontier node".to_owned(),
                        },
                    );
                },
                Ok(Some(h)) => h,
            }
        };
        proof {
            assert(lf[i as int] == Some(hash@));
        }
        frontier.push(hash);
        i = i + 1;
    }
    let st = AlgState {
        alg_id,
        view: AlgView { hasher, epochs, frontier, frontier_coords: coords },
        cells: Ghost(None),
    };
    Ok(st)
}

/// `e` lists one of the first `t` algorithms with its epochs as they stood
/// at `size`.
pub closed spec fn entry_from<H: Hasher>(
    algs: Seq<AlgState<H>>,
    t: int,
    size: u64,
    e: (u64, Vec<(u64, u64)>),
) -> bool {
    exists|q: int|
        0 <= q < t && algs[q].alg_id == e.0 && spec_epochs_at(algs[q].view.epochs@, size) == Some(e.1@)
}

/// The hasher of the last entry of `s` with ID `id`, if any: a later entry
/// for an ID replaces an earlier one.
pub open spec fn last_hasher<H>(s: Seq<(u64, H)>, id: u64) -> Option<H>
    decreases s.len(),
{
    if s.len() == 0 {
        None
    } else if s.last().0 == id {
        Some(s.last().1)
    } else {
        last_hasher(s.drop_last(), id)
    }
}

/// The entry at `i` with ID `id`, after which no entry has that ID, gives
/// the last hasher for it.
proof fn lemma_last_hasher_at<H>(s: Seq<(u64, H)>, id: u64, i: int)
    requires
        0 <= i < s.len(),
        s[i].0 == id,
        forall|j: int| i < j < s.len() ==> s[j].0 != id,
    ensures
        last_hasher(s, id) == Some(s[i].1),
    decreases s.len(),
{
    if i < s.len() - 1 {
        lemma_last_hasher_at(s.drop_last(), id, i);
    }
}

/// Removing an entry leaves the last hasher of every other ID unchanged.
proof fn lemma_last_hasher_remove<H>(s: Seq<(u64, H)>, idx: int, id: u64)
    requires
        0 <= idx < s.len(),
        s[idx].0 != id,
    ensures
        last_hasher(s.remove(idx), id) == last_hasher(s, id),
    decreases s.len(),
{
    let r = s.remove(idx);
    if idx == s.len() - 1 {
        assert(r =~= s.drop_last());
    } else {
        assert(r.last() == s.last());
        assert(r.drop_last() =~= s.drop_last().remove(idx));
        lemma_last_hasher_remove(s.drop_last(), idx, id);
    }
}

/// Some entry of `s` has ID `id`.
pub open spec fn has_id<H>(s: Seq<(u64, H)>, id: u64) -> bool {
    exists|j: int| 0 <= j < s.len() && s[j].0 == id
}

/// Why a store is refused as corrupt under algorithm ID `a` at arity `k`:
/// the arity is unsupported (`a` 0); or, at a size the store admits, that
/// size is past the log's capacity (`a` 0), or the epochs stored for `a`
/// are ill formed, or a frontier node they need is missing.
pub open spec fn corrupt_store(
    leaves: Seq<Seq<u8>>,
    nodes: Map<(u64, u64), Seq<u8>>,
    metas: Map<u64, Seq<(u64, u64)>>,
    k: u64,
    a: u64,
) -> bool {
    ||| a == 0 && (k < 2 || k > 256)
    ||| exists|v: Seq<(u64, Vec<(u64, u64)>)>, n: u64|
        #[trigger] size_admitted(leaves, nodes, v, n) && metas_listed(v, metas) && ((a == 0 && n > MAX_COUNT) || (
        metas.contains_key(a) && (!spec_epochs_valid(metas[a], n) || frontier_missing(
            nodes,
            a,
            metas[a],
            spec_tree_size(metas[a], n) as nat,
            k as nat,
        ))))
}

/// The index of the last entry of `hashers` with ID `id`, if any.
fn last_with<H>(hashers: &Vec<(u64, H)>, id: u64) -> (r: Option<usize>)
    ensures
        r matches Some(i) ==> i < hashers@.len() && hashers@[i as int].0 == id && last_hasher(hashers@, id)
            == Some(hashers@[i as int].1),
        r is None ==> forall|j: int| 0 <= j < hashers@.len() ==> hashers@[j].0 != id,
{
    let mut i = hashers.len();
    while i > 0
        invariant
            i <= hashers@.len(),
            forall|j: int| i <= j < hashers@.len() ==> hashers@[j].0 != id,
        decreases i,
    {
        i = i - 1;
        if hashers[i].0 == id {
            proof {
                lemma_last_hasher_at(hashers@, id, i as int);
            }
            return Some(i);
        }
    }
    None
}

/// Whether some entry of `metas` has ID `id`.
fn meta_has(metas: &Vec<(u64, Vec<(u64, u64)>)>, id: u64) -> (b: bool)
    ensures
        b == exists|j: int| 0 <= j < metas@.len() && metas@[j].0 == id,
{
    let mut i: usize = 0;
    while i < metas.len()
        invariant
            i <= metas@.len(),
            forall|j: int| 0 <= j < i ==> metas@[j].0 != id,
        decreases metas@.len() - i,
    {
        if metas[i].0 == id {
            return true;
        }
        i = i + 1;
    }
    false
}

impl<S: Storage, H: Hasher> NaryMerkleLog<S, H> {
    /// Position of algorithm `alg_id` in the registration list, if any.
    fn find(&self, alg_id: u64) -> (pos: Option<usize>)
        ensures
            match pos {
                Some(i) => {
                    &&& i < self.algs@.len()
                    &&& self.algs@[i as int].alg_id == alg_id
                    &&& self.spec_alg(alg_id) == Some(self.algs@[i as int].view)
                    &&& self.spec_cells(alg_id) == self.algs@[i as int].cells@
                    &&& forall|j: int| 0 <= j < i ==> self.algs@[j].alg_id != alg_id
                },
                None => {
                    &&& self.spec_alg(alg_id) is None
                    &&& self.spec_cells(alg_id) is None
                    &&& forall|j: int| 0 <= j < self.algs@.len() ==> self.algs@[j].alg_id != alg_id
                },
            },
    {
        let ghost vs = views_seq(self.algs@);
        let ghost cs = cells_seq(self.algs@);
        let mut i: usize = 0;
        while i < self.algs.len()
            invariant
                vs == views_seq(self.algs@),
                cs == cells_seq(self.algs@),
                i <= self.algs@.len(),
                forall|j: int| 0 <= j < i ==> self.algs@[j].alg_id != alg_id,
            decreases self.algs@.len() - i,
        {
            if self.algs[i].alg_id == alg_id {
                proof {
                    assert forall|j: int| 0 <= j < i implies vs[j].0 != alg_id by {
                        assert(vs[j].0 == self.algs@[j].alg_id);
                    }
                    assert forall|j: int| 0 <= j < i implies cs[j].0 != alg_id by {
                        assert(cs[j].0 == self.algs@[j].alg_id);
                    }
                    lemma_lookup_found(vs, i as int, alg_id);
                    lemma_lookup_found(cs, i as int, alg_id);
                }
                return Some(i);
            }
            i = i + 1;
        }
        proof {
            assert forall|j: int| 0 <= j < vs.len() implies vs[j].0 != alg_id by {
                assert(vs[j].0 == self.algs@[j].alg_id);
            }
            assert forall|j: int| 0 <= j < cs.len() implies cs[j].0 != alg_id by {
                assert(cs[j].0 == self.algs@[j].alg_id);
            }
            lemma_lookup_absent(vs, alg_id);
            lemma_lookup_absent(cs, alg_id);
        }
        None
    }

    /// Create a new empty log over `storage`, registering algorithm 0 as
    /// active from index 0.
    ///
    /// Fails with `CorruptedMetadata` for an arity outside `2..=256`, and with
    /// the storage error if the algorithm's metadata cannot be persisted.
    pub fn new(storage: S, hasher: H, config: TreeConfig) -> (r: Result<Self, Error<S::Error>>)
        ensures
            (config.arity < 2 || config.arity > 256) ==> r matches Err(
                Error::CorruptedMetadata { alg_id: 0, .. },
            ),
            r matches Err(e) ==> (config.arity < 2 || config.arity > 256) || e is Storage,
            r matches Ok(log) ==> {
                &&& log.wf()
                &&& log.spec_count() == 0
                &&& log.spec_kind() == LogKind::Flat
                &&& log.spec_arity() == config.arity
                &&& log.spec_ids() == seq![0u64]
                &&& log.spec_alg(0) matches Some(v) && v.hasher == hasher && v.epochs@ == seq![
                    (0u64, u64::MAX),
                ] && v.frontier@.len() == 0
                &&& log.spec_cells(0) == if clean(storage.spec_nodes(), 0) {
                    Some(Seq::<Seq<u8>>::empty())
                } else {
                    None
                }
                &&& log.spec_storage().spec_leaves() == storage.spec_leaves()
                &&& log.spec_storage().spec_nodes() == storage.spec_nodes()
                &&& log.spec_storage().spec_metas() == storage.spec_metas().insert(
                    0,
                    seq![(0u64, u64::MAX)],
                )
            },
    {
        if config.arity < 2 || config.arity > 256 {
            return Err(
                Error::CorruptedMetadata {
                    alg_id: 0,
                    reason: "invalid log_arity: must be between 2 and 256".to_owned(),
                },
            );
        }
        let mut log = NaryMerkleLog {
            storage,
            config,
            algs: Vec::new(),
            count: 0,
            kind: LogKind::Flat,
        };
        proof {
            assert(log.wf());
            lemma_lookup_absent(views_seq(log.algs@), 0);
        }
        match log.add_algorithm(0, hasher) {
            Ok(()) => {},
            Err(e) => {
                return Err(e);
            },
        }
        proof {
            assert(log.spec_ids() =~= seq![0u64]);
            assert(null_cells(hasher, 0) =~= Seq::<Seq<u8>>::empty());
        }
        Ok(log)
    }

    /// Reopen a log from its store with configuration `config`, given a
    /// hasher for each persisted algorithm.
    ///
    /// Fails with `CorruptedMetadata` (algorithm 0) for an arity outside
    /// `2..=256` or a probed size past the log's capacity; with
    /// `OrphanedMetadata` for a persisted algorithm that has no hasher; with
    /// `UnknownMetadata` for a hasher whose algorithm was never persisted;
    /// with `CorruptedMetadata` for an algorithm whose epochs are malformed or
    /// whose frontier node is missing; and with the storage error when a read
    /// fails. On success every persisted algorithm is registered, in the
    /// store's listing order, with its epochs and the frontier read back at
    /// its tree size; the count is the size the store's probe finds for the
    /// listed metadata (`probed_size`), and the kind is
    /// flat exactly when leaves are stored.
    #[verifier::rlimit(80)]
    pub fn from_storage_with_config(storage: S, hashers: Vec<(u64, H)>, config: TreeConfig) -> (r: Result<
        Self,
        Error<S::Error>,
    >)
        ensures
            (config.arity < 2 || config.arity > 256) ==> r matches Err(
                Error::CorruptedMetadata { alg_id: 0, .. },
            ),
            r matches Err(Error::CorruptedMetadata { alg_id: a, .. }) ==> corrupt_store(
                storage.spec_leaves(),
                storage.spec_nodes(),
                storage.spec_metas(),
                config.arity,
                a,
            ),
            r matches Err(Error::OrphanedMetadata(id)) ==> storage.spec_metas().contains_key(id) && forall|j: int|
                0 <= j < hashers@.len() ==> hashers@[j].0 != id,
            r matches Err(Error::UnknownMetadata(id)) ==> !storage.spec_metas().contains_key(id) && exists|j: int|
                0 <= j < hashers@.len() && hashers@[j].0 == id,
            (exists|id: u64| #[trigger] storage.spec_metas().contains_key(id) && forall|j: int|
                0 <= j < hashers@.len() ==> hashers@[j].0 != id) ==> r is Err,
            (exists|j: int| 0 <= j < hashers@.len() && !storage.spec_metas().contains_key(#[trigger] hashers@[j].0))
                ==> r is Err,
            r matches Err(e) ==> e is Storage || e is CorruptedMetadata || e is OrphanedMetadata || e is UnknownMetadata,
            r matches Ok(log) ==> {
                let k = config.arity as nat;
                &&& log.wf()
                &&& log.spec_arity() == config.arity
                &&& log.spec_storage() == storage
                &&& log.spec_kind() == (if storage.spec_leaves().len() > 0 {
                    LogKind::Flat
                } else {
                    LogKind::Subtree
                })
                &&& exists|v: Seq<(u64, Vec<(u64, u64)>)>|
                    metas_listed(v, storage.spec_metas()) && #[trigger] size_admitted(
                        storage.spec_leaves(),
                        storage.spec_nodes(),
                        v,
                        log.spec_count(),
                    )
                &&& forall|id: u64| #[trigger] log.spec_cells(id) is None
                &&& forall|id: u64|
                    (#[trigger] log.spec_alg(id) is Some) == storage.spec_metas().contains_key(id)
                &&& forall|id: u64|
                    (#[trigger] log.spec_alg(id)) matches Some(v) ==> {
                        &&& v.epochs@ == storage.spec_metas()[id]
                        &&& last_hasher(hashers@, id) == Some(v.hasher)
                        &&& forall|i: int|
                            0 <= i < v.frontier@.len() ==> #[trigger] loaded_frontier(
                                v.hasher,
                                storage.spec_nodes(),
                                id,
                                v.epochs@,
                                spec_tree_size(v.epochs@, log.spec_count()) as nat,
                                k,
                            )[i] == Some(v.frontier@[i]@)
                    }
            },
    {
        if config.arity < 2 || config.arity > 256 {
            return Err(
                Error::CorruptedMetadata {
                    alg_id: 0,
                    reason: "invalid log_arity: must be between 2 and 256".to_owned(),
                },
            );
        }
        let metas = match storage.load_algorithm_metas() {
            Ok(m) => m,
            Err(e) => {
                return Err(Error::Storage(e));
            },
        };
        let ghost mv = storage.spec_metas();
        let ghost orig = hashers@;
        let mut i: usize = 0;
        while i < metas.len()
            invariant
                2 <= config.arity <= 256,
                mv == storage.spec_metas(),
                metas_listed(metas@, mv),
                orig == hashers@,
                i <= metas@.len(),
                forall|t: int| 0 <= t < i ==> exists|j: int| 0 <= j < orig.len() && orig[j].0 == #[trigger] metas@[t].0,
            decreases metas@.len() - i,
        {
            let id = metas[i].0;
            if last_with(&hashers, id).is_none() {
                proof {
                    assert(mv.contains_key(metas@[i as int].0));
                }
                return Err(Error::OrphanedMetadata(id));
            }
            i = i + 1;
        }
        proof {
            assert forall|id: u64| #[trigger] mv.contains_key(id) implies exists|j: int| 0 <= j < orig.len() && orig[j].0 == id by {
                let t = choose|t: int| 0 <= t < metas@.len() && metas@[t].0 == id;
                assert(exists|j: int| 0 <= j < orig.len() && orig[j].0 == metas@[t].0);
            }
        }
        let mut i: usize = 0;
        while i < hashers.len()
            invariant
                2 <= config.arity <= 256,
                mv == storage.spec_metas(),
                metas_listed(metas@, mv),
                orig == hashers@,
                i <= hashers@.len(),
                forall|t: int| 0 <= t < i ==> mv.contains_key(#[trigger] orig[t].0),
            decreases hashers@.len() - i,
        {
            let id = hashers[i].0;
            if !meta_has(&metas, id) {
                proof {
                    if mv.contains_key(id) {
                        let t = choose|t: int| 0 <= t < metas@.len() && metas@[t].0 == id;
                        assert(false);
                    }
                }
                return Err(Error::UnknownMetadata(id));
            }
            proof {
                let t = choose|t: int| 0 <= t < metas@.len() && metas@[t].0 == id;
                assert(mv.contains_key(metas@[t].0));
            }
            i = i + 1;
        }
        let global_size = match determine_global_size(&storage, &metas) {
            Ok(n) => n,
            Err(e) => {
                return Err(e);
            },
        };
        if global_size > MAX_COUNT {
            proof {
                assert(size_admitted(storage.spec_leaves(), storage.spec_nodes(), metas@, global_size));
            }
            return Err(
                Error::CorruptedMetadata {
                    alg_id: 0,
                    reason: "log capacity exceeded (max 2^47 items)".to_owned(),
                },
            );
        }
        let kind = if storage.len() > 0 {
            LogKind::Flat
        } else {
            LogKind::Subtree
        };
        let k = config.arity;
        let mut hashers = hashers;
        let mut algs: Vec<AlgState<H>> = Vec::new();
        proof {
            assert forall|t: int| 0 <= t < metas@.len() implies has_id(hashers@, #[trigger] metas@[t].0) by {
                assert(mv.contains_key(metas@[t].0));
            }
        }
        let mut i: usize = 0;
        while i < metas.len()
            invariant
                2 <= k <= 256,
                k == config.arity,
                global_size <= MAX_COUNT,
                size_admitted(storage.spec_leaves(), storage.spec_nodes(), metas@, global_size),
                metas_listed(metas@, mv),
                mv == storage.spec_metas(),
                i <= metas@.len(),
                algs@.len() == i,
                forall|t: int| i <= t < metas@.len() ==> has_id(hashers@, #[trigger] metas@[t].0),
                forall|t: int|
                    i <= t < metas@.len() ==> last_hasher(hashers@, #[trigger] metas@[t].0) == last_hasher(
                        orig,
                        metas@[t].0,
                    ),
                forall|t: int|
                    0 <= t < i ==> {
                        let st = #[trigger] algs@[t];
                        &&& st.alg_id == metas@[t].0
                        &&& st.view.epochs@ == metas@[t].1@
                        &&& st.cells@ is None
                        &&& alg_ok(st.view, None, global_size, k as nat)
                        &&& last_hasher(orig, st.alg_id) == Some(st.view.hasher)
                        &&& forall|q: int|
                            0 <= q < st.view.frontier@.len() ==> #[trigger] loaded_frontier(
                                st.view.hasher,
                                storage.spec_nodes(),
                                st.alg_id,
                                st.view.epochs@,
                                spec_tree_size(st.view.epochs@, global_size) as nat,
                                k as nat,
                            )[q] == Some(st.view.frontier@[q]@)
                    },
            decreases metas@.len() - i,
        {
            let id = metas[i].0;
            let idx = match last_with(&hashers, id) {
                Some(x) => x,
                None => {
                    proof {
                        assert(has_id(hashers@, metas@[i as int].0));
                        let j = choose|j: int| 0 <= j < hashers@.len() && hashers@[j].0 == metas@[i as int].0;
                        assert(false);
                    }
                    return Err(Error::OrphanedMetadata(id));
                },
            };
            let ghost before = hashers@;
            let (_, hasher) = hashers.remove(idx);
            proof {
                assert(hashers@ =~= before.remove(idx as int));
                assert forall|t: int| i + 1 <= t < metas@.len() implies last_hasher(
                    hashers@,
                    #[trigger] metas@[t].0,
                ) == last_hasher(orig, metas@[t].0) by {
                    assert(metas@[t].0 != metas@[i as int].0);
                    lemma_last_hasher_remove(before, idx as int, metas@[t].0);
                }
                assert forall|t: int| i + 1 <= t < metas@.len() implies has_id(hashers@, #[trigger] metas@[t].0) by {
                    assert(has_id(before, metas@[t].0));
                    let j = choose|j: int| 0 <= j < before.len() && before[j].0 == metas@[t].0;
                    assert(metas@[t].0 != metas@[i as int].0);
                    assert(j != idx);
                    if j < idx {
                        assert(hashers@[j] == before[j]);
                    } else {
                        assert(hashers@[j - 1] == before[j]);
                    }
                }
                assert(last_hasher(orig, id) == Some(hasher));
            }
            let epochs = copy_epochs(metas[i].1.as_slice());
            let ghost ep = epochs@;
            let st = match load_alg(&storage, id, hasher, epochs, global_size, k) {
                Ok(st) => st,
                Err(e) => {
                    proof {
                        if e is CorruptedMetadata {
                            assert(mv.contains_key(metas@[i as int].0) && mv[metas@[i as int].0] == metas@[i as int].1@);
                            assert(ep == mv[id]);
                            assert(size_admitted(storage.spec_leaves(), storage.spec_nodes(), metas@, global_size));
                        }
                    }
                    return Err(e);
                },
            };
            let ghost before_algs = algs@;
            algs.push(st);
            proof {
                assert forall|t: int| 0 <= t < i + 1 implies #[trigger] algs@[t] == (if t < i {
                    before_algs[t]
                } else {
                    st
                }) by {}
            }
            i = i + 1;
        }
        let log = NaryMerkleLog { storage, config, algs, count: global_size, kind };
        proof {
            let kk = k as nat;
            assert forall|a: int, b: int| 0 <= a < b < log.algs@.len() implies log.algs@[a].alg_id
                != log.algs@[b].alg_id by {
                assert(log.algs@[a].alg_id == metas@[a].0);
                assert(log.algs@[b].alg_id == metas@[b].0);
            }
            assert forall|t: int| 0 <= t < log.algs@.len() implies alg_ok(
                #[trigger] log.algs@[t].view,
                log.algs@[t].cells@,
                log.count,
                kk,
            ) by {
                assert(log.algs@[t].cells@ is None);
            }
            assert(log.wf());
            let vs = views_seq(log.algs@);
            let cs = cells_seq(log.algs@);
            assert forall|id: u64| #[trigger] log.spec_cells(id) is None by {
                assert forall|q: int| 0 <= q < cs.len() implies (#[trigger] cs[q]).1 is None by {
                    assert(log.algs@[q].cells@ is None);
                }
                lemma_lookup_all_none(cs, id);
            }
            assert forall|id: u64|
                (#[trigger] log.spec_alg(id) is Some) == mv.contains_key(id) by {
                if mv.contains_key(id) {
                    let t = choose|t: int| 0 <= t < metas@.len() && metas@[t].0 == id;
                    assert(vs[t].0 == id);
                    lemma_lookup_found_some(vs, t, id);
                } else {
                    assert forall|j: int| 0 <= j < vs.len() implies vs[j].0 != id by {
                        assert(vs[j].0 == metas@[j].0);
                        assert(mv.contains_key(metas@[j].0));
                    }
                    lemma_lookup_absent(vs, id);
                }
            }
            assert forall|id: u64| (#[trigger] log.spec_alg(id)) is Some implies {
                let v = log.spec_alg(id)->0;
                &&& v.epochs@ == mv[id]
                &&& last_hasher(orig, id) == Some(v.hasher)
                &&& forall|q: int|
                    0 <= q < v.frontier@.len() ==> #[trigger] loaded_frontier(
                        v.hasher,
                        storage.spec_nodes(),
                        id,
                        v.epochs@,
                        spec_tree_size(v.epochs@, log.count) as nat,
                        kk,
                    )[q] == Some(v.frontier@[q]@)
            } by {
                let t = lemma_lookup_some_index(vs, id);
                assert forall|j: int| 0 <= j < t implies vs[j].0 != id by {
                    assert(vs[j].0 == metas@[j].0);
                    assert(vs[t].0 == metas@[t].0);
                }
                lemma_lookup_found(vs, t, id);
                assert(log.algs@[t].alg_id == id);
                assert(mv[metas@[t].0] == metas@[t].1@);
            }
            assert(size_admitted(log.storage.spec_leaves(), log.storage.spec_nodes(), metas@, global_size));
            assert(log.spec_arity() == config.arity);
            assert(log.spec_storage() == storage);
            assert(log.spec_count() == global_size);
            assert(log.spec_kind() == kind);
            assert(metas_listed(metas@, storage.spec_metas()));
            assert(forall|id: u64| #[trigger] log.spec_cells(id) is None);
        }
        Ok(log)
    }

    /// Reopen a log from its store with the default configuration (binary
    /// arity); see `from_storage_with_config`.
    pub fn from_storage(storage: S, hashers: Vec<(u64, H)>) -> (r: Result<Self, Error<S::Error>>)
        ensures
            r matches Err(Error::CorruptedMetadata { alg_id: a, .. }) ==> corrupt_store(
                storage.spec_leaves(),
                storage.spec_nodes(),
                storage.spec_metas(),
                2,
                a,
            ),
            r matches Err(Error::OrphanedMetadata(id)) ==> storage.spec_metas().contains_key(id) && forall|j: int|
                0 <= j < hashers@.len() ==> hashers@[j].0 != id,
            r matches Err(Error::UnknownMetadata(id)) ==> !storage.spec_metas().contains_key(id) && exists|j: int|
                0 <= j < hashers@.len() && hashers@[j].0 == id,
            (exists|id: u64| #[trigger] storage.spec_metas().contains_key(id) && forall|j: int|
                0 <= j < hashers@.len() ==> hashers@[j].0 != id) ==> r is Err,
            (exists|j: int| 0 <= j < hashers@.len() && !storage.spec_metas().contains_key(#[trigger] hashers@[j].0))
                ==> r is Err,
            r matches Err(e) ==> e is Storage || e is CorruptedMetadata || e is OrphanedMetadata || e is UnknownMetadata,
            r matches Ok(log) ==> {
                &&& log.wf()
                &&& log.spec_arity() == 2
                &&& log.spec_storage() == storage
                &&& log.spec_kind() == (if storage.spec_leaves().len() > 0 {
                    LogKind::Flat
                } else {
                    LogKind::Subtree
                })
                &&& exists|v: Seq<(u64, Vec<(u64, u64)>)>|
                    metas_listed(v, storage.spec_metas()) && #[trigger] size_admitted(
                        storage.spec_leaves(),
                        storage.spec_nodes(),
                        v,
                        log.spec_count(),
                    )
                &&& forall|id: u64| #[trigger] log.spec_cells(id) is None
                &&& forall|id: u64|
                    (#[trigger] log.spec_alg(id) is Some) == storage.spec_metas().contains_key(id)
                &&& forall|id: u64|
                    (#[trigger] log.spec_alg(id)) matches Some(v) ==> {
                        &&& v.epochs@ == storage.spec_metas()[id]
                        &&& last_hasher(hashers@, id) == Some(v.hasher)
                        &&& forall|i: int|
                            0 <= i < v.frontier@.len() ==> #[trigger] loaded_frontier(
                                v.hasher,
                                storage.spec_nodes(),
                                id,
                                v.epochs@,
                                spec_tree_size(v.epochs@, log.spec_count()) as nat,
                                2,
                            )[i] == Some(v.frontier@[i]@)
                    }
            },
    {
        Self::from_storage_with_config(storage, hashers, TreeConfig { arity: 2 })
    }

    /// Register a new algorithm, activating it at the current log size with a
    /// frontier of null peaks.
    ///
    /// Fails with `DuplicateAlgorithm` exactly when `alg_id` is registered, and
    /// with the storage error if its metadata cannot be persisted; on either
    /// failure the log and what its store holds are unchanged.
    pub fn add_algorithm(&mut self, alg_id: u64, hasher: H) -> (r: Result<(), Error<S::Error>>)
        requires
            old(self).wf(),
        ensures
            final(self).wf(),
            old(self).spec_alg(alg_id) is Some <==> r matches Err(Error::DuplicateAlgorithm(_)),
            r matches Err(Error::DuplicateAlgorithm(id)) ==> id == alg_id,
            r matches Err(e) ==> e is DuplicateAlgorithm || e is Storage,
            r is Err ==> {
                &&& final(self).spec_ids() == old(self).spec_ids()
                &&& final(self).spec_count() == old(self).spec_count()
                &&& final(self).spec_kind() == old(self).spec_kind()
                &&& final(self).spec_arity() == old(self).spec_arity()
                &&& forall|id: u64| final(self).spec_alg(id) == old(self).spec_alg(id)
                    && final(self).spec_cells(id) == old(self).spec_cells(id)
                &&& final(self).spec_storage().spec_leaves() == old(self).spec_storage().spec_leaves()
                &&& final(self).spec_storage().spec_nodes() == old(self).spec_storage().spec_nodes()
                &&& final(self).spec_storage().spec_metas() == old(self).spec_storage().spec_metas()
            },
            r is Ok ==> {
                let n = old(self).spec_count();
                let k = old(self).spec_arity() as nat;
                &&& old(self).spec_alg(alg_id) is None
                &&& final(self).spec_ids() == old(self).spec_ids().push(alg_id)
                &&& final(self).spec_count() == n
                &&& final(self).spec_kind() == old(self).spec_kind()
                &&& final(self).spec_arity() == old(self).spec_arity()
                &&& final(self).spec_alg(alg_id) matches Some(v) && v.hasher == hasher
                    && v.epochs@ == seq![(n, u64::MAX)] && coords_view(v.frontier_coords@)
                    == frontier_spec(n as nat, k) && digests_view(v.frontier@) == Seq::new(
                    frontier_spec(n as nat, k).len(),
                    |i: int| hasher.spec_null(),
                )
                &&& final(self).spec_cells(alg_id) == if clean(old(self).spec_storage().spec_nodes(), alg_id) {
                    Some(null_cells(hasher, n as nat))
                } else {
                    None
                }
                &&& forall|id: u64| id != alg_id ==> final(self).spec_alg(id) == old(self).spec_alg(id)
                    && final(self).spec_cells(id) == old(self).spec_cells(id)
                &&& final(self).spec_storage().spec_leaves() == old(self).spec_storage().spec_leaves()
                &&& final(self).spec_storage().spec_nodes() == old(self).spec_storage().spec_nodes()
                &&& final(self).spec_storage().spec_metas() == old(self).spec_storage().spec_metas().insert(
                    alg_id,
                    seq![(n, u64::MAX)],
                )
            },
    {
        if self.find(alg_id).is_some() {
            return Err(Error::DuplicateAlgorithm(alg_id));
        }
        let current_size = self.count;
        let epochs: Vec<(u64, u64)> = vec![(current_size, u64::MAX)];
        match self.storage.store_algorithm_meta(alg_id, epochs.as_slice()) {
            Ok(()) => {},
            Err(e) => {
                return Err(Error::Storage(e));
            },
        }
        let coords = frontier_for_size(current_size, self.config.arity);
        let mut stack: Vec<Vec<u8>> = Vec::new();
        let ghost nulls = Seq::new(frontier_spec(current_size as nat, self.config.arity as nat).len(), |i: int| hasher.spec_null());
        while stack.len() < coords.len()
            invariant
                stack@.len() <= coords@.len(),
                coords@.len() == nulls.len(),
                nulls == Seq::new(frontier_spec(current_size as nat, self.config.arity as nat).len(), |i: int| hasher.spec_null()),
                coords_view(coords@) == frontier_spec(current_size as nat, self.config.arity as nat),
                digests_view(stack@) == nulls.take(stack@.len() as int),
            decreases coords@.len() - stack@.len(),
        {
            let ghost before = stack@;
            let z = hasher.null();
            stack.push(z);
            proof {
                assert(digests_view(stack@) =~= nulls.take(stack@.len() as int));
            }
        }
        proof {
            assert(nulls.take(nulls.len() as int) =~= nulls);
            assert(epochs@ =~= seq![(current_size, u64::MAX)]);
        }
        let ghost cells = null_cells(hasher, current_size as nat);
        let ghost recorded = if clean(self.storage.spec_nodes(), alg_id) {
            Some(cells)
        } else {
            None
        };
        let state = AlgState {
            alg_id,
            view: AlgView { hasher, epochs, frontier: stack, frontier_coords: coords },
            cells: Ghost(recorded),
        };
        let ghost old_algs = self.algs@;
        self.algs.push(state);
        proof {
            let k = self.config.arity as nat;
            lemma_null_peaks(hasher, current_size as nat, k);
            assert(views_seq(self.algs@) =~= views_seq(old_algs).push((alg_id, state.view)));
            assert(cells_seq(self.algs@) =~= cells_seq(old_algs).push((alg_id, recorded)));
            assert forall|id: u64| true implies lookup(views_seq(self.algs@), id) == (if lookup(
                views_seq(old_algs),
                id,
            ) is Some {
                lookup(views_seq(old_algs), id)
            } else if id == alg_id {
                Some(state.view)
            } else {
                None::<AlgView<H>>
            }) by {
                lemma_lookup_push(views_seq(old_algs), (alg_id, state.view), id);
            }
            assert forall|id: u64| true implies lookup(cells_seq(self.algs@), id) == (if lookup(
                cells_seq(old_algs),
                id,
            ) is Some {
                lookup(cells_seq(old_algs), id)
            } else if id == alg_id {
                Some(recorded)
            } else {
                None::<Option<Seq<Seq<u8>>>>
            }) by {
                lemma_lookup_push(cells_seq(old_algs), (alg_id, recorded), id);
            }
            assert(self.spec_ids() =~= old(self).spec_ids().push(alg_id));
            lemma_lookup_push(cells_seq(old_algs), (alg_id, recorded), alg_id);
            assert forall|j: int| 0 <= j < cells_seq(old_algs).len() implies cells_seq(old_algs)[j].0
                != alg_id by {
                assert(cells_seq(old_algs)[j].0 == old_algs[j].alg_id);
            }
            lemma_lookup_absent(cells_seq(old_algs), alg_id);
            assert(lookup(cells_seq(self.algs@), alg_id) == Some(recorded));
            assert(self.spec_cells(alg_id) == recorded);
            assert(cells_fit(hasher, state.view.epochs@, cells));
            assert(spec_tree_size(state.view.epochs@, current_size) == current_size);
            {
                assert forall|i: int, j: int| 0 <= i < j < self.algs@.len() implies self.algs@[i].alg_id
                    != self.algs@[j].alg_id by {
                    if j == old_algs.len() {
                        assert(self.algs@[i] == old_algs[i]);
                    } else {
                        assert(self.algs@[i] == old_algs[i]);
                        assert(self.algs@[j] == old_algs[j]);
                    }
                }
                assert forall|i: int| 0 <= i < self.algs@.len() implies alg_ok(
                    #[trigger] self.algs@[i].view,
                    self.algs@[i].cells@,
                    self.count,
                    k,
                ) by {
                    if i < old_algs.len() {
                        assert(self.algs@[i] == old_algs[i]);
                    } else {
                        assert(digests_view(state.view.frontier@) == peaks(hasher, cells, k));
                    }
                }
                assert forall|i: int| 0 <= i < self.algs@.len() implies ((#[trigger] self.algs@[i]).cells@ matches Some(c)
                    ==> nodes_ok(self.storage.spec_nodes(), self.algs@[i].alg_id, self.algs@[i].view, c, k)) by {
                    if i < old_algs.len() {
                        assert(self.algs@[i] == old_algs[i]);
                    } else if recorded is Some {
                        lemma_fresh_nodes_ok(self.storage.spec_nodes(), alg_id, state.view, current_size, k);
                    }
                }
            }
        }
        Ok(())
    }

    /// Deactivate (freeze) an algorithm at the current log size: its open
    /// epoch is closed at the count.
    ///
    /// Fails with `UnknownAlgorithm` for an unregistered ID, `FrozenAlgorithm`
    /// for an already frozen one, and with the storage error if the new
    /// metadata cannot be persisted; a failure leaves the log as it was.
    pub fn remove_algorithm(&mut self, alg_id: u64) -> (r: Result<(), Error<S::Error>>)
        requires
            old(self).wf(),
        ensures
            final(self).wf(),
            old(self).spec_alg(alg_id) is None <==> r matches Err(Error::UnknownAlgorithm(_)),
            (old(self).spec_alg(alg_id) matches Some(v) && !spec_is_active(v.epochs@)) <==> r matches Err(
                Error::FrozenAlgorithm(_),
            ),
            r matches Err(Error::UnknownAlgorithm(id)) ==> id == alg_id,
            r matches Err(Error::FrozenAlgorithm(id)) ==> id == alg_id,
            r matches Err(e) ==> e is UnknownAlgorithm || e is FrozenAlgorithm || e is Storage,
            final(self).spec_ids() == old(self).spec_ids(),
            final(self).spec_count() == old(self).spec_count(),
            final(self).spec_kind() == old(self).spec_kind(),
            final(self).spec_arity() == old(self).spec_arity(),
            forall|id: u64| #[trigger] final(self).spec_cells(id) == old(self).spec_cells(id),
            forall|id: u64| id != alg_id ==> #[trigger] final(self).spec_alg(id) == old(self).spec_alg(id),
            r is Err ==> final(self).spec_alg(alg_id) == old(self).spec_alg(alg_id),
            r is Ok ==> ({
                &&& old(self).spec_alg(alg_id) matches Some(v)
                &&& final(self).spec_alg(alg_id) matches Some(w)
                &&& w.hasher == v.hasher
                &&& w.frontier == v.frontier
                &&& w.frontier_coords == v.frontier_coords
                &&& w.epochs@ == v.epochs@.update(
                    v.epochs@.len() - 1,
                    (v.epochs@.last().0, old(self).spec_count()),
                )
                &&& final(self).spec_storage().spec_metas() == old(self).spec_storage().spec_metas().insert(
                    alg_id,
                    w.epochs@,
                )
                &&& final(self).spec_storage().spec_leaves() == old(self).spec_storage().spec_leaves()
                &&& final(self).spec_storage().spec_nodes() == old(self).spec_storage().spec_nodes()
            }),
    {
        let pos = match self.find(alg_id) {
            None => {
                return Err(Error::UnknownAlgorithm(alg_id));
            },
            Some(i) => i,
        };
        if !self.algs[pos].view.is_active() {
            return Err(Error::FrozenAlgorithm(alg_id));
        }
        let current_size = self.count;
        let mut new_epochs = copy_epochs(self.algs[pos].view.epochs.as_slice());
        let last = new_epochs.len() - 1;
        let start = new_epochs[last].0;
        new_epochs.set(last, (start, current_size));
        match self.storage.store_algorithm_meta(alg_id, new_epochs.as_slice()) {
            Ok(()) => {},
            Err(e) => {
                return Err(Error::Storage(e));
            },
        }
        let ghost old_algs = self.algs@;
        let ghost old_state = self.algs@[pos as int];
        let ghost ne = new_epochs@;
        self.algs[pos].view.epochs = new_epochs;
        proof {
            let k = self.config.arity as nat;
            let st = self.algs@[pos as int];
            assert(self.algs@ =~= old_algs.update(pos as int, st));
            assert(views_seq(self.algs@) =~= views_seq(old_algs).update(pos as int, (alg_id, st.view)));
            assert(cells_seq(self.algs@) =~= cells_seq(old_algs));
            assert forall|j: int| 0 <= j < pos implies views_seq(old_algs)[j].0 != views_seq(old_algs)[pos as int].0 by {
                assert(views_seq(old_algs)[j].0 == old_algs[j].alg_id);
            }
            assert forall|id: u64| id != alg_id implies #[trigger] self.spec_alg(id) == old(self).spec_alg(id) by {
                lemma_lookup_update(views_seq(old_algs), pos as int, st.view, id);
            }
            lemma_lookup_update(views_seq(old_algs), pos as int, st.view, alg_id);
            assert(self.spec_ids() =~= old(self).spec_ids());
            let oe = old_state.view.epochs@;
            assert(spec_epochs_valid(ne, current_size)) by {
                assert forall|i: int| 0 <= i < ne.len() && #[trigger] ne[i].1 == u64::MAX implies i == ne.len() - 1 by {
                    if i < ne.len() - 1 {
                        assert(ne[i] == oe[i]);
                    }
                }
                assert forall|i: int| 0 < i < ne.len() implies #[trigger] ne[i].0 >= ne[i - 1].1 by {
                    assert(ne[i - 1] == oe[i - 1]);
                }
            }
            assert forall|i: int| 0 <= i < current_size implies spec_is_active_at(ne, i) == spec_is_active_at(oe, i) by {
                lemma_close_epoch(oe, current_size, i);
            }
            assert forall|j: int| 0 <= j < self.algs@.len() implies alg_ok(
                #[trigger] self.algs@[j].view,
                self.algs@[j].cells@,
                self.count,
                k,
            ) by {
                if j != pos {
                    assert(self.algs@[j] == old_algs[j]);
                } else {
                    assert(spec_tree_size(ne, current_size) == current_size);
                    assert(spec_tree_size(oe, current_size) == current_size);
                }
            }
            let nodes = self.storage.spec_nodes();
            assert forall|j: int| 0 <= j < self.algs@.len() implies ((#[trigger] self.algs@[j]).cells@ matches Some(c)
                ==> nodes_ok(nodes, self.algs@[j].alg_id, self.algs@[j].view, c, k)) by {
                if j != pos {
                    assert(self.algs@[j] == old_algs[j]);
                } else if st.cells@ is Some {
                    let c = st.cells@->0;
                    assert(alg_ok(old_state.view, old_state.cells@, current_size, k));
                    assert(c.len() == current_size);
                    assert(nodes_ok(nodes, alg_id, old_state.view, c, k));
                    let ov = vals_of(nodes, alg_id, old_state.view, k);
                    let nv = vals_of(nodes, alg_id, st.view, k);
                    assert forall|l: nat, ht: nat| aligned(l, ht, k) && l + pow(k, ht) <= c.len() implies #[trigger] nv(l, ht)
                        == perfect(st.view.hasher, c, l, ht, k) by {
                        assert(ov(l, ht) == perfect(old_state.view.hasher, c, l, ht, k));
                        lemma_pow_positive(k, ht);
                        lemma_close_range(oe, current_size, l as int, (l + pow(k, ht)) as int);
                    }
                }
            }
        }
        Ok(())
    }

    /// Store the recomputed nodes `mixed` of the algorithm at `pos`, whose
    /// cells are unknown, in order.
    fn write_mixed(&mut self, pos: usize, mixed: &Vec<(u64, u32, Vec<u8>)>) -> (r: Result<(), Error<S::Error>>)
        requires
            old(self).wf(),
            pos < old(self).algs@.len(),
            old(self).algs@[pos as int].cells@ is None,
        ensures
            final(self).wf(),
            final(self).algs@ == old(self).algs@,
            final(self).count == old(self).count,
            final(self).config == old(self).config,
            final(self).kind == old(self).kind,
            final(self).storage.spec_leaves() == old(self).storage.spec_leaves(),
            final(self).storage.spec_metas() == old(self).storage.spec_metas(),
            r is Ok ==> final(self).storage.spec_nodes() == apply_mixed(
                old(self).storage.spec_nodes(),
                old(self).algs@[pos as int].alg_id,
                mixed_view(mixed@),
            ),
            r matches Err(e) ==> e is Storage,
    {
        let alg_id = self.algs[pos].alg_id;
        let ghost mv = mixed_view(mixed@);
        let ghost nodes0 = self.storage.spec_nodes();
        let mut j: usize = 0;
        proof {
            assert(mv.take(0) =~= Seq::<MixedNode>::empty());
        }
        while j < mixed.len()
            invariant
                self.wf(),
                pos < self.algs@.len(),
                self.algs@ == old(self).algs@,
                self.algs@[pos as int].cells@ is None,
                alg_id == self.algs@[pos as int].alg_id,
                self.count == old(self).count,
                self.config == old(self).config,
                self.kind == old(self).kind,
                self.storage.spec_leaves() == old(self).storage.spec_leaves(),
                self.storage.spec_metas() == old(self).storage.spec_metas(),
                nodes0 == old(self).storage.spec_nodes(),
                mv == mixed_view(mixed@),
                j <= mixed@.len(),
                self.storage.spec_nodes() == apply_mixed(nodes0, alg_id, mv.take(j as int)),
            decreases mixed@.len() - j,
        {
            let left = mixed[j].0;
            let height = mixed[j].1;
            let key = (left << 16) | (height as u64 & 0xFFFF);
            let ghost before = self.storage.spec_nodes();
            match self.storage.store_node(alg_id, key, mixed[j].2.as_slice()) {
                Ok(()) => {},
                Err(e) => {
                    return Err(Error::Storage(e));
                },
            }
            proof {
                let t = mv.take(j + 1);
                assert(t.drop_last() =~= mv.take(j as int));
                assert(t.last() == mv[j as int]);
                assert(key == node_key(left as nat, height as nat));
                let k = self.config.arity as nat;
                let nodes = self.storage.spec_nodes();
                assert forall|t2: int| 0 <= t2 < self.algs@.len() implies ((#[trigger] self.algs@[t2]).cells@ matches Some(c)
                    ==> nodes_ok(nodes, self.algs@[t2].alg_id, self.algs@[t2].view, c, k)) by {
                    if self.algs@[t2].cells@ is Some {
                        let c = self.algs@[t2].cells@->0;
                        assert(t2 != pos);
                        assert(nodes_ok(before, self.algs@[t2].alg_id, self.algs@[t2].view, c, k));
                        lemma_insert_other_nodes_ok(before, alg_id, key, mixed@[j as int].2@, self.algs@[t2].alg_id, self.algs@[t2].view, c, k);
                    }
                }
            }
            j = j + 1;
        }
        proof {
            assert(mv.take(mixed@.len() as int) =~= mv);
        }
        Ok(())
    }

    /// The frontier of the algorithm at `pos` rebuilt from the store under
    /// `epochs` at the current count, with the nodes recomputed on the way.
    fn rebuild_frontier(&self, pos: usize, epochs: &Vec<(u64, u64)>, coords: &Vec<(u64, u32)>) -> (r: Result<
        (Vec<Vec<u8>>, Vec<(u64, u32, Vec<u8>)>),
        Error<S::Error>,
    >)
        requires
            self.wf(),
            pos < self.algs@.len(),
            coords_view(coords@) == frontier_spec(self.count as nat, self.config.arity as nat),
        ensures
            r matches Ok((f, m)) ==> {
                let res = peak_results(
                    self.algs@[pos as int].view.hasher,
                    self.storage.spec_leaves(),
                    self.storage.spec_nodes(),
                    self.algs@[pos as int].alg_id,
                    epochs@,
                    self.kind,
                    self.count as nat,
                    self.config.arity as nat,
                );
                &&& all_some(res)
                &&& digests_view(f@) == kid_digests(res)
                &&& mixed_view(m@) == kid_mixed(res)
                &&& f@.len() == coords@.len()
            },
            r matches Err(e) ==> e is Storage || e is CorruptedMetadata,
            r matches Err(Error::CorruptedMetadata { .. }) ==> !all_some(
                peak_results(
                    self.algs@[pos as int].view.hasher,
                    self.storage.spec_leaves(),
                    self.storage.spec_nodes(),
                    self.algs@[pos as int].alg_id,
                    epochs@,
                    self.kind,
                    self.count as nat,
                    self.config.arity as nat,
                ),
            ),
    {
        let k = self.config.arity;
        let ghost n = self.count as nat;
        let ghost fs = frontier_spec(n, k as nat);
        let ghost h = self.algs@[pos as int].view.hasher;
        let ghost res = peak_results(
            h,
            self.storage.spec_leaves(),
            self.storage.spec_nodes(),
            self.algs@[pos as int].alg_id,
            epochs@,
            self.kind,
            n,
            k as nat,
        );
        proof {
            lemma_frontier_within(n, k as nat, 0);
        }
        let alg_id = self.algs[pos].alg_id;
        let mut frontier: Vec<Vec<u8>> = Vec::new();
        let mut mixed: Vec<(u64, u32, Vec<u8>)> = Vec::new();
        let mut i: usize = 0;
        proof {
            assert(res.take(0).map_values(|x: Option<(Seq<u8>, Seq<MixedNode>)>| (x->0).1)
                =~= Seq::<Seq<MixedNode>>::empty());
            assert(mixed_view(mixed@) =~= kid_mixed(res.take(0)));
            assert(digests_view(frontier@) =~= kid_digests(res.take(0)));
        }
        while i < coords.len()
            invariant
                self.wf(),
                pos < self.algs@.len(),
                alg_id == self.algs@[pos as int].alg_id,
                k == self.config.arity,
                n == self.count,
                h == self.algs@[pos as int].view.hasher,
                fs == frontier_spec(n, k as nat),
                coords_view(coords@) == fs,
                forall|t: int| 0 <= t < fs.len() ==> #[trigger] fs[t].0 + pow(k as nat, fs[t].1) <= n,
                res == peak_results(
                    h,
                    self.storage.spec_leaves(),
                    self.storage.spec_nodes(),
                    alg_id,
                    epochs@,
                    self.kind,
                    n,
                    k as nat,
                ),
                res.len() == fs.len(),
                i <= coords@.len(),
                frontier@.len() == i,
                all_some(res.take(i as int)),
                digests_view(frontier@) == kid_digests(res.take(i as int)),
                mixed_view(mixed@) == kid_mixed(res.take(i as int)),
            decreases coords@.len() - i,
        {
            let (left, height) = coords[i];
            proof {
                assert(fs[i as int] == (left as nat, height as nat));
            }
            let cap = match checked_pow(k, height) {
                Some(c) => c,
                None => {
                    proof {
                        assert(false);
                    }
                    0
                },
            };
            let res_i = reconstruct_subtree_root(
                &self.storage,
                alg_id,
                &self.algs[pos].view.hasher,
                epochs,
                left,
                left + cap,
                k,
                self.kind,
            );
            let (hash, part_mixed) = match res_i {
                Ok(p) => p,
                Err(e) => {
                    proof {
                        if e is CorruptedMetadata {
                            assert(res[i as int] is None);
                            assert(!all_some(res));
                        }
                    }
                    return Err(e);
                },
            };
            let ghost kid = res[i as int];
            let ghost before_h = frontier@;
            let ghost before_m = mixed@;
            frontier.push(hash);
            let mut pm = part_mixed;
            let ghost pmv = pm@;
            mixed.append(&mut pm);
            proof {
                let f1 = |x: Option<(Seq<u8>, Seq<MixedNode>)>| (x->0).0;
                let f2 = |x: Option<(Seq<u8>, Seq<MixedNode>)>| (x->0).1;
                assert(res.take(i + 1) =~= res.take(i as int).push(kid));
                assert(res.take(i + 1).map_values(f1) =~= res.take(i as int).map_values(f1).push(f1(kid)));
                assert(res.take(i + 1).map_values(f2) =~= res.take(i as int).map_values(f2).push(f2(kid)));
                res.take(i as int).map_values(f2).lemma_flatten_push(f2(kid));
                crate::hasher::lemma_digests_push(before_h, frontier@.last());
                assert(mixed_view(mixed@) =~= mixed_view(before_m) + mixed_view(pmv));
                assert(all_some(res.take(i + 1)));
            }
            i = i + 1;
        }
        proof {
            assert(res.take(coords@.len() as int) =~= res);
        }
        Ok((frontier, mixed))
    }

    /// Reactivate a frozen algorithm at the current log size: a new open
    /// epoch starts at the count, and its frontier is rebuilt from the store
    /// under the extended epochs (null where the algorithm was inactive),
    /// persisting the nodes recomputed on the way and then the new metadata.
    ///
    /// Fails with `UnknownAlgorithm` for an unregistered ID, with
    /// `AlgorithmActive` for an active one, with `CorruptedMetadata` when a
    /// stored digest of the algorithm has the wrong length, and with the
    /// storage error when a read or write fails. On success the algorithm's
    /// history is no longer tracked as cells: its frontier is what the store
    /// gave back. A failure leaves every algorithm's view as it was.
    #[verifier::rlimit(60)]
    pub fn resume_algorithm(&mut self, alg_id: u64) -> (r: Result<(), Error<S::Error>>)
        requires
            old(self).wf(),
        ensures
            final(self).wf(),
            old(self).spec_alg(alg_id) is None <==> r matches Err(Error::UnknownAlgorithm(_)),
            (old(self).spec_alg(alg_id) matches Some(v) && spec_is_active(v.epochs@)) <==> r matches Err(
                Error::AlgorithmActive(_),
            ),
            r matches Err(Error::UnknownAlgorithm(id)) ==> id == alg_id,
            r matches Err(Error::AlgorithmActive(id)) ==> id == alg_id,
            r matches Err(e) ==> e is UnknownAlgorithm || e is AlgorithmActive || e is Storage
                || e is CorruptedMetadata,
            r matches Err(Error::CorruptedMetadata { .. }) ==> old(self).spec_alg(alg_id) matches Some(v) && !all_some(
                peak_results(
                    v.hasher,
                    old(self).spec_storage().spec_leaves(),
                    old(self).spec_storage().spec_nodes(),
                    alg_id,
                    v.epochs@.push((old(self).spec_count(), u64::MAX)),
                    old(self).spec_kind(),
                    old(self).spec_count() as nat,
                    old(self).spec_arity() as nat,
                ),
            ),
            final(self).spec_ids() == old(self).spec_ids(),
            final(self).spec_count() == old(self).spec_count(),
            final(self).spec_kind() == old(self).spec_kind(),
            final(self).spec_arity() == old(self).spec_arity(),
            forall|id: u64| id != alg_id ==> #[trigger] final(self).spec_cells(id) == old(self).spec_cells(id),
            forall|id: u64| id != alg_id ==> #[trigger] final(self).spec_alg(id) == old(self).spec_alg(id),
            r is Err ==> final(self).spec_alg(alg_id) == old(self).spec_alg(alg_id),
            r is Ok ==> ({
                let k = old(self).spec_arity() as nat;
                let n = old(self).spec_count() as nat;
                &&& old(self).spec_alg(alg_id) matches Some(v)
                &&& final(self).spec_alg(alg_id) matches Some(w)
                &&& w.hasher == v.hasher
                &&& w.epochs@ == v.epochs@.push((old(self).spec_count(), u64::MAX))
                &&& coords_view(w.frontier_coords@) == frontier_spec(n, k)
                &&& {
                    let res = peak_results(
                        v.hasher,
                        old(self).spec_storage().spec_leaves(),
                        old(self).spec_storage().spec_nodes(),
                        alg_id,
                        w.epochs@,
                        old(self).spec_kind(),
                        n,
                        k,
                    );
                    &&& all_some(res)
                    &&& digests_view(w.frontier@) == kid_digests(res)
                    &&& final(self).spec_storage().spec_nodes() == apply_mixed(
                        old(self).spec_storage().spec_nodes(),
                        alg_id,
                        kid_mixed(res),
                    )
                }
                &&& final(self).spec_cells(alg_id) is None
                &&& final(self).spec_storage().spec_metas() == old(self).spec_storage().spec_metas().insert(
                    alg_id,
                    w.epochs@,
                )
                &&& final(self).spec_storage().spec_leaves() == old(self).spec_storage().spec_leaves()
            }),
    {
        let pos = match self.find(alg_id) {
            None => {
                return Err(Error::UnknownAlgorithm(alg_id));
            },
            Some(i) => i,
        };
        if self.algs[pos].view.is_active() {
            return Err(Error::AlgorithmActive(alg_id));
        }
        let current_size = self.count;
        let mut new_epochs = copy_epochs(self.algs[pos].view.epochs.as_slice());
        new_epochs.push((current_size, u64::MAX));
        let k = self.config.arity;
        let coords = frontier_for_size(current_size, k);
        let (frontier, mixed) = match self.rebuild_frontier(pos, &new_epochs, &coords) {
            Ok(p) => p,
            Err(e) => {
                proof {
                    self.lemma_alg_at(pos as int);
                }
                return Err(e);
            },
        };
        let ghost old_algs = self.algs@;
        let ghost old_state = self.algs@[pos as int];
        self.algs[pos].cells = Ghost(None);
        proof {
            let st = self.algs@[pos as int];
            assert(self.algs@ =~= old_algs.update(pos as int, st));
            assert(views_seq(self.algs@) =~= views_seq(old_algs));
            assert(cells_seq(self.algs@) =~= cells_seq(old_algs).update(pos as int, (alg_id, None)));
            assert forall|j: int| 0 <= j < pos implies cells_seq(old_algs)[j].0 != cells_seq(old_algs)[pos as int].0 by {
                assert(cells_seq(old_algs)[j].0 == old_algs[j].alg_id);
            }
            assert forall|id: u64| id != alg_id implies #[trigger] self.spec_cells(id) == old(self).spec_cells(id) by {
                lemma_lookup_update(cells_seq(old_algs), pos as int, None, id);
            }
            lemma_lookup_update(cells_seq(old_algs), pos as int, None, alg_id);
            assert forall|j: int| 0 <= j < self.algs@.len() implies alg_ok(
                #[trigger] self.algs@[j].view,
                self.algs@[j].cells@,
                self.count,
                self.config.arity as nat,
            ) by {
                if j != pos {
                    assert(self.algs@[j] == old_algs[j]);
                } else {
                    assert(alg_ok(old_state.view, old_state.cells@, current_size, k as nat));
                }
            }
            assert forall|j: int| 0 <= j < self.algs@.len() implies ((#[trigger] self.algs@[j]).cells@ matches Some(c)
                ==> nodes_ok(self.storage.spec_nodes(), self.algs@[j].alg_id, self.algs@[j].view, c, k as nat)) by {
                if j != pos {
                    assert(self.algs@[j] == old_algs[j]);
                }
            }
            assert(self.spec_alg(alg_id) == old(self).spec_alg(alg_id));
        }
        let ghost cleared = self.algs@;
        let written = self.write_mixed(pos, &mixed);
        proof {
            assert(cells_seq(self.algs@) =~= cells_seq(old_algs).update(pos as int, (alg_id, None)));
            assert forall|id: u64| id != alg_id implies #[trigger] self.spec_cells(id) == old(self).spec_cells(id) by {
                lemma_lookup_update(cells_seq(old_algs), pos as int, None, id);
            }
            assert(views_seq(self.algs@) =~= views_seq(old_algs));
        }
        match written {
            Ok(()) => {},
            Err(e) => {
                return Err(e);
            },
        }
        let stored = self.storage.store_algorithm_meta(alg_id, new_epochs.as_slice());
        proof {
            assert forall|id: u64| id != alg_id implies #[trigger] self.spec_cells(id) == old(self).spec_cells(id) by {
                lemma_lookup_update(cells_seq(old_algs), pos as int, None, id);
            }
        }
        match stored {
            Ok(()) => {},
            Err(e) => {
                return Err(Error::Storage(e));
            },
        }
        let ghost mid_algs = self.algs@;
        let ghost ne = new_epochs@;
        self.algs[pos].view.epochs = new_epochs;
        self.algs[pos].view.frontier = frontier;
        self.algs[pos].view.frontier_coords = coords;
        proof {
            let kk = k as nat;
            let st = self.algs@[pos as int];
            assert(self.algs@ =~= mid_algs.update(pos as int, st));
            assert(views_seq(self.algs@) =~= views_seq(mid_algs).update(pos as int, (alg_id, st.view)));
            assert(cells_seq(self.algs@) =~= cells_seq(mid_algs));
            assert forall|j: int| 0 <= j < pos implies views_seq(mid_algs)[j].0 != views_seq(mid_algs)[pos as int].0 by {
                assert(views_seq(mid_algs)[j].0 == mid_algs[j].alg_id);
            }
            assert forall|id: u64| id != alg_id implies #[trigger] self.spec_alg(id) == old(self).spec_alg(id) by {
                lemma_lookup_update(views_seq(mid_algs), pos as int, st.view, id);
            }
            lemma_lookup_update(views_seq(mid_algs), pos as int, st.view, alg_id);
            assert(self.spec_ids() =~= old(self).spec_ids());
            let oe = old_state.view.epochs@;
            assert(ne == oe.push((current_size, u64::MAX)));
            assert(spec_epochs_valid(oe, current_size));
            assert(!spec_is_active(oe));
            assert(spec_epochs_valid(ne, current_size)) by {
                assert forall|i: int| 0 <= i < ne.len() && #[trigger] ne[i].1 == u64::MAX implies i == ne.len() - 1 by {
                    if i < ne.len() - 1 {
                        assert(ne[i] == oe[i]);
                        assert(oe[i].1 == u64::MAX ==> i == oe.len() - 1);
                    }
                }
                assert forall|i: int| 0 < i < ne.len() implies #[trigger] ne[i].0 >= ne[i - 1].1 by {
                    assert(ne[i - 1] == oe[i - 1]);
                    if i == ne.len() - 1 {
                        assert(oe.last().1 != u64::MAX);
                        assert(oe[oe.len() - 1].1 <= current_size);
                    } else {
                        assert(ne[i] == oe[i]);
                    }
                }
                assert forall|i: int| 0 <= i < ne.len() implies #[trigger] ne[i].0 <= ne[i].1 by {
                    if i < ne.len() - 1 {
                        assert(ne[i] == oe[i]);
                    }
                }
                assert forall|i: int| 0 <= i < ne.len() && #[trigger] ne[i].1 != u64::MAX implies ne[i].1
                    <= current_size by {
                    assert(ne[i] == oe[i]);
                }
            }
            assert(spec_is_active(ne));
            assert forall|j: int| 0 <= j < self.algs@.len() implies alg_ok(
                #[trigger] self.algs@[j].view,
                self.algs@[j].cells@,
                self.count,
                kk,
            ) by {
                if j != pos {
                    assert(self.algs@[j] == mid_algs[j]);
                } else {
                    assert(spec_tree_size(ne, current_size) == current_size);
                }
            }
            assert forall|j: int| 0 <= j < self.algs@.len() implies ((#[trigger] self.algs@[j]).cells@ matches Some(c)
                ==> nodes_ok(self.storage.spec_nodes(), self.algs@[j].alg_id, self.algs@[j].view, c, kk)) by {
                if j != pos {
                    assert(self.algs@[j] == mid_algs[j]);
                }
            }
            assert forall|a: int, b: int| 0 <= a < b < self.algs@.len() implies self.algs@[a].alg_id
                != self.algs@[b].alg_id by {
                assert(self.algs@[a].alg_id == mid_algs[a].alg_id);
                assert(self.algs@[b].alg_id == mid_algs[b].alg_id);
            }
            assert(cells_seq(self.algs@) =~= cells_seq(old_algs).update(pos as int, (alg_id, None)));
            assert forall|id: u64| id != alg_id implies #[trigger] self.spec_cells(id) == old(self).spec_cells(id) by {
                lemma_lookup_update(cells_seq(old_algs), pos as int, None, id);
            }
            lemma_lookup_update(cells_seq(old_algs), pos as int, None, alg_id);
        }
        Ok(())
    }

    /// Retrieve the tree configuration.
    pub fn config(&self) -> (c: &TreeConfig)
        ensures
            c.arity == self.spec_arity(),
    {
        &self.config
    }

    /// Total number of log-level appends regardless of kind.
    pub fn count(&self) -> (n: u64)
        ensures
            n == self.spec_count(),
    {
        self.count
    }

    /// Whether this log uses flat leaf or subtree appends.
    pub fn kind(&self) -> (kind: LogKind)
        ensures
            kind == self.spec_kind(),
    {
        self.kind
    }

    /// Number of flat leaf appends (0 for subtree logs).
    pub fn size(&self) -> (n: u64)
        ensures
            n == if self.spec_kind() == LogKind::Flat {
                self.spec_count()
            } else {
                0
            },
    {
        match self.kind {
            LogKind::Flat => self.count,
            LogKind::Subtree => 0,
        }
    }

    /// Number of subtree appends (0 for flat logs).
    pub fn subtree_count(&self) -> (n: u64)
        ensures
            n == if self.spec_kind() == LogKind::Subtree {
                self.spec_count()
            } else {
                0
            },
    {
        match self.kind {
            LogKind::Subtree => self.count,
            LogKind::Flat => 0,
        }
    }

    /// Number of commits appended as subtrees (0 for flat logs); the same
    /// count as `subtree_count`.
    pub fn commit_count(&self) -> (n: u64)
        ensures
            n == if self.spec_kind() == LogKind::Subtree {
                self.spec_count()
            } else {
                0
            },
    {
        self.subtree_count()
    }

    /// The frontier stack of a specific algorithm, if registered.
    pub fn frontier_for(&self, alg_id: u64) -> (f: Option<&[Vec<u8>]>)
        ensures
            match f {
                Some(s) => self.spec_alg(alg_id) matches Some(v) && s@ == v.frontier@,
                None => self.spec_alg(alg_id) is None,
            },
    {
        match self.find(alg_id) {
            Some(i) => Some(self.algs[i].view.frontier.as_slice()),
            None => None,
        }
    }

    /// The frontier stack of the default algorithm (0); empty when it is not
    /// registered.
    pub fn frontier(&self) -> (f: &[Vec<u8>])
        ensures
            match self.spec_alg(0) {
                Some(v) => f@ == v.frontier@,
                None => f@.len() == 0,
            },
    {
        match self.frontier_for(0) {
            Some(f) => f,
            None => &[],
        }
    }

    /// Consume the log and return the underlying storage backend.
    pub fn into_storage(self) -> (s: S)
        ensures
            s == self.spec_storage(),
    {
        self.storage
    }

    /// Borrow the underlying storage backend.
    pub fn storage(&self) -> (s: &S)
        ensures
            *s == self.spec_storage(),
    {
        &self.storage
    }

    /// The current member root of a specific algorithm: the fold of its
    /// frontier peaks, which for cells the log built is their member root.
    ///
    /// Fails with `UnknownAlgorithm` exactly when `alg_id` is not registered.
    pub fn root_for(&self, alg_id: u64) -> (r: Result<Vec<u8>, Error<S::Error>>)
        requires
            self.wf(),
        ensures
            self.spec_alg(alg_id) is None <==> r is Err,
            r matches Err(e) ==> e == Error::<S::Error>::UnknownAlgorithm(alg_id) && self.spec_cells(alg_id) is None,
            r matches Ok(root) ==> self.spec_alg(alg_id) matches Some(v) && root@ == fold_frontier(
                v.hasher,
                digests_view(v.frontier@),
                self.spec_arity() as nat,
            ),
            r matches Ok(root) ==> self.spec_cells(alg_id) matches Some(c) ==> self.spec_alg(alg_id) matches Some(v)
                && root@ == member_root(v.hasher, c, self.spec_arity() as nat),
    {
        match self.find(alg_id) {
            None => Err(Error::UnknownAlgorithm(alg_id)),
            Some(i) => {
                proof {
                    assert(alg_ok(self.algs@[i as int].view, self.algs@[i as int].cells@, self.count, self.config.arity as nat));
                }
                Ok(compute_root(&self.algs[i].view, self.config.arity))
            },
        }
    }

    /// The current member root of the default algorithm (0); empty when it is
    /// not registered.
    pub fn root(&self) -> (root: Vec<u8>)
        requires
            self.wf(),
        ensures
            match self.spec_alg(0) {
                Some(v) => root@ == fold_frontier(v.hasher, digests_view(v.frontier@), self.spec_arity() as nat),
                None => root@.len() == 0,
            },
            self.spec_cells(0) matches Some(c) ==> self.spec_alg(0) matches Some(v) && root@ == member_root(
                v.hasher,
                c,
                self.spec_arity() as nat,
            ),
    {
        match self.root_for(0) {
            Ok(r) => r,
            Err(_) => Vec::new(),
        }
    }

    /// Whether some registered algorithm is active.
    fn any_active(&self) -> (b: bool)
        ensures
            b == exists|i: int| 0 <= i < self.algs@.len() && spec_is_active(#[trigger] self.algs@[i].view.epochs@),
    {
        let mut i: usize = 0;
        while i < self.algs.len()
            invariant
                i <= self.algs@.len(),
                forall|j: int| 0 <= j < i ==> !spec_is_active(#[trigger] self.algs@[j].view.epochs@),
            decreases self.algs@.len() - i,
        {
            if self.algs[i].view.is_active() {
                return true;
            }
            i = i + 1;
        }
        false
    }
}

/// Closing the last (open) epoch at `count` keeps every position below
/// `count` as covered as it was.
proof fn lemma_close_epoch(e: Seq<(u64, u64)>, count: u64, i: int)
    requires
        e.len() > 0,
        e.last().1 == u64::MAX,
        e.last().0 <= count,
        0 <= i < count,
    ensures
        spec_is_active_at(e.update(e.len() - 1, (e.last().0, count)), i) == spec_is_active_at(e, i),
{
    let ne = e.update(e.len() - 1, (e.last().0, count));
    if spec_is_active_at(e, i) {
        let j = choose|j: int| 0 <= j < e.len() && e[j].0 <= i && i < e[j].1;
        assert(ne[j].0 <= i && i < ne[j].1);
    }
    if spec_is_active_at(ne, i) {
        let j = choose|j: int| 0 <= j < ne.len() && ne[j].0 <= i && i < ne[j].1;
        assert(e[j].0 <= i && i < e[j].1);
    }
}

/// Two views agree as values: hasher, epochs, frontier digests and
/// coordinates.
pub open spec fn same_view<H: Hasher>(v: AlgView<H>, w: AlgView<H>) -> bool {
    &&& w.hasher == v.hasher
    &&& w.epochs@ == v.epochs@
    &&& digests_view(w.frontier@) == digests_view(v.frontier@)
    &&& w.frontier_coords@ == v.frontier_coords@
}

/// Views that agree as values are coherent together.
proof fn lemma_alg_ok_same_view<H: Hasher>(
    v: AlgView<H>,
    w: AlgView<H>,
    cells: Option<Seq<Seq<u8>>>,
    count: u64,
    k: nat,
)
    requires
        same_view(v, w),
        alg_ok(v, cells, count, k),
    ensures
        alg_ok(w, cells, count, k),
{
    assert(w.frontier@.len() == digests_view(w.frontier@).len());
    assert(v.frontier@.len() == digests_view(v.frontier@).len());
}

/// An algorithm frozen at or before `count` stays coherent one append later.
proof fn lemma_alg_ok_frozen<H: Hasher>(v: AlgView<H>, cells: Option<Seq<Seq<u8>>>, count: u64, k: nat)
    requires
        alg_ok(v, cells, count, k),
        !spec_is_active(v.epochs@),
        count < u64::MAX,
    ensures
        alg_ok(v, cells, (count + 1) as u64, k),
{
    let e = v.epochs@;
    assert(spec_tree_size(e, count) == spec_tree_size(e, (count + 1) as u64));
    assert forall|t: int| 0 <= t < e.len() && #[trigger] e[t].1 != u64::MAX implies e[t].1 <= count + 1 by {}
}

/// Every write comes from one of the first `upto` algorithms that is active.
spec fn writes_from_active<H: Hasher>(
    w: Seq<(u64, u64, u32, Vec<u8>)>,
    old_algs: Seq<AlgState<H>>,
    upto: int,
) -> bool {
    forall|e: int| 0 <= e < w.len() ==> active_id(old_algs, (#[trigger] w[e]).0, upto)
}

/// `id` is the ID of one of the first `upto` algorithms, an active one.
spec fn active_id<H: Hasher>(old_algs: Seq<AlgState<H>>, id: u64, upto: int) -> bool {
    exists|j: int| 0 <= j < upto && spec_is_active(old_algs[j].view.epochs@) && old_algs[j].alg_id == id
}

/// An active ID among the first `upto` algorithms is one among more.
proof fn lemma_active_id_grow<H: Hasher>(old_algs: Seq<AlgState<H>>, id: u64, upto: int, more: int)
    requires
        active_id(old_algs, id, upto),
        upto <= more,
    ensures
        active_id(old_algs, id, more),
{
    let j = choose|j: int| 0 <= j < upto && spec_is_active(old_algs[j].view.epochs@) && old_algs[j].alg_id == id;
    assert(0 <= j < more && spec_is_active(old_algs[j].view.epochs@) && old_algs[j].alg_id == id);
}

/// Each of the first `upto` algorithms that was active and has known cells
/// made its writes.
spec fn writes_cover<H: Hasher>(
    w: Seq<(u64, u64, u32, Vec<u8>)>,
    algs: Seq<AlgState<H>>,
    old_algs: Seq<AlgState<H>>,
    k: nat,
    upto: int,
) -> bool {
    forall|j: int|
        0 <= j < upto ==> (spec_is_active(old_algs[j].view.epochs@) && (#[trigger] algs[j]).cells@ is Some
            ==> writes_ok(w, algs[j].alg_id, algs[j].view.hasher, algs[j].cells@->0, k))
}

/// The pre-append state of each algorithm, saved for a rollback.
struct Saved {
    frontier: Vec<Vec<u8>>,
    coords: Vec<(u64, u32)>,
}

/// The first `upto` states of `algs` are those of `old_algs` carried through
/// one append at `count`.
spec fn advanced<H: Hasher>(
    old_algs: Seq<AlgState<H>>,
    algs: Seq<AlgState<H>>,
    count: u64,
    data: Seq<u8>,
    subtree: Option<&Subtree>,
    k: nat,
    upto: int,
) -> bool {
    forall|j: int|
        0 <= j < upto ==> {
            let a = old_algs[j];
            let b = #[trigger] algs[j];
            &&& !spec_is_active(a.view.epochs@) ==> same_view(a.view, b.view) && b.cells@ == a.cells@
            &&& spec_is_active(a.view.epochs@) ==> alg_ok(b.view, b.cells@, (count + 1) as u64, k)
            &&& spec_is_active(a.view.epochs@) ==> b.cells@ == match a.cells@ {
                Some(c) => Some(c.push(appended_cell(a.view.hasher, a.view.epochs@, count, data, subtree))),
                None => None,
            }
        }
}

/// `algs` keeps the IDs, hashers and epochs of `old_algs`.
spec fn same_ids<H: Hasher>(old_algs: Seq<AlgState<H>>, algs: Seq<AlgState<H>>) -> bool {
    &&& algs.len() == old_algs.len()
    &&& forall|j: int|
        0 <= j < old_algs.len() ==> {
            let a = old_algs[j];
            let b = #[trigger] algs[j];
            &&& b.alg_id == a.alg_id
            &&& b.view.hasher == a.view.hasher
            &&& b.view.epochs@ == a.view.epochs@
        }
}

/// The first `upto` saved entries hold the frontiers of `old_algs`.
spec fn saved_from<H: Hasher>(old_algs: Seq<AlgState<H>>, saved: Seq<Saved>, upto: int) -> bool {
    forall|j: int|
        0 <= j < upto ==> {
            &&& digests_view((#[trigger] saved[j]).frontier@) == digests_view(old_algs[j].view.frontier@)
            &&& saved[j].coords@ == old_algs[j].view.frontier_coords@
        }
}

impl<S: Storage, H: Hasher> NaryMerkleLog<S, H> {
    /// Restore every frontier (and the committed cells) saved before an
    /// append.
    fn rollback(&mut self, saved: Vec<Saved>, Ghost(old_algs): Ghost<Seq<AlgState<H>>>)
        requires
            same_ids(old_algs, old(self).algs@),
            saved@.len() == old_algs.len(),
            saved_from(old_algs, saved@, old_algs.len() as int),
        ensures
            final(self).count == old(self).count,
            final(self).config == old(self).config,
            final(self).kind == old(self).kind,
            final(self).storage == old(self).storage,
            same_ids(old_algs, final(self).algs@),
            forall|j: int|
                0 <= j < old_algs.len() ==> same_view(old_algs[j].view, (#[trigger] final(self).algs@[j]).view)
                    && final(self).algs@[j].cells@ is None,
    {
        let mut saved = saved;
        while saved.len() > 0
            invariant
                self.count == old(self).count,
                self.config == old(self).config,
                self.kind == old(self).kind,
                self.storage == old(self).storage,
                same_ids(old_algs, self.algs@),
                saved@.len() <= old_algs.len(),
                saved_from(old_algs, saved@, saved@.len() as int),
                forall|j: int|
                    saved@.len() <= j < old_algs.len() ==> same_view(old_algs[j].view, (#[trigger] self.algs@[j]).view)
                        && self.algs@[j].cells@ is None,
            decreases saved@.len(),
        {
            let ghost before = saved@;
            let sv = saved.pop().unwrap();
            let j = saved.len();
            proof {
                assert(sv == before[j as int]);
            }
            self.algs[j].view.frontier = sv.frontier;
            self.algs[j].view.frontier_coords = sv.coords;
            self.algs[j].cells = Ghost(None);
            proof {
                assert(saved_from(old_algs, saved@, saved@.len() as int)) by {
                    assert forall|t: int| 0 <= t < saved@.len() implies #[trigger] saved@[t] == before[t] by {}
                }
            }
        }
    }

    /// Run one append at the current count through every active algorithm:
    /// each active algorithm takes the appended digest (or null where its
    /// epochs do not cover the position) and carries its frontier; the sealed
    /// nodes are then written. A failed write rolls every frontier back.
    #[verifier::rlimit(60)]
    fn advance(&mut self, data: &[u8], subtree: Option<&Subtree>) -> (r: Result<(), Error<S::Error>>)
        requires
            old(self).wf(),
            old(self).count < MAX_COUNT,
        ensures
            final(self).wf(),
            r matches Err(e) ==> e is Storage,
            final(self).config == old(self).config,
            final(self).kind == old(self).kind,
            same_ids(old(self).algs@, final(self).algs@),
            r is Err ==> final(self).count == old(self).count,
            r is Err ==> forall|j: int|
                0 <= j < old(self).algs@.len() ==> same_view(old(self).algs@[j].view, (#[trigger] final(self).algs@[j]).view)
                    && final(self).algs@[j].cells@ is None,
            r is Ok ==> final(self).count == old(self).count + 1,
            final(self).storage.spec_leaves() == old(self).storage.spec_leaves(),
            changed_only_ending_at(
                old(self).storage.spec_nodes(),
                final(self).storage.spec_nodes(),
                (old(self).count + 1) as nat,
                old(self).config.arity as nat,
            ),
            r is Ok ==> advanced(
                old(self).algs@,
                final(self).algs@,
                old(self).count,
                data@,
                subtree,
                old(self).config.arity as nat,
                old(self).algs@.len() as int,
            ),
    {
        let count = self.count;
        let k = self.config.arity;
        let mut nodes: Vec<(u64, u64, u32, Vec<u8>)> = Vec::new();
        let mut saved: Vec<Saved> = Vec::new();
        let ghost old_algs = self.algs@;
        let mut i: usize = 0;
        while i < self.algs.len()
            invariant
                old_algs == old(self).algs@,
                old(self).wf(),
                count == old(self).count,
                count < MAX_COUNT,
                k == old(self).config.arity,
                2 <= k <= 256,
                self.config == old(self).config,
                self.kind == old(self).kind,
                self.count == count,
                self.storage == old(self).storage,
                i <= self.algs@.len(),
                same_ids(old_algs, self.algs@),
                saved@.len() == i,
                forall|j: int| i <= j < old_algs.len() ==> #[trigger] self.algs@[j] == old_algs[j],
                saved_from(old_algs, saved@, i as int),
                advanced(old_algs, self.algs@, count, data@, subtree, k as nat, i as int),
                writes_from_active(nodes@, old_algs, i as int),
                writes_cover(nodes@, self.algs@, old_algs, k as nat, i as int),
                forall|e: int| 0 <= e < nodes@.len() ==> (#[trigger] nodes@[e]).1 + pow(k as nat, nodes@[e].2 as nat)
                    == count + 1 && aligned(nodes@[e].1 as nat, nodes@[e].2 as nat, k as nat),
            decreases self.algs@.len() - i,
        {
            let sv = Saved {
                frontier: copy_digests(&self.algs[i].view.frontier),
                coords: copy_coords(&self.algs[i].view.frontier_coords),
            };
            let ghost before_saved = saved@;
            saved.push(sv);
            let ghost before_algs = self.algs@;
            let ghost before_nodes = nodes@;
            proof {
                assert forall|e: int| 0 <= e < before_nodes.len() implies active_id(
                    old_algs,
                    (#[trigger] before_nodes[e]).0,
                    i + 1,
                ) by {
                    lemma_active_id_grow(old_algs, before_nodes[e].0, i as int, i + 1);
                }
            }
            if self.algs[i].view.is_active() {
                let alg_id = self.algs[i].alg_id;
                let ghost a = old_algs[i as int];
                proof {
                    assert(alg_ok(a.view, a.cells@, count, k as nat));
                }
                let ghost n_before = nodes@;
                let digest = if self.algs[i].view.is_active_at(count) {
                    let d = match subtree {
                        Some(t) => evaluate(&self.algs[i].view.hasher, t),
                        None => self.algs[i].view.hasher.leaf(data),
                    };
                    nodes.push((alg_id, count, 0u32, copy_bytes(&d)));
                    d
                } else {
                    self.algs[i].view.hasher.null()
                };
                let ghost n_mid = nodes@;
                let ghost cells = match a.cells@ {
                    Some(c) => c,
                    None => Seq::<Seq<u8>>::empty(),
                };
                let ghost d = digest@;
                proof {
                    assert(pow(k as nat, 0) == 1);
                    assert(aligned(count as nat, 0, k as nat));
                    assert forall|e: int| 0 <= e < n_mid.len() implies (#[trigger] n_mid[e]).1 + pow(
                        k as nat,
                        n_mid[e].2 as nat,
                    ) == count + 1 && aligned(n_mid[e].1 as nat, n_mid[e].2 as nat, k as nat) by {
                        if e < n_before.len() {
                            assert(n_mid[e] == n_before[e]);
                        }
                    }
                }
                match carry::<H, S::Error>(&mut self.algs[i].view, alg_id, digest, count, k, &mut nodes, Ghost(cells)) {
                    Ok(()) => {},
                    Err(_) => {
                        proof {
                            assert(false);
                        }
                        return Err(Error::NoActiveAlgorithms);
                    },
                }
                proof {
                    assert forall|e: int| 0 <= e < nodes@.len() implies (#[trigger] nodes@[e]).1 + pow(
                        k as nat,
                        nodes@[e].2 as nat,
                    ) == count + 1 && aligned(nodes@[e].1 as nat, nodes@[e].2 as nat, k as nat) by {
                        if e < n_mid.len() {
                            assert(nodes@.subrange(0, n_mid.len() as int)[e] == nodes@[e]);
                        }
                    }
                }
                self.algs[i].cells = Ghost(
                    match a.cells@ {
                        Some(c) => Some(c.push(d)),
                        None => None,
                    },
                );
                proof {
                    let b = self.algs@[i as int];
                    let h = b.view.hasher;
                    let w = nodes@;
                    assert(w.subrange(0, n_mid.len() as int) == n_mid);
                    assert forall|e: int| 0 <= e < n_mid.len() implies #[trigger] w[e] == n_mid[e] by {
                        assert(w.subrange(0, n_mid.len() as int)[e] == w[e]);
                    }
                    assert forall|e: int| 0 <= e < n_before.len() implies #[trigger] n_mid[e] == n_before[e] by {}
                    assert(n_mid.len() == n_before.len() || (n_mid.len() == n_before.len() + 1 && n_mid[n_before.len() as int].0 == alg_id
                        && n_mid[n_before.len() as int].1 == count && n_mid[n_before.len() as int].2 == 0
                        && n_mid[n_before.len() as int].3@ == d && spec_is_active_at(a.view.epochs@, count as int)));
                    assert(n_mid.len() == n_before.len() ==> !spec_is_active_at(a.view.epochs@, count as int));
                    assert forall|e: int| 0 <= e < w.len() implies active_id(old_algs, (#[trigger] w[e]).0, i + 1) by {
                        if e < n_before.len() {
                            assert(w[e] == n_before[e]);
                        } else {
                            if e < n_mid.len() {
                                assert(w[e] == n_mid[e]);
                            }
                            assert(w[e].0 == alg_id);
                            assert(old_algs[i as int].alg_id == alg_id);
                            assert(0 <= i < i + 1 && spec_is_active(old_algs[i as int].view.epochs@));
                        }
                    }
                    assert forall|e: int| 0 <= e < n_before.len() implies (#[trigger] w[e]).0 != alg_id by {
                        assert(w[e] == n_before[e]);
                        assert(active_id(old_algs, n_before[e].0, i as int));
                        let j = choose|j: int|
                            0 <= j < i && spec_is_active(old_algs[j].view.epochs@) && old_algs[j].alg_id
                                == n_before[e].0;
                        assert(old_algs[j].alg_id != old_algs[i as int].alg_id);
                    }
                    assert forall|j: int| 0 <= j < i implies (spec_is_active(old_algs[j].view.epochs@)
                        && (#[trigger] self.algs@[j]).cells@ is Some ==> writes_ok(
                        w,
                        self.algs@[j].alg_id,
                        self.algs@[j].view.hasher,
                        self.algs@[j].cells@->0,
                        k as nat,
                    )) by {
                        assert(self.algs@[j] == before_algs[j]);
                        if spec_is_active(old_algs[j].view.epochs@) && self.algs@[j].cells@ is Some {
                            let idj = self.algs@[j].alg_id;
                            assert(idj == old_algs[j].alg_id);
                            assert(idj != alg_id);
                            assert(writes_ok(n_before, idj, self.algs@[j].view.hasher, self.algs@[j].cells@->0, k as nat));
                            let c2j = self.algs@[j].cells@->0;
                            let hj = self.algs@[j].view.hasher;
                            assert forall|e: int| 0 <= e < w.len() && (#[trigger] w[e]).0 == idj implies {
                                &&& w[e].1 + pow(k as nat, w[e].2 as nat) <= c2j.len()
                                &&& w[e].3@ == perfect(hj, c2j, w[e].1 as nat, w[e].2 as nat, k as nat)
                            } by {
                                if e >= n_before.len() {
                                    if e < n_mid.len() {
                                        assert(w[e] == n_mid[e]);
                                    }
                                    assert(w[e].0 == alg_id);
                                } else {
                                    assert(w[e] == n_before[e]);
                                }
                            }
                            assert forall|l: nat, ht: nat| aligned(l, ht, k as nat) && l + pow(k as nat, ht) == c2j.len()
                                && #[trigger] perfect(hj, c2j, l, ht, k as nat) != hj.spec_null() implies exists|e: int|
                                0 <= e < w.len() && (#[trigger] w[e]).0 == idj && w[e].1 == l && w[e].2 == ht by {
                                let e = choose|e: int|
                                    0 <= e < n_before.len() && (#[trigger] n_before[e]).0 == idj && n_before[e].1 == l
                                        && n_before[e].2 == ht;
                                assert(w[e] == n_before[e]);
                            }
                        }
                    }
                    if a.cells@ is Some {
                        let c = a.cells@->0;
                        let c2 = c.push(d);
                        assert(self.algs@[i as int].cells@ == Some(c2));
                        assert forall|e: int| 0 <= e < w.len() && (#[trigger] w[e]).0 == alg_id implies {
                            &&& w[e].1 + pow(k as nat, w[e].2 as nat) <= c2.len()
                            &&& w[e].3@ == perfect(h, c2, w[e].1 as nat, w[e].2 as nat, k as nat)
                        } by {
                            if e < n_before.len() {
                            } else if e < n_mid.len() {
                                assert(w[e] == n_mid[e]);
                                assert(pow(k as nat, 0) == 1);
                                assert(perfect(h, c2, count as nat, 0, k as nat) == c2[count as int]);
                            } else {
                                assert(crate::engine::sealed_node_ok(h, c2, k as nat, alg_id, w[e]));
                            }
                        }
                        assert forall|l: nat, ht: nat| aligned(l, ht, k as nat) && l + pow(k as nat, ht) == c2.len()
                            && #[trigger] perfect(h, c2, l, ht, k as nat) != h.spec_null() implies exists|e: int|
                            0 <= e < w.len() && (#[trigger] w[e]).0 == alg_id && w[e].1 == l && w[e].2 == ht by {
                            if ht == 0 {
                                assert(pow(k as nat, 0) == 1);
                                assert(l == count);
                                assert(perfect(h, c2, count as nat, 0, k as nat) == c2[count as int]);
                                assert(c2[count as int] == d);
                                if n_mid.len() == n_before.len() {
                                    assert(d == h.spec_null());
                                }
                                let e = n_before.len() as int;
                                assert(w[e] == n_mid[e]);
                            } else {
                                lemma_aligned_add(l, 1, k as nat, ht);
                                assert(l + 1 * pow(k as nat, ht) == count + 1);
                                crate::topology::lemma_trailing_of_multiple((count + 1) as nat, k as nat, ht);
                                assert(l == count + 1 - pow(k as nat, ht));
                                let e = choose|e: int|
                                    n_mid.len() <= e < w.len() && (#[trigger] w[e]).1 == count + 1 - pow(k as nat, ht) && w[e].2 == ht;
                                assert(w[e].0 == alg_id);
                            }
                        }
                    }
                    assert(spec_tree_size(b.view.epochs@, (count + 1) as u64) == count + 1);
                    assert(spec_epochs_valid(b.view.epochs@, (count + 1) as u64)) by {
                        let e = b.view.epochs@;
                        assert forall|t: int| 0 <= t < e.len() && #[trigger] e[t].1 != u64::MAX implies e[t].1 <= count + 1 by {}
                    }
                    if a.cells@ is Some {
                        let c = a.cells@->0;
                        let c2 = c.push(d);
                        assert forall|t: int| 0 <= t < c2.len() && !spec_is_active_at(b.view.epochs@, t) implies #[trigger] c2[t]
                            == b.view.hasher.spec_null() by {
                            if t < c.len() {
                                assert(c2[t] == c[t]);
                            }
                        }
                    }
                }
            }
            proof {
                assert forall|j: int| 0 <= j < i implies #[trigger] self.algs@[j] == before_algs[j] by {}
                assert forall|j: int| 0 <= j < i implies #[trigger] saved@[j] == before_saved[j] by {}

            }
            i = i + 1;
        }
        let mut j: usize = 0;
        while j < nodes.len()
            invariant
                old_algs == old(self).algs@,
                old(self).wf(),
                k == old(self).config.arity,
                j <= nodes@.len(),
                self.count == count,
                count == old(self).count,
                count < MAX_COUNT,
                self.config == old(self).config,
                self.kind == old(self).kind,
                same_ids(old_algs, self.algs@),
                saved@.len() == old_algs.len(),
                saved_from(old_algs, saved@, old_algs.len() as int),
                advanced(old_algs, self.algs@, count, data@, subtree, k as nat, old_algs.len() as int),
                self.storage.spec_leaves() == old(self).storage.spec_leaves(),
                self.storage.spec_nodes() == apply_writes(old(self).storage.spec_nodes(), nodes@.take(j as int)),
                writes_from_active(nodes@, old_algs, old_algs.len() as int),
                writes_cover(nodes@, self.algs@, old_algs, k as nat, old_algs.len() as int),
                forall|e: int| 0 <= e < nodes@.len() ==> (#[trigger] nodes@[e]).1 + pow(k as nat, nodes@[e].2 as nat)
                    == count + 1 && aligned(nodes@[e].1 as nat, nodes@[e].2 as nat, k as nat),
            decreases nodes@.len() - j,
        {
            let alg_id = nodes[j].0;
            let key = (nodes[j].1 << 16) | (nodes[j].2 as u64 & 0xFFFF);
            let ghost before_nodes = self.storage.spec_nodes();
            match self.storage.store_node(alg_id, key, nodes[j].3.as_slice()) {
                Ok(()) => {
                    proof {
                        let t = nodes@.take(j + 1);
                        assert(t.drop_last() =~= nodes@.take(j as int));
                        assert(t.last() == nodes@[j as int]);
                        assert(wkey(nodes@[j as int]) == (alg_id, key));
                    }
                },
                Err(e) => {
                    self.rollback(saved, Ghost(old_algs));
                    proof {
                        lemma_writes_end_at(old(self).storage.spec_nodes(), nodes@.take(j as int), (count + 1) as nat, k as nat);
                        assert forall|t: int| 0 <= t < self.algs@.len() implies alg_ok(
                            #[trigger] self.algs@[t].view,
                            self.algs@[t].cells@,
                            self.count,
                            self.config.arity as nat,
                        ) by {
                            assert(alg_ok(old_algs[t].view, old_algs[t].cells@, count, k as nat));
                            lemma_alg_ok_same_view(old_algs[t].view, self.algs@[t].view, old_algs[t].cells@, count, k as nat);
                        }
                        assert forall|a: int, b: int| 0 <= a < b < self.algs@.len() implies self.algs@[a].alg_id
                            != self.algs@[b].alg_id by {
                            assert(self.algs@[a].alg_id == old_algs[a].alg_id);
                            assert(self.algs@[b].alg_id == old_algs[b].alg_id);
                        }
                    }
                    return Err(Error::Storage(e));
                },
            }
            j = j + 1;
        }
        self.count = count + 1;
        proof {
            assert forall|t: int| 0 <= t < self.algs@.len() implies alg_ok(
                #[trigger] self.algs@[t].view,
                self.algs@[t].cells@,
                self.count,
                self.config.arity as nat,
            ) by {
                let a = old_algs[t];
                if !spec_is_active(a.view.epochs@) {
                    assert(alg_ok(a.view, a.cells@, count, k as nat));
                    lemma_alg_ok_frozen(a.view, a.cells@, count, k as nat);
                    lemma_alg_ok_same_view(a.view, self.algs@[t].view, a.cells@, (count + 1) as u64, k as nat);
                }
            }
            assert forall|a: int, b: int| 0 <= a < b < self.algs@.len() implies self.algs@[a].alg_id
                != self.algs@[b].alg_id by {
                assert(self.algs@[a].alg_id == old_algs[a].alg_id);
                assert(self.algs@[b].alg_id == old_algs[b].alg_id);
            }
            let nodes0 = old(self).storage.spec_nodes();
            let w = nodes@;
            assert(w.take(w.len() as int) =~= w);
            lemma_writes_end_at(nodes0, w, (count + 1) as nat, k as nat);
            assert forall|t: int| 0 <= t < self.algs@.len() implies ((#[trigger] self.algs@[t]).cells@ matches Some(c)
                ==> nodes_ok(self.storage.spec_nodes(), self.algs@[t].alg_id, self.algs@[t].view, c, k as nat)) by {
                let a = old_algs[t];
                let b = self.algs@[t];
                if b.cells@ is Some {
                    assert(a.cells@ is Some);
                    let c0 = a.cells@->0;
                    assert(nodes_ok(nodes0, a.alg_id, a.view, c0, k as nat));
                    if spec_is_active(a.view.epochs@) {
                        let c2 = b.cells@->0;
                        assert(alg_ok(a.view, a.cells@, count, k as nat));
                        assert(c2 == c0.push(c2.last()));
                        assert(alg_ok(b.view, b.cells@, (count + 1) as u64, k as nat));
                        assert(writes_ok(w, b.alg_id, b.view.hasher, c2, k as nat));
                        lemma_append_nodes_ok(nodes0, w, a.alg_id, a.view, b.view, c0, c2.last(), k as nat);
                    } else {
                        assert forall|e: int| 0 <= e < w.len() implies (#[trigger] w[e]).0 != a.alg_id by {
                            assert(active_id(old_algs, w[e].0, old_algs.len() as int));
                            let j = choose|j: int|
                                0 <= j < old_algs.len() && spec_is_active(old_algs[j].view.epochs@)
                                    && old_algs[j].alg_id == w[e].0;
                            assert(j != t);
                        }
                        lemma_other_nodes_ok(nodes0, w, a.alg_id, a.view, b.view, c0, k as nat);
                    }
                }
            }
        }
        Ok(())
    }
}

/// An append kept algorithm `o` as `n`: same hasher and epochs, and an
/// unchanged frontier when it was frozen.
pub open spec fn appended_alg<H: Hasher>(o: Option<AlgView<H>>, n: Option<AlgView<H>>) -> bool {
    match o {
        Some(v) => n matches Some(w) && w.hasher == v.hasher && w.epochs@ == v.epochs@ && (!spec_is_active(
            v.epochs@,
        ) ==> same_view(v, w)),
        None => n is None,
    }
}

/// An append at `count` extended the known cells of an active algorithm by
/// its appended cell, and kept those of a frozen one.
pub open spec fn appended_cells<H: Hasher>(
    o: Option<AlgView<H>>,
    oc: Option<Seq<Seq<u8>>>,
    nc: Option<Seq<Seq<u8>>>,
    count: u64,
    data: Seq<u8>,
    subtree: Option<&Subtree>,
) -> bool {
    match oc {
        Some(c) => o matches Some(v) && nc == Some(
            if spec_is_active(v.epochs@) {
                c.push(appended_cell(v.hasher, v.epochs@, count, data, subtree))
            } else {
                c
            },
        ),
        None => nc is None,
    }
}

/// A failed operation kept algorithm `o` as `n`.
pub open spec fn kept_alg<H: Hasher>(o: Option<AlgView<H>>, n: Option<AlgView<H>>) -> bool {
    match o {
        Some(v) => n matches Some(w) && same_view(v, w),
        None => n is None,
    }
}

impl<S: Storage, H: Hasher> NaryMerkleLog<S, H> {
    /// Whether some registered algorithm is active.
    pub closed spec fn spec_any_active(&self) -> bool {
        exists|i: int| 0 <= i < self.algs@.len() && spec_is_active(#[trigger] self.algs@[i].view.epochs@)
    }

    /// The per-algorithm relation between the states before and after an
    /// advance, read by algorithm ID.
    proof fn lemma_advance_by_id(
        old_log: &Self,
        new_log: &Self,
        data: Seq<u8>,
        subtree: Option<&Subtree>,
        ok: bool,
        id: u64,
    )
        requires
            same_ids(old_log.algs@, new_log.algs@),
            ok ==> advanced(
                old_log.algs@,
                new_log.algs@,
                old_log.count,
                data,
                subtree,
                old_log.config.arity as nat,
                old_log.algs@.len() as int,
            ),
            !ok ==> forall|j: int|
                0 <= j < old_log.algs@.len() ==> same_view(old_log.algs@[j].view, (#[trigger] new_log.algs@[j]).view)
                    && new_log.algs@[j].cells@ is None,
        ensures
            new_log.spec_ids() == old_log.spec_ids(),
            ok ==> appended_alg(old_log.spec_alg(id), new_log.spec_alg(id)),
            ok ==> appended_cells(
                old_log.spec_alg(id),
                old_log.spec_cells(id),
                new_log.spec_cells(id),
                old_log.count,
                data,
                subtree,
            ),
            !ok ==> kept_alg(old_log.spec_alg(id), new_log.spec_alg(id)),
            !ok ==> new_log.spec_cells(id) is None,
    {
        let oa = old_log.algs@;
        let na = new_log.algs@;
        assert(new_log.spec_ids() =~= old_log.spec_ids()) by {
            assert forall|j: int| 0 <= j < oa.len() implies new_log.spec_ids()[j] == old_log.spec_ids()[j] by {
                assert(na[j].alg_id == oa[j].alg_id);
            }
        }
        let ov = views_seq(oa);
        let nv = views_seq(na);
        let oc = cells_seq(oa);
        let nc = cells_seq(na);
        assert forall|j: int| 0 <= j < ov.len() implies #[trigger] ov[j].0 == nv[j].0 by {
            assert(na[j].alg_id == oa[j].alg_id);
        }
        assert forall|j: int| 0 <= j < ov.len() implies #[trigger] ov[j].0 == oc[j].0 by {}
        assert forall|j: int| 0 <= j < oc.len() implies #[trigger] oc[j].0 == nc[j].0 by {
            assert(na[j].alg_id == oa[j].alg_id);
        }
        let i1 = lemma_lookup_parallel(ov, nv, id);
        let i2 = lemma_lookup_parallel(ov, oc, id);
        let i3 = lemma_lookup_parallel(oc, nc, id);
        if lookup(ov, id) is Some {
            assert(i1 == i2) by {
                if i1 < i2 {
                    assert(oc[i1].0 == ov[i1].0);
                } else if i2 < i1 {
                    assert(ov[i2].0 == oc[i2].0);
                }
            }
            assert(i2 == i3) by {
                if i2 < i3 {
                    assert(ov[i2].0 == oc[i2].0);
                    assert(oc[i2].0 == id);
                } else if i3 < i2 {
                    assert(ov[i3].0 == oc[i3].0);
                    assert(oc[i3].0 == id);
                }
            }
            let a = oa[i1];
            let b = na[i1];
            if ok {
                assert(advanced(oa, na, old_log.count, data, subtree, old_log.config.arity as nat, oa.len() as int));
                assert(b == na[i1]);
            }
        }
    }

    /// Append a single flat leaf to the log.
    ///
    /// Fails with `CorruptedMetadata` (algorithm 0) when the log already
    /// holds subtree appends or is at capacity, with `NoActiveAlgorithms` when
    /// no algorithm is active, and with the storage error when a write fails;
    /// a failure leaves the log's count, kind and frontiers as they were.
    /// On success every active algorithm's cells grow by the leaf's hash (or
    /// null where its epochs do not cover the position), frozen algorithms
    /// are untouched, and the payload is stored.
    pub fn append_leaf(&mut self, data: &[u8]) -> (r: Result<(), Error<S::Error>>)
        requires
            old(self).wf(),
        ensures
            changed_only_ending_at(
                old(self).spec_storage().spec_nodes(),
                final(self).spec_storage().spec_nodes(),
                (old(self).spec_count() + 1) as nat,
                old(self).spec_arity() as nat,
            ),
            final(self).wf(),
            final(self).spec_ids() == old(self).spec_ids(),
            final(self).spec_arity() == old(self).spec_arity(),
            (old(self).spec_kind() == LogKind::Subtree && old(self).spec_count() > 0)
                || old(self).spec_count() >= MAX_COUNT ==> r matches Err(Error::CorruptedMetadata { alg_id: 0, .. }),
            r matches Err(Error::CorruptedMetadata { .. }) ==> (old(self).spec_kind() == LogKind::Subtree
                && old(self).spec_count() > 0) || old(self).spec_count() >= MAX_COUNT,
            r matches Err(Error::NoActiveAlgorithms) <==> !(old(self).spec_kind() == LogKind::Subtree
                && old(self).spec_count() > 0) && old(self).spec_count() < MAX_COUNT
                && !old(self).spec_any_active(),
            r matches Err(e) ==> e is CorruptedMetadata || e is NoActiveAlgorithms || e is Storage,
            r is Err ==> {
                &&& final(self).spec_count() == old(self).spec_count()
                &&& final(self).spec_kind() == old(self).spec_kind()
                &&& forall|id: u64| kept_alg(old(self).spec_alg(id), #[trigger] final(self).spec_alg(id))
                &&& forall|id: u64|
                    #[trigger] final(self).spec_cells(id) == old(self).spec_cells(id) || final(self).spec_cells(id) is None
                &&& final(self).spec_storage().spec_leaves().len() == old(self).spec_storage().spec_leaves().len()
                    ==> forall|id: u64| #[trigger] final(self).spec_cells(id) == old(self).spec_cells(id)
            },
            r is Ok ==> {
                &&& final(self).spec_count() == old(self).spec_count() + 1
                &&& final(self).spec_kind() == LogKind::Flat
                &&& final(self).spec_storage().spec_leaves() == old(self).spec_storage().spec_leaves().push(data@)
                &&& forall|id: u64| appended_alg(old(self).spec_alg(id), #[trigger] final(self).spec_alg(id))
                &&& forall|id: u64|
                    appended_cells(
                        old(self).spec_alg(id),
                        old(self).spec_cells(id),
                        #[trigger] final(self).spec_cells(id),
                        old(self).spec_count(),
                        data@,
                        None,
                    )
            },
    {
        if self.kind == LogKind::Subtree && self.count > 0 {
            return Err(
                Error::CorruptedMetadata {
                    alg_id: 0,
                    reason: "cannot append leaf after subtree appends".to_owned(),
                },
            );
        }
        if self.count >= MAX_COUNT {
            return Err(
                Error::CorruptedMetadata {
                    alg_id: 0,
                    reason: "log capacity exceeded (max 2^47 items)".to_owned(),
                },
            );
        }
        if !self.any_active() {
            return Err(Error::NoActiveAlgorithms);
        }
        let ghost before = *self;
        match self.storage.store_leaf(self.count, data) {
            Ok(()) => {},
            Err(e) => {
                proof {
                    assert(self.algs@ == before.algs@);
                    assert forall|id: u64| true implies self.spec_alg(id) == before.spec_alg(id)
                        && self.spec_cells(id) == before.spec_cells(id) by {}
                }
                return Err(Error::Storage(e));
            },
        }
        let ghost mid = *self;
        let res = self.advance(data, None);
        if res.is_ok() {
            self.kind = LogKind::Flat;
        }
        proof {
            if res is Ok {
                assert forall|id: u64| appended_alg(old(self).spec_alg(id), #[trigger] self.spec_alg(id)) by {
                    Self::lemma_advance_by_id(&mid, self, data@, None, true, id);
                    assert(mid.spec_alg(id) == old(self).spec_alg(id));
                    assert(mid.spec_cells(id) == old(self).spec_cells(id));
                }
                assert forall|id: u64|
                    appended_cells(
                        old(self).spec_alg(id),
                        old(self).spec_cells(id),
                        #[trigger] self.spec_cells(id),
                        old(self).spec_count(),
                        data@,
                        None,
                    ) by {
                    Self::lemma_advance_by_id(&mid, self, data@, None, true, id);
                    assert(mid.spec_alg(id) == old(self).spec_alg(id));
                    assert(mid.spec_cells(id) == old(self).spec_cells(id));
                }
            } else {
                assert forall|id: u64| kept_alg(old(self).spec_alg(id), #[trigger] self.spec_alg(id)) by {
                    Self::lemma_advance_by_id(&mid, self, data@, None, false, id);
                    assert(mid.spec_alg(id) == old(self).spec_alg(id));
                    assert(mid.spec_cells(id) == old(self).spec_cells(id));
                }
                assert forall|id: u64| #[trigger] self.spec_cells(id) == old(self).spec_cells(id) || self.spec_cells(id) is None by {
                    Self::lemma_advance_by_id(&mid, self, data@, None, false, id);
                    assert(mid.spec_alg(id) == old(self).spec_alg(id));
                    assert(mid.spec_cells(id) == old(self).spec_cells(id));
                }
            }
            Self::lemma_advance_by_id(&mid, self, data@, None, res is Ok, 0);
        }
        res
    }

    /// Append a structured subtree to the log: its evaluated root is the
    /// appended digest.
    ///
    /// Fails with `CorruptedMetadata` (algorithm 0) when the log already
    /// holds flat appends or is at capacity, with `NoActiveAlgorithms` when no
    /// algorithm is active, and with the storage error when a write fails; a
    /// failure leaves the log's count, kind and frontiers as they were. On
    /// success every active algorithm's cells grow by the subtree's root (or
    /// null where its epochs do not cover the position).
    pub fn append_subtree(&mut self, subtree: &Subtree) -> (r: Result<(), Error<S::Error>>)
        requires
            old(self).wf(),
        ensures
            changed_only_ending_at(
                old(self).spec_storage().spec_nodes(),
                final(self).spec_storage().spec_nodes(),
                (old(self).spec_count() + 1) as nat,
                old(self).spec_arity() as nat,
            ),
            final(self).wf(),
            final(self).spec_ids() == old(self).spec_ids(),
            final(self).spec_arity() == old(self).spec_arity(),
            (old(self).spec_kind() == LogKind::Flat && old(self).spec_count() > 0)
                || old(self).spec_count() >= MAX_COUNT ==> r matches Err(Error::CorruptedMetadata { alg_id: 0, .. }),
            r matches Err(Error::CorruptedMetadata { .. }) ==> (old(self).spec_kind() == LogKind::Flat
                && old(self).spec_count() > 0) || old(self).spec_count() >= MAX_COUNT,
            r matches Err(Error::NoActiveAlgorithms) <==> !(old(self).spec_kind() == LogKind::Flat
                && old(self).spec_count() > 0) && old(self).spec_count() < MAX_COUNT
                && !old(self).spec_any_active(),
            r matches Err(e) ==> e is CorruptedMetadata || e is NoActiveAlgorithms || e is Storage,
            r is Err ==> {
                &&& final(self).spec_count() == old(self).spec_count()
                &&& final(self).spec_kind() == old(self).spec_kind()
                &&& forall|id: u64| kept_alg(old(self).spec_alg(id), #[trigger] final(self).spec_alg(id))
                &&& forall|id: u64|
                    #[trigger] final(self).spec_cells(id) == old(self).spec_cells(id) || final(self).spec_cells(id) is None
            },
            r is Ok ==> {
                &&& final(self).spec_count() == old(self).spec_count() + 1
                &&& final(self).spec_kind() == LogKind::Subtree
                &&& final(self).spec_storage().spec_leaves() == old(self).spec_storage().spec_leaves()
                &&& forall|id: u64| appended_alg(old(self).spec_alg(id), #[trigger] final(self).spec_alg(id))
                &&& forall|id: u64|
                    appended_cells(
                        old(self).spec_alg(id),
                        old(self).spec_cells(id),
                        #[trigger] final(self).spec_cells(id),
                        old(self).spec_count(),
                        Seq::empty(),
                        Some(subtree),
                    )
            },
    {
        if self.kind == LogKind::Flat && self.count > 0 {
            return Err(
                Error::CorruptedMetadata {
                    alg_id: 0,
                    reason: "cannot append subtree after leaf appends".to_owned(),
                },
            );
        }
        if self.count >= MAX_COUNT {
            return Err(
                Error::CorruptedMetadata {
                    alg_id: 0,
                    reason: "log capacity exceeded (max 2^47 items)".to_owned(),
                },
            );
        }
        if !self.any_active() {
            return Err(Error::NoActiveAlgorithms);
        }
        let ghost mid = *self;
        let empty: [u8; 0] = [];
        let res = self.advance(&empty, Some(subtree));
        if res.is_ok() {
            self.kind = LogKind::Subtree;
        }
        proof {
            assert(empty@ =~= Seq::<u8>::empty());
            if res is Ok {
                assert forall|id: u64| appended_alg(old(self).spec_alg(id), #[trigger] self.spec_alg(id)) by {
                    Self::lemma_advance_by_id(&mid, self, Seq::empty(), Some(subtree), true, id);
                }
                assert forall|id: u64|
                    appended_cells(
                        old(self).spec_alg(id),
                        old(self).spec_cells(id),
                        #[trigger] self.spec_cells(id),
                        old(self).spec_count(),
                        Seq::empty(),
                        Some(subtree),
                    ) by {
                    Self::lemma_advance_by_id(&mid, self, Seq::empty(), Some(subtree), true, id);
                }
            } else {
                assert forall|id: u64| kept_alg(old(self).spec_alg(id), #[trigger] self.spec_alg(id)) by {
                    Self::lemma_advance_by_id(&mid, self, Seq::empty(), Some(subtree), false, id);
                }
                assert forall|id: u64| #[trigger] self.spec_cells(id) == old(self).spec_cells(id) || self.spec_cells(id) is None by {
                    Self::lemma_advance_by_id(&mid, self, Seq::empty(), Some(subtree), false, id);
                }
            }
            Self::lemma_advance_by_id(&mid, self, Seq::empty(), Some(subtree), res is Ok, 0);
        }
        res
    }
}

impl<S: Storage, H: Hasher> NaryMerkleLog<S, H> {
    /// The node values the log reads for the algorithm at position `idx`.
    closed spec fn spec_vals(&self, idx: int) -> spec_fn(nat, nat) -> Seq<u8> {
        let a = self.algs@[idx];
        let nodes = self.storage.spec_nodes();
        let k = self.config.arity as nat;
        |l: nat, h: nat| node_value(nodes, a.alg_id, a.view, k, l, h)
    }

    /// Read the node at `(left, height)` for the algorithm at position `idx`,
    /// or its null constant when the range carries no active position.
    fn node_hash(&self, idx: usize, left: u64, height: u32) -> (r: Result<Vec<u8>, Error<S::Error>>)
        requires
            self.wf(),
            idx < self.algs@.len(),
        ensures
            r matches Ok(v) ==> v@ == (self.spec_vals(idx as int))(left as nat, height as nat),
            r matches Err(e) ==> e is Storage,
    {
        let k = self.config.arity;
        let view = &self.algs[idx].view;
        let cap = match checked_pow(k, height) {
            Some(c) => c,
            None => {
                return Ok(view.hasher.null());
            },
        };
        let limit = match left.checked_add(cap) {
            Some(v) => v,
            None => {
                return Ok(view.hasher.null());
            },
        };
        if !view.active_range(left, limit) {
            return Ok(view.hasher.null());
        }
        let key = (left << 16) | (height as u64 & 0xFFFF);
        match self.storage.get_node(self.algs[idx].alg_id, key) {
            Err(e) => Err(Error::Storage(e)),
            Ok(Some(h)) => Ok(h),
            Ok(None) => Ok(view.hasher.null()),
        }
    }
}

/// Integer facts about the child of a bisection step: the child index
/// `c = off / p` is below `k`, and `off` lies inside child `c`.
pub proof fn lemma_child_index(off: nat, p: nat, k: nat)
    requires
        p >= 1,
        off < k * p,
    ensures
        off / p < k,
        (off / p) * p <= off,
        off < (off / p) * p + p,
        (off / p + 1) * p <= k * p,
{
    let c = off / p;
    vstd::arithmetic::div_mod::lemma_fundamental_div_mod(off as int, p as int);
    assert(off == p * c + off % p);
    assert(0 <= off % p < p) by {
        vstd::arithmetic::div_mod::lemma_mod_pos_bound(off as int, p as int);
    }
    assert(c * p <= off) by (nonlinear_arith)
        requires
            off == p * c + off % p,
            off % p >= 0,
    ;
    assert(off < p * c + p);
    assert(p * c == c * p) by (nonlinear_arith);
    assert(c < k) by (nonlinear_arith)
        requires
            c * p <= off,
            off < k * p,
            p >= 1,
    ;
    assert((c + 1) * p <= k * p) by (nonlinear_arith)
        requires
            c + 1 <= k,
            p >= 1,
    ;
}

impl<S: Storage, H: Hasher> NaryMerkleLog<S, H> {
    /// Walk from the node `(left, height)` down to the height-`target_height`
    /// node holding `target`, appending one step per level (top first): the
    /// siblings of the child on the way, read from storage.
    #[verifier::rlimit(40)]
    fn log_level_bisection_path_to_height(
        &self,
        idx: usize,
        left: u64,
        height: u32,
        target: u64,
        target_height: u32,
        path: &mut Vec<ProofStep>,
    ) -> (r: Result<(), Error<S::Error>>)
        requires
            self.wf(),
            idx < self.algs@.len(),
            target_height <= height,
            left <= target,
            target < left + pow(self.spec_arity() as nat, height as nat),
            left + pow(self.spec_arity() as nat, height as nat) <= u64::MAX,
        ensures
            r matches Err(e) ==> e is Storage,
            r is Ok ==> steps_view(final(path)@) == steps_view(old(path)@) + bisect_down(
                self.spec_vals(idx as int),
                left as nat,
                height as nat,
                target as nat,
                target_height as nat,
                self.spec_arity() as nat,
            ),
    {
        let k = self.config.arity;
        let ghost kn = k as nat;
        let ghost vals = self.spec_vals(idx as int);
        let ghost goal = steps_view(path@) + bisect_down(
            vals,
            left as nat,
            height as nat,
            target as nat,
            target_height as nat,
            kn,
        );
        let mut curr_left = left;
        let mut curr_height = height;
        while curr_height > target_height
            invariant
                self.wf(),
                idx < self.algs@.len(),
                k == self.config.arity,
                kn == k as nat,
                2 <= k <= 256,
                vals == self.spec_vals(idx as int),
                target_height <= curr_height,
                curr_left <= target,
                target < curr_left + pow(kn, curr_height as nat),
                curr_left + pow(kn, curr_height as nat) <= left + pow(kn, height as nat),
                left + pow(kn, height as nat) <= u64::MAX,
                steps_view(path@) + bisect_down(
                    vals,
                    curr_left as nat,
                    curr_height as nat,
                    target as nat,
                    target_height as nat,
                    kn,
                ) == goal,
            decreases curr_height,
        {
            let hc = curr_height - 1;
            proof {
                lemma_pow_succ(kn, hc as nat);
                lemma_pow_positive(kn, hc as nat);
            }
            let cap = match checked_pow(k, hc) {
                Some(c) => c,
                None => {
                    proof {
                        assert(pow(kn, hc as nat) <= pow(kn, curr_height as nat)) by (nonlinear_arith)
                            requires
                                pow(kn, curr_height as nat) == kn * pow(kn, hc as nat),
                                kn >= 2,
                        ;
                    }
                    return Ok(());
                },
            };
            let child_idx = (target - curr_left) / cap;
            proof {
                lemma_child_index((target - curr_left) as nat, cap as nat, kn);
                assert(child_idx * cap + cap == (child_idx + 1) * cap) by (nonlinear_arith);
                assert(kn * cap == pow(kn, curr_height as nat));
            }
            let mut siblings: Vec<Vec<u8>> = Vec::new();
            let ghost sib = siblings_of(vals, curr_left as nat, hc as nat, child_idx as nat, kn);
            let mut j: u64 = 0;
            while j < k
                invariant
                    self.wf(),
                    idx < self.algs@.len(),
                    k == self.config.arity,
                    kn == k as nat,
                    2 <= k <= 256,
                    vals == self.spec_vals(idx as int),
                    cap == pow(kn, hc as nat),
                    cap >= 1,
                    child_idx < k,
                    curr_left + k * cap <= u64::MAX,
                    j <= k,
                    sib == siblings_of(vals, curr_left as nat, hc as nat, child_idx as nat, kn),
                    digests_view(siblings@) == sib.take(if j <= child_idx { j as int } else { j - 1 }),
                decreases k - j,
            {
                if j != child_idx {
                    proof {
                        assert(j * cap <= k * cap) by (nonlinear_arith)
                            requires
                                j <= k,
                                cap >= 1,
                        ;
                    }
                    let c_left = curr_left + j * cap;
                    let v = match self.node_hash(idx, c_left, hc) {
                        Ok(v) => v,
                        Err(e) => {
                            return Err(e);
                        },
                    };
                    let ghost before = siblings@;
                    siblings.push(v);
                    proof {
                        crate::hasher::lemma_digests_push(before, v);
                        let pos = if j < child_idx { j as int } else { j - 1 };
                        assert(sib[pos] == vals(
                            (curr_left + (if pos < child_idx { pos } else { pos + 1 }) * pow(kn, hc as nat)) as nat,
                            hc as nat,
                        ));
                        assert(digests_view(siblings@) =~= sib.take(pos + 1));
                    }
                }
                j = j + 1;
            }
            proof {
                assert(sib.len() == kn - 1);
                assert(sib.take(kn - 1) =~= sib);
            }
            let step = ProofStep { siblings, position: child_idx as usize };
            let ghost before_path = path@;
            path.push(step);
            proof {
                assert(steps_view(path@) =~= steps_view(before_path).push((sib, child_idx as nat)));
                let rest = bisect_down(
                    vals,
                    (curr_left + child_idx * cap) as nat,
                    hc as nat,
                    target as nat,
                    target_height as nat,
                    kn,
                );
                assert(bisect_down(
                    vals,
                    curr_left as nat,
                    curr_height as nat,
                    target as nat,
                    target_height as nat,
                    kn,
                ) == seq![(sib, child_idx as nat)] + rest);
                assert(steps_view(before_path) + (seq![(sib, child_idx as nat)] + rest)
                    =~= steps_view(path@) + rest);
            }
            curr_left = curr_left + child_idx * cap;
            curr_height = hc;
        }
        proof {
            assert(bisect_down(
                vals,
                curr_left as nat,
                curr_height as nat,
                target as nat,
                target_height as nat,
                kn,
            ) =~= Seq::<(Seq<Seq<u8>>, nat)>::empty());
            assert(steps_view(path@) + Seq::<(Seq<Seq<u8>>, nat)>::empty() =~= steps_view(path@));
        }
        Ok(())
    }
}

/// The peak values of the frontier of `n` cells, read through `vals`.
pub open spec fn peak_values(vals: spec_fn(nat, nat) -> Seq<u8>, n: nat, k: nat) -> Seq<Seq<u8>> {
    frontier_spec(n, k).map_values(|c: (nat, nat)| vals(c.0, c.1))
}

/// The inclusion path for `index` in a log of `n` cells whose nodes read as
/// `vals`: up from the leaf to its frontier peak, then across the frontier
/// fold.
pub open spec fn inclusion_steps<H: Hasher>(
    h: H,
    vals: spec_fn(nat, nat) -> Seq<u8>,
    n: nat,
    index: nat,
    k: nat,
) -> Seq<(Seq<Seq<u8>>, nat)> {
    let fs = frontier_spec(n, k);
    let f = peak_of(fs, index, k);
    bisect_down(vals, fs[f].0, fs[f].1, index, 0, k).reverse() + merge_steps(
        h,
        peak_values(vals, n, k),
        f as nat,
        k,
    )
}

/// The mountain inclusion path for `index` in a log of `n` cells whose
/// nodes read as `vals`: up from the leaf to its frontier peak, then along
/// that peak's bag path to the bag of the frontier peaks.
pub open spec fn mountain_inclusion_steps<H: Hasher>(
    h: H,
    vals: spec_fn(nat, nat) -> Seq<u8>,
    n: nat,
    index: nat,
    k: nat,
) -> Seq<(Seq<Seq<u8>>, nat)> {
    let fs = frontier_spec(n, k);
    let f = peak_of(fs, index, k);
    bisect_down(vals, fs[f].0, fs[f].1, index, 0, k).reverse() + bag_path_spec(
        h,
        peak_values(vals, n, k),
        f as nat,
        k,
    )
}

/// The steps of `v` in reverse order.
pub(crate) fn reversed(v: Vec<ProofStep>) -> (r: Vec<ProofStep>)
    ensures
        steps_view(r@) == steps_view(v@).reverse(),
{
    let ghost sv = steps_view(v@);
    let mut v = v;
    let mut r: Vec<ProofStep> = Vec::new();
    while v.len() > 0
        invariant
            v@.len() <= sv.len(),
            steps_view(v@) == sv.take(v@.len() as int),
            steps_view(r@) == sv.skip(v@.len() as int).reverse(),
        decreases v@.len(),
    {
        let ghost before_v = v@;
        let ghost before_r = r@;
        let s = v.pop().unwrap();
        r.push(s);
        proof {
            let n = v@.len() as int;
            assert(steps_view(v@) =~= sv.take(n)) by {
                assert(v@ =~= before_v.drop_last());
            }
            assert(step_view(s) == sv[n]) by {
                assert(s == before_v[n]);
                assert(steps_view(before_v)[n] == step_view(before_v[n]));
                assert(sv.take(n + 1)[n] == sv[n]);
            }
            assert(steps_view(r@) =~= sv.skip(n).reverse()) by {
                assert(steps_view(r@) =~= steps_view(before_r).push(step_view(s)));
            }
        }
    }
    proof {
        assert(sv.skip(0) =~= sv);
    }
    r
}

impl<S: Storage, H: Hasher> NaryMerkleLog<S, H> {
    /// The node values read back for algorithm `alg_id` (null throughout for
    /// an unregistered one).
    pub open spec fn spec_node_vals(&self, alg_id: u64) -> spec_fn(nat, nat) -> Seq<u8> {
        let nodes = self.spec_storage().spec_nodes();
        let k = self.spec_arity() as nat;
        match self.spec_alg(alg_id) {
            Some(v) => |l: nat, h: nat| node_value(nodes, alg_id, v, k, l, h),
            None => |l: nat, h: nat| Seq::<u8>::empty(),
        }
    }

    /// Generate an inclusion proof for the item at `index` in the tree of size
    /// `tree_size` of algorithm `alg_id`.
    ///
    /// Fails with `UnknownAlgorithm` exactly when `alg_id` is not registered
    /// (and with a storage error when a read fails). Returns `None` when
    /// `tree_size` is 0, `index` is not below it, or it exceeds the
    /// algorithm's tree size; otherwise the proof's path is the inclusion
    /// path of `index` over the nodes the log reads back.
    #[verifier::rlimit(80)]
    pub fn inclusion_proof_for(&self, alg_id: u64, index: u64, tree_size: u64) -> (r: Result<
        Option<InclusionProof>,
        Error<S::Error>,
    >)
        requires
            self.wf(),
        ensures
            self.spec_alg(alg_id) is None <==> r matches Err(Error::UnknownAlgorithm(_)),
            r matches Err(Error::UnknownAlgorithm(id)) ==> id == alg_id,
            r matches Err(e) ==> e is UnknownAlgorithm || e is Storage,
            self.spec_alg(alg_id) matches Some(v) ==> {
                let bad = tree_size == 0 || index >= tree_size || tree_size > spec_tree_size(
                    v.epochs@,
                    self.spec_count(),
                );
                &&& bad ==> r == Ok::<Option<InclusionProof>, Error<S::Error>>(None)
                &&& r matches Ok(None) ==> bad
                &&& r matches Ok(Some(p)) ==> {
                    &&& p.index == index
                    &&& p.tree_size == tree_size
                    &&& steps_view(p.path@) == inclusion_steps(
                        v.hasher,
                        self.spec_node_vals(alg_id),
                        tree_size as nat,
                        index as nat,
                        self.spec_arity() as nat,
                    )
                    &&& self.spec_cells(alg_id) matches Some(c) ==> path_root(
                        v.hasher,
                        c[index as int],
                        steps_view(p.path@),
                    ) == Some(member_root(v.hasher, c.take(tree_size as int), self.spec_arity() as nat))
                }
            },
    {
        let idx = match self.find(alg_id) {
            None => {
                return Err(Error::UnknownAlgorithm(alg_id));
            },
            Some(i) => i,
        };
        let k = self.config.arity;
        let ghost kn = k as nat;
        proof {
            assert(alg_ok(self.algs@[idx as int].view, self.algs@[idx as int].cells@, self.count, kn));
            assert(self.spec_node_vals(alg_id) =~= self.spec_vals(idx as int));
        }
        let max_size = self.algs[idx].view.tree_size(self.count);
        if tree_size == 0 || index >= tree_size || tree_size > max_size {
            return Ok(None);
        }
        proof {
            assert(max_size <= self.count) by {
                let e = self.algs@[idx as int].view.epochs@;
                if !spec_is_active(e) {
                    assert(e.last().1 != u64::MAX);
                }
            }
        }
        let coords = frontier_for_size(tree_size, k);
        let f = find_peak(&coords, index, tree_size, k);
        let ghost fs = frontier_spec(tree_size as nat, kn);
        let (left, height) = coords[f];
        proof {
            assert(fs[f as int] == (left as nat, height as nat));
            lemma_frontier_within(tree_size as nat, kn, 0);
        }
        let mut down: Vec<ProofStep> = Vec::new();
        match self.log_level_bisection_path_to_height(idx, left, height, index, 0, &mut down) {
            Ok(()) => {},
            Err(e) => {
                return Err(e);
            },
        }
        proof {
            assert(steps_view(down@) =~= bisect_down(
                self.spec_vals(idx as int),
                left as nat,
                height as nat,
                index as nat,
                0,
                kn,
            ));
        }
        let mut path = reversed(down);
        let mut hashes: Vec<Vec<u8>> = Vec::new();
        let mut c: usize = 0;
        let ghost pv = peak_values(self.spec_vals(idx as int), tree_size as nat, kn);
        while c < coords.len()
            invariant
                self.wf(),
                idx < self.algs@.len(),
                self.spec_alg(alg_id) == Some(self.algs@[idx as int].view),
                0 < tree_size,
                index < tree_size,
                tree_size <= spec_tree_size(self.algs@[idx as int].view.epochs@, self.count),
                k == self.config.arity,
                kn == k as nat,
                c <= coords@.len(),
                coords_view(coords@) == fs,
                fs == frontier_spec(tree_size as nat, kn),
                pv == peak_values(self.spec_vals(idx as int), tree_size as nat, kn),
                digests_view(hashes@) == pv.take(c as int),
                forall|i: int| 0 <= i < fs.len() ==> #[trigger] fs[i].0 + pow(kn, fs[i].1) <= tree_size,
                tree_size <= MAX_COUNT,
            decreases coords@.len() - c,
        {
            let (l, ht) = coords[c];
            let v = match self.node_hash(idx, l, ht) {
                Ok(v) => v,
                Err(e) => {
                    return Err(e);
                },
            };
            let ghost before = hashes@;
            hashes.push(v);
            proof {
                crate::hasher::lemma_digests_push(before, v);
                assert(fs[c as int] == (l as nat, ht as nat));
                assert(digests_view(hashes@) =~= pv.take(c + 1));
            }
            c = c + 1;
        }
        proof {
            assert(pv.take(pv.len() as int) =~= pv);
        }
        merge_frontier_paths(hashes, f, k as usize, &self.algs[idx].view.hasher, &mut path);
        proof {
            let a = self.algs@[idx as int];
            if a.cells@ is Some {
                let c = a.cells@->0;
                let vals = self.spec_vals(idx as int);
                assert(nodes_ok(self.storage.spec_nodes(), a.alg_id, a.view, c, kn));
                assert(vals =~= vals_of(self.storage.spec_nodes(), a.alg_id, a.view, kn));
                assert(vals_agree(a.view.hasher, vals, c, tree_size as nat, kn));
                lemma_inclusion_complete(a.view.hasher, vals, c, tree_size as nat, index as nat, kn);
            }
        }
        Ok(Some(InclusionProof { index, tree_size, path }))
    }

    /// Generate an inclusion proof for the default algorithm (0).
    pub fn inclusion_proof(&self, index: u64, tree_size: u64) -> (r: Result<
        Option<InclusionProof>,
        Error<S::Error>,
    >)
        requires
            self.wf(),
        ensures
            self.spec_alg(0) is None <==> r matches Err(Error::UnknownAlgorithm(_)),
            r matches Err(e) ==> e is UnknownAlgorithm || e is Storage,
            self.spec_alg(0) matches Some(v) ==> {
                let bad = tree_size == 0 || index >= tree_size || tree_size > spec_tree_size(
                    v.epochs@,
                    self.spec_count(),
                );
                &&& bad ==> r == Ok::<Option<InclusionProof>, Error<S::Error>>(None)
                &&& r matches Ok(None) ==> bad
                &&& r matches Ok(Some(p)) ==> {
                    &&& p.index == index
                    &&& p.tree_size == tree_size
                    &&& steps_view(p.path@) == inclusion_steps(
                        v.hasher,
                        self.spec_node_vals(0),
                        tree_size as nat,
                        index as nat,
                        self.spec_arity() as nat,
                    )
                    &&& self.spec_cells(0) matches Some(c) ==> path_root(
                        v.hasher,
                        c[index as int],
                        steps_view(p.path@),
                    ) == Some(member_root(v.hasher, c.take(tree_size as int), self.spec_arity() as nat))
                }
            },
    {
        self.inclusion_proof_for(0, index, tree_size)
    }
}

/// The consistency path from a log of `old_size` cells to one of `new_size`
/// whose nodes read as `vals`: the old boundary peak, up to the new frontier
/// peak holding it, then across the new frontier fold; `None` when that new
/// peak is lower than the boundary.
pub open spec fn consistency_steps<H: Hasher>(
    h: H,
    vals: spec_fn(nat, nat) -> Seq<u8>,
    old_size: nat,
    new_size: nat,
    k: nat,
) -> Option<(Seq<u8>, Seq<(Seq<Seq<u8>>, nat)>)> {
    let ofs = frontier_spec(old_size, k);
    let b = ofs.last();
    let nfs = frontier_spec(new_size, k);
    let f = peak_of(nfs, b.0, k);
    if nfs[f].1 < b.1 {
        None
    } else {
        Some(
            (
                vals(b.0, b.1),
                bisect_down(vals, nfs[f].0, nfs[f].1, b.0, b.1, k).reverse() + merge_steps(
                    h,
                    peak_values(vals, new_size, k),
                    f as nat,
                    k,
                ),
            ),
        )
    }
}

/// The mountain consistency proof between `o` and `n` cells whose nodes
/// read as `vals`: the old boundary peak, the bisection climb from it to
/// the new frontier peak holding it, the new frontier peaks, and that
/// peak's slot.
pub open spec fn mountain_proof(vals: spec_fn(nat, nat) -> Seq<u8>, o: nat, n: nat, k: nat) -> (
    Seq<u8>,
    Seq<(Seq<Seq<u8>>, nat)>,
    Seq<Seq<u8>>,
    nat,
) {
    let b = frontier_spec(o, k).last();
    let nfs = frontier_spec(n, k);
    let f = peak_of(nfs, b.0, k);
    (
        vals(b.0, b.1),
        bisect_down(vals, nfs[f].0, nfs[f].1, b.0, b.1, k).reverse(),
        peak_values(vals, n, k),
        f as nat,
    )
}

/// The digests of a mountain consistency proof have the hasher's length
/// `dl`, from 1 to 64 bytes.
pub open spec fn mountain_proof_fits(dl: nat, p: (Seq<u8>, Seq<(Seq<Seq<u8>>, nat)>, Seq<Seq<u8>>, nat)) -> bool {
    &&& 1 <= dl <= 64
    &&& p.0.len() == dl
    &&& forall|i: int| 0 <= i < p.2.len() ==> (#[trigger] p.2[i]).len() == dl
}

impl<S: Storage, H: Hasher> NaryMerkleLog<S, H> {
    /// The peak values at the frontier of `n` cells, read for the algorithm
    /// at position `idx`.
    fn read_peaks(&self, idx: usize, coords: &Vec<(u64, u32)>, n: u64) -> (r: Result<
        Vec<Vec<u8>>,
        Error<S::Error>,
    >)
        requires
            self.wf(),
            idx < self.algs@.len(),
            n <= MAX_COUNT,
            coords_view(coords@) == frontier_spec(n as nat, self.spec_arity() as nat),
        ensures
            r matches Ok(v) ==> digests_view(v@) == peak_values(
                self.spec_vals(idx as int),
                n as nat,
                self.spec_arity() as nat,
            ),
            r matches Err(e) ==> e is Storage,
    {
        let ghost kn = self.config.arity as nat;
        let ghost fs = frontier_spec(n as nat, kn);
        let ghost pv = peak_values(self.spec_vals(idx as int), n as nat, kn);
        let mut hashes: Vec<Vec<u8>> = Vec::new();
        let mut c: usize = 0;
        while c < coords.len()
            invariant
                self.wf(),
                idx < self.algs@.len(),
                kn == self.config.arity as nat,
                c <= coords@.len(),
                coords_view(coords@) == fs,
                fs == frontier_spec(n as nat, kn),
                pv == peak_values(self.spec_vals(idx as int), n as nat, kn),
                digests_view(hashes@) == pv.take(c as int),
            decreases coords@.len() - c,
        {
            let (l, ht) = coords[c];
            let v = match self.node_hash(idx, l, ht) {
                Ok(v) => v,
                Err(e) => {
                    return Err(e);
                },
            };
            let ghost before = hashes@;
            hashes.push(v);
            proof {
                crate::hasher::lemma_digests_push(before, v);
                assert(fs[c as int] == (l as nat, ht as nat));
                assert(digests_view(hashes@) =~= pv.take(c + 1));
            }
            c = c + 1;
        }
        proof {
            assert(pv.take(pv.len() as int) =~= pv);
        }
        Ok(hashes)
    }

    /// Generate a consistency proof from the tree of size `old_size` to the
    /// tree of size `new_size` of algorithm `alg_id`.
    ///
    /// Fails with `UnknownAlgorithm` exactly when `alg_id` is not registered
    /// (and with a storage error when a read fails). Returns `None` exactly
    /// when `old_size` is 0, not below `new_size`, or `new_size` exceeds the
    /// algorithm's tree size; otherwise the proof carries the boundary digest
    /// and the consistency path over the nodes the log reads back.
    #[verifier::rlimit(80)]
    pub fn consistency_proof_for(&self, alg_id: u64, old_size: u64, new_size: u64) -> (r: Result<
        Option<ConsistencyProof>,
        Error<S::Error>,
    >)
        requires
            self.wf(),
        ensures
            self.spec_alg(alg_id) is None <==> r matches Err(Error::UnknownAlgorithm(_)),
            r matches Err(Error::UnknownAlgorithm(id)) ==> id == alg_id,
            r matches Err(e) ==> e is UnknownAlgorithm || e is Storage,
            self.spec_alg(alg_id) matches Some(v) ==> {
                let bad = old_size == 0 || old_size >= new_size || new_size > spec_tree_size(
                    v.epochs@,
                    self.spec_count(),
                );
                let steps = consistency_steps(
                    v.hasher,
                    self.spec_node_vals(alg_id),
                    old_size as nat,
                    new_size as nat,
                    self.spec_arity() as nat,
                );
                &&& bad ==> r == Ok::<Option<ConsistencyProof>, Error<S::Error>>(None)
                &&& r matches Ok(None) ==> bad
                &&& r matches Ok(Some(p)) ==> {
                    &&& !bad
                    &&& p.old_size == old_size
                    &&& p.new_size == new_size
                    &&& p.log_arity == self.spec_arity()
                    &&& steps == Some((p.start_hash@, steps_view(p.path@)))
                }
            },
    {
        let idx = match self.find(alg_id) {
            None => {
                return Err(Error::UnknownAlgorithm(alg_id));
            },
            Some(i) => i,
        };
        let k = self.config.arity;
        let ghost kn = k as nat;
        let ghost vals = self.spec_vals(idx as int);
        proof {
            assert(alg_ok(self.algs@[idx as int].view, self.algs@[idx as int].cells@, self.count, kn));
            assert(self.spec_node_vals(alg_id) =~= vals);
        }
        let max_size = self.algs[idx].view.tree_size(self.count);
        if old_size == 0 || old_size >= new_size || new_size > max_size {
            return Ok(None);
        }
        proof {
            assert(max_size <= self.count) by {
                let e = self.algs@[idx as int].view.epochs@;
                if !spec_is_active(e) {
                    assert(e.last().1 != u64::MAX);
                }
            }
        }
        let old_coords = frontier_for_size(old_size, k);
        let ghost ofs = frontier_spec(old_size as nat, kn);
        proof {
            lemma_frontier_within(old_size as nat, kn, 0);
            crate::topology::lemma_frontier_unfold(old_size as nat, kn, 0);
            assert(ofs.len() > 0);
        }
        let (boundary_left, boundary_height) = old_coords[old_coords.len() - 1];
        proof {
            assert(ofs.last() == (boundary_left as nat, boundary_height as nat));
            lemma_pow_positive(kn, boundary_height as nat);
        }
        let start_hash = match self.node_hash(idx, boundary_left, boundary_height) {
            Ok(v) => v,
            Err(e) => {
                return Err(e);
            },
        };
        let new_coords = frontier_for_size(new_size, k);
        let ghost nfs = frontier_spec(new_size as nat, kn);
        let f = find_peak(&new_coords, boundary_left, new_size, k);
        let (left, height) = new_coords[f];
        proof {
            assert(nfs[f as int] == (left as nat, height as nat));
            lemma_frontier_within(new_size as nat, kn, 0);
        }
        if height < boundary_height {
            proof {
                let fb = crate::acceptance::lemma_boundary(old_size as nat, new_size as nat, kn);
                lemma_pow_positive(kn, height as nat);
                crate::topology::lemma_pow_strict(kn, height as nat, boundary_height as nat);
            }
            return Ok(None);
        }
        let mut down: Vec<ProofStep> = Vec::new();
        match self.log_level_bisection_path_to_height(idx, left, height, boundary_left, boundary_height, &mut down) {
            Ok(()) => {},
            Err(e) => {
                return Err(e);
            },
        }
        proof {
            assert(steps_view(down@) =~= bisect_down(
                vals,
                left as nat,
                height as nat,
                boundary_left as nat,
                boundary_height as nat,
                kn,
            ));
        }
        let mut path = reversed(down);
        let hashes = match self.read_peaks(idx, &new_coords, new_size) {
            Ok(h) => h,
            Err(e) => {
                return Err(e);
            },
        };
        merge_frontier_paths(hashes, f, k as usize, &self.algs[idx].view.hasher, &mut path);
        Ok(Some(ConsistencyProof { old_size, new_size, log_arity: k, start_hash, path }))
    }

    /// The mountain consistency proof between `old_size` and `new_size` for
    /// algorithm `alg_id`: the old boundary peak's digest, its bisection climb
    /// to the new frontier peak holding it, the new frontier peaks and that
    /// peak's slot, over the nodes the log reads back.
    ///
    /// Fails with `UnknownAlgorithm` exactly when `alg_id` is not registered
    /// (and with a storage error when a read fails). Returns `None` exactly
    /// when `old_size` is 0, not below `new_size`, or `new_size` exceeds the
    /// algorithm's tree size.
    #[verifier::rlimit(80)]
    pub fn mountain_consistency_proof_for(&self, alg_id: u64, old_size: u64, new_size: u64) -> (r: Result<
        Option<MountainConsistencyProof>,
        Error<S::Error>,
    >)
        requires
            self.wf(),
        ensures
            self.spec_alg(alg_id) is None <==> r matches Err(Error::UnknownAlgorithm(_)),
            r matches Err(Error::UnknownAlgorithm(id)) ==> id == alg_id,
            r matches Err(e) ==> e is UnknownAlgorithm || e is Storage,
            self.spec_alg(alg_id) matches Some(v) ==> {
                let bad = old_size == 0 || old_size >= new_size || new_size > spec_tree_size(
                    v.epochs@,
                    self.spec_count(),
                );
                &&& bad ==> r == Ok::<Option<MountainConsistencyProof>, Error<S::Error>>(None)
                &&& r matches Ok(None) ==> bad
                &&& r matches Ok(Some(p)) ==> {
                    &&& !bad
                    &&& (p.boundary_hash@, steps_view(p.peak_path@), digests_view(p.new_peaks@), p.split_index as nat)
                        == mountain_proof(
                        self.spec_node_vals(alg_id),
                        old_size as nat,
                        new_size as nat,
                        self.spec_arity() as nat,
                    )
                }
            },
    {
        let idx = match self.find(alg_id) {
            None => {
                return Err(Error::UnknownAlgorithm(alg_id));
            },
            Some(i) => i,
        };
        let k = self.config.arity;
        let ghost kn = k as nat;
        let ghost vals = self.spec_vals(idx as int);
        proof {
            assert(alg_ok(self.algs@[idx as int].view, self.algs@[idx as int].cells@, self.count, kn));
            assert(self.spec_node_vals(alg_id) =~= vals);
        }
        let max_size = self.algs[idx].view.tree_size(self.count);
        if old_size == 0 || old_size >= new_size || new_size > max_size {
            return Ok(None);
        }
        proof {
            assert(max_size <= self.count) by {
                let e = self.algs@[idx as int].view.epochs@;
                if !spec_is_active(e) {
                    assert(e.last().1 != u64::MAX);
                }
            }
        }
        let old_coords = frontier_for_size(old_size, k);
        let ghost ofs = frontier_spec(old_size as nat, kn);
        proof {
            lemma_frontier_within(old_size as nat, kn, 0);
            crate::topology::lemma_frontier_unfold(old_size as nat, kn, 0);
            assert(ofs.len() > 0);
        }
        let (boundary_left, boundary_height) = old_coords[old_coords.len() - 1];
        proof {
            assert(ofs.last() == (boundary_left as nat, boundary_height as nat));
            lemma_pow_positive(kn, boundary_height as nat);
        }
        let boundary_hash = match self.node_hash(idx, boundary_left, boundary_height) {
            Ok(v) => v,
            Err(e) => {
                return Err(e);
            },
        };
        let new_coords = frontier_for_size(new_size, k);
        let ghost nfs = frontier_spec(new_size as nat, kn);
        let f = find_peak(&new_coords, boundary_left, new_size, k);
        let (left, height) = new_coords[f];
        proof {
            assert(nfs[f as int] == (left as nat, height as nat));
            lemma_frontier_within(new_size as nat, kn, 0);
        }
        if height < boundary_height {
            proof {
                let fb = crate::acceptance::lemma_boundary(old_size as nat, new_size as nat, kn);
                lemma_pow_positive(kn, height as nat);
                crate::topology::lemma_pow_strict(kn, height as nat, boundary_height as nat);
            }
            return Ok(None);
        }
        let mut down: Vec<ProofStep> = Vec::new();
        match self.log_level_bisection_path_to_height(idx, left, height, boundary_left, boundary_height, &mut down) {
            Ok(()) => {},
            Err(e) => {
                return Err(e);
            },
        }
        proof {
            assert(steps_view(down@) =~= bisect_down(
                vals,
                left as nat,
                height as nat,
                boundary_left as nat,
                boundary_height as nat,
                kn,
            ));
        }
        let peak_path = reversed(down);
        let new_peaks = match self.read_peaks(idx, &new_coords, new_size) {
            Ok(h) => h,
            Err(e) => {
                return Err(e);
            },
        };
        Ok(Some(MountainConsistencyProof { boundary_hash, peak_path, new_peaks, split_index: f }))
    }

    /// The member root of algorithm `alg_id` at the historical global size
    /// `size`: the fold of the peaks it reads back at its local size then
    /// (the global size before it first activated or while the last position
    /// is covered, else the end of its last epoch below `size`).
    ///
    /// Fails with `UnknownAlgorithm` for an unregistered ID, with
    /// `IndexOutOfBounds` when `size` exceeds the count, and with the storage
    /// error when a read fails. For cells the log built, the root is the
    /// member root of the first local-size cells. For an algorithm frozen at
    /// or before `size` the local size is its whole tree, so the root is its
    /// current root.
    pub fn root_for_at(&self, alg_id: u64, size: u64) -> (r: Result<Vec<u8>, Error<S::Error>>)
        requires
            self.wf(),
        ensures
            self.spec_alg(alg_id) is None ==> r == Err::<Vec<u8>, Error<S::Error>>(Error::UnknownAlgorithm(alg_id)),
            self.spec_alg(alg_id) is Some && size > self.spec_count() ==> r == Err::<Vec<u8>, Error<S::Error>>(
                Error::IndexOutOfBounds { index: size, tree_size: self.spec_count() },
            ),
            r matches Err(e) ==> e is UnknownAlgorithm || e is IndexOutOfBounds || e is Storage,
            r matches Err(Error::UnknownAlgorithm(_)) ==> self.spec_alg(alg_id) is None,
            r matches Err(Error::IndexOutOfBounds { .. }) ==> size > self.spec_count(),
            self.spec_alg(alg_id) matches Some(v) ==> (size <= self.spec_count() && spec_effective_size_at(
                v.epochs@,
                size,
            ) == 0 ==> (r matches Ok(root) && root@ == v.hasher.spec_empty())),
            r matches Ok(root) ==> {
                &&& self.spec_alg(alg_id) matches Some(v)
                &&& size <= self.spec_count()
                &&& root@ == fold_frontier(
                    v.hasher,
                    peak_values(
                        self.spec_node_vals(alg_id),
                        spec_effective_size_at(v.epochs@, size) as nat,
                        self.spec_arity() as nat,
                    ),
                    self.spec_arity() as nat,
                )
                &&& (self.spec_cells(alg_id) matches Some(c) && spec_effective_size_at(v.epochs@, size) <= c.len())
                    ==> root@ == member_root(
                    v.hasher,
                    (self.spec_cells(alg_id)->0).take(spec_effective_size_at(v.epochs@, size) as int),
                    self.spec_arity() as nat,
                )
            },
            r matches Ok(root) ==> (self.spec_alg(alg_id) matches Some(v) ==> (!spec_is_active(v.epochs@)
                && v.epochs@.len() > 0 && v.epochs@.last().0 < v.epochs@.last().1 && v.epochs@.last().1 <= size
                ==> spec_effective_size_at(v.epochs@, size) == spec_tree_size(v.epochs@, self.spec_count()) && (
            self.spec_cells(alg_id) matches Some(c) ==> root@ == member_root(v.hasher, c, self.spec_arity() as nat)))),
    {
        let idx = match self.find(alg_id) {
            None => {
                return Err(Error::UnknownAlgorithm(alg_id));
            },
            Some(i) => i,
        };
        if size > self.count {
            return Err(Error::IndexOutOfBounds { index: size, tree_size: self.count });
        }
        proof {
            let v0 = self.spec_alg(alg_id)->0;
            if !spec_is_active(v0.epochs@) && v0.epochs@.len() > 0 && v0.epochs@.last().0 < v0.epochs@.last().1
                && v0.epochs@.last().1 <= size {
                self.lemma_frozen_size_at(alg_id, size);
            }
        }
        let alg_size = self.algs[idx].view.effective_size_at(size);
        let k = self.config.arity;
        let ghost v = self.algs@[idx as int].view;
        proof {
            crate::engine::lemma_effective_size_bound(v.epochs@, size);
            assert(self.spec_vals(idx as int) == self.spec_node_vals(alg_id));
        }
        if alg_size == 0 {
            proof {
                assert(frontier_spec(0, k as nat) =~= Seq::<(nat, nat)>::empty());
                assert(peak_values(self.spec_node_vals(alg_id), 0, k as nat) =~= Seq::<Seq<u8>>::empty());
                if self.spec_cells(alg_id) is Some {
                    let c = self.spec_cells(alg_id)->0;
                    assert(frontier_spec(c.take(0).len(), k as nat) =~= Seq::<(nat, nat)>::empty());
                    assert(crate::model::peaks(v.hasher, c.take(0), k as nat) =~= Seq::<Seq<u8>>::empty());
                }
            }
            return Ok(self.algs[idx].view.hasher.empty());
        }
        let coords = frontier_for_size(alg_size, k);
        let peaks_read = match self.read_peaks(idx, &coords, alg_size) {
            Ok(p) => p,
            Err(e) => {
                return Err(e);
            },
        };
        let root = fold_peaks(&self.algs[idx].view.hasher, peaks_read, k);
        proof {
            if self.spec_cells(alg_id) is Some {
                let c = self.spec_cells(alg_id)->0;
                if alg_size <= c.len() {
                    assert(nodes_ok(self.storage.spec_nodes(), alg_id, v, c, k as nat));
                    let vals = vals_of(self.storage.spec_nodes(), alg_id, v, k as nat);
                    assert(vals_agree(v.hasher, vals, c, alg_size as nat, k as nat)) by {
                        assert(vals_agree(v.hasher, vals, c, c.len(), k as nat));
                    }
                    assert(vals == self.spec_vals(idx as int));
                    lemma_peak_values(v.hasher, vals, c, alg_size as nat, k as nat);
                }
            }
        }
        Ok(root)
    }

    /// The digest of the frontier node at `(left, height)` of algorithm
    /// `alg_id`: the stored node, or null for a range the algorithm's epochs
    /// do not touch (or none stored).
    ///
    /// Fails with `UnknownAlgorithm` exactly for an unregistered ID, and with
    /// the storage error when the read fails.
    pub fn peak_at(&self, alg_id: u64, left: u64, height: u32) -> (r: Result<Vec<u8>, Error<S::Error>>)
        requires
            self.wf(),
        ensures
            self.spec_alg(alg_id) is None ==> r == Err::<Vec<u8>, Error<S::Error>>(Error::UnknownAlgorithm(alg_id)),
            r matches Err(e) ==> e is UnknownAlgorithm || e is Storage,
            r matches Ok(d) ==> self.spec_alg(alg_id) is Some && d@ == (self.spec_node_vals(alg_id))(
                left as nat,
                height as nat,
            ),
    {
        let idx = match self.find(alg_id) {
            None => {
                return Err(Error::UnknownAlgorithm(alg_id));
            },
            Some(i) => i,
        };
        proof {
            assert(self.spec_vals(idx as int) == self.spec_node_vals(alg_id));
        }
        self.node_hash(idx, left, height)
    }

    /// The committed epoch timelines at the historical size `size`: each
    /// registered algorithm whose epochs had begun by then, with its epochs as
    /// they stood, in increasing ID order.
    #[verifier::rlimit(90)]
    pub fn committed_epochs_at(&self, size: u64) -> (out: Vec<(u64, Vec<(u64, u64)>)>)
        requires
            self.wf(),
        ensures
            forall|i: int, j: int| 0 <= i < j < out@.len() ==> out@[i].0 < out@[j].0,
            forall|i: int|
                0 <= i < out@.len() ==> ((#[trigger] self.spec_alg(out@[i].0)) matches Some(v)
                    && spec_epochs_at(v.epochs@, size) == Some(out@[i].1@)),
            forall|id: u64|
                ((#[trigger] self.spec_alg(id)) matches Some(v) && spec_epochs_at(v.epochs@, size) is Some)
                    ==> exists|i: int| 0 <= i < out@.len() && out@[i].0 == id,
            forall|i: int|
                0 <= i < out@.len() ==> ((#[trigger] self.spec_alg(out@[i].0)) matches Some(v)
                    && v.epochs@.len() > 0 && v.epochs@[0].0 <= size && out@[i].1@.len() > 0 && forall|t: int|
                    0 <= t < out@[i].1@.len() ==> (#[trigger] out@[i].1@[t]).0 <= size && out@[i].1@[t].0
                        == v.epochs@[t].0),
            forall|id: u64|
                ((#[trigger] self.spec_alg(id)) matches Some(v) && v.epochs@.len() > 0 && v.epochs@[0].0 <= size)
                    ==> exists|i: int| 0 <= i < out@.len() && out@[i].0 == id,
    {
        let mut out: Vec<(u64, Vec<(u64, u64)>)> = Vec::new();
        let mut t: usize = 0;
        while t < self.algs.len()
            invariant
                self.wf(),
                t <= self.algs@.len(),
                forall|i: int, j: int| 0 <= i < j < out@.len() ==> out@[i].0 < out@[j].0,
                forall|i: int| 0 <= i < out@.len() ==> entry_from(self.algs@, t as int, size, #[trigger] out@[i]),
                forall|q: int|
                    0 <= q < t && (#[trigger] spec_epochs_at(self.algs@[q].view.epochs@, size)) is Some ==> exists|i: int|
                        0 <= i < out@.len() && out@[i].0 == self.algs@[q].alg_id,
            decreases self.algs@.len() - t,
        {
            let id = self.algs[t].alg_id;
            let ghost before = out@;
            match self.algs[t].view.epochs_at(size) {
                None => {},
                Some(e) => {
                    let mut p: usize = 0;
                    while p < out.len() && out[p].0 < id
                        invariant
                            p <= out@.len(),
                            forall|i: int| 0 <= i < p ==> out@[i].0 < id,
                        decreases out@.len() - p,
                    {
                        p = p + 1;
                    }
                    proof {
                        assert forall|i: int| 0 <= i < before.len() implies before[i].0 != id by {
                            assert(entry_from(self.algs@, t as int, size, before[i]));
                            let q = choose|q: int|
                                0 <= q < t && self.algs@[q].alg_id == before[i].0 && spec_epochs_at(
                                    self.algs@[q].view.epochs@,
                                    size,
                                ) == Some(before[i].1@);
                            assert(self.algs@[q].alg_id != self.algs@[t as int].alg_id);
                        }
                    }
                    let ghost entry = (id, e);
                    out.insert(p, (id, e));
                    proof {
                        assert(out@ =~= before.insert(p as int, entry));
                        assert forall|i: int, j: int| 0 <= i < j < out@.len() implies out@[i].0 < out@[j].0 by {
                            if j < p {
                                assert(out@[i] == before[i] && out@[j] == before[j]);
                            } else if j == p {
                                assert(out@[i] == before[i]);
                            } else if i < p {
                                assert(out@[i] == before[i] && out@[j] == before[j - 1]);
                                assert(before[p as int].0 >= id);
                                assert(before[p as int].0 != id);
                                if j - 1 > p {
                                    assert(before[p as int].0 < before[j - 1].0);
                                }
                            } else if i == p {
                                assert(out@[j] == before[j - 1]);
                                assert(before[p as int].0 >= id);
                                assert(before[p as int].0 != id);
                                if j - 1 > p {
                                    assert(before[p as int].0 < before[j - 1].0);
                                }
                            } else {
                                assert(out@[i] == before[i - 1] && out@[j] == before[j - 1]);
                            }
                        }
                        assert(entry_from(self.algs@, t + 1, size, entry)) by {
                            assert(self.algs@[t as int].alg_id == entry.0);
                        }
                        assert forall|q: int|
                            0 <= q < t + 1 && (#[trigger] spec_epochs_at(self.algs@[q].view.epochs@, size)) is Some implies exists|i: int|
                                0 <= i < out@.len() && out@[i].0 == self.algs@[q].alg_id by {
                            if q < t {
                                let i0 = choose|i: int| 0 <= i < before.len() && before[i].0 == self.algs@[q].alg_id;
                                if i0 < p {
                                    assert(out@[i0] == before[i0]);
                                } else {
                                    assert(out@[i0 + 1] == before[i0]);
                                }
                            } else {
                                assert(out@[p as int].0 == id);
                            }
                        }
                    }
                },
            }
            proof {
                assert forall|i: int| 0 <= i < out@.len() implies entry_from(self.algs@, t + 1, size, #[trigger] out@[i]) by {
                    if out@[i] != (self.algs@[t as int].alg_id, out@[i].1) || !(spec_epochs_at(self.algs@[t as int].view.epochs@, size) == Some(out@[i].1@)) {
                        let i0 = choose|i0: int| 0 <= i0 < before.len() && before[i0] == out@[i];
                        assert(entry_from(self.algs@, t as int, size, before[i0]));
                    }
                }
            }
            t = t + 1;
        }
        proof {
            let vs = views_seq(self.algs@);
            assert forall|i: int| 0 <= i < out@.len() implies ((#[trigger] self.spec_alg(out@[i].0)) matches Some(v)
                && spec_epochs_at(v.epochs@, size) == Some(out@[i].1@)) by {
                assert(entry_from(self.algs@, self.algs@.len() as int, size, out@[i]));
                let q = choose|q: int|
                    0 <= q < self.algs@.len() && self.algs@[q].alg_id == out@[i].0 && spec_epochs_at(
                        self.algs@[q].view.epochs@,
                        size,
                    ) == Some(out@[i].1@);
                assert(vs[q].0 == out@[i].0);
                assert forall|j: int| 0 <= j < q implies vs[j].0 != out@[i].0 by {
                    assert(vs[j].0 == self.algs@[j].alg_id);
                }
                lemma_lookup_found(vs, q, out@[i].0);
            }
            assert forall|id: u64|
                ((#[trigger] self.spec_alg(id)) matches Some(v) && spec_epochs_at(v.epochs@, size) is Some)
                    implies exists|i: int| 0 <= i < out@.len() && out@[i].0 == id by {
                let q = lemma_lookup_some_index(vs, id);
                assert forall|j: int| 0 <= j < q implies vs[j].0 != id by {
                    assert(vs[j].0 == self.algs@[j].alg_id);
                    assert(vs[q].0 == self.algs@[q].alg_id);
                }
                lemma_lookup_found(vs, q, id);
                assert(spec_epochs_at(self.algs@[q].view.epochs@, size) is Some);
            }
            assert forall|i: int| 0 <= i < out@.len() implies ((#[trigger] self.spec_alg(out@[i].0)) matches Some(v)
                && v.epochs@.len() > 0 && v.epochs@[0].0 <= size && out@[i].1@.len() > 0 && forall|t: int|
                0 <= t < out@[i].1@.len() ==> (#[trigger] out@[i].1@[t]).0 <= size && out@[i].1@[t].0
                    == v.epochs@[t].0) by {
                let v = self.spec_alg(out@[i].0)->0;
                crate::engine::lemma_epochs_at_law(v.epochs@, size);
            }
            assert forall|id: u64|
                ((#[trigger] self.spec_alg(id)) matches Some(v) && v.epochs@.len() > 0 && v.epochs@[0].0 <= size)
                    implies exists|i: int| 0 <= i < out@.len() && out@[i].0 == id by {
                let v = self.spec_alg(id)->0;
                crate::engine::lemma_epochs_at_law(v.epochs@, size);
                assert(spec_epochs_at(v.epochs@, size) is Some);
            }
        }
        out
    }

    /// Generate a consistency proof for the default algorithm (0).
    pub fn consistency_proof(&self, old_size: u64, new_size: u64) -> (r: Result<
        Option<ConsistencyProof>,
        Error<S::Error>,
    >)
        requires
            self.wf(),
        ensures
            self.spec_alg(0) is None <==> r matches Err(Error::UnknownAlgorithm(_)),
            r matches Err(e) ==> e is UnknownAlgorithm || e is Storage,
            self.spec_alg(0) matches Some(v) ==> {
                let bad = old_size == 0 || old_size >= new_size || new_size > spec_tree_size(
                    v.epochs@,
                    self.spec_count(),
                );
                let steps = consistency_steps(
                    v.hasher,
                    self.spec_node_vals(0),
                    old_size as nat,
                    new_size as nat,
                    self.spec_arity() as nat,
                );
                &&& bad ==> r == Ok::<Option<ConsistencyProof>, Error<S::Error>>(None)
                &&& r matches Ok(None) ==> bad
                &&& r matches Ok(Some(p)) ==> {
                    &&& !bad
                    &&& p.old_size == old_size
                    &&& p.new_size == new_size
                    &&& p.log_arity == self.spec_arity()
                    &&& steps == Some((p.start_hash@, steps_view(p.path@)))
                }
            },
    {
        self.consistency_proof_for(0, old_size, new_size)
    }
}

/// `vals` reads every aligned subtree within the first `n` cells as its
/// perfect digest.
pub open spec fn vals_agree<H: Hasher>(
    h: H,
    vals: spec_fn(nat, nat) -> Seq<u8>,
    cells: Seq<Seq<u8>>,
    n: nat,
    k: nat,
) -> bool {
    forall|l: nat, ht: nat|
        aligned(l, ht, k) && l + pow(k, ht) <= n ==> #[trigger] vals(l, ht) == perfect(h, cells, l, ht, k)
}

/// Two multiples of `m` that differ are at least `m` apart.
pub proof fn lemma_multiple_gap(a: nat, b: nat, m: nat)
    requires
        m >= 1,
        a % m == 0,
        b % m == 0,
        a < b,
    ensures
        a + m <= b,
{
    vstd::arithmetic::div_mod::lemma_fundamental_div_mod(a as int, m as int);
    vstd::arithmetic::div_mod::lemma_fundamental_div_mod(b as int, m as int);
    let qa = a as int / m as int;
    let qb = b as int / m as int;
    assert(qa < qb) by (nonlinear_arith)
        requires
            a == m * qa,
            b == m * qb,
            a < b,
            m >= 1,
    ;
    assert(m * qa + m <= m * qb) by (nonlinear_arith)
        requires
            qa + 1 <= qb,
            m >= 1,
    ;
}

/// Reversing a sequence with a first element moves it to the end.
proof fn lemma_reverse_cons<A>(x: A, r: Seq<A>)
    ensures
        (seq![x] + r).reverse() == r.reverse().push(x),
{
    let s = seq![x] + r;
    assert(s.reverse() =~= r.reverse().push(x)) by {
        assert forall|i: int| 0 <= i < s.len() implies #[trigger] s.reverse()[i] == r.reverse().push(x)[i] by {
            if i < r.len() {
                assert(s.reverse()[i] == s[s.len() - 1 - i]);
                assert(s[s.len() - 1 - i] == r[r.len() - 1 - i]);
            } else {
                assert(s.reverse()[i] == s[0]);
            }
        }
    }
}

/// Climbing the bisection steps from the aligned subtree holding `target`
/// at height `th` rebuilds the subtree at `(left, height)`.
pub(crate) proof fn lemma_bisect_root<H: Hasher>(
    h: H,
    vals: spec_fn(nat, nat) -> Seq<u8>,
    cells: Seq<Seq<u8>>,
    n: nat,
    left: nat,
    height: nat,
    target: nat,
    th: nat,
    k: nat,
)
    requires
        k >= 2,
        vals_agree(h, vals, cells, n, k),
        aligned(left, height, k),
        left + pow(k, height) <= n,
        th <= height,
        aligned(target, th, k),
        left <= target,
        target + pow(k, th) <= left + pow(k, height),
    ensures
        path_root(h, perfect(h, cells, target, th, k), bisect_down(vals, left, height, target, th, k).reverse())
            == Some(perfect(h, cells, left, height, k)),
    decreases height,
{
    let start = perfect(h, cells, target, th, k);
    if height <= th {
        assert(target == left);
        assert(bisect_down(vals, left, height, target, th, k).reverse() =~= Seq::<
            (Seq<Seq<u8>>, nat),
        >::empty());
    } else {
        let hc = (height - 1) as nat;
        let p = pow(k, hc);
        lemma_pow_succ(k, hc);
        lemma_pow_positive(k, hc);
        assert(hc + 1 == height);
        assert(pow(k, height) == k * p);
        lemma_pow_positive(k, th);
        let off = (target - left) as nat;
        lemma_child_index(off, p, k);
        assert((off / p) * p + p == (off / p + 1) * p) by (nonlinear_arith);
        let c = off / p;
        let cl = left + c * p;
        lemma_aligned_child(left, hc, k, c);
        lemma_aligned_lower(cl, k, th, hc);
        assert(target >= cl);
        lemma_pow_positive(k, th);
        assert(((target - cl) as nat) % pow(k, th) == 0) by {
            lemma_pow_positive(k, th);
            lemma_multiple_gap_diff(cl, target, pow(k, th));
        }
        assert(p % pow(k, th) == 0) by {
            lemma_pow_positive(k, hc);
            vstd::arithmetic::div_mod::lemma_mod_self_0(p as int);
            lemma_aligned_lower(p, k, th, hc);
        }
        assert(target + pow(k, th) <= cl + p) by {
            lemma_pow_positive(k, th);
            lemma_multiple_gap_diff_bound((target - cl) as nat, p, pow(k, th));
        }
        assert(cl + p <= left + k * p);
        lemma_bisect_root(h, vals, cells, n, cl, hc, target, th, k);
        let sibs = siblings_of(vals, left, hc, c, k);
        let rest = bisect_down(vals, cl, hc, target, th, k);
        assert(bisect_down(vals, left, height, target, th, k) == seq![(sibs, c)] + rest);
        lemma_reverse_cons((sibs, c), rest);
        let rr = rest.reverse();
        assert(rr.push((sibs, c)).drop_last() =~= rr);
        let pc = perfect(h, cells, cl, hc, k);
        let ch = perfect_children(h, cells, left, hc, k);
        assert(with_child(sibs, pc, c) =~= ch) by {
            assert forall|j: int| 0 <= j < k implies #[trigger] with_child(sibs, pc, c)[j] == ch[j] by {
                let jj: nat = j as nat;
                lemma_aligned_child(left, hc, k, jj);
                assert((jj + 1) * p <= k * p) by (nonlinear_arith)
                    requires
                        jj + 1 <= k,
                        p >= 1,
                ;
                assert(left + jj * p + p == left + (jj + 1) * p) by (nonlinear_arith);
                if j < c {
                    assert(with_child(sibs, pc, c)[j] == sibs[j]);
                    assert(sibs[j] == vals((left + jj * p) as nat, hc));
                } else if j == c {
                    assert(with_child(sibs, pc, c)[j] == pc);
                } else {
                    assert(with_child(sibs, pc, c)[j] == sibs[j - 1]);
                    assert(sibs[j - 1] == vals((left + jj * p) as nat, hc));
                }
            }
        }
        assert(perfect(h, cells, left, height, k) == crate::mr::spec_nary_mr(h, ch));
    }
}

/// The difference of two multiples of `m` is a multiple of `m`.
proof fn lemma_multiple_gap_diff(a: nat, b: nat, m: nat)
    requires
        m >= 1,
        a % m == 0,
        b % m == 0,
        a <= b,
    ensures
        ((b - a) as nat) % m == 0,
{
    vstd::arithmetic::div_mod::lemma_fundamental_div_mod(a as int, m as int);
    vstd::arithmetic::div_mod::lemma_fundamental_div_mod(b as int, m as int);
    let qa = a as int / m as int;
    let qb = b as int / m as int;
    assert(b - a == (qb - qa) * m) by (nonlinear_arith)
        requires
            a == m * qa,
            b == m * qb,
    ;
    vstd::arithmetic::div_mod::lemma_mod_multiples_basic(qb - qa, m as int);
}

/// A multiple of `m` below a multiple `p` of `m` leaves room for `m`.
proof fn lemma_multiple_gap_diff_bound(d: nat, p: nat, m: nat)
    requires
        m >= 1,
        d % m == 0,
        p % m == 0,
        d < p,
    ensures
        d + m <= p,
{
    lemma_multiple_gap(d, p, m);
}

/// Reading the frontier through agreeing values gives the peaks of the
/// first `n` cells.
pub(crate) proof fn lemma_peak_values<H: Hasher>(
    h: H,
    vals: spec_fn(nat, nat) -> Seq<u8>,
    cells: Seq<Seq<u8>>,
    n: nat,
    k: nat,
)
    requires
        k >= 2,
        n <= cells.len(),
        vals_agree(h, vals, cells, n, k),
    ensures
        peak_values(vals, n, k) == peaks(h, cells.take(n as int), k),
{
    let fs = frontier_spec(n, k);
    lemma_frontier_within(n, k, 0);
    lemma_pow_positive(k, crate::topology::max_height(n, k));
    lemma_frontier_aligned(n, k, 0);
    assert(peak_values(vals, n, k) =~= peaks(h, cells.take(n as int), k)) by {
        assert(cells.take(n as int).len() == n);
        assert forall|i: int| 0 <= i < fs.len() implies #[trigger] peak_values(vals, n, k)[i] == peaks(
            h,
            cells.take(n as int),
            k,
        )[i] by {
            let c = fs[i];
            assert(aligned(c.0, c.1, k));
            assert(vals(c.0, c.1) == perfect(h, cells, c.0, c.1, k));
            lemma_perfect_agree(h, cells, cells.take(n as int), c.0, c.1, k);
        }
    }
}

/// The inclusion path for `index` over agreeing node values carries the
/// cell at `index` to the member root of the first `n` cells.
pub proof fn lemma_inclusion_complete<H: Hasher>(
    h: H,
    vals: spec_fn(nat, nat) -> Seq<u8>,
    cells: Seq<Seq<u8>>,
    n: nat,
    index: nat,
    k: nat,
)
    requires
        k >= 2,
        index < n,
        n <= cells.len(),
        vals_agree(h, vals, cells, n, k),
    ensures
        path_root(h, cells[index as int], inclusion_steps(h, vals, n, index, k)) == Some(
            member_root(h, cells.take(n as int), k),
        ),
{
    let fs = frontier_spec(n, k);
    lemma_frontier_covers(n, k, 0, index);
    let w = choose|i: int|
        0 <= i < fs.len() && #[trigger] fs[i].0 <= index && index < fs[i].0 + pow(k, fs[i].1);
    assert(peak_holds(fs, w, index, k));
    lemma_first_peak(fs, index, k, w);
    let f = peak_of(fs, index, k);
    lemma_frontier_within(n, k, 0);
    lemma_pow_positive(k, crate::topology::max_height(n, k));
    lemma_frontier_aligned(n, k, 0);
    let l = fs[f].0;
    let ht = fs[f].1;
    assert(aligned(l, ht, k));
    assert(aligned(index, 0, k)) by {
        assert(pow(k, 0) == 1);
    }
    assert(perfect(h, cells, index, 0, k) == cells[index as int]);
    lemma_bisect_root(h, vals, cells, n, l, ht, index, 0, k);
    let a = bisect_down(vals, l, ht, index, 0, k).reverse();
    let pv = peak_values(vals, n, k);
    lemma_peak_values(h, vals, cells, n, k);
    assert(pv[f] == perfect(h, cells, l, ht, k)) by {
        assert(pv[f] == vals(l, ht));
    }
    lemma_merge_steps_fold(h, pv, f as nat, k);
    lemma_path_root_append(h, cells[index as int], a, merge_steps(h, pv, f as nat, k));
}

/// The node values `vals` read for a log of `n` cells agree with one
/// another: each aligned subtree of height one or more within the cells reads
/// as the canonical digest of its `k` children's values.
pub open spec fn reads_consistent<H: Hasher>(h: H, vals: spec_fn(nat, nat) -> Seq<u8>, n: nat, k: nat) -> bool {
    forall|l: nat, ht: nat|
        aligned(l, ht + 1, k) && l + pow(k, ht + 1) <= n ==> #[trigger] vals(l, ht + 1) == spec_nary_mr(
            h,
            Seq::new(k, |j: int| vals((l + j * pow(k, ht)) as nat, ht)),
        )
}

/// Consistent reads are the perfect digests of the cells read at height 0.
proof fn lemma_reads_agree<H: Hasher>(h: H, vals: spec_fn(nat, nat) -> Seq<u8>, n: nat, k: nat, l: nat, ht: nat)
    requires
        k >= 2,
        reads_consistent(h, vals, n, k),
        aligned(l, ht, k),
        l + pow(k, ht) <= n,
    ensures
        vals(l, ht) == perfect(h, Seq::new(n, |i: int| vals(i as nat, 0)), l, ht, k),
    decreases ht,
{
    let cells = Seq::new(n, |i: int| vals(i as nat, 0));
    if ht == 0 {
        assert(pow(k, 0) == 1);
        assert(cells[l as int] == vals(l, 0));
    } else {
        let hc = (ht - 1) as nat;
        lemma_pow_succ(k, hc);
        lemma_pow_positive(k, hc);
        let kids = crate::model::perfect_children(h, cells, l, hc, k);
        let reads = Seq::new(k, |j: int| vals((l + j * pow(k, hc)) as nat, hc));
        assert forall|j: int| 0 <= j < k implies #[trigger] kids[j] == reads[j] by {
            lemma_aligned_child(l, hc, k, j as nat);
            assert(j * pow(k, hc) + pow(k, hc) <= k * pow(k, hc)) by (nonlinear_arith)
                requires
                    0 <= j < k,
            ;
            lemma_reads_agree(h, vals, n, k, (l + j * pow(k, hc)) as nat, hc);
        }
        assert(kids =~= reads);
        assert(hc + 1 == ht);
    }
}

/// Inclusion round trip over consistent reads, with no cells tracked: the
/// inclusion path for `index` over the node values a store gives
/// (`inclusion_proof_for` hands it out) carries the value read at
/// `(index, 0)` to the root read at `n` (what `root_for_at` returns).
pub proof fn lemma_read_inclusion_round_trip<H: Hasher>(
    h: H,
    vals: spec_fn(nat, nat) -> Seq<u8>,
    n: nat,
    index: nat,
    k: nat,
)
    requires
        k >= 2,
        index < n,
        reads_consistent(h, vals, n, k),
    ensures
        path_root(h, vals(index, 0), inclusion_steps(h, vals, n, index, k)) == Some(
            fold_frontier(h, peak_values(vals, n, k), k),
        ),
{
    let cells = Seq::new(n, |i: int| vals(i as nat, 0));
    assert(vals_agree(h, vals, cells, n, k)) by {
        assert forall|l: nat, ht: nat| aligned(l, ht, k) && l + pow(k, ht) <= n implies #[trigger] vals(l, ht)
            == perfect(h, cells, l, ht, k) by {
            lemma_reads_agree(h, vals, n, k, l, ht);
        }
    }
    lemma_inclusion_complete(h, vals, cells, n, index, k);
    lemma_peak_values(h, vals, cells, n, k);
    assert(cells.take(n as int) =~= cells);
    assert(cells[index as int] == vals(index, 0));
}

/// A freshly registered algorithm, active from `count` over a store holding
/// none of its nodes, agrees with its null cells.
proof fn lemma_fresh_nodes_ok<H: Hasher>(
    nodes: Map<(u64, u64), Seq<u8>>,
    alg_id: u64,
    v: AlgView<H>,
    count: u64,
    k: nat,
)
    requires
        k >= 2,
        v.epochs@ == seq![(count, u64::MAX)],
        clean(nodes, alg_id),
    ensures
        nodes_ok(nodes, alg_id, v, null_cells(v.hasher, count as nat), k),
{
    let cells = null_cells(v.hasher, count as nat);
    let vals = vals_of(nodes, alg_id, v, k);
    assert forall|l: nat, ht: nat| aligned(l, ht, k) && l + pow(k, ht) <= cells.len() implies #[trigger] vals(l, ht)
        == perfect(v.hasher, cells, l, ht, k) by {
        lemma_perfect_null(v.hasher, cells, l, ht, k);
        if spec_active_range(v.epochs@, l as int, (l + pow(k, ht)) as int) {
            let j = choose|j: int|
                0 <= j < v.epochs@.len() && v.epochs@[j].0 < l + pow(k, ht) && v.epochs@[j].1 > l;
            assert(v.epochs@[j] == (count, u64::MAX));
        }
    }
}

/// Closing the last (open) epoch at `count` keeps every range ending by
/// `count` as active as it was.
proof fn lemma_close_range(e: Seq<(u64, u64)>, count: u64, lo: int, hi: int)
    requires
        e.len() > 0,
        e.last().1 == u64::MAX,
        e.last().0 <= count,
        lo < hi <= count,
    ensures
        spec_active_range(e.update(e.len() - 1, (e.last().0, count)), lo, hi) == spec_active_range(e, lo, hi),
{
    let ne = e.update(e.len() - 1, (e.last().0, count));
    if spec_active_range(e, lo, hi) {
        let j = choose|j: int| 0 <= j < e.len() && e[j].0 < hi && e[j].1 > lo;
        assert(ne[j].0 < hi && ne[j].1 > lo);
    }
    if spec_active_range(ne, lo, hi) {
        let j = choose|j: int| 0 <= j < ne.len() && ne[j].0 < hi && ne[j].1 > lo;
        assert(e[j].0 < hi && e[j].1 > lo);
    }
}

/// The storage key a node write targets.
pub open spec fn wkey(e: (u64, u64, u32, Vec<u8>)) -> (u64, u64) {
    (e.0, node_key(e.1 as nat, e.2 as nat))
}

/// The node key `key` addresses an aligned subtree whose span ends at
/// position `m`.
pub open spec fn ends_at(key: u64, m: nat, k: nat) -> bool {
    exists|l: nat, ht: nat| key == node_key(l, ht) && l + pow(k, ht) == m && aligned(l, ht, k)
}

/// `m2` differs from `m1` only at keys of subtrees whose span ends at `m`:
/// every other entry is kept as it was, present or absent.
pub open spec fn changed_only_ending_at(
    m1: Map<(u64, u64), Seq<u8>>,
    m2: Map<(u64, u64), Seq<u8>>,
    m: nat,
    k: nat,
) -> bool {
    forall|p: (u64, u64)|
        !ends_at(p.1, m, k) ==> (#[trigger] m2.contains_key(p) == m1.contains_key(p) && (m1.contains_key(p)
            ==> m2[p] == m1[p]))
}

/// Writes that each target a subtree ending at `m` change nothing else.
proof fn lemma_writes_end_at(m: Map<(u64, u64), Seq<u8>>, w: Seq<(u64, u64, u32, Vec<u8>)>, e: nat, k: nat)
    requires
        forall|i: int|
            0 <= i < w.len() ==> (#[trigger] w[i]).1 + pow(k, w[i].2 as nat) == e && aligned(
                w[i].1 as nat,
                w[i].2 as nat,
                k,
            ),
    ensures
        changed_only_ending_at(m, apply_writes(m, w), e, k),
{
    assert forall|p: (u64, u64)| !ends_at(p.1, e, k) implies (#[trigger] apply_writes(m, w).contains_key(p)
        == m.contains_key(p) && (m.contains_key(p) ==> apply_writes(m, w)[p] == m[p])) by {
        assert forall|i: int| 0 <= i < w.len() implies wkey(#[trigger] w[i]) != p by {
            if wkey(w[i]) == p {
                assert(p.1 == node_key(w[i].1 as nat, w[i].2 as nat));
                assert(ends_at(p.1, e, k));
            }
        }
        lemma_writes_untouched(m, w, p);
    }
}

/// The node map after applying the writes `w` in order.
pub open spec fn apply_writes(m: Map<(u64, u64), Seq<u8>>, w: Seq<(u64, u64, u32, Vec<u8>)>) -> Map<
    (u64, u64),
    Seq<u8>,
>
    decreases w.len(),
{
    if w.len() == 0 {
        m
    } else {
        apply_writes(m, w.drop_last()).insert(wkey(w.last()), w.last().3@)
    }
}

/// A key no write targets keeps its entry.
proof fn lemma_writes_untouched(m: Map<(u64, u64), Seq<u8>>, w: Seq<(u64, u64, u32, Vec<u8>)>, key: (u64, u64))
    requires
        forall|i: int| 0 <= i < w.len() ==> wkey(#[trigger] w[i]) != key,
    ensures
        apply_writes(m, w).contains_key(key) == m.contains_key(key),
        m.contains_key(key) ==> apply_writes(m, w)[key] == m[key],
    decreases w.len(),
{
    if w.len() > 0 {
        assert(wkey(w[w.len() - 1]) != key);
        lemma_writes_untouched(m, w.drop_last(), key);
    }
}

/// A key some write targets, every such write with value `v`, holds `v`.
proof fn lemma_writes_value(
    m: Map<(u64, u64), Seq<u8>>,
    w: Seq<(u64, u64, u32, Vec<u8>)>,
    key: (u64, u64),
    v: Seq<u8>,
)
    requires
        exists|i: int| 0 <= i < w.len() && wkey(#[trigger] w[i]) == key,
        forall|i: int| 0 <= i < w.len() && wkey(#[trigger] w[i]) == key ==> w[i].3@ == v,
    ensures
        apply_writes(m, w).contains_key(key),
        apply_writes(m, w)[key] == v,
    decreases w.len(),
{
    let last = w[w.len() - 1];
    if wkey(last) != key {
        let i = choose|i: int| 0 <= i < w.len() && wkey(#[trigger] w[i]) == key;
        let wd = w.drop_last();
        assert(wd[i] == w[i]);
        assert forall|j: int| 0 <= j < wd.len() && wkey(#[trigger] wd[j]) == key implies wd[j].3@ == v by {
            assert(wd[j] == w[j]);
        }
        lemma_writes_value(m, wd, key, v);
    }
}

/// Node keys are distinct for lefts below `2^48` and heights below `2^16`.
proof fn lemma_node_key_injective(l1: nat, h1: nat, l2: nat, h2: nat)
    requires
        l1 < 0x1_0000_0000_0000,
        l2 < 0x1_0000_0000_0000,
        h1 < 0x10000,
        h2 < 0x10000,
        node_key(l1, h1) == node_key(l2, h2),
    ensures
        l1 == l2,
        h1 == h2,
{
    lemma_key_bits_injective(l1 as u64, h1 as u64, l2 as u64, h2 as u64);
}

/// The writes an append made for algorithm `alg_id` whose extended cells are
/// `c2`: each holds the perfect digest of a subtree within `c2`, and each
/// aligned subtree ending at the new position with a non-null digest is
/// written.
pub open spec fn writes_ok<H: Hasher>(
    w: Seq<(u64, u64, u32, Vec<u8>)>,
    alg_id: u64,
    h: H,
    c2: Seq<Seq<u8>>,
    k: nat,
) -> bool {
    &&& forall|i: int|
        0 <= i < w.len() && (#[trigger] w[i]).0 == alg_id ==> {
            &&& w[i].1 + pow(k, w[i].2 as nat) <= c2.len()
            &&& w[i].3@ == perfect(h, c2, w[i].1 as nat, w[i].2 as nat, k)
        }
    &&& forall|l: nat, ht: nat|
        aligned(l, ht, k) && l + pow(k, ht) == c2.len() && #[trigger] perfect(h, c2, l, ht, k)
            != h.spec_null() ==> exists|i: int|
            0 <= i < w.len() && (#[trigger] w[i]).0 == alg_id && w[i].1 == l && w[i].2 == ht
}

/// Every position of a range the epochs do not touch is uncovered.
proof fn lemma_inactive_range(e: Seq<(u64, u64)>, lo: int, hi: int, i: int)
    requires
        !spec_active_range(e, lo, hi),
        lo <= i < hi,
    ensures
        !spec_is_active_at(e, i),
{
    if spec_is_active_at(e, i) {
        let j = choose|j: int| 0 <= j < e.len() && e[j].0 <= i && i < e[j].1;
        assert(e[j].0 < hi && e[j].1 > lo);
    }
}

/// The stored nodes of an algorithm whose cells grew by one, after the
/// append's writes, agree with the grown cells.
proof fn lemma_append_nodes_ok<H: Hasher>(
    nodes0: Map<(u64, u64), Seq<u8>>,
    w: Seq<(u64, u64, u32, Vec<u8>)>,
    alg_id: u64,
    v: AlgView<H>,
    v2: AlgView<H>,
    c: Seq<Seq<u8>>,
    d: Seq<u8>,
    k: nat,
)
    requires
        k >= 2,
        c.len() < MAX_COUNT,
        nodes_ok(nodes0, alg_id, v, c, k),
        v2.hasher == v.hasher,
        v2.epochs@ == v.epochs@,
        cells_fit(v.hasher, v.epochs@, c.push(d)),
        writes_ok(w, alg_id, v.hasher, c.push(d), k),
    ensures
        nodes_ok(apply_writes(nodes0, w), alg_id, v2, c.push(d), k),
{
    let h = v.hasher;
    let c2 = c.push(d);
    let n1 = apply_writes(nodes0, w);
    let old_vals = vals_of(nodes0, alg_id, v, k);
    let new_vals = vals_of(n1, alg_id, v2, k);
    assert forall|i: int| 0 <= i < w.len() && (#[trigger] w[i]).0 == alg_id implies w[i].1 < 0x8000_0000_0000
        && w[i].2 < 64 by {
        lemma_pow_positive(k, w[i].2 as nat);
        lemma_pow_u64_height(k, w[i].2 as nat);
    }
    assert forall|l: nat, ht: nat| aligned(l, ht, k) && l + pow(k, ht) <= c2.len() implies #[trigger] new_vals(l, ht)
        == perfect(h, c2, l, ht, k) by {
        let cap = pow(k, ht);
        lemma_pow_positive(k, ht);
        lemma_pow_u64_height(k, ht);
        let key = (alg_id, node_key(l, ht));
        assert forall|i: int| 0 <= i < w.len() && wkey(#[trigger] w[i]) == key implies w[i].1 == l && w[i].2 == ht by {
            lemma_node_key_injective(w[i].1 as nat, w[i].2 as nat, l, ht);
        }
        if !spec_active_range(v.epochs@, l as int, (l + cap) as int) {
            assert forall|i: int| l <= i < l + pow(k, ht) implies c2[i] == h.spec_null() by {
                lemma_inactive_range(v.epochs@, l as int, (l + cap) as int, i);
            }
            lemma_perfect_null(h, c2, l, ht, k);
        } else if l + cap <= c.len() {
            assert(old_vals(l, ht) == perfect(h, c, l, ht, k));
            lemma_perfect_agree(h, c2, c, l, ht, k);
            if exists|i: int| 0 <= i < w.len() && wkey(#[trigger] w[i]) == key {
                lemma_writes_value(nodes0, w, key, perfect(h, c2, l, ht, k));
            } else {
                lemma_writes_untouched(nodes0, w, key);
            }
        } else {
            if exists|i: int| 0 <= i < w.len() && wkey(#[trigger] w[i]) == key {
                lemma_writes_value(nodes0, w, key, perfect(h, c2, l, ht, k));
            } else {
                if perfect(h, c2, l, ht, k) != h.spec_null() {
                    let i = choose|i: int| 0 <= i < w.len() && (#[trigger] w[i]).0 == alg_id && w[i].1 == l && w[i].2 == ht;
                    assert(wkey(w[i]) == key);
                }
                assert(!nodes0.contains_key((alg_id, node_key(l, ht))));
                lemma_writes_untouched(nodes0, w, key);
            }
        }
    }
    assert forall|l: nat, ht: nat| aligned(l, ht, k) && c2.len() < l + pow(k, ht) <= MAX_COUNT implies !n1.contains_key(
        (alg_id, #[trigger] node_key(l, ht)),
    ) by {
        lemma_pow_positive(k, ht);
        lemma_pow_u64_height(k, ht);
        let key = (alg_id, node_key(l, ht));
        assert forall|i: int| 0 <= i < w.len() implies wkey(#[trigger] w[i]) != key by {
            if wkey(w[i]) == key {
                lemma_node_key_injective(w[i].1 as nat, w[i].2 as nat, l, ht);
            }
        }
        assert(!nodes0.contains_key(key));
        lemma_writes_untouched(nodes0, w, key);
    }
}

/// The stored nodes of an algorithm no write touched still agree with its
/// cells.
proof fn lemma_other_nodes_ok<H: Hasher>(
    nodes0: Map<(u64, u64), Seq<u8>>,
    w: Seq<(u64, u64, u32, Vec<u8>)>,
    alg_id: u64,
    v: AlgView<H>,
    v2: AlgView<H>,
    c: Seq<Seq<u8>>,
    k: nat,
)
    requires
        nodes_ok(nodes0, alg_id, v, c, k),
        same_view(v, v2),
        forall|i: int| 0 <= i < w.len() ==> (#[trigger] w[i]).0 != alg_id,
    ensures
        nodes_ok(apply_writes(nodes0, w), alg_id, v2, c, k),
{
    let n1 = apply_writes(nodes0, w);
    assert forall|l: nat, ht: nat| aligned(l, ht, k) && l + pow(k, ht) <= c.len() implies #[trigger] vals_of(n1, alg_id, v2, k)(l, ht)
        == perfect(v2.hasher, c, l, ht, k) by {
        let key = (alg_id, node_key(l, ht));
        assert forall|i: int| 0 <= i < w.len() implies wkey(#[trigger] w[i]) != key by {}
        lemma_writes_untouched(nodes0, w, key);
        assert(vals_of(nodes0, alg_id, v, k)(l, ht) == perfect(v.hasher, c, l, ht, k));
    }
    assert forall|l: nat, ht: nat| aligned(l, ht, k) && c.len() < l + pow(k, ht) <= MAX_COUNT implies !n1.contains_key(
        (alg_id, #[trigger] node_key(l, ht)),
    ) by {
        let key = (alg_id, node_key(l, ht));
        assert forall|i: int| 0 <= i < w.len() implies wkey(#[trigger] w[i]) != key by {}
        lemma_writes_untouched(nodes0, w, key);
    }
}


/// Storing a node of another algorithm keeps an algorithm's nodes coherent.
proof fn lemma_insert_other_nodes_ok<H: Hasher>(
    nodes0: Map<(u64, u64), Seq<u8>>,
    writer: u64,
    key: u64,
    d: Seq<u8>,
    alg_id: u64,
    v: AlgView<H>,
    c: Seq<Seq<u8>>,
    k: nat,
)
    requires
        nodes_ok(nodes0, alg_id, v, c, k),
        writer != alg_id,
    ensures
        nodes_ok(nodes0.insert((writer, key), d), alg_id, v, c, k),
{
    let n1 = nodes0.insert((writer, key), d);
    assert forall|l: nat, ht: nat| aligned(l, ht, k) && l + pow(k, ht) <= c.len() implies #[trigger] vals_of(n1, alg_id, v, k)(l, ht)
        == perfect(v.hasher, c, l, ht, k) by {
        assert(vals_of(nodes0, alg_id, v, k)(l, ht) == perfect(v.hasher, c, l, ht, k));
    }
    assert forall|l: nat, ht: nat| aligned(l, ht, k) && c.len() < l + pow(k, ht) <= MAX_COUNT implies !n1.contains_key(
        (alg_id, #[trigger] node_key(l, ht)),
    ) by {
        assert(!nodes0.contains_key((alg_id, node_key(l, ht))));
    }
}


/// Looking up a list whose values are all `None` finds `None`.
proof fn lemma_lookup_all_none<T>(v: Seq<(u64, Option<T>)>, id: u64)
    requires
        forall|q: int| 0 <= q < v.len() ==> (#[trigger] v[q]).1 is None,
    ensures
        lookup(v, id) matches Some(x) ==> x is None,
    decreases v.len(),
{
    if v.len() > 0 && v[0].0 != id {
        assert forall|q: int| 0 <= q < v.skip(1).len() implies (#[trigger] v.skip(1)[q]).1 is None by {
            assert(v.skip(1)[q] == v[q + 1]);
        }
        lemma_lookup_all_none(v.skip(1), id);
    }
}


/// The trusted roots as plain values.
pub open spec fn trusted_view(t: Seq<(u64, Vec<u8>)>) -> Seq<(u64, Seq<u8>)> {
    t.map_values(|x: (u64, Vec<u8>)| (x.0, x.1@))
}

/// The algorithm-local size a checkpoint compares at global size `s`: none
/// up to the first activation, else the effective size.
pub open spec fn compared_size(e: Seq<(u64, u64)>, s: u64) -> u64 {
    if s <= spec_first_activation(e) {
        0
    } else {
        spec_effective_size_at(e, s)
    }
}

/// The member root read back at global size `s` for an algorithm whose
/// nodes read as `vals`.
pub open spec fn root_read_at<H: Hasher>(
    h: H,
    vals: spec_fn(nat, nat) -> Seq<u8>,
    e: Seq<(u64, u64)>,
    s: u64,
    k: nat,
) -> Seq<u8> {
    fold_frontier(h, peak_values(vals, spec_effective_size_at(e, s) as nat, k), k)
}

/// The checkpoint check of one algorithm between global sizes `start` and
/// `end` (the log's count): from its compared size at the later of `start`
/// and its first activation to the one at `end`, a growing tree must carry a
/// consistency proof from the trusted old root to the root read at `end`,
/// and an unchanged one must keep its root. `None` when the trusted root it
/// needs is missing.
pub open spec fn checkpoint_check<H: Hasher>(
    h: H,
    vals: spec_fn(nat, nat) -> Seq<u8>,
    e: Seq<(u64, u64)>,
    id: u64,
    k: nat,
    start: u64,
    end: u64,
    trusted: Seq<(u64, Seq<u8>)>,
) -> Option<bool> {
    let first = spec_first_activation(e);
    let cs = if start >= first {
        start
    } else {
        first
    };
    if cs >= end {
        Some(true)
    } else {
        let o = compared_size(e, cs);
        let n = compared_size(e, end);
        let old_root = if o == 0 {
            Some(h.spec_empty())
        } else {
            lookup(trusted, id)
        };
        match old_root {
            None => None,
            Some(r0) => {
                let r1 = root_read_at(h, vals, e, end, k);
                if 0 < o && o < n {
                    if n > spec_tree_size(e, end) {
                        Some(false)
                    } else {
                        match consistency_steps(h, vals, o as nat, n as nat, k) {
                            None => Some(false),
                            Some(c) => Some(
                                path_consistency_roots(h, o as nat, n as nat, k, c.0, c.1) == Some(
                                    (r0, r1),
                                ),
                            ),
                        }
                    }
                } else if o == n {
                    Some(r0 == r1)
                } else {
                    Some(true)
                }
            },
        }
    }
}

/// The end of a frozen algorithm's last epoch (0 for none); the largest
/// `u64` while it is active.
pub open spec fn deact_end(e: Seq<(u64, u64)>) -> u64 {
    if spec_is_active(e) {
        u64::MAX
    } else if e.len() == 0 {
        0
    } else {
        e.last().1
    }
}

/// A frozen algorithm has a height-0 node stored at its deactivation point
/// below `end`.
pub open spec fn tail_tampered(
    nodes: Map<(u64, u64), Seq<u8>>,
    id: u64,
    e: Seq<(u64, u64)>,
    end: u64,
) -> bool {
    &&& !spec_is_active(e)
    &&& deact_end(e) < end
    &&& nodes.contains_key((id, key_bits(deact_end(e), 0)))
}

/// The start check of one algorithm at a checkpoint `start > 0`: the peaks
/// read at its effective size then must fold to its trusted root, or
/// without one to the empty root (nothing before `start`) or to null (not
/// yet activated). `None` when it has no trusted root and neither applies.
pub open spec fn start_check<H: Hasher>(
    h: H,
    vals: spec_fn(nat, nat) -> Seq<u8>,
    e: Seq<(u64, u64)>,
    id: u64,
    k: nat,
    start: u64,
    trusted: Seq<(u64, Seq<u8>)>,
) -> Option<bool> {
    if start == 0 {
        Some(true)
    } else {
        let s0 = spec_effective_size_at(e, start);
        let folded = fold_frontier(h, peak_values(vals, s0 as nat, k), k);
        let expected = match lookup(trusted, id) {
            Some(r) => Some(r),
            None => if s0 == 0 {
                Some(h.spec_empty())
            } else if start <= spec_first_activation(e) {
                Some(h.spec_null())
            } else {
                None
            },
        };
        match expected {
            None => None,
            Some(x) => Some(folded == x),
        }
    }
}

/// `m` merges of the rightmost `k` entries of a rebuilt frontier `fr` with
/// coordinates `cs`, each parent checked against the node read at its
/// coordinate; `None` on a mismatch or too short a frontier.
pub open spec fn carry_check<H: Hasher>(
    h: H,
    vals: spec_fn(nat, nat) -> Seq<u8>,
    k: nat,
    fr: Seq<Seq<u8>>,
    cs: Seq<(nat, nat)>,
    m: nat,
) -> Option<(Seq<Seq<u8>>, Seq<(nat, nat)>)>
    decreases m,
{
    if m == 0 {
        Some((fr, cs))
    } else if fr.len() < k {
        None
    } else {
        let split = fr.len() - k;
        let p = spec_nary_mr(h, fr.skip(split));
        let c = cs[cs.len() - k];
        let pc = (c.0, c.1 + 1);
        if p != vals(pc.0, pc.1) {
            None
        } else {
            carry_check(h, vals, k, fr.take(split).push(p), cs.take(cs.len() - k).push(pc), (m - 1) as nat)
        }
    }
}

/// One position `i` of the rebuild for one algorithm (state: frontier,
/// coordinates, local size): skipped from its deactivation on; an active
/// flat position must have its stored leaf node equal the hash of the stored
/// payload; the cell (that hash, the stored node for subtree logs, null when
/// inactive) is pushed and carried.
pub open spec fn stream_cell<H: Hasher>(
    h: H,
    vals: spec_fn(nat, nat) -> Seq<u8>,
    e: Seq<(u64, u64)>,
    k: nat,
    flat: bool,
    leaf: Seq<u8>,
    i: nat,
    st: (Seq<Seq<u8>>, Seq<(nat, nat)>, nat),
) -> Option<(Seq<Seq<u8>>, Seq<(nat, nat)>, nat)> {
    if i >= deact_end(e) {
        Some(st)
    } else {
        let act = spec_is_active_at(e, i as int);
        if act && flat && h.spec_leaf(leaf) != vals(i, 0) {
            None
        } else {
            let d = if act {
                if flat {
                    h.spec_leaf(leaf)
                } else {
                    vals(i, 0)
                }
            } else {
                h.spec_null()
            };
            match carry_check(h, vals, k, st.0.push(d), st.1.push((i, 0)), trailing_count(st.2 + 1, k)) {
                None => None,
                Some(c) => Some((c.0, c.1, st.2 + 1)),
            }
        }
    }
}

/// The rebuild for one algorithm over positions `i..end`.
pub open spec fn stream_from<H: Hasher>(
    h: H,
    vals: spec_fn(nat, nat) -> Seq<u8>,
    e: Seq<(u64, u64)>,
    k: nat,
    flat: bool,
    leaves: Seq<Seq<u8>>,
    i: nat,
    end: nat,
    st: (Seq<Seq<u8>>, Seq<(nat, nat)>, nat),
) -> Option<(Seq<Seq<u8>>, Seq<(nat, nat)>, nat)>
    decreases end - i,
{
    if i >= end {
        Some(st)
    } else {
        match stream_cell(h, vals, e, k, flat, leaves[i as int], i, st) {
            None => None,
            Some(s2) => stream_from(h, vals, e, k, flat, leaves, i + 1, end, s2),
        }
    }
}

/// One algorithm rebuilt from its peaks at `start` through the stored cells
/// up to `end` folds to the root read at `end`.
pub open spec fn stream_ok<H: Hasher>(
    h: H,
    vals: spec_fn(nat, nat) -> Seq<u8>,
    e: Seq<(u64, u64)>,
    k: nat,
    flat: bool,
    leaves: Seq<Seq<u8>>,
    start: u64,
    end: u64,
) -> bool {
    let s0 = spec_effective_size_at(e, start) as nat;
    match stream_from(
        h,
        vals,
        e,
        k,
        flat,
        leaves,
        start as nat,
        end as nat,
        (peak_values(vals, s0, k), frontier_spec(s0, k), s0),
    ) {
        None => false,
        Some(st) => fold_frontier(h, st.0, k) == root_read_at(h, vals, e, end, k),
    }
}

/// A rebuild that reaches an active flat position whose stored payload no
/// longer hashes to the node read there fails.
pub proof fn lemma_stream_from_fails<H: Hasher>(
    h: H,
    vals: spec_fn(nat, nat) -> Seq<u8>,
    e: Seq<(u64, u64)>,
    k: nat,
    flat: bool,
    leaves: Seq<Seq<u8>>,
    i0: nat,
    end: nat,
    st: (Seq<Seq<u8>>, Seq<(nat, nat)>, nat),
    i: nat,
)
    requires
        i0 <= i < end,
        i < deact_end(e),
        spec_is_active_at(e, i as int),
        flat,
        h.spec_leaf(leaves[i as int]) != vals(i, 0),
    ensures
        stream_from(h, vals, e, k, flat, leaves, i0, end, st) is None,
    decreases end - i0,
{
    if i0 < i {
        match stream_cell(h, vals, e, k, flat, leaves[i0 as int], i0, st) {
            None => {},
            Some(s2) => {
                lemma_stream_from_fails(h, vals, e, k, flat, leaves, i0 + 1, end, s2, i);
            },
        }
    }
}

impl<S: Storage, H: Hasher> NaryMerkleLog<S, H> {
    /// The checkpoint check of the algorithm at position `j`.
    spec fn alg_checkpoint(&self, j: int, start: u64, trusted: Seq<(u64, Seq<u8>)>) -> Option<
        bool,
    > {
        let a = self.algs@[j];
        checkpoint_check(
            a.view.hasher,
            self.spec_vals(j),
            a.view.epochs@,
            a.alg_id,
            self.config.arity as nat,
            start,
            self.count,
            trusted,
        )
    }

    /// The checkpoint checks of the algorithms from position `j` on, in
    /// order: the first that fails or lacks its trusted root decides.
    spec fn checkpoint_phase(&self, start: u64, trusted: Seq<(u64, Seq<u8>)>, j: int) -> Option<
        bool,
    >
        decreases self.algs@.len() - j,
    {
        if j < 0 || j >= self.algs@.len() {
            Some(true)
        } else {
            match self.alg_checkpoint(j, start, trusted) {
                Some(true) => self.checkpoint_phase(start, trusted, j + 1),
                other => other,
            }
        }
    }

    /// The tail and start checks of the algorithm at position `j`.
    spec fn alg_start(&self, j: int, start: u64, trusted: Seq<(u64, Seq<u8>)>) -> Option<bool> {
        let a = self.algs@[j];
        if tail_tampered(self.storage.spec_nodes(), a.alg_id, a.view.epochs@, self.count) {
            Some(false)
        } else {
            start_check(
                a.view.hasher,
                self.spec_vals(j),
                a.view.epochs@,
                a.alg_id,
                self.config.arity as nat,
                start,
                trusted,
            )
        }
    }

    /// The tail and start checks of the algorithms from position `j` on.
    spec fn start_phase(&self, start: u64, trusted: Seq<(u64, Seq<u8>)>, j: int) -> Option<bool>
        decreases self.algs@.len() - j,
    {
        if j < 0 || j >= self.algs@.len() {
            Some(true)
        } else {
            match self.alg_start(j, start, trusted) {
                Some(true) => self.start_phase(start, trusted, j + 1),
                other => other,
            }
        }
    }

    /// The rebuild of the algorithm at position `j` from `start` agrees with
    /// its stored nodes and root.
    spec fn alg_stream_ok(&self, j: int, start: u64) -> bool {
        let a = self.algs@[j];
        stream_ok(
            a.view.hasher,
            self.spec_vals(j),
            a.view.epochs@,
            self.config.arity as nat,
            self.kind == LogKind::Flat,
            self.storage.spec_leaves(),
            start,
            self.count,
        )
    }

    /// The outcome of the divergence check from checkpoint `start` with
    /// trusted roots `trusted`: false for a checkpoint past the count; else
    /// the checkpoint checks (for `start > 0`), then the tail and start
    /// checks, then whether every algorithm's rebuild agrees. `None` when a
    /// needed trusted root is missing.
    pub closed spec fn spec_non_divergence(&self, start: u64, trusted: Seq<(u64, Seq<u8>)>) -> Option<bool> {
        if start > self.count {
            Some(false)
        } else if start > 0 && self.checkpoint_phase(start, trusted, 0) != Some(true) {
            self.checkpoint_phase(start, trusted, 0)
        } else {
            match self.start_phase(start, trusted, 0) {
                Some(true) => Some(
                    forall|j: int| 0 <= j < self.algs@.len() ==> #[trigger] self.alg_stream_ok(j, start),
                ),
                other => other,
            }
        }
    }

    /// Without a checkpoint the tail and start checks either pass or find a
    /// tampered tail; no trusted root is needed.
    proof fn lemma_start_phase_zero(&self, t: Seq<(u64, Seq<u8>)>, j: int)
        ensures
            self.start_phase(0, t, j) == Some(true) || self.start_phase(0, t, j) == Some(false),
        decreases self.algs@.len() - j,
    {
        if j >= 0 && j < self.algs@.len() {
            self.lemma_start_phase_zero(t, j + 1);
        }
    }

    /// A tampered raw leaf is caught: in a flat log, when the payload stored
    /// at a position where some algorithm is active no longer hashes to the
    /// height-0 node that algorithm reads there, the check without a
    /// checkpoint answers `false`, whatever the trusted roots.
    pub proof fn lemma_tampered_leaf_diverges(&self, trusted: Seq<(u64, Seq<u8>)>, alg_id: u64, i: nat)
        requires
            self.wf(),
            self.spec_kind() == LogKind::Flat,
            i < self.spec_count(),
            self.spec_alg(alg_id) matches Some(v) && i < deact_end(v.epochs@) && spec_is_active_at(
                v.epochs@,
                i as int,
            ) && v.hasher.spec_leaf(self.spec_storage().spec_leaves()[i as int]) != (self.spec_node_vals(
                alg_id,
            ))(i, 0),
        ensures
            self.spec_non_divergence(0, trusted) == Some(false),
    {
        self.lemma_start_phase_zero(trusted, 0);
        if self.start_phase(0, trusted, 0) == Some(true) {
            let j = lemma_lookup_some_index(views_seq(self.algs@), alg_id);
            assert(views_seq(self.algs@)[j].0 == self.algs@[j].alg_id);
            self.lemma_alg_at(j);
            let a = self.algs@[j];
            lemma_stream_from_fails(
                a.view.hasher,
                self.spec_vals(j),
                a.view.epochs@,
                self.config.arity as nat,
                self.kind == LogKind::Flat,
                self.storage.spec_leaves(),
                0,
                self.count as nat,
                (
                    peak_values(self.spec_vals(j), spec_effective_size_at(a.view.epochs@, 0) as nat, self.config.arity as nat),
                    frontier_spec(spec_effective_size_at(a.view.epochs@, 0) as nat, self.config.arity as nat),
                    spec_effective_size_at(a.view.epochs@, 0) as nat,
                ),
                i,
            );
            assert(!self.alg_stream_ok(j, 0));
        }
    }

    /// The algorithm at position `idx` is found under its ID, and its node
    /// values are the ones read under that ID.
    proof fn lemma_alg_at(&self, idx: int)
        requires
            self.wf(),
            0 <= idx < self.algs@.len(),
        ensures
            self.spec_alg(self.algs@[idx].alg_id) == Some(self.algs@[idx].view),
            self.spec_node_vals(self.algs@[idx].alg_id) == self.spec_vals(idx),
    {
        let vs = views_seq(self.algs@);
        let id = self.algs@[idx].alg_id;
        assert forall|j: int| 0 <= j < idx implies vs[j].0 != id by {
            assert(vs[j].0 == self.algs@[j].alg_id);
        }
        lemma_lookup_found(vs, idx, id);
        assert(self.spec_node_vals(id) =~= self.spec_vals(idx));
    }
}

impl<S: Storage, H: Hasher> NaryMerkleLog<S, H> {
    /// The checkpoint check (`checkpoint_check`) of the algorithm at
    /// position `idx`.
    #[verifier::rlimit(60)]
    fn checkpoint_alg(&self, idx: usize, start: u64, trusted: &[(u64, Vec<u8>)]) -> (r: Result<
        bool,
        Error<S::Error>,
    >)
        requires
            self.wf(),
            idx < self.algs@.len(),
        ensures
            r matches Ok(b) ==> self.alg_checkpoint(idx as int, start, trusted_view(trusted@)) == Some(b),
            r matches Err(e) ==> e is Storage || (e == Error::<S::Error>::UnknownAlgorithm(
                self.algs@[idx as int].alg_id,
            ) && self.alg_checkpoint(idx as int, start, trusted_view(trusted@)) is None),
    {
        let id = self.algs[idx].alg_id;
        let view = &self.algs[idx].view;
        let end = self.count;
        let first = view.first_activation();
        let cs = if start >= first {
            start
        } else {
            first
        };
        if cs >= end {
            return Ok(true);
        }
        let o = if cs <= first {
            0
        } else {
            view.effective_size_at(cs)
        };
        let n = if end <= first {
            0
        } else {
            view.effective_size_at(end)
        };
        let old_root = if o == 0 {
            view.hasher.empty()
        } else {
            match trusted_lookup(trusted, id) {
                Some(r) => r,
                None => {
                    return Err(Error::UnknownAlgorithm(id));
                },
            }
        };
        proof {
            self.lemma_alg_at(idx as int);
        }
        let new_root = match self.root_for_at(id, end) {
            Ok(r) => r,
            Err(e) => {
                return Err(e);
            },
        };
        if 0 < o && o < n {
            match self.consistency_proof_for(id, o, n) {
                Err(e) => Err(e),
                Ok(None) => Ok(false),
                Ok(Some(p)) => Ok(
                    crate::proofs::verify_consistency(
                        &view.hasher,
                        &p,
                        old_root.as_slice(),
                        new_root.as_slice(),
                    ),
                ),
            }
        } else if o == n {
            Ok(crate::hasher::bytes_eq(old_root.as_slice(), new_root.as_slice()))
        } else {
            Ok(true)
        }
    }
}

impl<S: Storage, H: Hasher> NaryMerkleLog<S, H> {
    /// The tail and start checks (`alg_start`) of the algorithm at position
    /// `idx`; when they pass, its rebuild state at `start`: the peaks read at
    /// its effective size then, their coordinates, and that size.
    fn start_alg(&self, idx: usize, start: u64, trusted: &[(u64, Vec<u8>)]) -> (r: Result<
        Option<(Vec<Vec<u8>>, Vec<(u64, u32)>, u64)>,
        Error<S::Error>,
    >)
        requires
            self.wf(),
            idx < self.algs@.len(),
            start <= self.count,
        ensures
            r matches Ok(None) ==> self.alg_start(idx as int, start, trusted_view(trusted@)) == Some(
                false,
            ),
            r matches Ok(Some(st)) ==> {
                let s0 = spec_effective_size_at(self.algs@[idx as int].view.epochs@, start);
                &&& self.alg_start(idx as int, start, trusted_view(trusted@)) == Some(true)
                &&& digests_view(st.0@) == peak_values(
                    self.spec_vals(idx as int),
                    s0 as nat,
                    self.config.arity as nat,
                )
                &&& coords_view(st.1@) == frontier_spec(s0 as nat, self.config.arity as nat)
                &&& st.2 == s0
            },
            r matches Err(e) ==> e is Storage || (e == Error::<S::Error>::UnknownAlgorithm(
                self.algs@[idx as int].alg_id,
            ) && self.alg_start(idx as int, start, trusted_view(trusted@)) is None),
    {
        let id = self.algs[idx].alg_id;
        let view = &self.algs[idx].view;
        let end = self.count;
        let k = self.config.arity;
        if !view.is_active() {
            let d = if view.epochs.len() == 0 {
                0
            } else {
                view.epochs[view.epochs.len() - 1].1
            };
            if d < end {
                let key = (d << 16u64) | (0u64 & 0xFFFFu64);
                match self.storage.get_node(id, key) {
                    Err(e) => {
                        return Err(Error::Storage(e));
                    },
                    Ok(Some(_)) => {
                        return Ok(None);
                    },
                    Ok(None) => {},
                }
            }
        }
        let s0 = view.effective_size_at(start);
        proof {
            crate::engine::lemma_effective_size_bound(view.epochs@, start);
        }
        let coords = frontier_for_size(s0, k);
        let peaks_read = match self.read_peaks(idx, &coords, s0) {
            Ok(p) => p,
            Err(e) => {
                return Err(e);
            },
        };
        if start > 0 {
            let folded = fold_peaks(&view.hasher, copy_digests(&peaks_read), k);
            let expected = match trusted_lookup(trusted, id) {
                Some(r) => r,
                None => {
                    if s0 == 0 {
                        view.hasher.empty()
                    } else if start <= view.first_activation() {
                        view.hasher.null()
                    } else {
                        return Err(Error::UnknownAlgorithm(id));
                    }
                },
            };
            if !crate::hasher::bytes_eq(folded.as_slice(), expected.as_slice()) {
                return Ok(None);
            }
        }
        Ok(Some((peaks_read, coords, s0)))
    }
}

/// Two coordinate lists have the same length and the same heights.
pub open spec fn heights_like(a: Seq<(nat, nat)>, b: Seq<(nat, nat)>) -> bool {
    &&& a.len() == b.len()
    &&& forall|i: int| 0 <= i < a.len() ==> (#[trigger] a[i]).1 == b[i].1
}

impl<S: Storage, H: Hasher> NaryMerkleLog<S, H> {
    /// `m` checked merges (`carry_check`) of the rebuilt frontier `fr`, `cs`
    /// of the algorithm at position `idx`, after a push at local size `n`;
    /// false on a mismatch or too short a frontier.
    #[verifier::rlimit(40)]
    fn carry_checked(
        &self,
        idx: usize,
        fr: &mut Vec<Vec<u8>>,
        cs: &mut Vec<(u64, u32)>,
        m: u32,
        Ghost(n): Ghost<nat>,
    ) -> (r: Result<bool, Error<S::Error>>)
        requires
            self.wf(),
            idx < self.algs@.len(),
            old(fr)@.len() == old(cs)@.len(),
            n < u64::MAX,
            m == trailing_count(n + 1, self.config.arity as nat),
            heights_like(coords_view(old(cs)@), carry_state(n, 0, self.config.arity as nat)),
        ensures
            r matches Ok(b) ==> match carry_check(
                self.algs@[idx as int].view.hasher,
                self.spec_vals(idx as int),
                self.config.arity as nat,
                digests_view(old(fr)@),
                coords_view(old(cs)@),
                m as nat,
            ) {
                None => !b,
                Some(c) => {
                    &&& b
                    &&& digests_view(final(fr)@) == c.0
                    &&& coords_view(final(cs)@) == c.1
                    &&& final(fr)@.len() == final(cs)@.len()
                    &&& heights_like(c.1, frontier_spec(n + 1, self.config.arity as nat))
                },
            },
            r matches Err(e) ==> e is Storage,
    {
        let k = self.config.arity;
        let ku = k as usize;
        let ghost kn = k as nat;
        let ghost h = self.algs@[idx as int].view.hasher;
        let ghost vals = self.spec_vals(idx as int);
        let ghost goal = carry_check(h, vals, kn, digests_view(fr@), coords_view(cs@), m as nat);
        let mut j: u32 = 0;
        while j < m
            invariant
                self.wf(),
                idx < self.algs@.len(),
                k == self.config.arity,
                ku == k,
                kn == k,
                h == self.algs@[idx as int].view.hasher,
                vals == self.spec_vals(idx as int),
                n < u64::MAX,
                m == trailing_count(n + 1, kn),
                j <= m,
                fr@.len() == cs@.len(),
                heights_like(coords_view(cs@), carry_state(n, j as nat, kn)),
                goal == carry_check(h, vals, kn, digests_view(fr@), coords_view(cs@), (m - j) as nat),
                goal == carry_check(h, vals, kn, digests_view(old(fr)@), coords_view(old(cs)@), m as nat),
            decreases m - j,
        {
            proof {
                lemma_carry_step(n, j as nat, kn);
            }
            if fr.len() < ku {
                return Ok(false);
            }
            let split = fr.len() - ku;
            let ghost fv = digests_view(fr@);
            let ghost cv = coords_view(cs@);
            let ghost st = carry_state(n, j as nat, kn);
            let children = fr.split_off(split);
            let p = crate::mr::nary_mr(&self.algs[idx].view.hasher, children.as_slice());
            let tail = cs.split_off(split);
            let (pl, ph0) = tail[0];
            proof {
                assert(digests_view(children@) =~= fv.skip(split as int));
                assert(digests_view(fr@) =~= fv.take(split as int));
                assert(coords_view(cs@) =~= cv.take(split as int));
                assert(cv[split as int] == (pl as nat, ph0 as nat));
                assert(cv[split as int].1 == st[st.len() - kn].1);
                assert(st[st.len() - kn + 0] == (((n + 1 - pow(kn, j as nat + 1)) + 0 * pow(kn, j as nat)) as nat, j as nat));
                lemma_pow_u64_height(kn, j as nat + 1);
            }
            let ph = ph0 + 1;
            let stored = match self.node_hash(idx, pl, ph) {
                Ok(v) => v,
                Err(e) => {
                    return Err(e);
                },
            };
            if !crate::hasher::bytes_eq(p.as_slice(), stored.as_slice()) {
                return Ok(false);
            }
            let ghost before = fr@;
            fr.push(p);
            cs.push((pl, ph));
            proof {
                crate::hasher::lemma_digests_push(before, p);
                assert(digests_view(fr@) =~= fv.take(split as int).push(spec_nary_mr(h, fv.skip(split as int))));
                assert(coords_view(cs@) =~= cv.take(split as int).push((pl as nat, ph as nat)));
                let st1 = carry_state(n, j as nat + 1, kn);
                assert(st.take(st.len() - kn).push(((n + 1 - pow(kn, j as nat + 1)) as nat, j as nat + 1)) == st1);
                assert forall|i: int| 0 <= i < coords_view(cs@).len() implies (#[trigger] coords_view(cs@)[i]).1 == st1[i].1 by {
                    if i < split {
                        assert(coords_view(cs@)[i] == cv[i]);
                        assert(st1[i] == st[i]);
                    }
                }
            }
            j = j + 1;
        }
        proof {
            lemma_carry_done(n, kn);
        }
        Ok(true)
    }
}

impl<S: Storage, H: Hasher> NaryMerkleLog<S, H> {
    /// One position `i` of the rebuild (`stream_cell`) of the algorithm at
    /// position `idx`, on the state `fr`, `cs`, `sz`.
    #[verifier::rlimit(40)]
    fn stream_step(
        &self,
        idx: usize,
        i: u64,
        fr: &mut Vec<Vec<u8>>,
        cs: &mut Vec<(u64, u32)>,
        sz: &mut u64,
    ) -> (r: Result<bool, Error<S::Error>>)
        requires
            self.wf(),
            idx < self.algs@.len(),
            i < self.count,
            *old(sz) <= i,
            old(fr)@.len() == old(cs)@.len(),
            heights_like(coords_view(old(cs)@), frontier_spec(*old(sz) as nat, self.config.arity as nat)),
        ensures
            r matches Ok(b) ==> match stream_cell(
                self.algs@[idx as int].view.hasher,
                self.spec_vals(idx as int),
                self.algs@[idx as int].view.epochs@,
                self.config.arity as nat,
                self.kind == LogKind::Flat,
                self.storage.spec_leaves()[i as int],
                i as nat,
                (digests_view(old(fr)@), coords_view(old(cs)@), *old(sz) as nat),
            ) {
                None => !b,
                Some(st) => {
                    &&& b
                    &&& digests_view(final(fr)@) == st.0
                    &&& coords_view(final(cs)@) == st.1
                    &&& *final(sz) == st.2
                    &&& *final(sz) <= i + 1
                    &&& final(fr)@.len() == final(cs)@.len()
                    &&& heights_like(st.1, frontier_spec(st.2, self.config.arity as nat))
                },
            },
            r matches Err(e) ==> e is Storage,
    {
        let view = &self.algs[idx].view;
        let k = self.config.arity;
        let deact = if view.is_active() {
            u64::MAX
        } else if view.epochs.len() == 0 {
            0
        } else {
            view.epochs[view.epochs.len() - 1].1
        };
        if i >= deact {
            return Ok(true);
        }
        let act = view.is_active_at(i);
        let d = if act {
            if self.kind == LogKind::Flat {
                let leaf = match self.storage.get_leaf(i) {
                    Ok(v) => v,
                    Err(e) => {
                        return Err(Error::Storage(e));
                    },
                };
                let computed = view.hasher.leaf(leaf.as_slice());
                let stored = match self.node_hash(idx, i, 0) {
                    Ok(v) => v,
                    Err(e) => {
                        return Err(e);
                    },
                };
                if !crate::hasher::bytes_eq(computed.as_slice(), stored.as_slice()) {
                    return Ok(false);
                }
                computed
            } else {
                match self.node_hash(idx, i, 0) {
                    Ok(v) => v,
                    Err(e) => {
                        return Err(e);
                    },
                }
            }
        } else {
            view.hasher.null()
        };
        let ghost n = *sz as nat;
        let ghost before = fr@;
        let ghost cbefore = coords_view(cs@);
        fr.push(d);
        cs.push((i, 0));
        proof {
            crate::hasher::lemma_digests_push(before, d);
            assert(coords_view(cs@) =~= cbefore.push((i as nat, 0)));
            lemma_carry_start(n, k as nat);
            let cst = carry_state(n, 0, k as nat);
            assert forall|t: int| 0 <= t < coords_view(cs@).len() implies (#[trigger] coords_view(cs@)[t]).1 == cst[t].1 by {
                if t < cbefore.len() {
                    assert(coords_view(cs@)[t] == cbefore[t]);
                }
            }
        }
        let m = crate::topology::reduction_count(*sz, k);
        match self.carry_checked(idx, fr, cs, m, Ghost(n)) {
            Err(e) => {
                return Err(e);
            },
            Ok(false) => {
                return Ok(false);
            },
            Ok(true) => {},
        }
        *sz = *sz + 1;
        Ok(true)
    }

    /// The rebuild of the algorithm at position `idx` from `start`
    /// (`stream_ok`), starting from its peaks there.
    #[verifier::rlimit(40)]
    fn stream_alg(
        &self,
        idx: usize,
        start: u64,
        fr: Vec<Vec<u8>>,
        cs: Vec<(u64, u32)>,
        sz: u64,
    ) -> (r: Result<bool, Error<S::Error>>)
        requires
            self.wf(),
            idx < self.algs@.len(),
            start <= self.count,
            sz == spec_effective_size_at(self.algs@[idx as int].view.epochs@, start),
            digests_view(fr@) == peak_values(self.spec_vals(idx as int), sz as nat, self.config.arity as nat),
            coords_view(cs@) == frontier_spec(sz as nat, self.config.arity as nat),
        ensures
            r matches Ok(b) ==> b == self.alg_stream_ok(idx as int, start),
            r matches Err(e) ==> e is Storage,
    {
        let ghost h = self.algs@[idx as int].view.hasher;
        let ghost vals = self.spec_vals(idx as int);
        let ghost e = self.algs@[idx as int].view.epochs@;
        let ghost kn = self.config.arity as nat;
        let ghost flat = self.kind == LogKind::Flat;
        let ghost leaves = self.storage.spec_leaves();
        let ghost goal = stream_from(
            h,
            vals,
            e,
            kn,
            flat,
            leaves,
            start as nat,
            self.count as nat,
            (digests_view(fr@), coords_view(cs@), sz as nat),
        );
        proof {
            crate::engine::lemma_effective_size_bound(e, start);
            assert(digests_view(fr@).len() == fr@.len());
            assert(coords_view(cs@).len() == cs@.len());
            assert(match goal {
                None => !self.alg_stream_ok(idx as int, start),
                Some(st) => self.alg_stream_ok(idx as int, start) == (fold_frontier(h, st.0, kn)
                    == root_read_at(h, vals, e, self.count, kn)),
            });
        }
        let mut fr = fr;
        let mut cs = cs;
        let mut sz = sz;
        let mut i = start;
        while i < self.count
            invariant
                self.wf(),
                idx < self.algs@.len(),
                h == self.algs@[idx as int].view.hasher,
                vals == self.spec_vals(idx as int),
                e == self.algs@[idx as int].view.epochs@,
                kn == self.config.arity as nat,
                flat == (self.kind == LogKind::Flat),
                leaves == self.storage.spec_leaves(),
                match goal {
                    None => !self.alg_stream_ok(idx as int, start),
                    Some(st) => self.alg_stream_ok(idx as int, start) == (fold_frontier(h, st.0, kn)
                        == root_read_at(h, vals, e, self.count, kn)),
                },
                start <= i <= self.count,
                sz <= i,
                fr@.len() == cs@.len(),
                heights_like(coords_view(cs@), frontier_spec(sz as nat, kn)),
                goal == stream_from(
                    h,
                    vals,
                    e,
                    kn,
                    flat,
                    leaves,
                    i as nat,
                    self.count as nat,
                    (digests_view(fr@), coords_view(cs@), sz as nat),
                ),
            decreases self.count - i,
        {
            match self.stream_step(idx, i, &mut fr, &mut cs, &mut sz) {
                Err(e) => {
                    return Err(e);
                },
                Ok(false) => {
                    return Ok(false);
                },
                Ok(true) => {},
            }
            i = i + 1;
        }
        let id = self.algs[idx].alg_id;
        proof {
            self.lemma_alg_at(idx as int);
        }
        let root = match self.root_for_at(id, self.count) {
            Ok(r) => r,
            Err(e) => {
                return Err(e);
            },
        };
        let folded = fold_peaks(&self.algs[idx].view.hasher, fr, self.config.arity);
        Ok(crate::hasher::bytes_eq(folded.as_slice(), root.as_slice()))
    }
}

/// The checkpoint size a divergence check starts from (0 for none).
pub open spec fn checkpoint_start(c: Option<u64>) -> u64 {
    match c {
        Some(s) => s,
        None => 0,
    }
}

impl<S: Storage, H: Hasher> NaryMerkleLog<S, H> {
    /// Verify that the trees of every registered algorithm have not diverged
    /// from the data in storage, from the checkpoint `checkpoint_size` (0
    /// when `None`) to the current count, given `trusted_roots` for the
    /// checkpoint (`spec_non_divergence`): each algorithm's growth since the
    /// checkpoint must carry a consistency proof from its trusted root, no
    /// node may be stored past a frozen algorithm's deactivation, its peaks
    /// at the checkpoint must fold to its trusted root, and its rebuild from
    /// them through the stored payloads or cells must meet every stored
    /// node and end at its current root.
    ///
    /// Fails with `UnknownAlgorithm` when a needed trusted root is missing,
    /// and with the storage error when a read fails.
    #[verifier::rlimit(40)]
    pub fn verify_non_divergence(
        &self,
        checkpoint_size: Option<u64>,
        trusted_roots: &[(u64, Vec<u8>)],
    ) -> (r: Result<bool, Error<S::Error>>)
        requires
            self.wf(),
        ensures
            checkpoint_start(checkpoint_size) > self.spec_count() ==> r == Ok::<bool, Error<S::Error>>(false),
            r matches Ok(b) ==> self.spec_non_divergence(
                checkpoint_start(checkpoint_size),
                trusted_view(trusted_roots@),
            ) == Some(b),
            r matches Err(e) ==> e is Storage || (e is UnknownAlgorithm && self.spec_non_divergence(
                checkpoint_start(checkpoint_size),
                trusted_view(trusted_roots@),
            ) is None),
            self.spec_non_divergence(checkpoint_start(checkpoint_size), trusted_view(trusted_roots@)) is None
                ==> (r matches Err(e) && (e is UnknownAlgorithm || e is Storage)),
    {
        let ghost tv = trusted_view(trusted_roots@);
        let start = match checkpoint_size {
            Some(s) => s,
            None => 0,
        };
        let end = self.count;
        if start > end {
            return Ok(false);
        }
        if start > 0 {
            let mut j: usize = 0;
            while j < self.algs.len()
                invariant
                    self.wf(),
                    tv == trusted_view(trusted_roots@),
                    start == checkpoint_start(checkpoint_size),
                    0 < start <= self.count,
                    j <= self.algs@.len(),
                    self.checkpoint_phase(start, tv, 0) == self.checkpoint_phase(start, tv, j as int),
                decreases self.algs@.len() - j,
            {
                match self.checkpoint_alg(j, start, trusted_roots) {
                    Err(e) => {
                        return Err(e);
                    },
                    Ok(false) => {
                        return Ok(false);
                    },
                    Ok(true) => {},
                }
                j = j + 1;
            }
        }
        let mut states: Vec<(Vec<Vec<u8>>, Vec<(u64, u32)>, u64)> = Vec::new();
        let mut j: usize = 0;
        while j < self.algs.len()
            invariant
                self.wf(),
                tv == trusted_view(trusted_roots@),
                start == checkpoint_start(checkpoint_size),
                start <= self.count,
                start > 0 ==> self.checkpoint_phase(start, tv, 0) == Some(true),
                j <= self.algs@.len(),
                states@.len() == j,
                self.start_phase(start, tv, 0) == self.start_phase(start, tv, j as int),
                forall|jj: int|
                    0 <= jj < j ==> {
                        let s0 = spec_effective_size_at(self.algs@[jj].view.epochs@, start);
                        &&& (#[trigger] states@[jj]).2 == s0
                        &&& digests_view(states@[jj].0@) == peak_values(
                            self.spec_vals(jj),
                            s0 as nat,
                            self.config.arity as nat,
                        )
                        &&& coords_view(states@[jj].1@) == frontier_spec(s0 as nat, self.config.arity as nat)
                    },
            decreases self.algs@.len() - j,
        {
            match self.start_alg(j, start, trusted_roots) {
                Err(e) => {
                    return Err(e);
                },
                Ok(None) => {
                    return Ok(false);
                },
                Ok(Some(st)) => {
                    states.push(st);
                },
            }
            j = j + 1;
        }
        let mut j: usize = 0;
        while j < self.algs.len()
            invariant
                self.wf(),
                tv == trusted_view(trusted_roots@),
                start == checkpoint_start(checkpoint_size),
                start <= self.count,
                start > 0 ==> self.checkpoint_phase(start, tv, 0) == Some(true),
                self.start_phase(start, tv, 0) == Some(true),
                j <= self.algs@.len(),
                states@.len() == self.algs@.len(),
                forall|jj: int|
                    0 <= jj < self.algs@.len() ==> {
                        let s0 = spec_effective_size_at(self.algs@[jj].view.epochs@, start);
                        &&& (#[trigger] states@[jj]).2 == s0
                        &&& digests_view(states@[jj].0@) == peak_values(
                            self.spec_vals(jj),
                            s0 as nat,
                            self.config.arity as nat,
                        )
                        &&& coords_view(states@[jj].1@) == frontier_spec(s0 as nat, self.config.arity as nat)
                    },
                forall|jj: int| 0 <= jj < j ==> #[trigger] self.alg_stream_ok(jj, start),
            decreases self.algs@.len() - j,
        {
            let st = &states[j];
            let fr = copy_digests(&st.0);
            let cs = copy_coords(&st.1);
            proof {
                assert(coords_view(cs@) == coords_view(st.1@));
            }
            match self.stream_alg(j, start, fr, cs, st.2) {
                Err(e) => {
                    return Err(e);
                },
                Ok(false) => {
                    return Ok(false);
                },
                Ok(true) => {},
            }
            j = j + 1;
        }
        Ok(true)
    }
}

impl<S: Storage, H: Hasher> NaryMerkleLog<S, H> {
    /// A consistency path the log builds between two sizes of an algorithm
    /// whose cells it built itself, when it keeps the verifier's bounds, is
    /// accepted: followed between the sizes, it yields the member roots of
    /// the first `o` and the first `n` cells.
    pub proof fn lemma_consistency_proof_accepted(&self, alg_id: u64, o: nat, n: nat)
        requires
            self.wf(),
            self.spec_cells(alg_id) matches Some(c) && 0 < o < n <= c.len(),
            self.spec_alg(alg_id) matches Some(v) && consistency_steps(
                v.hasher,
                self.spec_node_vals(alg_id),
                o,
                n,
                self.spec_arity() as nat,
            ) matches Some(s) && inputs_ok(
                v.hasher.spec_empty().len(),
                s.0,
                o,
                n,
                self.spec_arity() as nat,
                s.1,
            ),
        ensures
            self.spec_alg(alg_id) matches Some(v) && self.spec_cells(alg_id) matches Some(c)
                && consistency_steps(
                v.hasher,
                self.spec_node_vals(alg_id),
                o,
                n,
                self.spec_arity() as nat,
            ) matches Some(s) && path_consistency_roots(
                v.hasher,
                o,
                n,
                self.spec_arity() as nat,
                s.0,
                s.1,
            ) == Some(
                (
                    member_root(v.hasher, c.take(o as int), self.spec_arity() as nat),
                    member_root(v.hasher, c.take(n as int), self.spec_arity() as nat),
                ),
            ),
    {
        let vs = views_seq(self.algs@);
        let cs = cells_seq(self.algs@);
        let i = lemma_lookup_some_index(cs, alg_id);
        assert(cs[i].0 == self.algs@[i].alg_id);
        assert forall|j: int| 0 <= j < i implies vs[j].0 != alg_id by {
            assert(vs[j].0 == self.algs@[j].alg_id);
        }
        assert forall|j: int| 0 <= j < i implies cs[j].0 != alg_id by {
            assert(cs[j].0 == self.algs@[j].alg_id);
        }
        lemma_lookup_found(vs, i, alg_id);
        lemma_lookup_found(cs, i, alg_id);
        let v = self.algs@[i].view;
        let c = self.spec_cells(alg_id)->0;
        let k = self.config.arity as nat;
        let nodes = self.storage.spec_nodes();
        let vals = vals_of(nodes, alg_id, v, k);
        assert(nodes_ok(nodes, alg_id, v, c, k));
        assert(self.spec_node_vals(alg_id) =~= vals);
        assert(alg_ok(v, self.algs@[i].cells@, self.count, k));
        assert(n <= u64::MAX);
        assert(vals_agree(v.hasher, vals, c, n, k)) by {
            assert(vals_agree(v.hasher, vals, c, c.len(), k));
        }
        assert(vals_agree(v.hasher, vals, c, o, k)) by {
            assert(vals_agree(v.hasher, vals, c, c.len(), k));
        }
        crate::acceptance::lemma_consistency_accepted(v.hasher, vals, c, o, n, k);
        lemma_peak_values(v.hasher, vals, c, o, k);
        lemma_peak_values(v.hasher, vals, c, n, k);
    }

    /// A frozen algorithm at a size at or past the end of its last
    /// (non-empty) epoch has its whole tree as local size there: the size
    /// `root_for_at` reads it at is its tree size, and for cells the log
    /// tracks, the first that many cells are all of them.
    pub proof fn lemma_frozen_size_at(&self, alg_id: u64, size: u64)
        requires
            self.wf(),
            self.spec_alg(alg_id) matches Some(v) && !spec_is_active(v.epochs@) && v.epochs@.len() > 0
                && v.epochs@.last().0 < v.epochs@.last().1 && v.epochs@.last().1 <= size,
        ensures
            self.spec_alg(alg_id) matches Some(v) && spec_effective_size_at(v.epochs@, size) == v.epochs@.last().1
                && spec_effective_size_at(v.epochs@, size) == spec_tree_size(v.epochs@, self.spec_count()),
            self.spec_cells(alg_id) matches Some(c) ==> self.spec_alg(alg_id) matches Some(v) && c.take(
                spec_effective_size_at(v.epochs@, size) as int,
            ) == c,
    {
        let vs = views_seq(self.algs@);
        let i = lemma_lookup_some_index(vs, alg_id);
        assert(vs[i].0 == self.algs@[i].alg_id);
        assert forall|j: int| 0 <= j < i implies vs[j].0 != alg_id by {
            assert(vs[j].0 == self.algs@[j].alg_id);
        }
        lemma_lookup_found(vs, i, alg_id);
        let v = self.algs@[i].view;
        let k = self.config.arity as nat;
        assert(alg_ok(v, self.algs@[i].cells@, self.count, k));
        crate::engine::lemma_frozen_effective_size(v.epochs@, size, self.count);
        if self.spec_cells(alg_id) is Some {
            let cs = cells_seq(self.algs@);
            assert(cs[i].0 == self.algs@[i].alg_id);
            assert forall|j: int| 0 <= j < i implies cs[j].0 != alg_id by {
                assert(cs[j].0 == self.algs@[j].alg_id);
            }
            lemma_lookup_found(cs, i, alg_id);
            let c = self.spec_cells(alg_id)->0;
            assert(c.len() == spec_tree_size(v.epochs@, self.count));
            assert(c.take(c.len() as int) =~= c);
        }
    }

    /// A mountain consistency proof the log builds between two sizes of an
    /// algorithm whose cells it built itself, when its digests have the
    /// hasher's length, is accepted: checked between the sizes, it yields the
    /// bags of the frontier peaks of the first `o` and of the first `n` cells.
    pub proof fn lemma_mountain_consistency_proof_accepted(&self, alg_id: u64, o: nat, n: nat)
        requires
            self.wf(),
            self.spec_cells(alg_id) matches Some(c) && 0 < o < n <= c.len(),
            self.spec_alg(alg_id) matches Some(v) && mountain_proof_fits(
                v.hasher.spec_empty().len(),
                mountain_proof(self.spec_node_vals(alg_id), o, n, self.spec_arity() as nat),
            ),
        ensures
            self.spec_alg(alg_id) matches Some(v) && self.spec_cells(alg_id) matches Some(c) && ({
                let p = mountain_proof(self.spec_node_vals(alg_id), o, n, self.spec_arity() as nat);
                consistency_roots(v.hasher, o, n, self.spec_arity() as nat, p.0, p.1, p.2, p.3) == Some(
                    (
                        bag_root(v.hasher, peaks(v.hasher, c.take(o as int), self.spec_arity() as nat), self.spec_arity() as nat),
                        bag_root(v.hasher, peaks(v.hasher, c.take(n as int), self.spec_arity() as nat), self.spec_arity() as nat),
                    ),
                )
            }),
    {
        let vs = views_seq(self.algs@);
        let cs = cells_seq(self.algs@);
        let i = lemma_lookup_some_index(cs, alg_id);
        assert(cs[i].0 == self.algs@[i].alg_id);
        assert forall|j: int| 0 <= j < i implies vs[j].0 != alg_id by {
            assert(vs[j].0 == self.algs@[j].alg_id);
        }
        assert forall|j: int| 0 <= j < i implies cs[j].0 != alg_id by {
            assert(cs[j].0 == self.algs@[j].alg_id);
        }
        lemma_lookup_found(vs, i, alg_id);
        lemma_lookup_found(cs, i, alg_id);
        let v = self.algs@[i].view;
        let c = self.spec_cells(alg_id)->0;
        let k = self.config.arity as nat;
        let nodes = self.storage.spec_nodes();
        let vals = vals_of(nodes, alg_id, v, k);
        assert(nodes_ok(nodes, alg_id, v, c, k));
        assert(self.spec_node_vals(alg_id) =~= vals);
        assert(alg_ok(v, self.algs@[i].cells@, self.count, k));
        assert(n <= u64::MAX);
        assert(vals_agree(v.hasher, vals, c, n, k)) by {
            assert(vals_agree(v.hasher, vals, c, c.len(), k));
        }
        assert(vals_agree(v.hasher, vals, c, o, k)) by {
            assert(vals_agree(v.hasher, vals, c, c.len(), k));
        }
        crate::soundness::lemma_mountain_consistency_accepted(v.hasher, vals, c, o, n, k);
        lemma_peak_values(v.hasher, vals, c, o, k);
        lemma_peak_values(v.hasher, vals, c, n, k);
    }

    /// An append never rewrites a stored node: for an algorithm whose cells
    /// the log tracks, a store that changed only at aligned subtrees ending at
    /// the next count (as `append_leaf` and `append_subtree` leave it, on
    /// success or failure) still holds every node it held for that algorithm,
    /// with the same digest.
    pub proof fn lemma_append_keeps_nodes(&self, new_nodes: Map<(u64, u64), Seq<u8>>, alg_id: u64)
        requires
            self.wf(),
            self.spec_cells(alg_id) is Some,
            self.spec_count() < MAX_COUNT,
            changed_only_ending_at(
                self.spec_storage().spec_nodes(),
                new_nodes,
                (self.spec_count() + 1) as nat,
                self.spec_arity() as nat,
            ),
        ensures
            forall|key: u64|
                #[trigger] self.spec_storage().spec_nodes().contains_key((alg_id, key)) ==> new_nodes.contains_key(
                    (alg_id, key),
                ) && new_nodes[(alg_id, key)] == self.spec_storage().spec_nodes()[(alg_id, key)],
    {
        let cs = cells_seq(self.algs@);
        let i = lemma_lookup_some_index(cs, alg_id);
        assert(cs[i].0 == self.algs@[i].alg_id);
        assert forall|j: int| 0 <= j < i implies cs[j].0 != alg_id by {
            assert(cs[j].0 == self.algs@[j].alg_id);
        }
        lemma_lookup_found(cs, i, alg_id);
        let v = self.algs@[i].view;
        let c = self.spec_cells(alg_id)->0;
        let k = self.config.arity as nat;
        let nodes = self.storage.spec_nodes();
        assert(nodes_ok(nodes, alg_id, v, c, k));
        assert(alg_ok(v, self.algs@[i].cells@, self.count, k));
        assert(c.len() <= self.count) by {
            if !spec_is_active(v.epochs@) && v.epochs@.len() > 0 {
                assert(v.epochs@.last().1 != u64::MAX);
                assert(v.epochs@.last().1 <= self.count);
            }
        }
        assert forall|key: u64| #[trigger] nodes.contains_key((alg_id, key)) implies new_nodes.contains_key(
            (alg_id, key),
        ) && new_nodes[(alg_id, key)] == nodes[(alg_id, key)] by {
            if ends_at(key, (self.count + 1) as nat, k) {
                let (l, ht) = choose|l: nat, ht: nat|
                    key == node_key(l, ht) && l + pow(k, ht) == self.count + 1 && aligned(l, ht, k);
                assert(c.len() < l + pow(k, ht) <= MAX_COUNT);
                assert(!nodes.contains_key((alg_id, node_key(l, ht))));
                assert(false);
            }
        }
    }

    /// An append never rewrites a stored node, for any store: when every
    /// node stored for an algorithm is a subtree that ends within the current
    /// count, a store that changed only at aligned subtrees ending at the
    /// next count (as `append_leaf` and `append_subtree` leave it) still holds
    /// every one of those nodes, with the same digest.
    pub proof fn lemma_append_keeps_stored_nodes(&self, new_nodes: Map<(u64, u64), Seq<u8>>, alg_id: u64)
        requires
            self.wf(),
            self.spec_count() < MAX_COUNT,
            forall|key: u64|
                #[trigger] self.spec_storage().spec_nodes().contains_key((alg_id, key)) ==> exists|l: nat, ht: nat|
                    key == node_key(l, ht) && l + pow(self.spec_arity() as nat, ht) <= self.spec_count()
                        && ht < 0x10000,
            changed_only_ending_at(
                self.spec_storage().spec_nodes(),
                new_nodes,
                (self.spec_count() + 1) as nat,
                self.spec_arity() as nat,
            ),
        ensures
            forall|key: u64|
                #[trigger] self.spec_storage().spec_nodes().contains_key((alg_id, key)) ==> new_nodes.contains_key(
                    (alg_id, key),
                ) && new_nodes[(alg_id, key)] == self.spec_storage().spec_nodes()[(alg_id, key)],
    {
        let k = self.config.arity as nat;
        let nodes = self.storage.spec_nodes();
        assert forall|key: u64| #[trigger] nodes.contains_key((alg_id, key)) implies new_nodes.contains_key(
            (alg_id, key),
        ) && new_nodes[(alg_id, key)] == nodes[(alg_id, key)] by {
            if ends_at(key, (self.count + 1) as nat, k) {
                let (l, ht) = choose|l: nat, ht: nat|
                    key == node_key(l, ht) && l + pow(k, ht) == self.count + 1 && aligned(l, ht, k);
                let (l0, h0) = choose|l: nat, ht: nat|
                    key == node_key(l, ht) && l + pow(k, ht) <= self.count && ht < 0x10000;
                lemma_pow_positive(k, ht);
                lemma_pow_positive(k, h0);
                lemma_pow_u64_height(k, ht);
                lemma_node_key_injective(l, ht, l0, h0);
                assert(false);
            }
        }
    }

    /// Inclusion round trip: for an algorithm whose cells the log tracks,
    /// the inclusion path the log hands out for `index` in a tree of `n`
    /// cells (`inclusion_proof_for`) carries the cell at `index` to the
    /// member root of the first `n` cells.
    pub proof fn lemma_inclusion_proof_round_trip(&self, alg_id: u64, index: nat, n: nat)
        requires
            self.wf(),
            self.spec_alg(alg_id) is Some,
            self.spec_cells(alg_id) matches Some(c) && index < n <= c.len(),
        ensures
            self.spec_alg(alg_id) matches Some(v) && self.spec_cells(alg_id) matches Some(c) && path_root(
                v.hasher,
                c[index as int],
                inclusion_steps(v.hasher, self.spec_node_vals(alg_id), n, index, self.spec_arity() as nat),
            ) == Some(member_root(v.hasher, c.take(n as int), self.spec_arity() as nat)),
    {
        let vs = views_seq(self.algs@);
        let cs = cells_seq(self.algs@);
        let i = lemma_lookup_some_index(cs, alg_id);
        assert(cs[i].0 == self.algs@[i].alg_id);
        assert forall|j: int| 0 <= j < i implies vs[j].0 != alg_id by {
            assert(vs[j].0 == self.algs@[j].alg_id);
        }
        assert forall|j: int| 0 <= j < i implies cs[j].0 != alg_id by {
            assert(cs[j].0 == self.algs@[j].alg_id);
        }
        lemma_lookup_found(vs, i, alg_id);
        lemma_lookup_found(cs, i, alg_id);
        let v = self.algs@[i].view;
        let c = self.spec_cells(alg_id)->0;
        let k = self.config.arity as nat;
        let nodes = self.storage.spec_nodes();
        let vals = vals_of(nodes, alg_id, v, k);
        assert(nodes_ok(nodes, alg_id, v, c, k));
        assert(self.spec_node_vals(alg_id) =~= vals);
        assert(alg_ok(v, self.algs@[i].cells@, self.count, k));
        assert(vals_agree(v.hasher, vals, c, n, k)) by {
            assert(vals_agree(v.hasher, vals, c, c.len(), k));
        }
        lemma_inclusion_complete(v.hasher, vals, c, n, index, k);
    }
}

/// The first root `trusted` lists for `id`.
fn trusted_lookup(trusted: &[(u64, Vec<u8>)], id: u64) -> (r: Option<Vec<u8>>)
    ensures
        opt_view(r) == lookup(trusted_view(trusted@), id),
{
    let ghost tv = trusted_view(trusted@);
    let mut i: usize = 0;
    proof {
        assert(tv.skip(0) =~= tv);
    }
    while i < trusted.len()
        invariant
            tv == trusted_view(trusted@),
            i <= trusted@.len(),
            lookup(tv, id) == lookup(tv.skip(i as int), id),
        decreases trusted@.len() - i,
    {
        proof {
            assert(tv.skip(i as int)[0] == (trusted@[i as int].0, trusted@[i as int].1@));
            assert(tv.skip(i as int).skip(1) =~= tv.skip(i + 1));
        }
        if trusted[i].0 == id {
            return Some(copy_bytes(&trusted[i].1));
        }
        i = i + 1;
    }
    proof {
        assert(tv.skip(i as int).len() == 0);
    }
    None
}

} // verus!
