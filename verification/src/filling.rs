//! Filling an algorithm's tree from a sealed snapshot: the snapshot's run
//! extents and the caller's leaf data, recomputed into the algorithm's root.
use vstd::prelude::*;

use crate::hasher::{Hasher, copy_bytes, digests_view, lemma_digests_push};
use crate::model::{fold_frontier, fold_peaks, member_root, peaks, perfect, perfect_children};
use crate::mr::{nary_mr, spec_nary_mr};
use crate::topology::{coords_view, frontier_for_size, frontier_spec, lemma_frontier_within, lemma_pow_positive, lemma_pow_succ, pow};

verus! {

/// A perfect subtree of the sealed frontier: its leftmost position and its
/// height.
#[derive(Debug, Clone, Copy, PartialEq, Eq)]
pub struct RunExtent {
    left: u64,
    height: u32,
}

impl RunExtent {
    /// The extent's leftmost position.
    pub closed spec fn spec_left(&self) -> u64 {
        self.left
    }

    /// The extent's height.
    pub closed spec fn spec_height(&self) -> u32 {
        self.height
    }

    /// The extent of height `height` whose leftmost position is `left`.
    pub fn new(left: u64, height: u32) -> (e: Self)
        ensures
            e.spec_left() == left,
            e.spec_height() == height,
    {
        RunExtent { left, height }
    }

    /// The extent's leftmost position.
    pub fn left(&self) -> (l: u64)
        ensures
            l == self.spec_left(),
    {
        self.left
    }

    /// The extent's height.
    pub fn height(&self) -> (h: u32)
        ensures
            h == self.spec_height(),
    {
        self.height
    }

    /// The number of positions the extent spans at arity `k`: `k^height`.
    pub fn span(&self, k: u64) -> (s: u64)
        requires
            pow(k as nat, self.spec_height() as nat) <= u64::MAX,
        ensures
            s == pow(k as nat, self.spec_height() as nat),
    {
        let mut s: u64 = 1;
        let mut i: u32 = 0;
        while i < self.height
            invariant
                i <= self.height,
                s == pow(k as nat, i as nat),
                pow(k as nat, self.height as nat) <= u64::MAX,
            decreases self.height - i,
        {
            proof {
                crate::topology::lemma_pow_succ(k as nat, i as nat);
                if k > 0 {
                    crate::topology::lemma_pow_monotone(k as nat, (i + 1) as nat, self.height as nat);
                }
            }
            s = s * k;
            i = i + 1;
        }
        s
    }
}

/// Why a fill was refused.
#[derive(Debug, Clone, PartialEq, Eq)]
pub enum FillError {
    /// The caller supplied a different number of leaves than the snapshot
    /// committed.
    LeafCountMismatch { committed: u64, supplied: u64 },
    /// The run extents and the height-0 cells do not cover the sealed size.
    ExtentsDoNotCoverSize { tree_size: u64, covered: u64 },
    /// The algorithm to prune is the one being filled.
    PruneTargetIsFillTarget(u64),
}

/// The outcome of a fill: the algorithm, the size and root of its tree, and
/// the algorithm the caller asked to prune, if any.
#[derive(Debug, Clone, PartialEq, Eq)]
pub struct FilledTree {
    alg_id: u64,
    tree_size: u64,
    root: Vec<u8>,
    pruned: Option<u64>,
}

impl FilledTree {
    /// The filled algorithm.
    pub closed spec fn spec_alg_id(&self) -> u64 {
        self.alg_id
    }

    /// The filled tree's size.
    pub closed spec fn spec_tree_size(&self) -> u64 {
        self.tree_size
    }

    /// The filled tree's root.
    pub closed spec fn spec_root(&self) -> Seq<u8> {
        self.root@
    }

    /// The algorithm pruned by the fill, if any.
    pub closed spec fn spec_pruned(&self) -> Option<u64> {
        self.pruned
    }

    /// The filled algorithm.
    pub fn alg_id(&self) -> (id: u64)
        ensures
            id == self.spec_alg_id(),
    {
        self.alg_id
    }

    /// The filled tree's size.
    pub fn tree_size(&self) -> (n: u64)
        ensures
            n == self.spec_tree_size(),
    {
        self.tree_size
    }

    /// The filled tree's root.
    pub fn root(&self) -> (r: &[u8])
        ensures
            r@ == self.spec_root(),
    {
        self.root.as_slice()
    }

    /// The algorithm pruned by the fill, if any.
    pub fn pruned(&self) -> (p: Option<u64>)
        ensures
            p == self.spec_pruned(),
    {
        self.pruned
    }
}


/// A sealed log as the filling step reads it: the size it was sealed at,
/// its arity, and the committed run extents (the perfect subtrees above
/// height 0 of its frontier, left to right).
#[derive(Debug, Clone, PartialEq, Eq)]
pub struct Snapshot {
    tree_size: u64,
    log_arity: u64,
    run_extents: Vec<RunExtent>,
}

/// Run extents as plain `(left, height)` coordinates.
pub open spec fn extent_coords(es: Seq<RunExtent>) -> Seq<(nat, nat)> {
    es.map_values(|e: RunExtent| (e.spec_left() as nat, e.spec_height() as nat))
}

impl Snapshot {
    /// The sealed size.
    pub closed spec fn spec_tree_size(&self) -> u64 {
        self.tree_size
    }

    /// The arity.
    pub closed spec fn spec_log_arity(&self) -> u64 {
        self.log_arity
    }

    /// The committed run extents as coordinates.
    pub closed spec fn spec_extents(&self) -> Seq<(nat, nat)> {
        extent_coords(self.run_extents@)
    }

    /// The snapshot of a log sealed at `tree_size` with arity `log_arity`
    /// and the committed run extents `run_extents`.
    pub fn new(tree_size: u64, log_arity: u64, run_extents: Vec<RunExtent>) -> (s: Self)
        ensures
            s.spec_tree_size() == tree_size,
            s.spec_log_arity() == log_arity,
            s.spec_extents() == extent_coords(run_extents@),
    {
        Snapshot { tree_size, log_arity, run_extents }
    }

    /// The size the log was sealed at.
    pub fn tree_size(&self) -> (n: u64)
        ensures
            n == self.spec_tree_size(),
    {
        self.tree_size
    }

    /// The arity the log was sealed under.
    pub fn log_arity(&self) -> (k: u64)
        ensures
            k == self.spec_log_arity(),
    {
        self.log_arity
    }

    /// The committed run extents.
    pub fn run_extents(&self) -> (r: &[RunExtent])
        ensures
            extent_coords(r@) == self.spec_extents(),
    {
        self.run_extents.as_slice()
    }
}

/// The height-0 entries of a frontier, in order.
pub open spec fn zeros(fs: Seq<(nat, nat)>) -> Seq<(nat, nat)>
    decreases fs.len(),
{
    if fs.len() == 0 {
        seq![]
    } else if fs.last().1 == 0 {
        zeros(fs.drop_last()).push(fs.last())
    } else {
        zeros(fs.drop_last())
    }
}

/// `x` inserted into `s` after the last of its trailing entries whose left
/// edge is at most `x`'s.
pub open spec fn insert_by_left(s: Seq<(nat, nat)>, x: (nat, nat)) -> Seq<(nat, nat)>
    decreases s.len(),
{
    if s.len() == 0 || s.last().0 <= x.0 {
        s.push(x)
    } else {
        insert_by_left(s.drop_last(), x).push(s.last())
    }
}

/// `s` ordered by left edge, equal edges keeping their order.
pub open spec fn sort_by_left(s: Seq<(nat, nat)>) -> Seq<(nat, nat)>
    decreases s.len(),
{
    if s.len() == 0 {
        seq![]
    } else {
        insert_by_left(sort_by_left(s.drop_last()), s.last())
    }
}

/// The committed partition a fill unrolls: the run extents and the height-0
/// entries of the canonical frontier of the sealed size, by left edge.
pub open spec fn partition_of(extents: Seq<(nat, nat)>, tree_size: nat, k: nat) -> Seq<(nat, nat)> {
    sort_by_left(extents + zeros(frontier_spec(tree_size, k)))
}

/// The number of positions the entries of `s` span at arity `k`.
pub open spec fn spans(s: Seq<(nat, nat)>, k: nat) -> nat
    decreases s.len(),
{
    if s.len() == 0 {
        0
    } else {
        spans(s.drop_last(), k) + pow(k, s.last().1)
    }
}

/// One level of the bottom-up fold: each run of `k` digests (the last one
/// possibly shorter) hashed into one.
pub open spec fn chunk_level<H: Hasher>(h: H, level: Seq<Seq<u8>>, k: nat) -> Seq<Seq<u8>> {
    Seq::new(
        ((level.len() + k - 1) / k as int) as nat,
        |i: int|
            spec_nary_mr(
                h,
                level.subrange(i * k, if i * k + k <= level.len() { i * k + k } else { level.len() as int }),
            ),
    )
}

/// The root of a level of digests folded `k` at a time until one is left;
/// the empty root for none.
pub open spec fn level_root<H: Hasher>(h: H, level: Seq<Seq<u8>>, k: nat) -> Seq<u8>
    decreases level.len(),
{
    if level.len() == 0 {
        h.spec_empty()
    } else if level.len() == 1 || k < 2 {
        level[0]
    } else {
        proof {
            lemma_chunk_shorter(level.len(), k);
        }
        level_root(h, chunk_level(h, level, k), k)
    }
}

/// A level of at least two digests shrinks when folded.
pub proof fn lemma_chunk_shorter(n: nat, k: nat)
    requires
        n >= 2,
        k >= 2,
    ensures
        ((n + k - 1) / k as int) < n,
{
    assert(((n + k - 1) / k as int) < n) by (nonlinear_arith)
        requires
            n >= 2,
            k >= 2,
    ;
}

/// The leaf digests of `leaves`.
pub open spec fn leaf_level<H: Hasher>(h: H, leaves: Seq<Seq<u8>>) -> Seq<Seq<u8>> {
    leaves.map_values(|d: Seq<u8>| h.spec_leaf(d))
}

/// The root of the component at `c`: its leaves' digests folded bottom-up.
pub open spec fn component_root<H: Hasher>(h: H, leaves: Seq<Seq<u8>>, c: (nat, nat), k: nat) -> Seq<u8> {
    level_root(h, leaf_level(h, leaves.subrange(c.0 as int, (c.0 + pow(k, c.1)) as int)), k)
}

/// The root a fill computes: the component roots of the partition folded
/// into one.
pub open spec fn filled_root<H: Hasher>(h: H, leaves: Seq<Seq<u8>>, part: Seq<(nat, nat)>, k: nat) -> Seq<u8> {
    fold_frontier(h, part.map_values(|c: (nat, nat)| component_root(h, leaves, c, k)), k)
}


/// The height-0 entries of the frontier `coords`, in order.
fn zeros_of(coords: &Vec<(u64, u32)>) -> (r: Vec<(u64, u32)>)
    ensures
        coords_view(r@) == zeros(coords_view(coords@)),
{
    let ghost cv = coords_view(coords@);
    let mut r: Vec<(u64, u32)> = Vec::new();
    let mut i: usize = 0;
    while i < coords.len()
        invariant
            cv == coords_view(coords@),
            i <= coords@.len(),
            coords_view(r@) == zeros(cv.take(i as int)),
        decreases coords@.len() - i,
    {
        proof {
            assert(cv.take(i + 1).drop_last() =~= cv.take(i as int));
            assert(cv.take(i + 1).last() == cv[i as int]);
        }
        if coords[i].1 == 0 {
            let ghost before = r@;
            r.push(coords[i]);
            proof {
                assert(coords_view(r@) =~= coords_view(before).push(cv[i as int]));
            }
        }
        i = i + 1;
    }
    proof {
        assert(cv.take(coords@.len() as int) =~= cv);
    }
    r
}

/// Insert `x` into `s` after its trailing entries whose left edge is at most
/// `x`'s (`insert_by_left`).
fn insert_left(s: &mut Vec<(u64, u32)>, x: (u64, u32))
    ensures
        coords_view(final(s)@) == insert_by_left(coords_view(old(s)@), (x.0 as nat, x.1 as nat)),
{
    let ghost cv = coords_view(s@);
    let ghost xv = (x.0 as nat, x.1 as nat);
    let mut j: usize = s.len();
    proof {
        assert(cv.take(j as int) =~= cv);
        assert(cv.skip(j as int) =~= Seq::<(nat, nat)>::empty());
        assert(cv + Seq::<(nat, nat)>::empty() =~= cv);
    }
    while j > 0 && s[j - 1].0 > x.0
        invariant
            cv == coords_view(s@),
            xv == (x.0 as nat, x.1 as nat),
            j <= s@.len(),
            insert_by_left(cv, xv) == insert_by_left(cv.take(j as int), xv) + cv.skip(j as int),
        decreases j,
    {
        proof {
            let t = cv.take(j as int);
            assert(t.last() == cv[j - 1]);
            assert(t.drop_last() =~= cv.take(j - 1));
            assert(insert_by_left(t, xv) == insert_by_left(cv.take(j - 1), xv).push(cv[j - 1]));
            assert(cv.skip(j - 1) =~= seq![cv[j - 1]] + cv.skip(j as int));
            assert(insert_by_left(cv.take(j - 1), xv).push(cv[j - 1]) + cv.skip(j as int) =~= insert_by_left(
                cv.take(j - 1),
                xv,
            ) + cv.skip(j - 1));
        }
        j = j - 1;
    }
    proof {
        let t = cv.take(j as int);
        if j > 0 {
            assert(t.last() == cv[j - 1]);
        }
        assert(insert_by_left(t, xv) == t.push(xv));
    }
    s.insert(j, x);
    proof {
        assert(coords_view(s@) =~= cv.take(j as int).push(xv) + cv.skip(j as int));
    }
}

/// The committed partition of a snapshot of `tree_size` cells at arity `k`
/// (`partition_of`), refused when it does not cover the sealed size.
fn committed_partition(snapshot: &Snapshot, tree_size: u64, k: u64) -> (r: Result<
    Vec<(u64, u32)>,
    FillError,
>)
    requires
        2 <= k <= 256,
        tree_size == snapshot.spec_tree_size(),
        spans(partition_of(snapshot.spec_extents(), tree_size as nat, k as nat), k as nat) <= u64::MAX,
    ensures
        ({
            let part = partition_of(snapshot.spec_extents(), tree_size as nat, k as nat);
            let covered = spans(part, k as nat);
            &&& covered == tree_size ==> (r matches Ok(p) && coords_view(p@) == part)
            &&& covered != tree_size ==> r == Err::<Vec<(u64, u32)>, FillError>(
                FillError::ExtentsDoNotCoverSize { tree_size, covered: covered as u64 },
            )
        }),
{
    let canonical = frontier_for_size(tree_size, k);
    let zs = zeros_of(&canonical);
    let exts = snapshot.run_extents();
    let ghost list = snapshot.spec_extents() + zeros(frontier_spec(tree_size as nat, k as nat));
    let ghost part = partition_of(snapshot.spec_extents(), tree_size as nat, k as nat);
    let mut sorted: Vec<(u64, u32)> = Vec::new();
    let mut i: usize = 0;
    proof {
        assert(list.take(0) =~= Seq::<(nat, nat)>::empty());
        assert(coords_view(sorted@) =~= Seq::<(nat, nat)>::empty());
    }
    while i < exts.len()
        invariant
            list == extent_coords(exts@) + zeros(frontier_spec(tree_size as nat, k as nat)),
            i <= exts@.len(),
            coords_view(sorted@) == sort_by_left(list.take(i as int)),
        decreases exts@.len() - i,
    {
        let e = (exts[i].left(), exts[i].height());
        proof {
            assert(list.take(i + 1).drop_last() =~= list.take(i as int));
            assert(list.take(i + 1).last() == list[i as int]);
            assert(list[i as int] == (e.0 as nat, e.1 as nat));
        }
        insert_left(&mut sorted, e);
        i = i + 1;
    }
    let mut j: usize = 0;
    while j < zs.len()
        invariant
            list == extent_coords(exts@) + zeros(frontier_spec(tree_size as nat, k as nat)),
            coords_view(zs@) == zeros(frontier_spec(tree_size as nat, k as nat)),
            j <= zs@.len(),
            coords_view(sorted@) == sort_by_left(list.take((exts@.len() + j) as int)),
        decreases zs@.len() - j,
    {
        let e = zs[j];
        let ghost n: int = (exts@.len() + j) as int;
        proof {
            assert(list.take(n + 1).drop_last() =~= list.take(n));
            assert(list.take(n + 1).last() == list[n]);
            assert(list[n] == coords_view(zs@)[j as int]);
        }
        insert_left(&mut sorted, e);
        j = j + 1;
    }
    proof {
        assert(list.take((exts@.len() + zs@.len()) as int) =~= list);
    }
    let mut covered: u64 = 0;
    let mut t: usize = 0;
    while t < sorted.len()
        invariant
            2 <= k <= 256,
            coords_view(sorted@) == part,
            spans(part, k as nat) <= u64::MAX,
            t <= sorted@.len(),
            covered == spans(part.take(t as int), k as nat),
        decreases sorted@.len() - t,
    {
        proof {
            assert(part.take(t + 1).drop_last() =~= part.take(t as int));
            assert(part.take(t + 1).last() == part[t as int]);
            lemma_spans_prefix(part, k as nat, t + 1);
        }
        let span = match crate::topology::checked_pow(k, sorted[t].1) {
            Some(v) => v,
            None => {
                proof {
                    assert(false);
                }
                0
            },
        };
        covered = covered + span;
        t = t + 1;
    }
    proof {
        assert(part.take(sorted@.len() as int) =~= part);
    }
    if covered != tree_size {
        return Err(FillError::ExtentsDoNotCoverSize { tree_size, covered });
    }
    Ok(sorted)
}

/// The spans of a prefix never exceed those of the whole.
proof fn lemma_spans_prefix(s: Seq<(nat, nat)>, k: nat, n: int)
    requires
        0 <= n <= s.len(),
    ensures
        spans(s.take(n), k) <= spans(s, k),
    decreases s.len(),
{
    if n < s.len() {
        assert(s.drop_last().take(n) =~= s.take(n));
        lemma_spans_prefix(s.drop_last(), k, n);
    } else {
        assert(s.take(n) =~= s);
    }
}


/// The root of the leaves `lo..hi` of `leaves`: their digests folded
/// bottom-up, `k` at a time (`level_root`).
fn subtree_root<H: Hasher>(hasher: &H, leaves: &[Vec<u8>], lo: usize, hi: usize, k: u64) -> (root: Vec<u8>)
    requires
        lo <= hi <= leaves@.len(),
        2 <= k <= 256,
    ensures
        root@ == level_root(*hasher, leaf_level(*hasher, digests_view(leaves@).subrange(lo as int, hi as int)), k as nat),
{
    let ghost h = *hasher;
    let ghost dv = digests_view(leaves@);
    let mut level: Vec<Vec<u8>> = Vec::new();
    let mut i: usize = lo;
    while i < hi
        invariant
            lo <= i <= hi <= leaves@.len(),
            dv == digests_view(leaves@),
            h == *hasher,
            digests_view(level@) == leaf_level(h, dv.subrange(lo as int, i as int)),
        decreases hi - i,
    {
        let ghost before = level@;
        let d = hasher.leaf(leaves[i].as_slice());
        level.push(d);
        proof {
            lemma_digests_push(before, d);
            assert(dv[i as int] == leaves@[i as int]@);
            assert(digests_view(level@) =~= leaf_level(h, dv.subrange(lo as int, i + 1)));
        }
        i = i + 1;
    }
    let ghost goal = level_root(h, digests_view(level@), k as nat);
    let ku = k as usize;
    while level.len() > 1
        invariant
            2 <= k <= 256,
            ku == k,
            h == *hasher,
            goal == level_root(h, digests_view(level@), k as nat),
        decreases level@.len(),
    {
        let ghost lv = digests_view(level@);
        let ghost cl = chunk_level(h, lv, k as nat);
        let n = level.len();
        let mut next: Vec<Vec<u8>> = Vec::new();
        let mut j: usize = 0;
        let mut c: usize = 0;
        while j < n
            invariant
                2 <= k <= 256,
                ku == k,
                h == *hasher,
                n == level@.len(),
                lv == digests_view(level@),
                cl == chunk_level(h, lv, k as nat),
                j <= n,
                n >= 2,
                c <= j,
                j < n ==> j == c * k,
                c > 0 ==> (c - 1) * k < n,
                j == n ==> c * k >= n,
                c <= cl.len(),
                cl.len() == (n + k - 1) / k as int,
                digests_view(next@) == cl.take(c as int),
            decreases n - j,
        {
            let end = if n - j >= ku {
                j + ku
            } else {
                n
            };
            let chunk = crate::proofs::copy_range(&level, j, end);
            let p = nary_mr(hasher, chunk.as_slice());
            let ghost before = next@;
            next.push(p);
            proof {
                assert(c < cl.len()) by (nonlinear_arith)
                    requires
                        j == c * k,
                        j < n,
                        k >= 2,
                        cl.len() == (n + k - 1) / k as int,
                ;
                assert(cl[c as int] == spec_nary_mr(h, lv.subrange(j as int, end as int)));
                lemma_digests_push(before, p);
                assert(digests_view(next@) =~= cl.take(c + 1));
                assert((c + 1) * k == c * k + k) by (nonlinear_arith);
            }
            j = end;
            c = c + 1;
        }
        proof {
            assert(c > 0);
            assert(c == cl.len()) by (nonlinear_arith)
                requires
                    c > 0,
                    (c - 1) * k < n,
                    c * k >= n,
                    k >= 2,
                    cl.len() == (n + k - 1) / k as int,
            ;
            assert(cl.take(c as int) =~= cl);
            lemma_chunk_shorter(n as nat, k as nat);
        }
        level = next;
    }
    if level.len() == 0 {
        hasher.empty()
    } else {
        copy_bytes(&level[0])
    }
}

/// Recompute a complete tree of algorithm `alg_id` from a sealed snapshot
/// and every leaf it sealed, in order, optionally pruning another
/// algorithm: each component of the committed partition (the run extents
/// and the height-0 cells of the sealed frontier, by left edge) folds its
/// leaves' digests bottom-up, and the component roots fold into the root.
///
/// Refused with `LeafCountMismatch` when the leaf count is not the sealed
/// size, then with `PruneTargetIsFillTarget` when the pruned algorithm is
/// the filled one, then with `ExtentsDoNotCoverSize` when the partition does
/// not span the sealed size.
pub fn fill<H: Hasher>(
    snapshot: &Snapshot,
    alg_id: u64,
    hasher: &H,
    leaf_data: &[Vec<u8>],
    prune: Option<u64>,
) -> (r: Result<FilledTree, FillError>)
    requires
        2 <= snapshot.spec_log_arity() <= 256,
        leaf_data@.len() == snapshot.spec_tree_size() && prune != Some(alg_id) ==> {
            let k = snapshot.spec_log_arity() as nat;
            let part = partition_of(snapshot.spec_extents(), snapshot.spec_tree_size() as nat, k);
            &&& spans(part, k) <= u64::MAX
            &&& spans(part, k) == snapshot.spec_tree_size() ==> forall|i: int|
                0 <= i < part.len() ==> #[trigger] part[i].0 + pow(k, part[i].1) <= snapshot.spec_tree_size()
        },
    ensures
        leaf_data@.len() != snapshot.spec_tree_size() ==> r == Err::<FilledTree, FillError>(
            FillError::LeafCountMismatch {
                committed: snapshot.spec_tree_size(),
                supplied: leaf_data@.len() as u64,
            },
        ),
        leaf_data@.len() == snapshot.spec_tree_size() && prune == Some(alg_id) ==> r == Err::<
            FilledTree,
            FillError,
        >(FillError::PruneTargetIsFillTarget(alg_id)),
        leaf_data@.len() == snapshot.spec_tree_size() && prune != Some(alg_id) ==> {
            let k = snapshot.spec_log_arity() as nat;
            let part = partition_of(snapshot.spec_extents(), snapshot.spec_tree_size() as nat, k);
            let covered = spans(part, k);
            &&& covered != snapshot.spec_tree_size() ==> r == Err::<FilledTree, FillError>(
                FillError::ExtentsDoNotCoverSize {
                    tree_size: snapshot.spec_tree_size(),
                    covered: covered as u64,
                },
            )
            &&& covered == snapshot.spec_tree_size() ==> (r matches Ok(t) && t.spec_alg_id() == alg_id
                && t.spec_tree_size() == snapshot.spec_tree_size() && t.spec_pruned() == prune
                && t.spec_root() == filled_root(*hasher, digests_view(leaf_data@), part, k))
        },
{
    let tree_size = snapshot.tree_size();
    let k = snapshot.log_arity();
    let supplied = leaf_data.len() as u64;
    if supplied != tree_size {
        return Err(FillError::LeafCountMismatch { committed: tree_size, supplied });
    }
    match prune {
        Some(p) => {
            if p == alg_id {
                return Err(FillError::PruneTargetIsFillTarget(alg_id));
            }
        },
        None => {},
    }
    let partition = match committed_partition(snapshot, tree_size, k) {
        Ok(p) => p,
        Err(e) => {
            return Err(e);
        },
    };
    let ghost part = coords_view(partition@);
    let ghost dv = digests_view(leaf_data@);
    let mut comps: Vec<Vec<u8>> = Vec::new();
    let nleaves = leaf_data.len();
    let mut i: usize = 0;
    while i < partition.len()
        invariant
            2 <= k <= 256,
            nleaves == leaf_data@.len(),
            part == coords_view(partition@),
            dv == digests_view(leaf_data@),
            leaf_data@.len() == tree_size,
            forall|t: int| 0 <= t < part.len() ==> #[trigger] part[t].0 + pow(k as nat, part[t].1) <= tree_size,
            i <= partition@.len(),
            digests_view(comps@) == part.take(i as int).map_values(
                |c: (nat, nat)| component_root(*hasher, dv, c, k as nat),
            ),
        decreases partition@.len() - i,
    {
        let (left, height) = partition[i];
        proof {
            assert(part[i as int] == (left as nat, height as nat));
        }
        let span = match crate::topology::checked_pow(k, height) {
            Some(v) => v,
            None => {
                proof {
                    assert(false);
                }
                0
            },
        };
        proof {
            assert(left + span <= tree_size);
            assert(left + span <= nleaves);
        }
        let lo = left as usize;
        let hi = lo + span as usize;
        proof {
            assert(lo == left && hi == left + span);
        }
        let root = subtree_root(hasher, leaf_data, lo, hi, k);
        let ghost before = comps@;
        comps.push(root);
        proof {
            lemma_digests_push(before, root);
            assert(digests_view(comps@) =~= part.take(i + 1).map_values(
                |c: (nat, nat)| component_root(*hasher, dv, c, k as nat),
            ));
        }
        i = i + 1;
    }
    proof {
        assert(part.take(partition@.len() as int) =~= part);
    }
    let root = fold_peaks(hasher, comps, k);
    Ok(FilledTree { alg_id, tree_size, root, pruned: prune })
}


/// One level up: the perfect subtree of height `t + 1` at `l * k` over
/// `cells` is the perfect subtree of height `t` at `l` over the level that
/// hashes `cells` `k` at a time.
proof fn lemma_perfect_chunk<H: Hasher>(h: H, cells: Seq<Seq<u8>>, l: nat, t: nat, k: nat)
    requires
        k >= 2,
        l * k + pow(k, t + 1) <= cells.len(),
    ensures
        perfect(h, cells, l * k, t + 1, k) == perfect(h, chunk_level(h, cells, k), l, t, k),
    decreases t,
{
    let c = chunk_level(h, cells, k);
    lemma_pow_succ(k, t);
    lemma_pow_positive(k, t);
    let pt = pow(k, t);
    assert(l * k + k <= cells.len()) by (nonlinear_arith)
        requires
            l * k + k * pt <= cells.len(),
            pt >= 1,
    ;
    assert(l < c.len()) by (nonlinear_arith)
        requires
            l * k + k <= cells.len(),
            c.len() == ((cells.len() + k - 1) / k as int) as nat,
            k >= 2,
    ;
    if t == 0 {
        assert(pt == 1);
        let kids = perfect_children(h, cells, l * k, 0, k);
        assert(kids =~= cells.subrange((l * k) as int, (l * k + k) as int)) by {
            assert forall|j: int| 0 <= j < k implies kids[j] == cells.subrange((l * k) as int, (l * k + k) as int)[j] by {
                assert(perfect(h, cells, (l * k + j * pow(k, 0)) as nat, 0, k) == cells[l * k + j]);
            }
        }
        assert(c[l as int] == spec_nary_mr(h, cells.subrange((l * k) as int, (l * k + k) as int)));
        assert(perfect(h, c, l, 0, k) == c[l as int]);
    } else {
        let hc = (t - 1) as nat;
        let pc = pow(k, hc);
        lemma_pow_succ(k, hc);
        lemma_pow_positive(k, hc);
        let left_kids = perfect_children(h, cells, l * k, t, k);
        let right_kids = perfect_children(h, c, l, hc, k);
        assert forall|j: int| 0 <= j < k implies #[trigger] left_kids[j] == right_kids[j] by {
            let m = (l + j * pc) as nat;
            assert(l * k + j * pt == m * k) by (nonlinear_arith)
                requires
                    pt == k * pc,
                    m == l + j * pc,
            ;
            assert(m * k + pow(k, t) <= cells.len()) by (nonlinear_arith)
                requires
                    l * k + k * pt <= cells.len(),
                    m * k == l * k + j * pt,
                    0 <= j < k,
                    pow(k, t) == pt,
            ;
            assert(hc + 1 == t);
            lemma_perfect_chunk(h, cells, m, hc, k);
        }
        assert(left_kids =~= right_kids);
    }
}

/// A level of `k^ht` digests folded `k` at a time gives the perfect
/// subtree over them.
proof fn lemma_level_root_perfect<H: Hasher>(h: H, level: Seq<Seq<u8>>, ht: nat, k: nat)
    requires
        k >= 2,
        level.len() == pow(k, ht),
    ensures
        level_root(h, level, k) == perfect(h, level, 0, ht, k),
    decreases ht,
{
    if ht == 0 {
        assert(pow(k, 0) == 1);
    } else {
        let hc = (ht - 1) as nat;
        let p = pow(k, hc);
        lemma_pow_succ(k, hc);
        lemma_pow_positive(k, hc);
        assert(level.len() >= 2) by (nonlinear_arith)
            requires
                level.len() == k * p,
                p >= 1,
                k >= 2,
        ;
        let c = chunk_level(h, level, k);
        assert(c.len() == p) by (nonlinear_arith)
            requires
                c.len() == ((k * p + k - 1) / k as int) as nat,
                p >= 1,
                k >= 2,
        ;
        lemma_level_root_perfect(h, c, hc, k);
        assert(0 * k == 0);
        lemma_perfect_chunk(h, level, 0, hc, k);
        assert(hc + 1 == ht);
    }
}

/// A perfect subtree over a window of the cells is the one at the window's
/// offset over all the cells.
proof fn lemma_perfect_window<H: Hasher>(h: H, cells: Seq<Seq<u8>>, a: nat, b: nat, l: nat, ht: nat, k: nat)
    requires
        k >= 2,
        a <= b <= cells.len(),
        l + pow(k, ht) <= b - a,
    ensures
        perfect(h, cells.subrange(a as int, b as int), l, ht, k) == perfect(h, cells, a + l, ht, k),
    decreases ht,
{
    if ht == 0 {
        assert(pow(k, 0) == 1);
    } else {
        let hc = (ht - 1) as nat;
        let p = pow(k, hc);
        lemma_pow_succ(k, hc);
        lemma_pow_positive(k, hc);
        let w = cells.subrange(a as int, b as int);
        let wk = perfect_children(h, w, l, hc, k);
        let ck = perfect_children(h, cells, a + l, hc, k);
        assert forall|j: int| 0 <= j < k implies #[trigger] wk[j] == ck[j] by {
            assert(j * p + p <= k * p) by (nonlinear_arith)
                requires
                    0 <= j < k,
            ;
            lemma_perfect_window(h, cells, a, b, (l + j * p) as nat, hc, k);
        }
        assert(wk =~= ck);
    }
}

/// A filled root equals the root built from scratch: when the partition a
/// fill unrolls is the canonical frontier of the leaves (as the snapshot of
/// a log with every position filled commits), the filled root over the
/// leaves is the member root of their leaf digests.
pub proof fn lemma_filled_root_is_member_root<H: Hasher>(h: H, leaves: Seq<Seq<u8>>, k: nat)
    requires
        k >= 2,
    ensures
        filled_root(h, leaves, frontier_spec(leaves.len(), k), k) == member_root(h, leaf_level(h, leaves), k),
{
    let n = leaves.len();
    let fs = frontier_spec(n, k);
    let ll = leaf_level(h, leaves);
    lemma_frontier_within(n, k, 0);
    let a = fs.map_values(|c: (nat, nat)| component_root(h, leaves, c, k));
    let b = peaks(h, ll, k);
    assert(ll.len() == n);
    assert forall|i: int| 0 <= i < fs.len() implies #[trigger] a[i] == b[i] by {
        let c = fs[i];
        let p = pow(k, c.1);
        assert(c.0 + p <= n);
        let sub = leaves.subrange(c.0 as int, (c.0 + p) as int);
        assert(leaf_level(h, sub) =~= ll.subrange(c.0 as int, (c.0 + p) as int));
        lemma_level_root_perfect(h, leaf_level(h, sub), c.1, k);
        lemma_perfect_window(h, ll, c.0, c.0 + p, 0, c.1, k);
    }
    assert(a =~= b);
}

} // verus!
