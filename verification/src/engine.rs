//! The single-algorithm log engine: one algorithm's continuation state (its
//! hasher, committed epoch intervals and frontier stack) and the structural
//! operations over it — the base-k frontier carry and the member-root fold.
use vstd::prelude::*;

use crate::hasher::{Hasher, bytes_eq, copy_bytes, digests_view, lemma_digests_push};
use crate::model::{fold_frontier, fold_peaks, lemma_perfect_agree, lemma_perfect_merge, peaks, perfect};
use crate::mr::{nary_mr, spec_nary_mr};
use crate::topology::{
    carry_state, coords_view, frontier_spec, lemma_carry_done, lemma_carry_start, lemma_carry_step,
    lemma_frontier_within, pow, reduction_count, trailing_count,
};

verus! {

/// Engine error, parameterised by the read backend's error type.
#[derive(Debug, Clone, PartialEq, Eq)]
pub enum Error<E> {
    /// An error wrapper around the read backend's error type.
    Read(E),
    /// A stored node or frontier read back malformed; `alg_id` names the
    /// algorithm whose view the engine was driving.
    Corrupted {
        /// The algorithm ID the engine was driving when the invariant broke.
        alg_id: u64,
        /// Why the read-back is corrupt.
        reason: String,
    },
}

/// Whether log-level appends are flat leaf appends or subtree appends.
#[derive(Debug, Clone, Copy, PartialEq, Eq, Structural)]
pub enum LogKind {
    /// Each append is a raw leaf; the payload is stored verbatim.
    Flat,
    /// Each append is a subtree root; only the evaluated root hash is stored.
    Subtree,
}

/// The storage byte of a log kind.
pub open spec fn spec_kind_byte(kind: LogKind) -> u8 {
    match kind {
        LogKind::Flat => 0,
        LogKind::Subtree => 1,
    }
}

/// The log kind a storage byte names, if any.
pub open spec fn spec_kind_from_byte(b: u8) -> Option<LogKind> {
    if b == 0 {
        Some(LogKind::Flat)
    } else if b == 1 {
        Some(LogKind::Subtree)
    } else {
        None
    }
}

impl LogKind {
    /// Serialize to the storage byte representation.
    pub fn to_byte(self) -> (b: u8)
        ensures
            b == spec_kind_byte(self),
    {
        match self {
            LogKind::Flat => 0,
            LogKind::Subtree => 1,
        }
    }

    /// Deserialize from the storage byte representation; `None` for a byte
    /// that names no kind.
    pub fn from_byte(b: u8) -> (kind: Option<LogKind>)
        ensures
            kind == spec_kind_from_byte(b),
    {
        if b == 0 {
            Some(LogKind::Flat)
        } else if b == 1 {
            Some(LogKind::Subtree)
        } else {
            None
        }
    }
}

/// Reading back the byte a kind was written as gives the kind.
pub proof fn lemma_kind_byte_round_trip(kind: LogKind)
    ensures
        spec_kind_from_byte(spec_kind_byte(kind)) == Some(kind),
{
}

/// Whether the last epoch is open (`end == u64::MAX`).
pub open spec fn spec_is_active(epochs: Seq<(u64, u64)>) -> bool {
    epochs.len() > 0 && epochs.last().1 == u64::MAX
}

/// Whether position `i` falls in one of the epochs.
pub open spec fn spec_is_active_at(epochs: Seq<(u64, u64)>, i: int) -> bool {
    exists|j: int| 0 <= j < epochs.len() && epochs[j].0 <= i && i < epochs[j].1
}

/// Whether some epoch overlaps the half-open range `[lo, hi)`.
pub open spec fn spec_active_range(epochs: Seq<(u64, u64)>, lo: int, hi: int) -> bool {
    exists|j: int| 0 <= j < epochs.len() && epochs[j].0 < hi && epochs[j].1 > lo
}

/// Whether one epoch contains the whole range `[lo, hi)`.
pub open spec fn spec_fully_active(epochs: Seq<(u64, u64)>, lo: int, hi: int) -> bool {
    exists|j: int| 0 <= j < epochs.len() && epochs[j].0 <= lo && hi <= epochs[j].1
}

/// The algorithm's tree size: the global size while active, else the end of
/// its last epoch.
pub open spec fn spec_tree_size(epochs: Seq<(u64, u64)>, global_size: u64) -> u64 {
    if spec_is_active(epochs) {
        global_size
    } else if epochs.len() == 0 {
        0
    } else {
        epochs.last().1
    }
}

/// The start of the first epoch (0 for none).
pub open spec fn spec_first_activation(epochs: Seq<(u64, u64)>) -> u64 {
    if epochs.len() == 0 {
        0
    } else {
        epochs[0].0
    }
}

/// The largest epoch end strictly below `size` (0 for none).
pub open spec fn spec_max_end_below(epochs: Seq<(u64, u64)>, size: u64) -> u64
    decreases epochs.len(),
{
    if epochs.len() == 0 {
        0
    } else {
        let m = spec_max_end_below(epochs.drop_last(), size);
        let e = epochs.last().1;
        if e < size && e > m {
            e
        } else {
            m
        }
    }
}

/// The largest end below `size` is below `size`, or 0.
pub proof fn lemma_max_end_below_bound(epochs: Seq<(u64, u64)>, size: u64)
    ensures
        spec_max_end_below(epochs, size) < size || spec_max_end_below(epochs, size) == 0,
    decreases epochs.len(),
{
    if epochs.len() > 0 {
        lemma_max_end_below_bound(epochs.drop_last(), size);
    }
}

/// The local tree size at global size `size` never exceeds `size`.
pub proof fn lemma_effective_size_bound(epochs: Seq<(u64, u64)>, size: u64)
    ensures
        spec_effective_size_at(epochs, size) <= size,
{
    lemma_max_end_below_bound(epochs, size);
}

/// The algorithm-local tree size at global size `size`.
pub open spec fn spec_effective_size_at(epochs: Seq<(u64, u64)>, size: u64) -> u64 {
    if size <= spec_first_activation(epochs) {
        size
    } else if spec_is_active_at(epochs, size - 1) {
        size
    } else {
        spec_max_end_below(epochs, size)
    }
}

/// The epochs from index `i` on, as they stood at size `size`: intervals
/// starting after `size` are dropped and one extending past `size` is open.
pub open spec fn spec_epochs_from(epochs: Seq<(u64, u64)>, size: u64, i: int) -> Seq<(u64, u64)>
    decreases epochs.len() - i,
{
    if i < 0 || i >= epochs.len() {
        seq![]
    } else {
        let (start, end) = epochs[i];
        if start > size {
            seq![]
        } else if end > size {
            seq![(start, u64::MAX)]
        } else {
            seq![(start, end)] + spec_epochs_from(epochs, size, i + 1)
        }
    }
}

/// The epoch timeline as it stood at size `size`; `None` when no interval
/// had begun by then.
pub open spec fn spec_epochs_at(epochs: Seq<(u64, u64)>, size: u64) -> Option<Seq<(u64, u64)>> {
    let out = spec_epochs_from(epochs, size, 0);
    if out.len() == 0 {
        None
    } else {
        Some(out)
    }
}

/// What the local size at global size `size` is, in terms of the epochs:
/// the global size up to the first activation and while position `size - 1`
/// is covered; past the last covered position, the largest epoch end
/// strictly below `size` (0 when there is none).
pub proof fn lemma_effective_size_law(epochs: Seq<(u64, u64)>, size: u64)
    ensures
        size <= spec_first_activation(epochs) ==> spec_effective_size_at(epochs, size) == size,
        spec_is_active_at(epochs, size - 1) ==> spec_effective_size_at(epochs, size) == size,
        size > spec_first_activation(epochs) && !spec_is_active_at(epochs, size - 1) ==> {
            let r = spec_effective_size_at(epochs, size);
            &&& r < size
            &&& forall|j: int| 0 <= j < epochs.len() && #[trigger] epochs[j].1 < size ==> epochs[j].1 <= r
            &&& (r == 0 || exists|j: int| 0 <= j < epochs.len() && #[trigger] epochs[j].1 == r)
        },
{
    lemma_max_end_below_law(epochs, size);
    lemma_max_end_below_bound(epochs, size);
    if size > spec_first_activation(epochs) && spec_max_end_below(epochs, size) == 0 {
        assert(size > 0);
    }
}

/// The largest epoch end strictly below `size` bounds every such end and is
/// one of them, or 0.
proof fn lemma_max_end_below_law(epochs: Seq<(u64, u64)>, size: u64)
    ensures
        forall|j: int| 0 <= j < epochs.len() && #[trigger] epochs[j].1 < size ==> epochs[j].1
            <= spec_max_end_below(epochs, size),
        spec_max_end_below(epochs, size) == 0 || exists|j: int|
            0 <= j < epochs.len() && #[trigger] epochs[j].1 == spec_max_end_below(epochs, size),
    decreases epochs.len(),
{
    if epochs.len() > 0 {
        let d = epochs.drop_last();
        lemma_max_end_below_law(d, size);
        let m = spec_max_end_below(d, size);
        let r = spec_max_end_below(epochs, size);
        assert forall|j: int| 0 <= j < epochs.len() && #[trigger] epochs[j].1 < size implies epochs[j].1 <= r by {
            if j < epochs.len() - 1 {
                assert(d[j] == epochs[j]);
            }
        }
        if r != 0 {
            if r == m {
                let j = choose|j: int| 0 <= j < d.len() && #[trigger] d[j].1 == m;
                assert(epochs[j] == d[j]);
            } else {
                assert(epochs[epochs.len() - 1].1 == r);
            }
        }
    }
}

/// A frozen algorithm whose last (non-empty) epoch ended at or before
/// `size` has, at `size`, the local size its epochs end at: its whole tree.
pub proof fn lemma_frozen_effective_size(epochs: Seq<(u64, u64)>, size: u64, global_size: u64)
    requires
        spec_epochs_valid(epochs, global_size),
        !spec_is_active(epochs),
        epochs.last().0 < epochs.last().1,
        epochs.last().1 <= size,
    ensures
        spec_effective_size_at(epochs, size) == epochs.last().1,
        spec_effective_size_at(epochs, size) == spec_tree_size(epochs, size),
{
    let n = epochs.len();
    let e = epochs.last().1;
    assert(epochs[n - 1] == epochs.last());
    // ends grow along the timeline
    assert forall|j: int| 0 <= j < n implies #[trigger] epochs[j].1 <= e by {
        lemma_ends_grow(epochs, global_size, j, n - 1);
    }
    lemma_effective_size_law(epochs, size);
    if size == e {
        assert(spec_is_active_at(epochs, size - 1)) by {
            assert(epochs[n - 1].0 <= size - 1 && size - 1 < epochs[n - 1].1);
        }
    } else {
        assert(!spec_is_active_at(epochs, size - 1));
        assert(spec_first_activation(epochs) < size) by {
            lemma_starts_grow(epochs, global_size, 0, n - 1);
        }
        let r = spec_effective_size_at(epochs, size);
        assert(epochs[n - 1].1 < size);
        assert(e <= r);
        if r != 0 {
            let j = choose|j: int| 0 <= j < epochs.len() && #[trigger] epochs[j].1 == r;
            assert(epochs[j].1 <= e);
        }
    }
}

/// Along a valid timeline, an earlier epoch ends at or before a later one.
proof fn lemma_ends_grow(epochs: Seq<(u64, u64)>, global_size: u64, i: int, j: int)
    requires
        spec_epochs_valid(epochs, global_size),
        0 <= i <= j < epochs.len(),
    ensures
        epochs[i].1 <= epochs[j].1,
    decreases j - i,
{
    if i < j {
        lemma_ends_grow(epochs, global_size, i, j - 1);
        assert(epochs[j].0 >= epochs[j - 1].1);
        assert(epochs[j].0 <= epochs[j].1);
    }
}

/// Along a valid timeline, an earlier epoch starts at or before a later one.
proof fn lemma_starts_grow(epochs: Seq<(u64, u64)>, global_size: u64, i: int, j: int)
    requires
        spec_epochs_valid(epochs, global_size),
        0 <= i <= j < epochs.len(),
    ensures
        epochs[i].0 <= epochs[j].0,
    decreases j - i,
{
    if i < j {
        lemma_starts_grow(epochs, global_size, i, j - 1);
        assert(epochs[j].0 >= epochs[j - 1].1);
        assert(epochs[j - 1].0 <= epochs[j - 1].1);
    }
}

/// What the timeline at size `size` keeps of the epochs from index `i` on:
/// a run of them in order, each starting at or before `size`, each closed
/// at its own end at or before `size` except the last, which is open when
/// its epoch ends after `size`; the run stops only at the end of the
/// epochs, at an epoch starting after `size`, or after an open one.
pub proof fn lemma_epochs_from_law(epochs: Seq<(u64, u64)>, size: u64, i: int)
    requires
        0 <= i <= epochs.len(),
    ensures
        ({
            let v = spec_epochs_from(epochs, size, i);
            &&& i + v.len() <= epochs.len()
            &&& forall|t: int|
                0 <= t < v.len() ==> {
                    &&& (#[trigger] v[t]).0 == epochs[i + t].0
                    &&& v[t].0 <= size
                    &&& (v[t].1 == epochs[i + t].1 && epochs[i + t].1 <= size) || (t == v.len() - 1
                        && epochs[i + t].1 > size && v[t].1 == u64::MAX)
                }
            &&& i + v.len() < epochs.len() ==> epochs[i + v.len()].0 > size || (v.len() > 0 && epochs[i
                + v.len() - 1].1 > size)
            &&& (v.len() == 0 <==> (i >= epochs.len() || epochs[i].0 > size))
        }),
    decreases epochs.len() - i,
{
    if i < epochs.len() {
        let (start, end) = epochs[i];
        if start <= size && end <= size {
            lemma_epochs_from_law(epochs, size, i + 1);
            let w = spec_epochs_from(epochs, size, i + 1);
            let v = spec_epochs_from(epochs, size, i);
            assert(v == seq![(start, end)] + w);
            assert forall|t: int| 0 <= t < v.len() implies {
                &&& (#[trigger] v[t]).0 == epochs[i + t].0
                &&& v[t].0 <= size
                &&& (v[t].1 == epochs[i + t].1 && epochs[i + t].1 <= size) || (t == v.len() - 1 && epochs[i
                    + t].1 > size && v[t].1 == u64::MAX)
            } by {
                if t > 0 {
                    assert(v[t] == w[t - 1]);
                    assert(i + 1 + (t - 1) == i + t);
                }
            }
            if w.len() == 0 && i + 1 < epochs.len() {
                assert(epochs[i + 1].0 > size);
            }
        }
    }
}

/// The timeline at `size` is missing exactly when no epoch had begun by
/// `size` (none at all, or the first starting after it); otherwise it is
/// the run of epochs that `lemma_epochs_from_law` describes from the first.
pub proof fn lemma_epochs_at_law(epochs: Seq<(u64, u64)>, size: u64)
    ensures
        spec_epochs_at(epochs, size) is None <==> (epochs.len() == 0 || epochs[0].0 > size),
        spec_epochs_at(epochs, size) matches Some(v) ==> v == spec_epochs_from(epochs, size, 0) && forall|t: int|
            0 <= t < v.len() ==> (#[trigger] v[t]).0 <= size && v[t].0 == epochs[t].0,
{
    lemma_epochs_from_law(epochs, size, 0);
    let v = spec_epochs_from(epochs, size, 0);
    assert forall|t: int| 0 <= t < v.len() implies (#[trigger] v[t]).0 <= size && v[t].0 == epochs[t].0 by {
        assert(0 + t == t);
    }
}

/// One algorithm's single-tree continuation state: its hasher, committed
/// epoch intervals, and frontier stack.
pub struct AlgView<H: Hasher> {
    /// Hasher instance.
    pub hasher: H,
    /// Epoch intervals: half-open `[start, end)`; `end == u64::MAX` marks an
    /// active (open) epoch.
    pub epochs: Vec<(u64, u64)>,
    /// Frontier stack: the hashes of the completed subtrees.
    pub frontier: Vec<Vec<u8>>,
    /// Coordinates of each frontier node: `(left_index, height)`.
    pub frontier_coords: Vec<(u64, u32)>,
}

impl<H: Hasher> AlgView<H> {
    /// The frontier stack has the coordinates of the frontier of a log of
    /// `n` cells, one digest per coordinate.
    pub open spec fn frontier_shaped(&self, n: nat, k: nat) -> bool {
        &&& coords_view(self.frontier_coords@) == frontier_spec(n, k)
        &&& self.frontier@.len() == self.frontier_coords@.len()
    }

    /// The frontier holds exactly the frontier peaks of `cells`.
    pub open spec fn frontier_matches(&self, cells: Seq<Seq<u8>>, k: nat) -> bool {
        &&& coords_view(self.frontier_coords@) == frontier_spec(cells.len(), k)
        &&& digests_view(self.frontier@) == peaks(self.hasher, cells, k)
    }

    /// Whether this algorithm is currently active (not frozen).
    pub fn is_active(&self) -> (active: bool)
        ensures
            active == spec_is_active(self.epochs@),
    {
        let n = self.epochs.len();
        n > 0 && self.epochs[n - 1].1 == u64::MAX
    }

    /// Whether leaf/subtree index `i` falls within any of the epochs.
    pub fn is_active_at(&self, i: u64) -> (active: bool)
        ensures
            active == spec_is_active_at(self.epochs@, i as int),
    {
        let mut j: usize = 0;
        while j < self.epochs.len()
            invariant
                j <= self.epochs@.len(),
                forall|t: int|
                    0 <= t < j ==> !(self.epochs@[t].0 <= i && i < self.epochs@[t].1),
            decreases self.epochs@.len() - j,
        {
            let (start, end) = self.epochs[j];
            if start <= i && i < end {
                return true;
            }
            j = j + 1;
        }
        false
    }

    /// The tree size for this algorithm: the global size while active, the
    /// last deactivation point once frozen.
    pub fn tree_size(&self, global_size: u64) -> (size: u64)
        ensures
            size == spec_tree_size(self.epochs@, global_size),
    {
        if self.is_active() {
            global_size
        } else if self.epochs.len() == 0 {
            0
        } else {
            self.epochs[self.epochs.len() - 1].1
        }
    }

    /// The activation index of the first epoch.
    pub fn first_activation(&self) -> (start: u64)
        ensures
            start == spec_first_activation(self.epochs@),
    {
        if self.epochs.len() == 0 {
            0
        } else {
            self.epochs[0].0
        }
    }

    /// Whether some epoch overlaps the half-open range `[lo, hi)`.
    pub fn active_range(&self, lo: u64, hi: u64) -> (active: bool)
        ensures
            active == spec_active_range(self.epochs@, lo as int, hi as int),
    {
        let mut j: usize = 0;
        while j < self.epochs.len()
            invariant
                j <= self.epochs@.len(),
                forall|t: int|
                    0 <= t < j ==> !(self.epochs@[t].0 < hi && self.epochs@[t].1 > lo),
            decreases self.epochs@.len() - j,
        {
            let (start, end) = self.epochs[j];
            if start < hi && end > lo {
                return true;
            }
            j = j + 1;
        }
        false
    }

    /// Whether the range `[lo, hi)` lies within one epoch.
    pub fn fully_active(&self, lo: u64, hi: u64) -> (active: bool)
        ensures
            active == spec_fully_active(self.epochs@, lo as int, hi as int),
    {
        let mut j: usize = 0;
        while j < self.epochs.len()
            invariant
                j <= self.epochs@.len(),
                forall|t: int|
                    0 <= t < j ==> !(self.epochs@[t].0 <= lo && hi <= self.epochs@[t].1),
            decreases self.epochs@.len() - j,
        {
            let (start, end) = self.epochs[j];
            if start <= lo && hi <= end {
                return true;
            }
            j = j + 1;
        }
        false
    }

    /// The algorithm-local tree size at global size `size`: the global size
    /// before first activation or while the last position is covered, else the
    /// largest epoch end below `size`.
    pub fn effective_size_at(&self, size: u64) -> (local: u64)
        ensures
            local == spec_effective_size_at(self.epochs@, size),
            size <= spec_first_activation(self.epochs@) || spec_is_active_at(self.epochs@, size - 1) ==> local
                == size,
            size > spec_first_activation(self.epochs@) && !spec_is_active_at(self.epochs@, size - 1) ==> {
                &&& local < size
                &&& forall|j: int|
                    0 <= j < self.epochs@.len() && #[trigger] self.epochs@[j].1 < size ==> self.epochs@[j].1 <= local
                &&& (local == 0 || exists|j: int| 0 <= j < self.epochs@.len() && #[trigger] self.epochs@[j].1 == local)
            },
    {
        proof {
            lemma_effective_size_law(self.epochs@, size);
        }
        if size <= self.first_activation() {
            size
        } else if self.is_active_at(size - 1) {
            size
        } else {
            let mut best: u64 = 0;
            let mut j: usize = 0;
            while j < self.epochs.len()
                invariant
                    j <= self.epochs@.len(),
                    best == spec_max_end_below(self.epochs@.take(j as int), size),
                decreases self.epochs@.len() - j,
            {
                let end = self.epochs[j].1;
                proof {
                    let t = self.epochs@.take(j + 1);
                    assert(t.drop_last() =~= self.epochs@.take(j as int));
                }
                if end < size && end > best {
                    best = end;
                }
                j = j + 1;
            }
            proof {
                assert(self.epochs@.take(self.epochs@.len() as int) =~= self.epochs@);
            }
            best
        }
    }

    /// The epoch timeline as it stood at size `size`: intervals beginning
    /// after `size` are dropped, one extending past it is encoded open, one
    /// closed exactly at `size` stays closed; `None` when none had begun.
    pub fn epochs_at(&self, size: u64) -> (out: Option<Vec<(u64, u64)>>)
        ensures
            match out {
                Some(v) => spec_epochs_at(self.epochs@, size) == Some(v@),
                None => spec_epochs_at(self.epochs@, size).is_none(),
            },
            out is None <==> (self.epochs@.len() == 0 || self.epochs@[0].0 > size),
            out matches Some(v) ==> {
                &&& v@.len() <= self.epochs@.len()
                &&& forall|t: int|
                    0 <= t < v@.len() ==> {
                        &&& (#[trigger] v@[t]).0 == self.epochs@[t].0
                        &&& v@[t].0 <= size
                        &&& (v@[t].1 == self.epochs@[t].1 && self.epochs@[t].1 <= size) || (t == v@.len() - 1
                            && self.epochs@[t].1 > size && v@[t].1 == u64::MAX)
                    }
                &&& v@.len() < self.epochs@.len() ==> self.epochs@[v@.len() as int].0 > size
                    || self.epochs@[v@.len() - 1].1 > size
            },
    {
        proof {
            lemma_epochs_at_law(self.epochs@, size);
            lemma_epochs_from_law(self.epochs@, size, 0);
        }
        let mut out: Vec<(u64, u64)> = Vec::new();
        let mut j: usize = 0;
        let ghost whole = spec_epochs_from(self.epochs@, size, 0);
        while j < self.epochs.len()
            invariant_except_break
                j <= self.epochs@.len(),
                whole == spec_epochs_from(self.epochs@, size, 0),
                whole == out@ + spec_epochs_from(self.epochs@, size, j as int),
            ensures
                whole == out@,
            decreases self.epochs@.len() - j,
        {
            let (start, end) = self.epochs[j];
            if start > size {
                proof {
                    assert(spec_epochs_from(self.epochs@, size, j as int) =~= Seq::empty());
                    assert(out@ + Seq::<(u64, u64)>::empty() =~= out@);
                }
                break;
            }
            if end > size {
                let ghost before = out@;
                out.push((start, u64::MAX));
                proof {
                    assert(spec_epochs_from(self.epochs@, size, j as int) == seq![(start, u64::MAX)]);
                    assert(before + seq![(start, u64::MAX)] =~= out@);
                }
                break;
            }
            let ghost before = out@;
            out.push((start, end));
            proof {
                assert(before + (seq![(start, end)] + spec_epochs_from(self.epochs@, size, j + 1))
                    =~= out@ + spec_epochs_from(self.epochs@, size, j + 1));
            }
            j = j + 1;
            proof {
                if j >= self.epochs@.len() {
                    assert(spec_epochs_from(self.epochs@, size, j as int) =~= Seq::empty());
                    assert(out@ + Seq::<(u64, u64)>::empty() =~= out@);
                }
            }
        }
        if out.len() == 0 {
            None
        } else {
            Some(out)
        }
    }
}

/// The member root folded from an algorithm's in-memory frontier.
pub fn compute_root<H: Hasher>(view: &AlgView<H>, k: u64) -> (root: Vec<u8>)
    requires
        k >= 2,
    ensures
        root@ == fold_frontier(view.hasher, digests_view(view.frontier@), k as nat),
{
    let mut peaks_copy: Vec<Vec<u8>> = Vec::new();
    let mut i: usize = 0;
    while i < view.frontier.len()
        invariant
            i <= view.frontier@.len(),
            digests_view(peaks_copy@) == digests_view(view.frontier@).take(i as int),
        decreases view.frontier@.len() - i,
    {
        let ghost before = peaks_copy@;
        let c = copy_bytes(&view.frontier[i]);
        peaks_copy.push(c);
        proof {
            lemma_digests_push(before, c);
            assert(digests_view(view.frontier@)[i as int] == view.frontier@[i as int]@);
            assert(digests_view(peaks_copy@) =~= digests_view(view.frontier@).take(i + 1));
        }
        i = i + 1;
    }
    proof {
        assert(digests_view(view.frontier@).take(view.frontier@.len() as int) =~= digests_view(
            view.frontier@,
        ));
    }
    fold_peaks(&view.hasher, peaks_copy, k)
}

/// The internal nodes sealed by the carry that follows an append at `count`:
/// each carries `alg_id`, is a merged subtree of `cells`, and is not null.
pub open spec fn sealed_node_ok<H: Hasher>(
    h: H,
    cells: Seq<Seq<u8>>,
    k: nat,
    alg_id: u64,
    e: (u64, u64, u32, Vec<u8>),
) -> bool {
    &&& e.0 == alg_id
    &&& e.2 >= 1
    &&& e.1 + pow(k, e.2 as nat) <= cells.len()
    &&& e.3@ == perfect(h, cells, e.1 as nat, e.2 as nat, k)
    &&& e.3@ != h.spec_null()
}

/// One step of the base-k frontier carry: push `digest` at log position
/// `count`, then run the merges the reduction schedule mandates, appending
/// each newly sealed non-null internal node to `out_nodes`.
///
/// When the view holds the frontier of `cells` (one cell per earlier
/// position), the carry succeeds and leaves the frontier of `cells` extended
/// by `digest`; every node it seals is a merged subtree of the extended
/// cells, and each non-null merged subtree is sealed. A frontier or
/// coordinate stack too short for a merge is reported as `Corrupted`.
#[verifier::spinoff_prover]
#[verifier::rlimit(50)]
pub fn carry<H: Hasher, E>(
    view: &mut AlgView<H>,
    alg_id: u64,
    digest: Vec<u8>,
    count: u64,
    arity: u64,
    out_nodes: &mut Vec<(u64, u64, u32, Vec<u8>)>,
    Ghost(cells): Ghost<Seq<Seq<u8>>>,
) -> (result: Result<(), Error<E>>)
    requires
        arity >= 2,
    ensures
        final(view).hasher == old(view).hasher,
        final(view).epochs == old(view).epochs,
        final(out_nodes)@.len() >= old(out_nodes)@.len(),
        final(out_nodes)@.subrange(0, old(out_nodes)@.len() as int) == old(out_nodes)@,
        forall|i: int|
            old(out_nodes)@.len() <= i < final(out_nodes)@.len() ==> (#[trigger] final(out_nodes)@[i]).0
                == alg_id,
        result matches Err(e) ==> e matches Error::Corrupted { alg_id: a, .. } && a == alg_id,
        old(view).frontier_shaped(count as nat, arity as nat) ==> {
            &&& result is Ok
            &&& final(view).frontier_shaped(count as nat + 1, arity as nat)
            &&& forall|i: int|
                old(out_nodes)@.len() <= i < final(out_nodes)@.len() ==> (#[trigger] final(out_nodes)@[i]).1 + pow(
                    arity as nat,
                    final(out_nodes)@[i].2 as nat,
                ) == count + 1 && crate::topology::aligned(
                    final(out_nodes)@[i].1 as nat,
                    final(out_nodes)@[i].2 as nat,
                    arity as nat,
                )
        },
        old(view).frontier_matches(cells, arity as nat) && cells.len() == count ==> {
            let cells2 = cells.push(digest@);
            &&& result is Ok
            &&& final(view).frontier_matches(cells2, arity as nat)
            &&& forall|i: int|
                old(out_nodes)@.len() <= i < final(out_nodes)@.len() ==> sealed_node_ok(
                    old(view).hasher,
                    cells2,
                    arity as nat,
                    alg_id,
                    #[trigger] final(out_nodes)@[i],
                )
            &&& forall|j: nat|
                1 <= j <= trailing_count(count as nat + 1, arity as nat) && perfect(
                    old(view).hasher,
                    cells2,
                    (count + 1 - pow(arity as nat, j)) as nat,
                    j,
                    arity as nat,
                ) != old(view).hasher.spec_null() ==> exists|i: int|
                    old(out_nodes)@.len() <= i < final(out_nodes)@.len() && (#[trigger] final(out_nodes)@[i]).1
                        == count + 1 - pow(arity as nat, j) && final(out_nodes)@[i].2 == j
        },
{
    let ghost wf = view.frontier_matches(cells, arity as nat) && cells.len() == count;
    let ghost shape = view.frontier_shaped(count as nat, arity as nat);
    proof {
        if wf {
            assert(digests_view(view.frontier@).len() == view.frontier@.len());
        }
    }
    let ghost k = arity as nat;
    let ghost n = count as nat;
    let ghost h = view.hasher;
    let ghost cells2 = cells.push(digest@);
    let ghost out0 = out_nodes@;
    let ghost old_frontier = digests_view(view.frontier@);
    proof {
        if wf {
            lemma_carry_start(n, k);
            lemma_frontier_within(n, k, 0);
            let fs = frontier_spec(n, k);
            assert forall|i: int| 0 <= i < fs.len() implies perfect(h, cells2, fs[i].0, fs[i].1, k)
                == perfect(h, cells, fs[i].0, fs[i].1, k) by {
                let c = fs[i];
                lemma_perfect_agree(h, cells2, cells, c.0, c.1, k);
            }
        }
    }
    let ghost pre_vec = view.frontier@;
    view.frontier.push(digest);
    view.frontier_coords.push((count, 0));
    proof {
        lemma_digests_push(pre_vec, digest);
        if shape {
            lemma_carry_start(n, k);
            assert(coords_view(view.frontier_coords@) =~= carry_state(n, 0, k));
        }
        if wf {
            let st = carry_state(n, 0, k);
            assert(coords_view(view.frontier_coords@) =~= st);
            assert(digests_view(view.frontier@) =~= st.map_values(
                |c: (nat, nat)| perfect(h, cells2, c.0, c.1, k),
            )) by {
                let fs = frontier_spec(n, k);
                assert(st == fs.push((n, 0)));
                assert forall|i: int|
                    0 <= i < st.len() implies #[trigger] digests_view(view.frontier@)[i] == perfect(
                    h,
                    cells2,
                    st[i].0,
                    st[i].1,
                    k,
                ) by {
                    if i < fs.len() {
                        assert(digests_view(view.frontier@)[i] == old_frontier[i]);
                    } else {
                        assert(perfect(h, cells2, n, 0, k) == cells2[n as int]);
                    }
                }
            }
        }
    }
    let merges = reduction_count(count, arity);
    let mut m: u32 = 0;
    while m < merges
        invariant
            arity >= 2,
            k == arity as nat,
            n == count as nat,
            h == view.hasher,
            h == old(view).hasher,
            out0 == old(out_nodes)@,
            cells2 == cells.push(digest@),
            wf == (old(view).frontier_matches(cells, arity as nat) && cells.len() == count),
            shape == old(view).frontier_shaped(count as nat, arity as nat),
            wf ==> shape,
            shape ==> {
                &&& coords_view(view.frontier_coords@) == carry_state(n, m as nat, k)
                &&& view.frontier@.len() == view.frontier_coords@.len()
            },
            m <= merges,
            merges == trailing_count(n + 1, k),
            view.hasher == old(view).hasher,
            view.epochs == old(view).epochs,
            out_nodes@.len() >= out0.len(),
            out_nodes@.subrange(0, out0.len() as int) == out0,
            forall|i: int| out0.len() <= i < out_nodes@.len() ==> (#[trigger] out_nodes@[i]).0 == alg_id,
            shape ==> forall|i: int|
                out0.len() <= i < out_nodes@.len() ==> (#[trigger] out_nodes@[i]).1 + pow(k, out_nodes@[i].2 as nat)
                    == n + 1 && crate::topology::aligned(out_nodes@[i].1 as nat, out_nodes@[i].2 as nat, k),
            wf ==> {
                &&& coords_view(view.frontier_coords@) == carry_state(n, m as nat, k)
                &&& digests_view(view.frontier@) == carry_state(n, m as nat, k).map_values(
                    |c: (nat, nat)| perfect(h, cells2, c.0, c.1, k),
                )
                &&& forall|i: int|
                    out0.len() <= i < out_nodes@.len() ==> sealed_node_ok(
                        h,
                        cells2,
                        k,
                        alg_id,
                        #[trigger] out_nodes@[i],
                    )
                &&& forall|j: nat|
                    1 <= j <= m && perfect(h, cells2, (n + 1 - pow(k, j)) as nat, j, k)
                        != h.spec_null() ==> exists|i: int|
                        out0.len() <= i < out_nodes@.len() && #[trigger] out_nodes@[i].1 == n + 1
                            - pow(k, j) && out_nodes@[i].2 == j
            },
        decreases merges - m,
    {
        proof {
            if shape {
                lemma_carry_step(n, m as nat, k);
                assert(coords_view(view.frontier_coords@).len() == view.frontier_coords@.len());
            }
        }
        if (view.frontier.len() as u64) < arity || (view.frontier_coords.len() as u64) < arity {
            return Err(
                Error::Corrupted {
                    alg_id,
                    reason: "frontier stack underflow during reduction".to_owned(),
                },
            );
        }
        let ghost pre_coords = coords_view(view.frontier_coords@);
        let ghost pre_digests = digests_view(view.frontier@);
        let fl = view.frontier.len() - (arity as usize);
        let children = view.frontier.split_off(fl);
        let cl = view.frontier_coords.len() - (arity as usize);
        let coords = view.frontier_coords.split_off(cl);
        let parent = nary_mr(&view.hasher, children.as_slice());
        let parent_left = coords[0].0;
        let parent_height = match coords[0].1.checked_add(1) {
            Some(ph) => ph,
            None => {
                proof {
                    if shape {
                        let st = carry_state(n, m as nat, k);
                        let l = st.len();
                        assert(coords_view(coords@) =~= st.subrange(l - k, l as int));
                        assert(st[l - k + 0] == (st[l - k + 0].0, m as nat));
                        assert(coords@[0].1 as nat == m);
                    }
                }
                return Err(
                    Error::Corrupted {
                        alg_id,
                        reason: "frontier height overflow during reduction".to_owned(),
                    },
                );
            },
        };
        let ghost out_before = out_nodes@;
        let null_const = view.hasher.null();
        let is_null = bytes_eq(parent.as_slice(), null_const.as_slice());
        proof {
            if shape {
                let st = carry_state(n, m as nat, k);
                let l = st.len();
                let pj = pow(k, m as nat);
                let left = (n + 1 - pow(k, m as nat + 1)) as nat;
                assert(coords_view(coords@) =~= st.subrange(l - k, l as int));
                assert(coords@[0].0 as nat == st[l - k].0);
                assert(st[l - k + 0] == ((left + 0 * pj) as nat, m as nat));
                assert(parent_left as nat == left);
                assert(parent_height as nat == m + 1);
            }
            if wf {
                let st = carry_state(n, m as nat, k);
                let l = st.len();
                let pj = pow(k, m as nat);
                let left = (n + 1 - pow(k, m as nat + 1)) as nat;
                let ch = digests_view(children@);
                assert forall|i: int| 0 <= i < k implies #[trigger] ch[i] == perfect(
                    h,
                    cells2,
                    (left + i * pj) as nat,
                    m as nat,
                    k,
                ) by {
                    assert(ch[i] == pre_digests[l - k + i]);
                    assert(st[l - k + i] == ((left + i * pj) as nat, m as nat));
                }
                lemma_perfect_merge(h, cells2, left, m as nat, k, ch);
                lemma_pow_bound_for_node(n, m as nat, k);
            }
        }
        if !is_null {
            out_nodes.push((alg_id, parent_left, parent_height, copy_bytes(&parent)));
        }
        let ghost pre_push_digests = digests_view(view.frontier@);
        view.frontier.push(parent);
        view.frontier_coords.push((parent_left, parent_height));
        proof {
            assert(out_nodes@.subrange(0, out0.len() as int) =~= out0) by {
                assert(out_before.subrange(0, out0.len() as int) == out0);
            }
            assert forall|i: int| out0.len() <= i < out_nodes@.len() implies (#[trigger] out_nodes@[i]).0
                == alg_id by {
                if i < out_before.len() {
                    assert(out_nodes@[i] == out_before[i]);
                }
            }
            if shape {
                crate::topology::lemma_merge_aligned(n, m as nat + 1, k);
                assert forall|i: int| out0.len() <= i < out_nodes@.len() implies (#[trigger] out_nodes@[i]).1 + pow(
                    k,
                    out_nodes@[i].2 as nat,
                ) == n + 1 && crate::topology::aligned(out_nodes@[i].1 as nat, out_nodes@[i].2 as nat, k) by {
                    if i < out_before.len() {
                        assert(out_nodes@[i] == out_before[i]);
                    } else {
                        assert(parent_height as nat == m + 1);
                        assert(parent_left + pow(k, m as nat + 1) == n + 1);
                    }
                }
            }
            if shape {
                let st = carry_state(n, m as nat, k);
                let l = st.len();
                let left = (n + 1 - pow(k, m as nat + 1)) as nat;
                let st2 = carry_state(n, m as nat + 1, k);
                assert(st.take(l - k).push((left, m as nat + 1)) == st2);
                assert(coords_view(view.frontier_coords@) =~= st2);
            }
            if wf {
                let st = carry_state(n, m as nat, k);
                let l = st.len();
                let left = (n + 1 - pow(k, m as nat + 1)) as nat;
                let st2 = carry_state(n, m as nat + 1, k);
                assert(st.take(l - k).push((left, m as nat + 1)) == st2);
                assert(coords_view(view.frontier_coords@) =~= st2);
                let target = st2.map_values(|c: (nat, nat)| perfect(h, cells2, c.0, c.1, k));
                assert(digests_view(view.frontier@) =~= target) by {
                    assert forall|i: int| 0 <= i < st2.len() implies #[trigger] digests_view(
                        view.frontier@,
                    )[i] == target[i] by {
                        if i < l - k {
                            assert(digests_view(view.frontier@)[i] == pre_digests[i]);
                        }
                    }
                }
                assert forall|i: int| out0.len() <= i < out_nodes@.len() implies sealed_node_ok(
                    h,
                    cells2,
                    k,
                    alg_id,
                    #[trigger] out_nodes@[i],
                ) by {
                    if i < out_before.len() {
                        assert(out_nodes@[i] == out_before[i]);
                    }
                }
                assert forall|j: nat|
                    1 <= j <= m + 1 && perfect(h, cells2, (n + 1 - pow(k, j)) as nat, j, k)
                        != h.spec_null() implies exists|i: int|
                    out0.len() <= i < out_nodes@.len() && #[trigger] out_nodes@[i].1 == n + 1 - pow(
                        k,
                        j,
                    ) && out_nodes@[i].2 == j by {
                    if j <= m {
                        let i0 = choose|i: int|
                            out0.len() <= i < out_before.len() && #[trigger] out_before[i].1 == n
                                + 1 - pow(k, j) && out_before[i].2 == j;
                        assert(out_nodes@[i0] == out_before[i0]);
                    } else {
                        assert(out_nodes@[out_before.len() as int].1 == n + 1 - pow(k, j));
                    }
                }
            }
        }
        m = m + 1;
    }
    proof {
        if shape {
            lemma_carry_done(n, k);
        }
        if wf {
            assert(digests_view(view.frontier@) =~= peaks(h, cells2, k));
        }
    }
    Ok(())
}

/// The node a merge forms lies within the extended cells.
proof fn lemma_pow_bound_for_node(n: nat, j: nat, k: nat)
    requires
        k >= 2,
        j < trailing_count(n + 1, k),
    ensures
        pow(k, j + 1) <= n + 1,
{
    lemma_carry_step(n, j, k);
}

/// An epoch sequence is well formed against `global_size`: non-empty, each
/// interval ordered, each starting no earlier than the previous one ended,
/// closed ends within the global size, only the last open, and an open last
/// interval starting within the global size.
pub open spec fn spec_epochs_valid(e: Seq<(u64, u64)>, global_size: u64) -> bool {
    &&& e.len() > 0
    &&& forall|i: int| 0 <= i < e.len() ==> #[trigger] e[i].0 <= e[i].1
    &&& forall|i: int| 0 < i < e.len() ==> #[trigger] e[i].0 >= e[i - 1].1
    &&& forall|i: int| 0 <= i < e.len() && #[trigger] e[i].1 != u64::MAX ==> e[i].1 <= global_size
    &&& forall|i: int| 0 <= i < e.len() && #[trigger] e[i].1 == u64::MAX ==> i == e.len() - 1
    &&& e.last().1 == u64::MAX ==> e.last().0 <= global_size
}

/// The decimal digits of `n`, most significant first, as `Display` writes
/// an unsigned integer.
pub open spec fn decimal(n: nat) -> Seq<char>
    decreases n,
{
    if n < 10 {
        seq![((n + 48) as u32) as char]
    } else {
        decimal(n / 10).push((((n % 10) + 48) as u32) as char)
    }
}

/// `a`, the decimal digits of `x`, `b`, the decimal digits of `y`, joined
/// by `format!`: its `Display` writes a string slice as its characters and a
/// `u64` as its decimal digits.
#[verifier::external_body]
fn join_numbers(a: &str, x: u64, b: &str, y: u64) -> (r: String)
    ensures
        r@ == a@ + decimal(x as nat) + b@ + decimal(y as nat),
{
    format!("{a}{x}{b}{y}")
}

/// The reason the epoch checks from entry `i` on (the previous end being
/// `last_end`) give, then the final open-epoch check; `None` when all pass.
pub open spec fn epochs_reason_from(e: Seq<(u64, u64)>, global_size: u64, i: int, last_end: u64) -> Option<
    Seq<char>,
>
    decreases e.len() - i,
{
    if i < 0 || i >= e.len() {
        if e.len() > 0 && e.last().1 == u64::MAX && e.last().0 > global_size {
            Some(
                "active epoch start "@ + decimal(e.last().0 as nat) + " exceeds global size "@ + decimal(
                    global_size as nat,
                ),
            )
        } else {
            None
        }
    } else {
        let (start, end) = e[i];
        if start > end {
            Some("epoch start "@ + decimal(start as nat) + " exceeds end "@ + decimal(end as nat))
        } else if start < last_end {
            Some("epoch start "@ + decimal(start as nat) + " is less than prior end "@ + decimal(last_end as nat))
        } else if end != u64::MAX && end > global_size {
            Some("epoch end "@ + decimal(end as nat) + " exceeds global size "@ + decimal(global_size as nat))
        } else if end == u64::MAX && i != e.len() - 1 {
            Some("open epoch (end = u64::MAX) is not the final entry"@)
        } else {
            epochs_reason_from(e, global_size, i + 1, end)
        }
    }
}

/// The reason an epoch list is refused against the global size: the first
/// check that fails, in order; `None` for a valid list.
pub open spec fn epochs_reason(e: Seq<(u64, u64)>, global_size: u64) -> Option<Seq<char>> {
    if e.len() == 0 {
        Some("epoch sequence is empty"@)
    } else {
        epochs_reason_from(e, global_size, 0, 0)
    }
}

/// Validate an algorithm's committed epoch intervals against the global size:
/// `Ok` exactly when they are well formed, else `Corrupted` for `alg_id`
/// with the reason of the first check that fails (`epochs_reason`).
pub fn validate_epochs<E>(alg_id: u64, epochs: &[(u64, u64)], global_size: u64) -> (r: Result<
    (),
    Error<E>,
>)
    ensures
        r is Ok <==> spec_epochs_valid(epochs@, global_size),
        r matches Err(e) ==> e matches Error::Corrupted { alg_id: a, reason } && a == alg_id && epochs_reason(
            epochs@,
            global_size,
        ) == Some(reason@),
{
    if epochs.len() == 0 {
        return Err(Error::Corrupted { alg_id, reason: "epoch sequence is empty".to_owned() });
    }
    let mut last_end: u64 = 0;
    let mut i: usize = 0;
    while i < epochs.len()
        invariant
            0 < epochs@.len(),
            i <= epochs@.len(),
            i == 0 ==> last_end == 0,
            i > 0 ==> last_end == epochs@[i - 1].1,
            forall|j: int| 0 <= j < i ==> #[trigger] epochs@[j].0 <= epochs@[j].1,
            forall|j: int| 0 < j < i ==> #[trigger] epochs@[j].0 >= epochs@[j - 1].1,
            forall|j: int|
                0 <= j < i && #[trigger] epochs@[j].1 != u64::MAX ==> epochs@[j].1 <= global_size,
            forall|j: int| 0 <= j < i && #[trigger] epochs@[j].1 == u64::MAX ==> j == epochs@.len() - 1,
            epochs_reason(epochs@, global_size) == epochs_reason_from(epochs@, global_size, i as int, last_end),
        decreases epochs@.len() - i,
    {
        let (start, end) = epochs[i];
        if start > end {
            return Err(Error::Corrupted { alg_id, reason: join_numbers("epoch start ", start, " exceeds end ", end) });
        }
        if start < last_end {
            return Err(
                Error::Corrupted {
                    alg_id,
                    reason: join_numbers("epoch start ", start, " is less than prior end ", last_end),
                },
            );
        }
        if end != u64::MAX && end > global_size {
            return Err(
                Error::Corrupted {
                    alg_id,
                    reason: join_numbers("epoch end ", end, " exceeds global size ", global_size),
                },
            );
        }
        if end == u64::MAX && i != epochs.len() - 1 {
            return Err(
                Error::Corrupted {
                    alg_id,
                    reason: "open epoch (end = u64::MAX) is not the final entry".to_owned(),
                },
            );
        }
        last_end = end;
        i = i + 1;
    }
    let (start, end) = epochs[epochs.len() - 1];
    if end == u64::MAX && start > global_size {
        return Err(
            Error::Corrupted {
                alg_id,
                reason: join_numbers("active epoch start ", start, " exceeds global size ", global_size),
            },
        );
    }
    Ok(())
}

/// Whether position `i` falls in one of `epochs`.
pub fn epochs_active_at(epochs: &Vec<(u64, u64)>, i: u64) -> (active: bool)
    ensures
        active == spec_is_active_at(epochs@, i as int),
{
    let mut j: usize = 0;
    while j < epochs.len()
        invariant
            j <= epochs@.len(),
            forall|t: int| 0 <= t < j ==> !(epochs@[t].0 <= i && i < epochs@[t].1),
        decreases epochs@.len() - j,
    {
        let (start, end) = epochs[j];
        if start <= i && i < end {
            return true;
        }
        j = j + 1;
    }
    false
}

/// Whether some epoch overlaps `[lo, hi)`.
pub fn epochs_active_range(epochs: &Vec<(u64, u64)>, lo: u64, hi: u64) -> (active: bool)
    ensures
        active == spec_active_range(epochs@, lo as int, hi as int),
{
    let mut j: usize = 0;
    while j < epochs.len()
        invariant
            j <= epochs@.len(),
            forall|t: int| 0 <= t < j ==> !(epochs@[t].0 < hi && epochs@[t].1 > lo),
        decreases epochs@.len() - j,
    {
        let (start, end) = epochs[j];
        if start < hi && end > lo {
            return true;
        }
        j = j + 1;
    }
    false
}

/// Whether one epoch contains `[lo, hi)`.
pub fn epochs_fully_active(epochs: &Vec<(u64, u64)>, lo: u64, hi: u64) -> (active: bool)
    ensures
        active == spec_fully_active(epochs@, lo as int, hi as int),
{
    let mut j: usize = 0;
    while j < epochs.len()
        invariant
            j <= epochs@.len(),
            forall|t: int| 0 <= t < j ==> !(epochs@[t].0 <= lo && hi <= epochs@[t].1),
        decreases epochs@.len() - j,
    {
        let (start, end) = epochs[j];
        if start <= lo && hi <= end {
            return true;
        }
        j = j + 1;
    }
    false
}

} // verus!
