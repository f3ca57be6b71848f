//! The canonical mutable tree: a dense, positional tree of payloads whose
//! cells can change. Each registered algorithm hashes every payload as a leaf
//! and folds the leaves over the rebalanced shape into its own root; the
//! per-cell metadata is carried verbatim and never hashed.
use vstd::prelude::*;

use crate::hasher::{Hasher, digests_view, lemma_digests_push};
use crate::model::{fold_frontier, fold_peaks, member_root, peaks, perfect, perfect_children};
use crate::mr::nary_mr;
use crate::storage::copy_epochs;
use crate::topology::{
    checked_pow, coords_view, frontier_for_size, frontier_spec, lemma_frontier_within,
    lemma_pow_positive, lemma_pow_succ, pow,
};

verus! {

/// Why a tree operation was refused.
#[derive(Debug, Clone, PartialEq, Eq)]
pub enum Error {
    /// The arity lies outside `2..=256`.
    InvalidArity(u64),
    /// The algorithm is already registered.
    DuplicateAlgorithm(u64),
    /// Setting `index` would leave a gap in a dense tree of `len` cells.
    IndexGap { index: u64, len: u64 },
    /// An empty tree has no root to seal.
    EmptySeal,
    /// The sealed frontier was rejected.
    MalformedSeal,
}

/// The tree's configuration: its arity.
#[derive(Debug, Clone, Copy, PartialEq, Eq)]
pub struct Config {
    /// The arity of the tree (`2 <= arity <= 256`).
    pub arity: u64,
}

impl Default for Config {
    fn default() -> (c: Self)
        ensures
            c.arity == 2,
    {
        Config { arity: 2 }
    }
}

/// A dense positional tree of payloads with per-cell metadata, hashed under
/// every registered algorithm.
#[derive(Debug)]
pub struct Cmt<H: Hasher> {
    config: Config,
    cells: Vec<(Vec<u8>, Vec<u8>)>,
    algs: Vec<(u64, H)>,
}

impl<H: Hasher> Cmt<H> {
    /// The arity.
    pub closed spec fn spec_arity(&self) -> u64 {
        self.config.arity
    }

    /// The payloads, by position.
    pub closed spec fn spec_payloads(&self) -> Seq<Seq<u8>> {
        self.cells@.map_values(|c: (Vec<u8>, Vec<u8>)| c.0@)
    }

    /// The metadata, by position.
    pub closed spec fn spec_metadata(&self) -> Seq<Seq<u8>> {
        self.cells@.map_values(|c: (Vec<u8>, Vec<u8>)| c.1@)
    }

    /// The registered algorithms with their hashers, in registration order.
    pub closed spec fn spec_algs(&self) -> Seq<(u64, H)> {
        self.algs@
    }

    /// The tree's invariant: a supported arity and distinct algorithm IDs.
    pub closed spec fn wf(&self) -> bool {
        &&& 2 <= self.config.arity <= 256
        &&& self.cells@.len() <= u64::MAX
        &&& forall|i: int, j: int| 0 <= i < j < self.algs@.len() ==> self.algs@[i].0 != self.algs@[j].0
    }

    /// An empty tree with configuration `config`; `InvalidArity` exactly for
    /// an arity outside `2..=256`.
    pub fn new(config: Config) -> (r: Result<Self, Error>)
        ensures
            (config.arity < 2 || config.arity > 256) <==> r is Err,
            r matches Err(e) ==> e == Error::InvalidArity(config.arity),
            r matches Ok(t) ==> t.wf() && t.spec_arity() == config.arity && t.spec_payloads().len() == 0
                && t.spec_algs().len() == 0,
    {
        if config.arity < 2 || config.arity > 256 {
            return Err(Error::InvalidArity(config.arity));
        }
        let t = Cmt { config, cells: Vec::new(), algs: Vec::new() };
        proof {
            assert(t.spec_payloads() =~= Seq::<Seq<u8>>::empty());
        }
        Ok(t)
    }

    /// Register algorithm `alg_id` with `hasher`; `DuplicateAlgorithm` exactly
    /// when it is registered already.
    pub fn register_algorithm(&mut self, alg_id: u64, hasher: H) -> (r: Result<(), Error>)
        requires
            old(self).wf(),
        ensures
            final(self).wf(),
            (exists|i: int| 0 <= i < old(self).spec_algs().len() && old(self).spec_algs()[i].0 == alg_id) <==> r is Err,
            r matches Err(e) ==> e == Error::DuplicateAlgorithm(alg_id) && *final(self) == *old(self),
            r is Ok ==> final(self).spec_algs() == old(self).spec_algs().push((alg_id, hasher)),
            final(self).spec_payloads() == old(self).spec_payloads(),
            final(self).spec_metadata() == old(self).spec_metadata(),
            final(self).spec_arity() == old(self).spec_arity(),
    {
        let mut i: usize = 0;
        while i < self.algs.len()
            invariant
                *self == *old(self),
                self.wf(),
                i <= self.algs@.len(),
                forall|j: int| 0 <= j < i ==> self.algs@[j].0 != alg_id,
            decreases self.algs@.len() - i,
        {
            if self.algs[i].0 == alg_id {
                proof {
                    assert(old(self).spec_algs()[i as int].0 == alg_id);
                }
                return Err(Error::DuplicateAlgorithm(alg_id));
            }
            i = i + 1;
        }
        self.algs.push((alg_id, hasher));
        Ok(())
    }

    /// Set position `index` to `payload` with `metadata`: overwrite a present
    /// cell, or append at the end; `IndexGap` exactly when `index` lies past
    /// the end.
    pub fn set(&mut self, index: u64, payload: Vec<u8>, metadata: Vec<u8>) -> (r: Result<(), Error>)
        requires
            old(self).wf(),
            old(self).spec_payloads().len() < u64::MAX,
        ensures
            final(self).wf(),
            (index > old(self).spec_payloads().len()) <==> r is Err,
            r matches Err(e) ==> (e == (Error::IndexGap { index, len: old(self).spec_payloads().len() as u64 })
                && *final(self) == *old(self)),
            (r is Ok && index == old(self).spec_payloads().len()) ==> (final(self).spec_payloads()
                == old(self).spec_payloads().push(payload@) && final(self).spec_metadata()
                == old(self).spec_metadata().push(metadata@)),
            (r is Ok && index < old(self).spec_payloads().len()) ==> (final(self).spec_payloads()
                == old(self).spec_payloads().update(index as int, payload@) && final(self).spec_metadata()
                == old(self).spec_metadata().update(index as int, metadata@)),
            final(self).spec_algs() == old(self).spec_algs(),
            final(self).spec_arity() == old(self).spec_arity(),
    {
        let len = self.cells.len() as u64;
        if index > len {
            return Err(Error::IndexGap { index, len });
        }
        let ghost before = self.cells@;
        if index == len {
            self.cells.push((payload, metadata));
            proof {
                assert(self.spec_payloads() =~= before.map_values(|c: (Vec<u8>, Vec<u8>)| c.0@).push(payload@));
                assert(self.spec_metadata() =~= before.map_values(|c: (Vec<u8>, Vec<u8>)| c.1@).push(metadata@));
            }
        } else {
            self.cells.set(index as usize, (payload, metadata));
            proof {
                assert(self.spec_payloads() =~= before.map_values(|c: (Vec<u8>, Vec<u8>)| c.0@).update(
                    index as int,
                    payload@,
                ));
                assert(self.spec_metadata() =~= before.map_values(|c: (Vec<u8>, Vec<u8>)| c.1@).update(
                    index as int,
                    metadata@,
                ));
            }
        }
        Ok(())
    }

    /// The payload at `index`, if present.
    pub fn get(&self, index: u64) -> (p: Option<&[u8]>)
        ensures
            match p {
                Some(v) => index < self.spec_payloads().len() && v@ == self.spec_payloads()[index as int],
                None => index >= self.spec_payloads().len(),
            },
    {
        if index < self.cells.len() as u64 {
            Some(self.cells[index as usize].0.as_slice())
        } else {
            None
        }
    }

    /// The metadata at `index`, if present.
    pub fn metadata(&self, index: u64) -> (m: Option<&[u8]>)
        ensures
            match m {
                Some(v) => index < self.spec_metadata().len() && v@ == self.spec_metadata()[index as int],
                None => index >= self.spec_metadata().len(),
            },
    {
        if index < self.cells.len() as u64 {
            Some(self.cells[index as usize].1.as_slice())
        } else {
            None
        }
    }

    /// The number of cells.
    pub fn len(&self) -> (n: u64)
        requires
            self.wf(),
        ensures
            n == self.spec_payloads().len(),
    {
        self.cells.len() as u64
    }

    /// Whether the tree has no cell.
    pub fn is_empty(&self) -> (b: bool)
        ensures
            b == (self.spec_payloads().len() == 0),
    {
        self.cells.len() == 0
    }
}


/// The leaf digests of `payloads` under `h`.
pub open spec fn leaf_digests<H: Hasher>(h: H, payloads: Seq<Seq<u8>>) -> Seq<Seq<u8>> {
    payloads.map_values(|p: Seq<u8>| h.spec_leaf(p))
}

/// The root of the perfect subtree of `height` at `left` over `leaves`.
fn perfect_root<H: Hasher>(hasher: &H, leaves: &Vec<Vec<u8>>, left: u64, height: u32, k: u64) -> (r: Vec<u8>)
    requires
        2 <= k <= 256,
        left + pow(k as nat, height as nat) <= leaves@.len(),
    ensures
        r@ == perfect(*hasher, digests_view(leaves@), left as nat, height as nat, k as nat),
    decreases height,
{
    let ghost cells = digests_view(leaves@);
    if height == 0 {
        proof {
            assert(pow(k as nat, 0) == 1);
            assert(cells[left as int] == leaves@[left as int]@);
            assert(perfect(*hasher, cells, left as nat, 0, k as nat) == cells[left as int]);
            assert(leaves@.len() == leaves.len() as nat);
            assert((left as usize) as int == left as int);
        }
        let r = crate::hasher::copy_bytes(&leaves[left as usize]);
        proof {
            assert(r@ == cells[left as int]);
        }
        return r;
    }
    let ghost hc = (height - 1) as nat;
    proof {
        lemma_pow_succ(k as nat, hc);
        lemma_pow_positive(k as nat, hc);
        assert(leaves@.len() == leaves.len() as nat);
        assert(pow(k as nat, hc) <= pow(k as nat, height as nat)) by (nonlinear_arith)
            requires
                pow(k as nat, height as nat) == k * pow(k as nat, hc),
                k >= 2,
        ;
    }
    let cs = match checked_pow(k, height - 1) {
        Some(c) => c,
        None => {
            proof {
                assert(false);
            }
            0
        },
    };
    let ghost want = perfect_children(*hasher, cells, left as nat, hc, k as nat);
    let mut children: Vec<Vec<u8>> = Vec::new();
    let mut j: u64 = 0;
    while j < k
        invariant
            2 <= k <= 256,
            cells == digests_view(leaves@),
            cs == pow(k as nat, hc),
            cs >= 1,
            hc == height - 1,
            left + k * cs <= leaves@.len(),
            leaves@.len() <= usize::MAX,
            want == perfect_children(*hasher, cells, left as nat, hc, k as nat),
            j <= k,
            digests_view(children@) == want.take(j as int),
        decreases k - j,
    {
        proof {
            assert(j * cs + cs <= k * cs) by (nonlinear_arith)
                requires
                    j < k,
            ;
        }
        let c = perfect_root(hasher, leaves, left + j * cs, height - 1, k);
        let ghost before = children@;
        children.push(c);
        proof {
            lemma_digests_push(before, c);
            assert(want[j as int] == perfect(*hasher, cells, (left + j * cs) as nat, hc, k as nat));
            assert(want.take(j + 1) =~= want.take(j as int).push(want[j as int]));
        }
        j = j + 1;
    }
    proof {
        assert(want.take(k as int) =~= want);
    }
    nary_mr(hasher, children.as_slice())
}

impl<H: Hasher> Cmt<H> {
    /// The position of algorithm `alg_id` among the registered ones.
    fn find_alg(&self, alg_id: u64) -> (r: Option<usize>)
        ensures
            r matches Some(a) ==> a < self.spec_algs().len() && self.spec_algs()[a as int].0 == alg_id,
            r is None ==> forall|j: int| 0 <= j < self.spec_algs().len() ==> self.spec_algs()[j].0 != alg_id,
    {
        let mut a: usize = 0;
        while a < self.algs.len()
            invariant
                a <= self.algs@.len(),
                forall|j: int| 0 <= j < a ==> self.algs@[j].0 != alg_id,
            decreases self.algs@.len() - a,
        {
            if self.algs[a].0 == alg_id {
                return Some(a);
            }
            a = a + 1;
        }
        None
    }

    /// The root of the tree under algorithm `alg_id`: the member root of the
    /// payloads' leaf digests (the frontier's perfect subtrees folded right to
    /// left); `None` for an empty tree or an unregistered algorithm.
    pub fn root(&self, alg_id: u64) -> (r: Option<Vec<u8>>)
        requires
            self.wf(),
        ensures
            r is Some <==> (self.spec_payloads().len() > 0 && exists|i: int|
                0 <= i < self.spec_algs().len() && self.spec_algs()[i].0 == alg_id),
            r matches Some(d) ==> forall|i: int|
                0 <= i < self.spec_algs().len() && #[trigger] self.spec_algs()[i].0 == alg_id ==> d@
                    == member_root(
                    self.spec_algs()[i].1,
                    leaf_digests(self.spec_algs()[i].1, self.spec_payloads()),
                    self.spec_arity() as nat,
                ),
    {
        if self.cells.len() == 0 {
            return None;
        }
        let a = match self.find_alg(alg_id) {
            None => {
                return None;
            },
            Some(a) => a,
        };
        proof {
            assert(self.spec_algs()[a as int].0 == alg_id);
        }
        let hasher = &self.algs[a].1;
        let k = self.config.arity;
        let n = self.cells.len() as u64;
        let ghost payloads = self.spec_payloads();
        let mut leaves: Vec<Vec<u8>> = Vec::new();
        let mut i: usize = 0;
        while i < self.cells.len()
            invariant
                payloads == self.spec_payloads(),
                i <= self.cells@.len(),
                digests_view(leaves@) == leaf_digests(*hasher, payloads).take(i as int),
            decreases self.cells@.len() - i,
        {
            let d = hasher.leaf(self.cells[i].0.as_slice());
            let ghost before = leaves@;
            leaves.push(d);
            proof {
                lemma_digests_push(before, d);
                assert(payloads[i as int] == self.cells@[i as int].0@);
                assert(leaf_digests(*hasher, payloads).take(i + 1) =~= leaf_digests(*hasher, payloads).take(
                    i as int,
                ).push(hasher.spec_leaf(payloads[i as int])));
            }
            i = i + 1;
        }
        let ghost cells = leaf_digests(*hasher, payloads);
        proof {
            assert(cells.take(self.cells@.len() as int) =~= cells);
        }
        let coords = frontier_for_size(n, k);
        let ghost fs = frontier_spec(n as nat, k as nat);
        proof {
            lemma_frontier_within(n as nat, k as nat, 0);
        }
        let mut peak_list: Vec<Vec<u8>> = Vec::new();
        let mut t: usize = 0;
        while t < coords.len()
            invariant
                2 <= k <= 256,
                cells == digests_view(leaves@),
                leaves@.len() == n,
                coords_view(coords@) == fs,
                fs == frontier_spec(n as nat, k as nat),
                forall|q: int| 0 <= q < fs.len() ==> #[trigger] fs[q].0 + pow(k as nat, fs[q].1) <= n,
                t <= coords@.len(),
                digests_view(peak_list@) == peaks(*hasher, cells, k as nat).take(t as int),
            decreases coords@.len() - t,
        {
            let (left, height) = coords[t];
            proof {
                assert(fs[t as int] == (left as nat, height as nat));
            }
            let p = perfect_root(hasher, &leaves, left, height, k);
            let ghost before = peak_list@;
            peak_list.push(p);
            proof {
                lemma_digests_push(before, p);
                assert(peaks(*hasher, cells, k as nat)[t as int] == p@);
                assert(peaks(*hasher, cells, k as nat).take(t + 1) =~= peaks(*hasher, cells, k as nat).take(
                    t as int,
                ).push(p@));
            }
            t = t + 1;
        }
        proof {
            assert(peaks(*hasher, cells, k as nat).take(coords@.len() as int) =~= peaks(*hasher, cells, k as nat));
            assert forall|j: int|
                0 <= j < self.spec_algs().len() && #[trigger] self.spec_algs()[j].0 == alg_id implies j == a by {
                if j != a {
                    assert(self.algs@[j].0 != self.algs@[a as int].0);
                }
            }
        }
        Some(fold_peaks(hasher, peak_list, k))
    }
}

} // verus!
