//! Storage abstraction for leaf and node persistence, and an in-memory
//! implementation.
use vstd::prelude::*;

use crate::hasher::{copy_bytes, copy_slice};

verus! {

/// Backend for persisting and retrieving raw leaf payloads, sealed internal
/// node hashes keyed by `(alg_id, node_id)`, and per-algorithm epoch
/// metadata.
///
/// The model of a store is its leaf list, its node map and its metadata map;
/// each operation says how a success relates the store before and after,
/// and a failed write leaves the store as it was.
pub trait Storage: Sized {
    /// Error type for storage operations.
    type Error;

    /// The stored leaf payloads, in index order.
    spec fn spec_leaves(&self) -> Seq<Seq<u8>>;

    /// The stored node hashes, keyed by `(alg_id, node_id)`.
    spec fn spec_nodes(&self) -> Map<(u64, u64), Seq<u8>>;

    /// The stored epoch metadata, keyed by algorithm ID.
    spec fn spec_metas(&self) -> Map<u64, Seq<(u64, u64)>>;

    /// Persist a raw leaf payload at the given index, the next free one: it
    /// is appended to the stored leaves.
    fn store_leaf(&mut self, index: u64, data: &[u8]) -> (r: Result<(), Self::Error>)
        ensures
            r is Ok ==> {
                &&& final(self).spec_leaves() == old(self).spec_leaves().push(data@)
                &&& final(self).spec_nodes() == old(self).spec_nodes()
                &&& final(self).spec_metas() == old(self).spec_metas()
            },
            r is Err ==> {
                &&& final(self).spec_leaves() == old(self).spec_leaves()
                &&& final(self).spec_nodes() == old(self).spec_nodes()
                &&& final(self).spec_metas() == old(self).spec_metas()
            },
    ;

    /// Retrieve the raw leaf payload at the given index.
    fn get_leaf(&self, index: u64) -> (r: Result<Vec<u8>, Self::Error>)
        ensures
            r matches Ok(v) ==> index < self.spec_leaves().len() && v@ == self.spec_leaves()[index as int],
    ;

    /// The number of leaves currently stored.
    fn len(&self) -> (n: u64)
        ensures
            n == self.spec_leaves().len(),
    ;

    /// Whether the storage contains no leaves.
    fn is_empty(&self) -> (empty: bool)
        ensures
            empty == (self.spec_leaves().len() == 0),
    ;

    /// Persist a sealed internal node hash.
    fn store_node(&mut self, alg_id: u64, node_id: u64, hash: &[u8]) -> (r: Result<(), Self::Error>)
        ensures
            r is Ok ==> {
                &&& final(self).spec_nodes() == old(self).spec_nodes().insert((alg_id, node_id), hash@)
                &&& final(self).spec_leaves() == old(self).spec_leaves()
                &&& final(self).spec_metas() == old(self).spec_metas()
            },
            r is Err ==> {
                &&& final(self).spec_leaves() == old(self).spec_leaves()
                &&& final(self).spec_nodes() == old(self).spec_nodes()
                &&& final(self).spec_metas() == old(self).spec_metas()
            },
    ;

    /// Retrieve a sealed internal node hash, `None` when none is stored.
    fn get_node(&self, alg_id: u64, node_id: u64) -> (r: Result<Option<Vec<u8>>, Self::Error>)
        ensures
            r matches Ok(o) ==> match o {
                Some(v) => self.spec_nodes().contains_key((alg_id, node_id)) && v@
                    == self.spec_nodes()[(alg_id, node_id)],
                None => !self.spec_nodes().contains_key((alg_id, node_id)),
            },
    ;

    /// Persist algorithm metadata (epoch boundaries).
    fn store_algorithm_meta(&mut self, alg_id: u64, epochs: &[(u64, u64)]) -> (r: Result<
        (),
        Self::Error,
    >)
        ensures
            r is Ok ==> {
                &&& final(self).spec_metas() == old(self).spec_metas().insert(alg_id, epochs@)
                &&& final(self).spec_leaves() == old(self).spec_leaves()
                &&& final(self).spec_nodes() == old(self).spec_nodes()
            },
            r is Err ==> {
                &&& final(self).spec_leaves() == old(self).spec_leaves()
                &&& final(self).spec_nodes() == old(self).spec_nodes()
                &&& final(self).spec_metas() == old(self).spec_metas()
            },
    ;

    /// Load all persisted algorithm metadata: each stored algorithm once,
    /// with its epochs.
    fn load_algorithm_metas(&self) -> (r: Result<Vec<(u64, Vec<(u64, u64)>)>, Self::Error>)
        ensures
            r matches Ok(v) ==> metas_listed(v@, self.spec_metas()),
    ;
}

/// `v` lists each algorithm of `metas` exactly once, with its epochs.
pub open spec fn metas_listed(v: Seq<(u64, Vec<(u64, u64)>)>, metas: Map<u64, Seq<(u64, u64)>>) -> bool {
    &&& forall|i: int|
        0 <= i < v.len() ==> #[trigger] metas.contains_key(v[i].0) && metas[v[i].0] == v[i].1@
    &&& forall|id: u64| #[trigger] metas.contains_key(id) ==> exists|i: int| 0 <= i < v.len() && v[i].0 == id
    &&& forall|i: int, j: int| 0 <= i < j < v.len() ==> v[i].0 != v[j].0
}

/// In-memory leaf and node storage backed by vectors of entries.
#[derive(Debug, Clone)]
pub struct MemoryStorage {
    /// Raw leaf payloads.
    leaves: Vec<Vec<u8>>,
    /// Sealed internal node hashes; the first entry for a key holds its value.
    nodes: Vec<((u64, u64), Vec<u8>)>,
    /// Algorithm epoch metadata; the first entry for an ID holds its value.
    algorithm_metas: Vec<(u64, Vec<(u64, u64)>)>,
}

/// Error type for [`MemoryStorage`] operations: a leaf read past the end.
#[derive(Debug, Clone, PartialEq, Eq)]
pub struct MemoryStorageError {
    /// The index that was requested.
    pub index: u64,
    /// The number of stored leaves.
    pub stored: u64,
}

/// The value the first entry keyed `key` holds, if any.
pub open spec fn lookup<K, V>(v: Seq<(K, V)>, key: K) -> Option<V>
    decreases v.len(),
{
    if v.len() == 0 {
        None
    } else if v[0].0 == key {
        Some(v[0].1)
    } else {
        lookup(v.skip(1), key)
    }
}

/// The map an entry list describes, each key taking its first entry's value.
pub open spec fn entry_map<K, V>(v: Seq<(K, V)>) -> Map<K, V> {
    Map::new(|key: K| lookup(v, key) is Some, |key: K| lookup(v, key)->0)
}

/// The lookup finds the entry at `i` when no earlier entry has its key.
pub proof fn lemma_lookup_found<K, V>(v: Seq<(K, V)>, i: int, key: K)
    requires
        0 <= i < v.len(),
        v[i].0 == key,
        forall|j: int| 0 <= j < i ==> v[j].0 != key,
    ensures
        lookup(v, key) == Some(v[i].1),
    decreases i,
{
    if i > 0 {
        lemma_lookup_found(v.skip(1), i - 1, key);
    }
}

/// The lookup finds nothing when no entry has the key.
pub proof fn lemma_lookup_absent<K, V>(v: Seq<(K, V)>, key: K)
    requires
        forall|j: int| 0 <= j < v.len() ==> v[j].0 != key,
    ensures
        lookup(v, key) is None,
    decreases v.len(),
{
    if v.len() > 0 {
        lemma_lookup_absent(v.skip(1), key);
    }
}

/// Appending an entry only adds its key, when the key was absent.
pub proof fn lemma_lookup_push<K, V>(v: Seq<(K, V)>, e: (K, V), key: K)
    ensures
        lookup(v.push(e), key) == match lookup(v, key) {
            Some(x) => Some(x),
            None => if e.0 == key {
                Some(e.1)
            } else {
                None
            },
        },
    decreases v.len(),
{
    reveal_with_fuel(lookup, 2);
    if v.len() > 0 {
        assert(v.push(e)[0] == v[0]);
        assert(v.push(e).skip(1) =~= v.skip(1).push(e));
        lemma_lookup_push(v.skip(1), e, key);
    } else {
        assert(v.push(e)[0] == e);
        assert(v.push(e).skip(1) =~= Seq::<(K, V)>::empty());
    }
}

/// Replacing the value of the first entry keyed `v[i].0` updates that key.
pub proof fn lemma_lookup_update<K, V>(v: Seq<(K, V)>, i: int, nv: V, key: K)
    requires
        0 <= i < v.len(),
        forall|j: int| 0 <= j < i ==> v[j].0 != v[i].0,
    ensures
        lookup(v.update(i, (v[i].0, nv)), key) == if key == v[i].0 {
            Some(nv)
        } else {
            lookup(v, key)
        },
    decreases i,
{
    let w = v.update(i, (v[i].0, nv));
    if i > 0 {
        assert(w[0] == v[0]);
        assert(w.skip(1) =~= v.skip(1).update(i - 1, (v[i].0, nv)));
        lemma_lookup_update(v.skip(1), i - 1, nv, key);
    } else {
        assert(w[0] == (v[0].0, nv));
        assert(w.skip(1) =~= v.skip(1));
    }
}

/// The epoch lists of an entry list, as plain values.
pub open spec fn metas_view(v: Seq<(u64, Vec<(u64, u64)>)>) -> Seq<(u64, Seq<(u64, u64)>)> {
    v.map_values(|e: (u64, Vec<(u64, u64)>)| (e.0, e.1@))
}

/// The node hashes of an entry list, as plain values.
pub open spec fn nodes_view(v: Seq<((u64, u64), Vec<u8>)>) -> Seq<((u64, u64), Seq<u8>)> {
    v.map_values(|e: ((u64, u64), Vec<u8>)| (e.0, e.1@))
}

impl MemoryStorage {
    /// Create a new empty in-memory storage.
    pub fn new() -> (s: Self)
        ensures
            s.spec_leaves() == Seq::<Seq<u8>>::empty(),
            s.spec_nodes() == Map::<(u64, u64), Seq<u8>>::empty(),
            s.spec_metas() == Map::<u64, Seq<(u64, u64)>>::empty(),
    {
        let s = MemoryStorage { leaves: Vec::new(), nodes: Vec::new(), algorithm_metas: Vec::new() };
        proof {
            assert(s.spec_leaves() =~= Seq::<Seq<u8>>::empty());
            assert(s.spec_nodes() =~= Map::empty());
            assert(s.spec_metas() =~= Map::empty());
        }
        s
    }

    /// Position of the first node entry for `key`, if any.
    fn find_node(&self, key: (u64, u64)) -> (pos: Option<usize>)
        ensures
            match pos {
                Some(i) => i < self.nodes@.len() && nodes_view(self.nodes@)[i as int].0 == key
                    && (forall|j: int| 0 <= j < i ==> nodes_view(self.nodes@)[j].0 != key)
                    && lookup(nodes_view(self.nodes@), key) == Some(self.nodes@[i as int].1@),
                None => lookup(nodes_view(self.nodes@), key) is None,
            },
    {
        let ghost nv = nodes_view(self.nodes@);
        let mut i: usize = 0;
        while i < self.nodes.len()
            invariant
                nv == nodes_view(self.nodes@),
                i <= self.nodes@.len(),
                forall|j: int| 0 <= j < i ==> nv[j].0 != key,
            decreases self.nodes@.len() - i,
        {
            if self.nodes[i].0.0 == key.0 && self.nodes[i].0.1 == key.1 {
                proof {
                    lemma_lookup_found(nv, i as int, key);
                }
                return Some(i);
            }
            i = i + 1;
        }
        proof {
            lemma_lookup_absent(nv, key);
        }
        None
    }

    /// Position of the first metadata entry for `alg_id`, if any.
    fn find_meta(&self, alg_id: u64) -> (pos: Option<usize>)
        ensures
            match pos {
                Some(i) => i < self.algorithm_metas@.len() && metas_view(self.algorithm_metas@)[i as int].0
                    == alg_id && (forall|j: int|
                    0 <= j < i ==> metas_view(self.algorithm_metas@)[j].0 != alg_id) && lookup(
                    metas_view(self.algorithm_metas@),
                    alg_id,
                ) == Some(self.algorithm_metas@[i as int].1@),
                None => lookup(metas_view(self.algorithm_metas@), alg_id) is None,
            },
    {
        let ghost mv = metas_view(self.algorithm_metas@);
        let mut i: usize = 0;
        while i < self.algorithm_metas.len()
            invariant
                mv == metas_view(self.algorithm_metas@),
                i <= self.algorithm_metas@.len(),
                forall|j: int| 0 <= j < i ==> mv[j].0 != alg_id,
            decreases self.algorithm_metas@.len() - i,
        {
            if self.algorithm_metas[i].0 == alg_id {
                proof {
                    lemma_lookup_found(mv, i as int, alg_id);
                }
                return Some(i);
            }
            i = i + 1;
        }
        proof {
            lemma_lookup_absent(mv, alg_id);
        }
        None
    }
}

/// A copy of an epoch list.
pub fn copy_epochs(e: &[(u64, u64)]) -> (r: Vec<(u64, u64)>)
    ensures
        r@ == e@,
{
    let mut r: Vec<(u64, u64)> = Vec::new();
    let mut i: usize = 0;
    while i < e.len()
        invariant
            i <= e@.len(),
            r@ == e@.take(i as int),
        decreases e@.len() - i,
    {
        r.push(e[i]);
        proof {
            assert(r@ =~= e@.take(i + 1));
        }
        i = i + 1;
    }
    proof {
        assert(e@.take(e@.len() as int) =~= e@);
    }
    r
}

impl Storage for MemoryStorage {
    type Error = MemoryStorageError;

    closed spec fn spec_leaves(&self) -> Seq<Seq<u8>> {
        self.leaves@.map_values(|l: Vec<u8>| l@)
    }

    closed spec fn spec_nodes(&self) -> Map<(u64, u64), Seq<u8>> {
        entry_map(nodes_view(self.nodes@))
    }

    closed spec fn spec_metas(&self) -> Map<u64, Seq<(u64, u64)>> {
        entry_map(metas_view(self.algorithm_metas@))
    }

    fn store_leaf(&mut self, index: u64, data: &[u8]) -> (r: Result<(), MemoryStorageError>)
        ensures
            r is Ok,
    {
        let ghost before = self.leaves@;
        self.leaves.push(copy_slice(data));
        proof {
            assert(self.leaves@.map_values(|l: Vec<u8>| l@) =~= before.map_values(|l: Vec<u8>| l@).push(
                data@,
            ));
        }
        Ok(())
    }

    fn get_leaf(&self, index: u64) -> (r: Result<Vec<u8>, MemoryStorageError>)
        ensures
            r is Ok <==> index < self.spec_leaves().len(),
            r matches Err(e) ==> e.index == index && e.stored == self.spec_leaves().len(),
    {
        if index < self.leaves.len() as u64 {
            Ok(copy_bytes(&self.leaves[index as usize]))
        } else {
            Err(MemoryStorageError { index, stored: self.leaves.len() as u64 })
        }
    }

    fn len(&self) -> (n: u64) {
        self.leaves.len() as u64
    }

    fn is_empty(&self) -> (empty: bool) {
        self.leaves.len() == 0
    }

    fn store_node(&mut self, alg_id: u64, node_id: u64, hash: &[u8]) -> (r: Result<
        (),
        MemoryStorageError,
    >)
        ensures
            r is Ok,
    {
        let key = (alg_id, node_id);
        let ghost before = nodes_view(self.nodes@);
        let value = copy_slice(hash);
        match self.find_node(key) {
            Some(i) => {
                self.nodes.set(i, (key, value));
                proof {
                    assert(nodes_view(self.nodes@) =~= before.update(i as int, (key, hash@)));
                    assert forall|k2: (u64, u64)| true implies lookup(nodes_view(self.nodes@), k2)
                        == if k2 == key {
                        Some(hash@)
                    } else {
                        lookup(before, k2)
                    } by {
                        lemma_lookup_update(before, i as int, hash@, k2);
                    }
                    assert(self.spec_nodes() =~= entry_map(before).insert(key, hash@));
                }
            },
            None => {
                self.nodes.push((key, value));
                proof {
                    assert(nodes_view(self.nodes@) =~= before.push((key, hash@)));
                    assert forall|k2: (u64, u64)| true implies lookup(nodes_view(self.nodes@), k2)
                        == if k2 == key {
                        Some(hash@)
                    } else {
                        lookup(before, k2)
                    } by {
                        lemma_lookup_push(before, (key, hash@), k2);
                    }
                    assert(self.spec_nodes() =~= entry_map(before).insert(key, hash@));
                }
            },
        }
        Ok(())
    }

    fn get_node(&self, alg_id: u64, node_id: u64) -> (r: Result<Option<Vec<u8>>, MemoryStorageError>)
        ensures
            r is Ok,
    {
        match self.find_node((alg_id, node_id)) {
            Some(i) => Ok(Some(copy_bytes(&self.nodes[i].1))),
            None => Ok(None),
        }
    }

    fn store_algorithm_meta(&mut self, alg_id: u64, epochs: &[(u64, u64)]) -> (r: Result<
        (),
        MemoryStorageError,
    >)
        ensures
            r is Ok,
    {
        let ghost before = metas_view(self.algorithm_metas@);
        let value = copy_epochs(epochs);
        match self.find_meta(alg_id) {
            Some(i) => {
                self.algorithm_metas.set(i, (alg_id, value));
                proof {
                    assert(metas_view(self.algorithm_metas@) =~= before.update(
                        i as int,
                        (alg_id, epochs@),
                    ));
                    assert forall|k2: u64| true implies lookup(metas_view(self.algorithm_metas@), k2)
                        == if k2 == alg_id {
                        Some(epochs@)
                    } else {
                        lookup(before, k2)
                    } by {
                        lemma_lookup_update(before, i as int, epochs@, k2);
                    }
                    assert(self.spec_metas() =~= entry_map(before).insert(alg_id, epochs@));
                }
            },
            None => {
                self.algorithm_metas.push((alg_id, value));
                proof {
                    assert(metas_view(self.algorithm_metas@) =~= before.push((alg_id, epochs@)));
                    assert forall|k2: u64| true implies lookup(metas_view(self.algorithm_metas@), k2)
                        == if k2 == alg_id {
                        Some(epochs@)
                    } else {
                        lookup(before, k2)
                    } by {
                        lemma_lookup_push(before, (alg_id, epochs@), k2);
                    }
                    assert(self.spec_metas() =~= entry_map(before).insert(alg_id, epochs@));
                }
            },
        }
        Ok(())
    }

    fn load_algorithm_metas(&self) -> (r: Result<Vec<(u64, Vec<(u64, u64)>)>, MemoryStorageError>)
        ensures
            r is Ok,
    {
        let ghost mv = metas_view(self.algorithm_metas@);
        let mut out: Vec<(u64, Vec<(u64, u64)>)> = Vec::new();
        let mut i: usize = 0;
        proof {
            assert(listing_ok(mv, metas_view(out@), 0));
        }
        while i < self.algorithm_metas.len()
            invariant
                mv == metas_view(self.algorithm_metas@),
                i <= self.algorithm_metas@.len(),
                listing_ok(mv, metas_view(out@), i as int),
            decreases self.algorithm_metas@.len() - i,
        {
            let id = self.algorithm_metas[i].0;
            let mut seen = false;
            let mut j: usize = 0;
            while j < i
                invariant
                    mv == metas_view(self.algorithm_metas@),
                    j <= i < self.algorithm_metas@.len(),
                    id == mv[i as int].0,
                    seen == (exists|b: int| 0 <= b < j && mv[b].0 == id),
                decreases i - j,
            {
                proof {
                    assert(mv[j as int].0 == self.algorithm_metas@[j as int].0);
                }
                if self.algorithm_metas[j].0 == id {
                    seen = true;
                }
                j = j + 1;
            }
            if !seen {
                let e = copy_epochs(self.algorithm_metas[i].1.as_slice());
                let ghost before = metas_view(out@);
                out.push((id, e));
                proof {
                    assert(metas_view(out@) =~= before.push(mv[i as int]));
                    lemma_listing_push(mv, before, i as int);
                }
            } else {
                proof {
                    lemma_listing_skip(mv, metas_view(out@), i as int);
                }
            }
            i = i + 1;
        }
        proof {
            let ov = metas_view(out@);
            assert forall|a: int| 0 <= a < out@.len() implies #[trigger] self.spec_metas().contains_key(
                out@[a].0,
            ) && self.spec_metas()[out@[a].0] == out@[a].1@ by {
                assert(ov[a] == (out@[a].0, out@[a].1@));
            }
            assert forall|id: u64| #[trigger] self.spec_metas().contains_key(id) implies exists|a: int|
                0 <= a < out@.len() && out@[a].0 == id by {
                let b = lemma_lookup_some_index(mv, id);
                assert(lookup(ov, mv[b].0) is Some);
                let a = lemma_lookup_some_index(ov, id);
                assert(ov[a].0 == out@[a].0);
            }
            assert forall|a: int, c: int| 0 <= a < c < out@.len() implies out@[a].0 != out@[c].0 by {
                assert(ov[a].0 == out@[a].0);
                assert(ov[c].0 == out@[c].0);
            }
        }
        Ok(out)
    }
}

/// `out` lists each key among the first `i` entries of `mv` once, with the
/// value the lookup gives it.
pub open spec fn listing_ok(mv: Seq<(u64, Seq<(u64, u64)>)>, out: Seq<(u64, Seq<(u64, u64)>)>, i: int) -> bool {
    &&& forall|a: int| 0 <= a < out.len() ==> lookup(mv, #[trigger] out[a].0) == Some(out[a].1)
    &&& forall|a: int| 0 <= a < out.len() ==> lookup(mv.take(i), #[trigger] out[a].0) is Some
    &&& forall|b: int| 0 <= b < i ==> lookup(out, #[trigger] mv[b].0) is Some
    &&& forall|a: int, c: int| 0 <= a < c < out.len() ==> out[a].0 != out[c].0
}

/// A successful lookup names an entry holding the key.
pub proof fn lemma_lookup_some_index<K, V>(v: Seq<(K, V)>, key: K) -> (j: int)
    requires
        lookup(v, key) is Some,
    ensures
        0 <= j < v.len(),
        v[j].0 == key,
    decreases v.len(),
{
    if v[0].0 == key {
        0
    } else {
        let j = lemma_lookup_some_index(v.skip(1), key);
        j + 1
    }
}

/// Listing a key not yet seen keeps the listing right.
proof fn lemma_listing_push(mv: Seq<(u64, Seq<(u64, u64)>)>, out: Seq<(u64, Seq<(u64, u64)>)>, i: int)
    requires
        0 <= i < mv.len(),
        listing_ok(mv, out, i),
        !(exists|b: int| 0 <= b < i && mv[b].0 == mv[i].0),
    ensures
        listing_ok(mv, out.push(mv[i]), i + 1),
{
    let id = mv[i].0;
    let o2 = out.push(mv[i]);
    assert(mv.take(i + 1) =~= mv.take(i).push(mv[i]));
    lemma_lookup_found(mv, i, id);
    assert forall|a: int| 0 <= a < o2.len() implies lookup(mv, #[trigger] o2[a].0) == Some(o2[a].1) by {
        if a < out.len() {
            assert(o2[a] == out[a]);
        }
    }
    assert forall|a: int| 0 <= a < o2.len() implies lookup(mv.take(i + 1), #[trigger] o2[a].0) is Some by {
        lemma_lookup_push(mv.take(i), mv[i], o2[a].0);
        if a < out.len() {
            assert(o2[a] == out[a]);
        }
    }
    assert forall|b: int| 0 <= b < i + 1 implies lookup(o2, #[trigger] mv[b].0) is Some by {
        lemma_lookup_push(out, mv[i], mv[b].0);
    }
    assert forall|a: int, c: int| 0 <= a < c < o2.len() implies o2[a].0 != o2[c].0 by {
        assert(o2[a] == out[a]);
        if c == out.len() {
            if out[a].0 == id {
                let b = lemma_lookup_some_index(mv.take(i), out[a].0);
                assert(mv[b].0 == id);
            }
        } else {
            assert(o2[c] == out[c]);
        }
    }
}

/// Skipping a key already listed keeps the listing right.
proof fn lemma_listing_skip(mv: Seq<(u64, Seq<(u64, u64)>)>, out: Seq<(u64, Seq<(u64, u64)>)>, i: int)
    requires
        0 <= i < mv.len(),
        listing_ok(mv, out, i),
        exists|b: int| 0 <= b < i && mv[b].0 == mv[i].0,
    ensures
        listing_ok(mv, out, i + 1),
{
    assert(mv.take(i + 1) =~= mv.take(i).push(mv[i]));
    assert forall|a: int| 0 <= a < out.len() implies lookup(mv.take(i + 1), #[trigger] out[a].0) is Some by {
        lemma_lookup_push(mv.take(i), mv[i], out[a].0);
    }
    let b2 = choose|b2: int| 0 <= b2 < i && mv[b2].0 == mv[i].0;
    assert(lookup(out, mv[b2].0) is Some);
}

/// A lookup that succeeds on a list with an entry keyed `key` at `j` means
/// some entry holds the key; an absent lookup rules out every entry.
pub proof fn lemma_lookup_found_some<K, V>(v: Seq<(K, V)>, j: int, key: K)
    requires
        0 <= j < v.len(),
        v[j].0 == key,
    ensures
        lookup(v, key) is Some,
    decreases j,
{
    if v[0].0 != key {
        lemma_lookup_found_some(v.skip(1), j - 1, key);
    }
}

/// Two entry lists with the same keys at each position find a key at the
/// same position.
pub proof fn lemma_lookup_parallel<K, V, W>(a: Seq<(K, V)>, b: Seq<(K, W)>, key: K) -> (i: int)
    requires
        a.len() == b.len(),
        forall|j: int| 0 <= j < a.len() ==> #[trigger] a[j].0 == b[j].0,
    ensures
        lookup(a, key) is None <==> lookup(b, key) is None,
        lookup(a, key) is Some ==> {
            &&& 0 <= i < a.len()
            &&& a[i].0 == key
            &&& forall|j: int| 0 <= j < i ==> a[j].0 != key
            &&& lookup(a, key) == Some(a[i].1)
            &&& lookup(b, key) == Some(b[i].1)
        },
    decreases a.len(),
{
    if a.len() == 0 {
        -1
    } else if a[0].0 == key {
        assert(b[0].0 == key);
        0
    } else {
        assert(b[0].0 == a[0].0);
        assert forall|j: int| 0 <= j < a.skip(1).len() implies #[trigger] a.skip(1)[j].0 == b.skip(1)[j].0 by {
            assert(a.skip(1)[j] == a[j + 1]);
            assert(b.skip(1)[j] == b[j + 1]);
        }
        let i = lemma_lookup_parallel(a.skip(1), b.skip(1), key);
        if lookup(a, key) is Some {
            assert forall|j: int| 0 <= j < i + 1 implies a[j].0 != key by {
                if j > 0 {
                    assert(a[j] == a.skip(1)[j - 1]);
                }
            }
            assert(a[i + 1] == a.skip(1)[i]);
            assert(b[i + 1] == b.skip(1)[i]);
        }
        i + 1
    }
}

} // verus!
