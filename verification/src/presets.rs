//! The binary-arity preset and the domain-separating hasher adaptor.
use vstd::prelude::*;

use crate::LOG_ARITY;
use crate::hasher::{Hasher, concat_with_prefix, digests_view};
use crate::log::{Error, NaryMerkleLog, TreeConfig};
use crate::storage::Storage;

verus! {

/// The preset configuration: binary arity.
pub fn config() -> (c: TreeConfig)
    ensures
        c.arity == LOG_ARITY,
{
    TreeConfig { arity: LOG_ARITY }
}

/// The bytes hashed for the null constant.
pub open spec fn null_tag() -> Seq<u8> {
    seq![2u8, 110u8, 117u8, 108u8, 108u8]
}

/// A hasher that domain-separates leaves and nodes: a leaf hashes
/// `0x00 ‖ data`, a node hashes `0x01 ‖ children`, the empty root hashes the
/// empty string and the null constant hashes `0x02 ‖ "null"`, all with the
/// inner hasher's raw hash.
#[derive(Debug)]
pub struct PrefixedHasher<H: Hasher> {
    inner: H,
}

impl<H: Hasher> PrefixedHasher<H> {
    /// The inner hasher the adaptor hashes with.
    pub closed spec fn spec_inner(&self) -> H {
        self.inner
    }

    /// Wrap `inner`.
    pub fn new(inner: H) -> (p: Self)
        ensures
            p.spec_inner() == inner,
    {
        Self { inner }
    }
}

impl<H: Hasher> Hasher for PrefixedHasher<H> {
    open spec fn spec_leaf(&self, data: Seq<u8>) -> Seq<u8> {
        self.spec_inner().spec_hash(seq![0u8] + data)
    }

    open spec fn spec_node(&self, children: Seq<Seq<u8>>) -> Seq<u8> {
        self.spec_inner().spec_hash(seq![1u8] + children.flatten())
    }

    open spec fn spec_empty(&self) -> Seq<u8> {
        self.spec_inner().spec_hash(Seq::empty())
    }

    open spec fn spec_null(&self) -> Seq<u8> {
        self.spec_inner().spec_hash(null_tag())
    }

    open spec fn spec_hash(&self, data: Seq<u8>) -> Seq<u8> {
        self.spec_inner().spec_hash(data)
    }

    fn leaf(&self, data: &[u8]) -> (digest: Vec<u8>) {
        let mut buf: Vec<u8> = Vec::new();
        buf.push(0x00);
        let mut i: usize = 0;
        while i < data.len()
            invariant
                i <= data@.len(),
                buf@ == seq![0u8] + data@.take(i as int),
            decreases data@.len() - i,
        {
            buf.push(data[i]);
            proof {
                assert(buf@ =~= seq![0u8] + data@.take(i + 1));
            }
            i = i + 1;
        }
        proof {
            assert(data@.take(data@.len() as int) =~= data@);
        }
        self.inner.hash(buf.as_slice())
    }

    fn node(&self, children: &[Vec<u8>]) -> (digest: Vec<u8>) {
        let prefix: [u8; 1] = [0x01];
        let buf = concat_with_prefix(&prefix, children);
        proof {
            assert(prefix@ =~= seq![1u8]);
        }
        self.inner.hash(buf.as_slice())
    }

    fn empty(&self) -> (digest: Vec<u8>) {
        let buf: Vec<u8> = Vec::new();
        proof {
            assert(buf@ =~= Seq::<u8>::empty());
        }
        self.inner.hash(buf.as_slice())
    }

    fn null(&self) -> (digest: Vec<u8>) {
        let buf: Vec<u8> = vec![0x02u8, 110u8, 117u8, 108u8, 108u8];
        proof {
            assert(buf@ =~= null_tag());
        }
        self.inner.hash(buf.as_slice())
    }

    fn hash(&self, data: &[u8]) -> (digest: Vec<u8>) {
        self.inner.hash(data)
    }
}


/// Create a new, empty binary log over `storage` hashing with `hasher`
/// wrapped in `PrefixedHasher`, under algorithm 0 (`NaryMerkleLog::new`
/// with the preset configuration).
pub fn new<S: Storage, H: Hasher>(storage: S, hasher: H) -> (r: Result<
    NaryMerkleLog<S, PrefixedHasher<H>>,
    Error<S::Error>,
>)
    ensures
        r matches Err(e) ==> e is Storage,
        r matches Ok(log) ==> {
            &&& log.wf()
            &&& log.spec_count() == 0
            &&& log.spec_arity() == LOG_ARITY
            &&& log.spec_ids() == seq![0u64]
            &&& log.spec_alg(0) matches Some(v) && v.hasher.spec_inner() == hasher && v.epochs@
                == seq![(0u64, u64::MAX)]
        },
{
    NaryMerkleLog::new(storage, PrefixedHasher::new(hasher), config())
}

/// Register algorithm `alg_id` on a preset log, hashing with `hasher`
/// wrapped in `PrefixedHasher` (`NaryMerkleLog::add_algorithm`).
pub fn add_prefixed_algorithm<S: Storage, H: Hasher>(
    log: &mut NaryMerkleLog<S, PrefixedHasher<H>>,
    alg_id: u64,
    hasher: H,
) -> (r: Result<(), Error<S::Error>>)
    requires
        old(log).wf(),
    ensures
        final(log).wf(),
        old(log).spec_alg(alg_id) is Some <==> r matches Err(Error::DuplicateAlgorithm(_)),
        r matches Err(e) ==> e is DuplicateAlgorithm || e is Storage,
        r is Err ==> forall|id: u64| final(log).spec_alg(id) == old(log).spec_alg(id),
        r is Ok ==> {
            &&& final(log).spec_alg(alg_id) matches Some(v) && v.hasher.spec_inner() == hasher
                && v.epochs@ == seq![(old(log).spec_count(), u64::MAX)]
            &&& forall|id: u64| id != alg_id ==> final(log).spec_alg(id) == old(log).spec_alg(id)
        },
{
    log.add_algorithm(alg_id, PrefixedHasher::new(hasher))
}

} // verus!
