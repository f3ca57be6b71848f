//! SHA-256 hashers: the plain one, a tagged variant that prefixes a fixed
//! domain tag, and a byte-reversed variant, each a different algorithm over
//! the same digest function.
use sha2::Digest;
use vstd::prelude::*;

use crate::hasher::{Hasher, concat_bytes, concat_with_prefix, digests_view, reversed_bytes};

verus! {

/// The SHA-256 digest of `data`.
pub uninterp spec fn sha256_spec(data: Seq<u8>) -> Seq<u8>;

/// SHA-256 of `data`, computed by `sha2::Sha256::digest`. The contract
/// claims only that the result is the SHA-256 digest of `data` (named by
/// `sha256_spec`) and that a SHA-256 digest is 32 bytes long.
#[verifier::external_body]
fn sha256(data: &[u8]) -> (digest: Vec<u8>)
    ensures
        digest@ == sha256_spec(data@),
        digest@.len() == 32,
{
    sha2::Sha256::digest(data).to_vec()
}

/// The byte the null constant hashes.
pub open spec fn null_byte() -> Seq<u8> {
    seq![2u8]
}

/// The null constant's preimage.
fn null_bytes() -> (v: Vec<u8>)
    ensures
        v@ == null_byte(),
{
    let v: Vec<u8> = vec![2u8];
    proof {
        assert(v@ =~= null_byte());
    }
    v
}

/// The empty byte string.
fn no_bytes() -> (v: Vec<u8>)
    ensures
        v@ == Seq::<u8>::empty(),
{
    let v: Vec<u8> = Vec::new();
    proof {
        assert(v@ =~= Seq::<u8>::empty());
    }
    v
}

/// Plain SHA-256: a node hashes its children's bytes concatenated.
#[derive(Debug, Clone, Copy)]
pub struct Sha256Hasher;

impl Hasher for Sha256Hasher {
    open spec fn spec_leaf(&self, data: Seq<u8>) -> Seq<u8> {
        sha256_spec(data)
    }

    open spec fn spec_node(&self, children: Seq<Seq<u8>>) -> Seq<u8> {
        sha256_spec(children.flatten())
    }

    open spec fn spec_empty(&self) -> Seq<u8> {
        sha256_spec(Seq::empty())
    }

    open spec fn spec_null(&self) -> Seq<u8> {
        sha256_spec(null_byte())
    }

    open spec fn spec_hash(&self, data: Seq<u8>) -> Seq<u8> {
        sha256_spec(data)
    }

    fn leaf(&self, data: &[u8]) -> (digest: Vec<u8>) {
        sha256(data)
    }

    fn node(&self, children: &[Vec<u8>]) -> (digest: Vec<u8>) {
        let none = no_bytes();
        let buf = concat_with_prefix(none.as_slice(), children);
        proof {
            assert(buf@ =~= digests_view(children@).flatten());
        }
        sha256(buf.as_slice())
    }

    fn empty(&self) -> (digest: Vec<u8>) {
        let none = no_bytes();
        sha256(none.as_slice())
    }

    fn null(&self) -> (digest: Vec<u8>) {
        let b = null_bytes();
        sha256(b.as_slice())
    }

    fn hash(&self, data: &[u8]) -> (digest: Vec<u8>) {
        sha256(data)
    }
}

/// The domain tag of the tagged hasher: the bytes of `difftest/tagged`.
pub open spec fn tag() -> Seq<u8> {
    seq![100u8, 105u8, 102u8, 102u8, 116u8, 101u8, 115u8, 116u8, 47u8, 116u8, 97u8, 103u8, 103u8, 101u8, 100u8]
}

/// SHA-256 of the tag followed by `data`.
pub open spec fn tagged_spec(data: Seq<u8>) -> Seq<u8> {
    sha256_spec(tag() + data)
}

/// The tag bytes.
fn tag_bytes() -> (v: Vec<u8>)
    ensures
        v@ == tag(),
{
    let v: Vec<u8> = vec![100u8, 105u8, 102u8, 102u8, 116u8, 101u8, 115u8, 116u8, 47u8, 116u8, 97u8, 103u8, 103u8, 101u8, 100u8];
    proof {
        assert(v@ =~= tag());
    }
    v
}

/// SHA-256 of the tag followed by `data`.
fn tagged(data: &[u8]) -> (digest: Vec<u8>)
    ensures
        digest@ == tagged_spec(data@),
{
    let t = tag_bytes();
    let buf = concat_bytes(t.as_slice(), data);
    sha256(buf.as_slice())
}

/// SHA-256 with every preimage prefixed by a fixed domain tag.
#[derive(Debug, Clone, Copy)]
pub struct TaggedSha256Hasher;

impl Hasher for TaggedSha256Hasher {
    open spec fn spec_leaf(&self, data: Seq<u8>) -> Seq<u8> {
        tagged_spec(data)
    }

    open spec fn spec_node(&self, children: Seq<Seq<u8>>) -> Seq<u8> {
        tagged_spec(children.flatten())
    }

    open spec fn spec_empty(&self) -> Seq<u8> {
        tagged_spec(Seq::empty())
    }

    open spec fn spec_null(&self) -> Seq<u8> {
        tagged_spec(null_byte())
    }

    open spec fn spec_hash(&self, data: Seq<u8>) -> Seq<u8> {
        tagged_spec(data)
    }

    fn leaf(&self, data: &[u8]) -> (digest: Vec<u8>) {
        tagged(data)
    }

    fn node(&self, children: &[Vec<u8>]) -> (digest: Vec<u8>) {
        let none = no_bytes();
        let buf = concat_with_prefix(none.as_slice(), children);
        proof {
            assert(buf@ =~= digests_view(children@).flatten());
        }
        tagged(buf.as_slice())
    }

    fn empty(&self) -> (digest: Vec<u8>) {
        let none = no_bytes();
        tagged(none.as_slice())
    }

    fn null(&self) -> (digest: Vec<u8>) {
        let b = null_bytes();
        tagged(b.as_slice())
    }

    fn hash(&self, data: &[u8]) -> (digest: Vec<u8>) {
        tagged(data)
    }
}

/// The SHA-256 digest of `data` with its bytes reversed.
pub open spec fn reversed_spec(data: Seq<u8>) -> Seq<u8> {
    sha256_spec(data).reverse()
}

/// The SHA-256 digest of `data` with its bytes reversed.
fn reversed(data: &[u8]) -> (digest: Vec<u8>)
    ensures
        digest@ == reversed_spec(data@),
{
    reversed_bytes(sha256(data))
}

/// SHA-256 with the digest bytes reversed.
#[derive(Debug, Clone, Copy)]
pub struct RevSha256Hasher;

impl Hasher for RevSha256Hasher {
    open spec fn spec_leaf(&self, data: Seq<u8>) -> Seq<u8> {
        reversed_spec(data)
    }

    open spec fn spec_node(&self, children: Seq<Seq<u8>>) -> Seq<u8> {
        reversed_spec(children.flatten())
    }

    open spec fn spec_empty(&self) -> Seq<u8> {
        reversed_spec(Seq::empty())
    }

    open spec fn spec_null(&self) -> Seq<u8> {
        reversed_spec(null_byte())
    }

    open spec fn spec_hash(&self, data: Seq<u8>) -> Seq<u8> {
        reversed_spec(data)
    }

    fn leaf(&self, data: &[u8]) -> (digest: Vec<u8>) {
        reversed(data)
    }

    fn node(&self, children: &[Vec<u8>]) -> (digest: Vec<u8>) {
        let none = no_bytes();
        let buf = concat_with_prefix(none.as_slice(), children);
        proof {
            assert(buf@ =~= digests_view(children@).flatten());
        }
        reversed(buf.as_slice())
    }

    fn empty(&self) -> (digest: Vec<u8>) {
        let none = no_bytes();
        reversed(none.as_slice())
    }

    fn null(&self) -> (digest: Vec<u8>) {
        let b = null_bytes();
        reversed(b.as_slice())
    }

    fn hash(&self, data: &[u8]) -> (digest: Vec<u8>) {
        reversed(data)
    }
}

} // verus!
