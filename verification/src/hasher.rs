//! The hash seam: the operations a Merkle log needs from one hash algorithm.
use vstd::prelude::*;

verus! {

/// The digests a list of byte vectors holds.
pub open spec fn digests_view(v: Seq<Vec<u8>>) -> Seq<Seq<u8>> {
    v.map_values(|d: Vec<u8>| d@)
}

/// Pushing a digest pushes its bytes.
pub proof fn lemma_digests_push(s: Seq<Vec<u8>>, x: Vec<u8>)
    ensures
        digests_view(s.push(x)) == digests_view(s).push(x@),
{
    assert(digests_view(s.push(x)) =~= digests_view(s).push(x@));
}

/// Hash operations required by the n-ary Merkle log.
///
/// Each operation is deterministic: the `spec_*` functions name what it
/// returns, so two calls on equal inputs give equal digests.
pub trait Hasher: Sized {
    /// The digest of a leaf payload.
    spec fn spec_leaf(&self, data: Seq<u8>) -> Seq<u8>;

    /// The digest of an inner node over its children, left to right.
    spec fn spec_node(&self, children: Seq<Seq<u8>>) -> Seq<u8>;

    /// The root of an empty tree.
    spec fn spec_empty(&self) -> Seq<u8>;

    /// The null constant, the value of a cell the algorithm does not cover.
    spec fn spec_null(&self) -> Seq<u8>;

    /// The raw hash of arbitrary data.
    spec fn spec_hash(&self, data: Seq<u8>) -> Seq<u8>;

    /// Hash leaf data.
    fn leaf(&self, data: &[u8]) -> (digest: Vec<u8>)
        ensures
            digest@ == self.spec_leaf(data@),
    ;

    /// Hash an inner node over `children` (the caller passes at least two).
    fn node(&self, children: &[Vec<u8>]) -> (digest: Vec<u8>)
        ensures
            digest@ == self.spec_node(digests_view(children@)),
    ;

    /// The root of an empty tree.
    fn empty(&self) -> (digest: Vec<u8>)
        ensures
            digest@ == self.spec_empty(),
    ;

    /// The null constant.
    fn null(&self) -> (digest: Vec<u8>)
        ensures
            digest@ == self.spec_null(),
    ;

    /// Raw hash of arbitrary data.
    fn hash(&self, data: &[u8]) -> (digest: Vec<u8>)
        ensures
            digest@ == self.spec_hash(data@),
    ;
}

/// A copy of a digest.
pub fn copy_bytes(v: &Vec<u8>) -> (r: Vec<u8>)
    ensures
        r@ == v@,
{
    let r = v.clone();
    proof {
        assert(r@ =~= v@);
    }
    r
}

/// A copy of a list of digests.
pub fn copy_digests(v: &Vec<Vec<u8>>) -> (r: Vec<Vec<u8>>)
    ensures
        digests_view(r@) == digests_view(v@),
        r@.len() == v@.len(),
{
    let mut r: Vec<Vec<u8>> = Vec::new();
    let mut i: usize = 0;
    while i < v.len()
        invariant
            i <= v@.len(),
            r@.len() == i,
            digests_view(r@) == digests_view(v@).take(i as int),
        decreases v@.len() - i,
    {
        let ghost before = r@;
        let c = copy_bytes(&v[i]);
        r.push(c);
        proof {
            lemma_digests_push(before, c);
            assert(digests_view(r@) =~= digests_view(v@).take(i + 1));
        }
        i = i + 1;
    }
    proof {
        assert(digests_view(v@).take(v@.len() as int) =~= digests_view(v@));
    }
    r
}

/// An owned copy of a byte slice.
pub fn copy_slice(s: &[u8]) -> (r: Vec<u8>)
    ensures
        r@ == s@,
{
    let mut r: Vec<u8> = Vec::new();
    let mut i: usize = 0;
    while i < s.len()
        invariant
            i <= s@.len(),
            r@ == s@.take(i as int),
        decreases s@.len() - i,
    {
        r.push(s[i]);
        proof {
            assert(r@ =~= s@.take(i + 1));
        }
        i = i + 1;
    }
    proof {
        assert(s@.take(s@.len() as int) =~= s@);
    }
    r
}

/// Byte-wise equality of two digests.
pub fn bytes_eq(a: &[u8], b: &[u8]) -> (eq: bool)
    ensures
        eq == (a@ == b@),
{
    if a.len() != b.len() {
        return false;
    }
    let mut i: usize = 0;
    while i < a.len()
        invariant
            a@.len() == b@.len(),
            i <= a@.len(),
            forall|j: int| 0 <= j < i ==> a@[j] == b@[j],
        decreases a@.len() - i,
    {
        if a[i] != b[i] {
            return false;
        }
        i = i + 1;
    }
    proof {
        assert(a@ =~= b@);
    }
    true
}


/// `prefix` followed by the bytes of every child, left to right.
pub fn concat_with_prefix(prefix: &[u8], children: &[Vec<u8>]) -> (buf: Vec<u8>)
    ensures
        buf@ == prefix@ + digests_view(children@).flatten(),
{
    let ghost cs = digests_view(children@);
    let mut buf = copy_slice(prefix);
    let mut i: usize = 0;
    proof {
        assert(cs.take(0).flatten() =~= Seq::<u8>::empty());
        assert(buf@ =~= prefix@ + cs.take(0).flatten());
    }
    while i < children.len()
        invariant
            cs == digests_view(children@),
            i <= children@.len(),
            buf@ == prefix@ + cs.take(i as int).flatten(),
        decreases children@.len() - i,
    {
        let child = &children[i];
        let ghost before = buf@;
        let mut j: usize = 0;
        while j < child.len()
            invariant
                j <= child@.len(),
                buf@ == before + child@.take(j as int),
            decreases child@.len() - j,
        {
            buf.push(child[j]);
            proof {
                assert(buf@ =~= before + child@.take(j + 1));
            }
            j = j + 1;
        }
        proof {
            assert(child@.take(child@.len() as int) =~= child@);
            assert(cs.take(i + 1) =~= cs.take(i as int).push(cs[i as int]));
            cs.take(i as int).lemma_flatten_push(cs[i as int]);
            assert(cs[i as int] == child@);
            assert(buf@ =~= prefix@ + cs.take(i + 1).flatten());
        }
        i = i + 1;
    }
    proof {
        assert(cs.take(children@.len() as int) =~= cs);
    }
    buf
}

/// The bytes of `v` in reverse order.
pub fn reversed_bytes(v: Vec<u8>) -> (r: Vec<u8>)
    ensures
        r@ == v@.reverse(),
{
    let mut r: Vec<u8> = Vec::new();
    let mut i = v.len();
    while i > 0
        invariant
            i <= v@.len(),
            r@ == v@.skip(i as int).reverse(),
        decreases i,
    {
        i = i - 1;
        r.push(v[i]);
        proof {
            assert(v@.skip(i as int) =~= seq![v@[i as int]] + v@.skip(i + 1));
            assert(v@.skip(i as int).reverse() =~= v@.skip(i + 1).reverse().push(v@[i as int]));
        }
    }
    proof {
        assert(v@.skip(0) =~= v@);
    }
    r
}


/// The bytes of `a` followed by those of `b`.
pub fn concat_bytes(a: &[u8], b: &[u8]) -> (r: Vec<u8>)
    ensures
        r@ == a@ + b@,
{
    let mut r = copy_slice(a);
    let mut i: usize = 0;
    while i < b.len()
        invariant
            i <= b@.len(),
            r@ == a@ + b@.take(i as int),
        decreases b@.len() - i,
    {
        r.push(b[i]);
        proof {
            assert(r@ =~= a@ + b@.take(i + 1));
        }
        i = i + 1;
    }
    proof {
        assert(b@.take(b@.len() as int) =~= b@);
    }
    r
}

} // verus!
