//! Merkle root and evaluation for unified n-ary trees: singleton promotion
//! and same-value collapse.
use vstd::prelude::*;

use crate::hasher::{Hasher, bytes_eq, copy_bytes, digests_view};

verus! {

/// Whether every digest in `children` is `value`.
pub open spec fn all_null(children: Seq<Seq<u8>>, value: Seq<u8>) -> bool {
    forall|i: int| 0 <= i < children.len() ==> children[i] == value
}

/// The Merkle root of an ordered sequence of child digests: the empty root
/// for no child, the child itself for one (promotion), that value when every
/// child has the same value (collapse; null is one such value), and the
/// hashed node otherwise.
pub open spec fn spec_nary_mr<H: Hasher>(h: H, children: Seq<Seq<u8>>) -> Seq<u8> {
    if children.len() == 0 {
        h.spec_empty()
    } else if children.len() == 1 {
        children[0]
    } else if all_null(children, children[0]) {
        children[0]
    } else {
        h.spec_node(children)
    }
}

/// Describes a subtree appended as a single logical unit: leaves hold raw
/// payload data, nodes are n-ary inner nodes.
#[derive(Debug, PartialEq, Eq)]
pub enum Subtree {
    /// A single leaf containing raw payload data.
    Leaf(Vec<u8>),
    /// An n-ary internal node with a list of children.
    Node(Vec<Subtree>),
}

/// The root digest of a structured subtree.
pub open spec fn spec_evaluate<H: Hasher>(h: H, t: Subtree) -> Seq<u8>
    decreases t,
{
    match t {
        Subtree::Leaf(data) => h.spec_leaf(data@),
        Subtree::Node(children) => spec_nary_mr(h, evaluate_seq(h, children@)),
    }
}

/// The root digests of a sequence of subtrees.
pub open spec fn evaluate_seq<H: Hasher>(h: H, ts: Seq<Subtree>) -> Seq<Seq<u8>>
    decreases ts,
{
    if ts.len() == 0 {
        seq![]
    } else {
        evaluate_seq(h, ts.drop_last()).push(spec_evaluate(h, ts.last()))
    }
}

/// Compute the Merkle root of an ordered sequence of child digests.
pub fn nary_mr<H: Hasher>(hasher: &H, children: &[Vec<u8>]) -> (root: Vec<u8>)
    ensures
        root@ == spec_nary_mr(*hasher, digests_view(children@)),
{
    let ghost cs = digests_view(children@);
    if children.len() == 0 {
        hasher.empty()
    } else if children.len() == 1 {
        copy_bytes(&children[0])
    } else {
        let first = copy_bytes(&children[0]);
        let mut all: bool = true;
        let mut i: usize = 0;
        while i < children.len()
            invariant
                cs == digests_view(children@),
                i <= children@.len(),
                children@.len() >= 2,
                first@ == cs[0],
                all == (forall|j: int| 0 <= j < i ==> cs[j] == first@),
            decreases children@.len() - i,
        {
            let same = bytes_eq(children[i].as_slice(), first.as_slice());
            proof {
                assert(cs[i as int] == children@[i as int]@);
                if all && same {
                    assert forall|j: int| 0 <= j < i + 1 implies cs[j] == first@ by {
                        if j < i {
                        } else {
                        }
                    }
                }
            }
            all = all && same;
            i = i + 1;
        }
        if all {
            first
        } else {
            hasher.node(children)
        }
    }
}

/// Recursively evaluate the root digest of a structured subtree.
pub fn evaluate<H: Hasher>(hasher: &H, subtree: &Subtree) -> (root: Vec<u8>)
    ensures
        root@ == spec_evaluate(*hasher, *subtree),
    decreases subtree,
{
    match subtree {
        Subtree::Leaf(data) => {
            let sl = data.as_slice();
            let d = hasher.leaf(sl);
            proof {
                assert(sl@ == data@);
                assert(spec_evaluate(*hasher, *subtree) == hasher.spec_leaf(data@));
                assert(d@ == spec_evaluate(*hasher, *subtree));
            }
            d
        },
        Subtree::Node(children) => {
            let mut child_hashes: Vec<Vec<u8>> = Vec::new();
            let mut i: usize = 0;
            while i < children.len()
                invariant
                    *subtree == Subtree::Node(*children),
                    i <= children@.len(),
                    child_hashes@.len() == i,
                    digests_view(child_hashes@) == evaluate_seq(*hasher, children@.take(i as int)),
                decreases children@.len() - i,
            {
                proof {
                    assert(decreases_to!(*subtree => subtree->Node_0));
                    assert(decreases_to!(subtree->Node_0 => subtree->Node_0@));
                    assert(decreases_to!(subtree->Node_0@ => subtree->Node_0@[i as int]));
                }
                let c = evaluate(hasher, &children[i]);
                let ghost old_hashes = child_hashes@;
                child_hashes.push(c);
                proof {
                    let t = children@.take(i + 1);
                    assert(t.drop_last() =~= children@.take(i as int));
                    assert(t.last() == children@[i as int]);
                    assert(digests_view(child_hashes@) =~= digests_view(old_hashes).push(c@));
                }
                i = i + 1;
            }
            let root = nary_mr(hasher, child_hashes.as_slice());
            proof {
                assert(children@.take(children@.len() as int) =~= children@);
            }
            root
        },
    }
}

} // verus!
