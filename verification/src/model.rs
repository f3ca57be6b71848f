//! The mathematical model of a log's digests: perfect subtrees over a
//! sequence of cells, the frontier peaks, and the fold of the peaks into the
//! member root.
use vstd::prelude::*;

use crate::hasher::{Hasher, digests_view};
use crate::mr::{all_null, nary_mr, spec_nary_mr};
use crate::topology::{frontier_spec, lemma_pow_positive, lemma_pow_succ, pow};

verus! {

/// The root of the perfect k-ary subtree of `height` whose leftmost cell is
/// `left`.
pub open spec fn perfect<H: Hasher>(
    h: H,
    cells: Seq<Seq<u8>>,
    left: nat,
    height: nat,
    k: nat,
) -> Seq<u8>
    decreases height, 1nat,
{
    if height == 0 {
        cells[left as int]
    } else {
        spec_nary_mr(h, perfect_children(h, cells, left, (height - 1) as nat, k))
    }
}

/// The `k` children, each of height `hc`, of the perfect subtree of height
/// `hc + 1` at `left`.
pub open spec fn perfect_children<H: Hasher>(
    h: H,
    cells: Seq<Seq<u8>>,
    left: nat,
    hc: nat,
    k: nat,
) -> Seq<Seq<u8>>
    decreases hc + 1, 0nat,
{
    Seq::new(k, |j: int| perfect(h, cells, (left + j * pow(k, hc)) as nat, hc, k))
}

/// The digests of the frontier peaks of `cells`.
pub open spec fn peaks<H: Hasher>(h: H, cells: Seq<Seq<u8>>, k: nat) -> Seq<Seq<u8>> {
    frontier_spec(cells.len(), k).map_values(|c: (nat, nat)| perfect(h, cells, c.0, c.1, k))
}

/// Fold frontier peaks into one root by repeatedly hashing the rightmost `k`.
pub open spec fn fold_frontier<H: Hasher>(h: H, peaks: Seq<Seq<u8>>, k: nat) -> Seq<u8>
    decreases peaks.len(),
{
    if k < 2 || peaks.len() <= k {
        spec_nary_mr(h, peaks)
    } else {
        let split = peaks.len() - k;
        fold_frontier(h, peaks.take(split).push(spec_nary_mr(h, peaks.skip(split))), k)
    }
}

/// The member root of a log whose cells are `cells`.
pub open spec fn member_root<H: Hasher>(h: H, cells: Seq<Seq<u8>>, k: nat) -> Seq<u8> {
    fold_frontier(h, peaks(h, cells, k), k)
}

/// A perfect subtree only reads the cells it spans.
pub proof fn lemma_perfect_agree<H: Hasher>(
    h: H,
    c1: Seq<Seq<u8>>,
    c2: Seq<Seq<u8>>,
    left: nat,
    height: nat,
    k: nat,
)
    requires
        k >= 1,
        forall|i: int| left <= i < left + pow(k, height) ==> c1[i] == c2[i],
    ensures
        perfect(h, c1, left, height, k) == perfect(h, c2, left, height, k),
    decreases height,
{
    lemma_pow_positive(k, height);
    if height > 0 {
        let hc = (height - 1) as nat;
        let p = pow(k, hc);
        lemma_pow_succ(k, hc);
        let s1 = perfect_children(h, c1, left, hc, k);
        let s2 = perfect_children(h, c2, left, hc, k);
        assert forall|j: int| 0 <= j < k implies #[trigger] s1[j] == s2[j] by {
            assert((j + 1) * p <= k * p) by (nonlinear_arith)
                requires
                    j + 1 <= k,
                    p >= 0,
            ;
            assert(j * p >= 0) by (nonlinear_arith)
                requires
                    j >= 0,
                    p >= 0,
            ;
            assert(left + j * p + p == left + (j + 1) * p) by (nonlinear_arith);
            lemma_perfect_agree(h, c1, c2, (left + j * p) as nat, hc, k);
        }
        assert(s1 =~= s2);
    }
}

/// Merging `k` adjacent perfect subtrees of height `j` gives the perfect
/// subtree of height `j + 1`.
pub proof fn lemma_perfect_merge<H: Hasher>(
    h: H,
    cells: Seq<Seq<u8>>,
    left: nat,
    j: nat,
    k: nat,
    children: Seq<Seq<u8>>,
)
    requires
        children.len() == k,
        forall|i: int|
            0 <= i < k ==> #[trigger] children[i] == perfect(
                h,
                cells,
                (left + i * pow(k, j)) as nat,
                j,
                k,
            ),
    ensures
        spec_nary_mr(h, children) == perfect(h, cells, left, j + 1, k),
{
    let s = perfect_children(h, cells, left, j, k);
    assert(children =~= s);
    assert(((j + 1) - 1) as nat == j);
}

/// A subtree over null cells only is null.
pub proof fn lemma_perfect_null<H: Hasher>(h: H, cells: Seq<Seq<u8>>, left: nat, height: nat, k: nat)
    requires
        k >= 2,
        forall|i: int| left <= i < left + pow(k, height) ==> cells[i] == h.spec_null(),
    ensures
        perfect(h, cells, left, height, k) == h.spec_null(),
    decreases height,
{
    lemma_pow_positive(k, height);
    if height > 0 {
        let hc = (height - 1) as nat;
        let p = pow(k, hc);
        lemma_pow_succ(k, hc);
        let s = perfect_children(h, cells, left, hc, k);
        assert forall|j: int| 0 <= j < k implies s[j] == h.spec_null() by {
            assert((j + 1) * p <= k * p) by (nonlinear_arith)
                requires
                    j + 1 <= k,
                    p >= 0,
            ;
            assert(j * p >= 0) by (nonlinear_arith)
                requires
                    j >= 0,
                    p >= 0,
            ;
            assert(left + j * p + p == left + (j + 1) * p) by (nonlinear_arith);
            lemma_perfect_null(h, cells, (left + j * p) as nat, hc, k);
        }
        assert(all_null(s, h.spec_null()));
    }
}

/// Fold a list of frontier peaks into the member root.
pub fn fold_peaks<H: Hasher>(hasher: &H, peaks: Vec<Vec<u8>>, k: u64) -> (root: Vec<u8>)
    requires
        k >= 2,
    ensures
        root@ == fold_frontier(*hasher, digests_view(peaks@), k as nat),
{
    let mut current = peaks;
    while (current.len() as u64) > k
        invariant
            k >= 2,
            fold_frontier(*hasher, digests_view(current@), k as nat) == fold_frontier(
                *hasher,
                digests_view(peaks@),
                k as nat,
            ),
        decreases current@.len(),
    {
        let split = current.len() - (k as usize);
        let ghost before = digests_view(current@);
        let right = current.split_off(split);
        let merged = nary_mr(hasher, right.as_slice());
        current.push(merged);
        proof {
            assert(digests_view(right@) =~= before.skip(split as int));
            assert(digests_view(current@) =~= before.take(split as int).push(
                spec_nary_mr(*hasher, before.skip(split as int)),
            ));
        }
    }
    nary_mr(hasher, current.as_slice())
}

} // verus!
