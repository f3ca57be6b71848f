//! The rebalanced tree shape over a dense tree of `size` positions: the
//! frontier's perfect subtrees folded right to left, `k` at a time, into one
//! tree whose leaves are the positions in order.
use vstd::prelude::*;

use crate::mountain::{SkeletonStep, digit_skeleton, digit_steps, skels_view};
use crate::topology::{
    find_peak, lemma_frontier_within, peak_of,
    checked_pow, coords_view, frontier_at, frontier_for_size, frontier_spec, lemma_frontier_unfold,
    lemma_pow_positive, lemma_pow_succ, lemma_pow_u64_height, max_height, pow,
};

verus! {

/// One node of a tree shape: a leaf at a position, or an inner node over
/// its children, left to right.
#[derive(Debug, PartialEq, Eq)]
pub enum ShapeNode {
    /// A leaf at a position.
    Leaf(u64),
    /// An inner node over its children, left to right.
    Inner(Vec<ShapeNode>),
}

/// `node` is a shape of depth at most `d` whose inner nodes all have
/// children.
pub open spec fn wf_shape(node: ShapeNode, d: nat) -> bool
    decreases d, 0nat,
{
    match node {
        ShapeNode::Leaf(_) => true,
        ShapeNode::Inner(ch) => d > 0 && ch.len() >= 1 && wf_list(ch@, (d - 1) as nat),
    }
}

/// Every shape of `ch` is well formed at depth `d`.
pub open spec fn wf_list(ch: Seq<ShapeNode>, d: nat) -> bool
    decreases d, ch.len(),
{
    if ch.len() == 0 {
        true
    } else {
        wf_list(ch.drop_last(), d) && wf_shape(ch.last(), d)
    }
}

/// Every inner node of `node`, a shape of depth at most `d`, has between
/// two and `k` children: no lone child, no node wider than the arity.
pub open spec fn fanout_ok(node: ShapeNode, k: nat, d: nat) -> bool
    decreases d, 0nat,
{
    match node {
        ShapeNode::Leaf(_) => true,
        ShapeNode::Inner(ch) => d > 0 && 2 <= ch.len() <= k && fanout_list(ch@, k, (d - 1) as nat),
    }
}

/// Every shape of `ch` keeps its fanout between two and `k` at depth `d`.
pub open spec fn fanout_list(ch: Seq<ShapeNode>, k: nat, d: nat) -> bool
    decreases d, ch.len(),
{
    if ch.len() == 0 {
        true
    } else {
        fanout_list(ch.drop_last(), k, d) && fanout_ok(ch.last(), k, d)
    }
}

/// Reading a shape one level deeper keeps its fanout.
proof fn lemma_fanout_deeper(node: ShapeNode, k: nat, d: nat)
    requires
        fanout_ok(node, k, d),
    ensures
        fanout_ok(node, k, d + 1),
    decreases d, 0nat,
{
    match node {
        ShapeNode::Leaf(_) => {},
        ShapeNode::Inner(ch) => {
            lemma_fanout_list_deeper(ch@, k, (d - 1) as nat);
        },
    }
}

/// Reading a list one level deeper keeps its fanout.
proof fn lemma_fanout_list_deeper(ch: Seq<ShapeNode>, k: nat, d: nat)
    requires
        fanout_list(ch, k, d),
    ensures
        fanout_list(ch, k, d + 1),
    decreases d, ch.len(),
{
    if ch.len() > 0 {
        lemma_fanout_list_deeper(ch.drop_last(), k, d);
        lemma_fanout_deeper(ch.last(), k, d);
    }
}

/// Reading a shape deeper keeps its fanout.
proof fn lemma_fanout_deeper_to(node: ShapeNode, k: nat, d: nat, e: nat)
    requires
        fanout_ok(node, k, d),
        d <= e,
    ensures
        fanout_ok(node, k, e),
    decreases e - d,
{
    if d < e {
        lemma_fanout_deeper(node, k, d);
        lemma_fanout_deeper_to(node, k, d + 1, e);
    }
}

/// The fanout of a concatenation is that of both parts.
proof fn lemma_fanout_append(a: Seq<ShapeNode>, b: Seq<ShapeNode>, k: nat, d: nat)
    ensures
        fanout_list(a + b, k, d) == (fanout_list(a, k, d) && fanout_list(b, k, d)),
    decreases b.len(),
{
    if b.len() == 0 {
        assert(a + b =~= a);
    } else {
        assert((a + b).drop_last() =~= a + b.drop_last());
        assert((a + b).last() == b.last());
        lemma_fanout_append(a, b.drop_last(), k, d);
    }
}

/// A one-shape list has that shape's fanout.
proof fn lemma_fanout_single(x: ShapeNode, k: nat, d: nat)
    ensures
        fanout_list(seq![x], k, d) == fanout_ok(x, k, d),
{
    let e = Seq::<ShapeNode>::empty();
    assert(seq![x].drop_last() =~= e);
    assert(fanout_list(e, k, d));
    assert(seq![x].last() == x);
}

/// `node` written out in preorder, read at depth `d`: a leaf as its position
/// plus one, an inner node as minus its number of children followed by its
/// children. The signs keep the reading unambiguous, so two shapes with one
/// signature are the same shape.
pub open spec fn sig(node: ShapeNode, d: nat) -> Seq<int>
    decreases d, 0nat,
{
    match node {
        ShapeNode::Leaf(p) => seq![p + 1int],
        ShapeNode::Inner(ch) => if d == 0 {
            seq![]
        } else {
            seq![-(ch@.len() as int)] + sig_list(ch@, (d - 1) as nat)
        },
    }
}

/// The signatures of the shapes of `ch`, one after the other.
pub open spec fn sig_list(ch: Seq<ShapeNode>, d: nat) -> Seq<int>
    decreases d, ch.len(),
{
    if ch.len() == 0 {
        seq![]
    } else {
        sig_list(ch.drop_last(), d) + sig(ch.last(), d)
    }
}

/// The signatures of the shapes of `ch`.
pub open spec fn sigs_of(ch: Seq<ShapeNode>, d: nat) -> Seq<Seq<int>> {
    ch.map_values(|n: ShapeNode| sig(n, d))
}

/// The sequences of `s`, one after the other.
pub open spec fn cat(s: Seq<Seq<int>>) -> Seq<int>
    decreases s.len(),
{
    if s.len() == 0 {
        seq![]
    } else {
        cat(s.drop_last()) + s.last()
    }
}

/// The signature of the perfect `k`-ary subtree of `height` whose leftmost
/// position is `left`.
pub open spec fn perfect_sig(left: nat, height: nat, k: nat) -> Seq<int>
    decreases height, 1nat, 0nat,
{
    if height == 0 {
        seq![left + 1int]
    } else {
        seq![-(k as int)] + perfect_kids_sig(left, (height - 1) as nat, k, k)
    }
}

/// The signatures of the first `c` children, each of height `hc`, of the
/// perfect subtree of height `hc + 1` at `left`, one after the other.
pub open spec fn perfect_kids_sig(left: nat, hc: nat, k: nat, c: nat) -> Seq<int>
    decreases hc + 1, 0nat, c,
{
    if c == 0 {
        seq![]
    } else {
        perfect_kids_sig(left, hc, k, (c - 1) as nat) + perfect_sig((left + (c - 1) * pow(k, hc)) as nat, hc, k)
    }
}

/// The signature of the fold of subtrees with signatures `s`: while more
/// than `k` remain the rightmost `k` become one inner node; then one left
/// is the root, and two or more are the children of the root.
pub open spec fn fold_sigs(s: Seq<Seq<int>>, k: nat) -> Seq<int>
    decreases s.len(),
{
    if s.len() == 0 {
        seq![]
    } else if s.len() == 1 {
        s[0]
    } else if s.len() <= k || k < 2 {
        seq![-(s.len() as int)] + cat(s)
    } else {
        let split = s.len() - k;
        fold_sigs(s.take(split).push(seq![-(k as int)] + cat(s.skip(split))), k)
    }
}

/// The signature of the canonical rebalanced shape of `size` positions at
/// arity `k`: the frontier's perfect subtrees folded right to left.
pub open spec fn canonical_sig(size: nat, k: nat) -> Seq<int> {
    fold_sigs(frontier_spec(size, k).map_values(|c: (nat, nat)| perfect_sig(c.0, c.1, k)), k)
}

/// The signature of a list is the signatures of its shapes one after the
/// other.
proof fn lemma_sig_list_cat(ch: Seq<ShapeNode>, d: nat)
    ensures
        sig_list(ch, d) == cat(sigs_of(ch, d)),
    decreases ch.len(),
{
    if ch.len() > 0 {
        lemma_sig_list_cat(ch.drop_last(), d);
        assert(sigs_of(ch, d).drop_last() =~= sigs_of(ch.drop_last(), d));
    }
}

/// Reading a well-formed shape one level deeper keeps its signature.
proof fn lemma_sig_deeper(node: ShapeNode, d: nat)
    requires
        wf_shape(node, d),
    ensures
        sig(node, d + 1) == sig(node, d),
    decreases d, 0nat,
{
    match node {
        ShapeNode::Leaf(_) => {},
        ShapeNode::Inner(ch) => {
            lemma_sig_list_deeper(ch@, (d - 1) as nat);
        },
    }
}

/// Reading a well-formed list one level deeper keeps its signature.
proof fn lemma_sig_list_deeper(ch: Seq<ShapeNode>, d: nat)
    requires
        wf_list(ch, d),
    ensures
        sig_list(ch, d + 1) == sig_list(ch, d),
        sigs_of(ch, d + 1) == sigs_of(ch, d),
    decreases d, ch.len(),
{
    if ch.len() > 0 {
        lemma_sig_list_deeper(ch.drop_last(), d);
        lemma_sig_deeper(ch.last(), d);
        assert(sigs_of(ch, d + 1).drop_last() =~= sigs_of(ch.drop_last(), d + 1));
        assert(sigs_of(ch, d).drop_last() =~= sigs_of(ch.drop_last(), d));
        assert forall|i: int| 0 <= i < ch.len() implies #[trigger] sigs_of(ch, d + 1)[i] == sigs_of(ch, d)[i] by {
            if i < ch.len() - 1 {
                assert(sigs_of(ch, d + 1)[i] == sigs_of(ch.drop_last(), d + 1)[i]);
                assert(sigs_of(ch, d)[i] == sigs_of(ch.drop_last(), d)[i]);
            } else {
                assert(ch[i] == ch.last());
            }
        }
        assert(sigs_of(ch, d + 1) =~= sigs_of(ch, d));
    }
}

/// Reading a well-formed shape deeper keeps its signature.
proof fn lemma_sig_deeper_to(node: ShapeNode, d: nat, e: nat)
    requires
        wf_shape(node, d),
        d <= e,
    ensures
        sig(node, e) == sig(node, d),
    decreases e - d,
{
    if d < e {
        lemma_sig_deeper(node, d);
        lemma_deeper(node, d);
        lemma_sig_deeper_to(node, d + 1, e);
    }
}

/// The leaf positions of `node` read at depth `d`, left to right.
pub open spec fn leaves(node: ShapeNode, d: nat) -> Seq<u64>
    decreases d, 0nat,
{
    match node {
        ShapeNode::Leaf(p) => seq![p],
        ShapeNode::Inner(ch) => if d == 0 {
            seq![]
        } else {
            leaves_list(ch@, (d - 1) as nat)
        },
    }
}

/// The leaf positions of the shapes of `ch`, left to right.
pub open spec fn leaves_list(ch: Seq<ShapeNode>, d: nat) -> Seq<u64>
    decreases d, ch.len(),
{
    if ch.len() == 0 {
        seq![]
    } else {
        leaves_list(ch.drop_last(), d) + leaves(ch.last(), d)
    }
}

/// The positions `lo, lo + 1, ..., lo + n - 1`.
pub open spec fn positions(lo: nat, n: nat) -> Seq<u64> {
    Seq::new(n, |i: int| (lo + i) as u64)
}

/// A well-formed shape has at least one leaf.
pub proof fn lemma_leaves_nonempty(node: ShapeNode, d: nat)
    requires
        wf_shape(node, d),
    ensures
        leaves(node, d).len() >= 1,
    decreases d, 0nat,
{
    match node {
        ShapeNode::Leaf(_) => {},
        ShapeNode::Inner(ch) => {
            lemma_list_nonempty(ch@, (d - 1) as nat);
        },
    }
}

/// A nonempty well-formed list has at least one leaf.
proof fn lemma_list_nonempty(ch: Seq<ShapeNode>, d: nat)
    requires
        ch.len() >= 1,
        wf_list(ch, d),
    ensures
        leaves_list(ch, d).len() >= 1,
    decreases d, ch.len(),
{
    lemma_leaves_nonempty(ch.last(), d);
}

/// Reading a well-formed shape one level deeper changes nothing.
pub proof fn lemma_deeper(node: ShapeNode, d: nat)
    requires
        wf_shape(node, d),
    ensures
        wf_shape(node, d + 1),
        leaves(node, d + 1) == leaves(node, d),
    decreases d, 0nat,
{
    match node {
        ShapeNode::Leaf(_) => {},
        ShapeNode::Inner(ch) => {
            lemma_list_deeper(ch@, (d - 1) as nat);
        },
    }
}

/// Reading a well-formed list one level deeper changes nothing.
proof fn lemma_list_deeper(ch: Seq<ShapeNode>, d: nat)
    requires
        wf_list(ch, d),
    ensures
        wf_list(ch, d + 1),
        leaves_list(ch, d + 1) == leaves_list(ch, d),
    decreases d, ch.len(),
{
    if ch.len() > 0 {
        lemma_list_deeper(ch.drop_last(), d);
        lemma_deeper(ch.last(), d);
    }
}

/// The leaves of a concatenation are the concatenation of the leaves.
proof fn lemma_list_append(a: Seq<ShapeNode>, b: Seq<ShapeNode>, d: nat)
    ensures
        leaves_list(a + b, d) == leaves_list(a, d) + leaves_list(b, d),
        wf_list(a + b, d) == (wf_list(a, d) && wf_list(b, d)),
    decreases b.len(),
{
    if b.len() == 0 {
        assert(a + b =~= a);
    } else {
        assert((a + b).drop_last() =~= a + b.drop_last());
        assert((a + b).last() == b.last());
        lemma_list_append(a, b.drop_last(), d);
    }
}

/// Every power of one is one.
proof fn lemma_pow_one(h: nat)
    ensures
        pow(1, h) == 1,
    decreases h,
{
    if h > 0 {
        lemma_pow_one((h - 1) as nat);
    }
}

/// The perfect k-ary shape of `height` levels whose leftmost leaf is at
/// `left`.
pub fn perfect(left: u64, height: u32, k: u64) -> (node: ShapeNode)
    requires
        k >= 1,
        left + pow(k as nat, height as nat) <= u64::MAX + 1,
    ensures
        wf_shape(node, height as nat),
        k >= 2 ==> fanout_ok(node, k as nat, height as nat),
        sig(node, height as nat) == perfect_sig(left as nat, height as nat, k as nat),
        leaves(node, height as nat) == positions(left as nat, pow(k as nat, height as nat)),
    decreases height,
{
    if height == 0 {
        proof {
            assert(leaves(ShapeNode::Leaf(left), 0) =~= positions(left as nat, pow(k as nat, 0)));
        }
        return ShapeNode::Leaf(left);
    }
    let ghost d = (height - 1) as nat;
    proof {
        lemma_pow_succ(k as nat, d);
        lemma_pow_positive(k as nat, d);
    }
    let child_span: u64 = match checked_pow(k, height - 1) {
        Some(c) => c,
        None => {
            proof {
                assert(pow(k as nat, d) * 1 <= pow(k as nat, height as nat)) by (nonlinear_arith)
                    requires
                        pow(k as nat, height as nat) == k * pow(k as nat, d),
                        k >= 1,
                ;
                if k == 1 {
                    lemma_pow_one(d);
                }
                assert(false) by (nonlinear_arith)
                    requires
                        pow(k as nat, d) > u64::MAX,
                        pow(k as nat, height as nat) == k * pow(k as nat, d),
                        pow(k as nat, height as nat) <= u64::MAX + 1,
                        k >= 1,
                        k == 1 ==> pow(k as nat, d) <= 1,
                ;
            }
            0
        },
    };
    let mut children: Vec<ShapeNode> = Vec::new();
    let mut c: u64 = 0;
    proof {
        assert(leaves_list(children@, d) =~= positions(left as nat, 0));
    }
    while c < k
        invariant
            k >= 1,
            c <= k,
            child_span == pow(k as nat, d),
            pow(k as nat, height as nat) == k * child_span,
            left + pow(k as nat, height as nat) <= u64::MAX + 1,
            d == height - 1,
            children@.len() == c,
            wf_list(children@, d),
            k >= 2 ==> fanout_list(children@, k as nat, d),
            sig_list(children@, d) == perfect_kids_sig(left as nat, d, k as nat, c as nat),
            leaves_list(children@, d) == positions(left as nat, (c * child_span) as nat),
        decreases k - c,
    {
        proof {
            assert(c * child_span + child_span <= k * child_span) by (nonlinear_arith)
                requires
                    c < k,
            ;
            lemma_pow_positive(k as nat, d);
        }
        let child = perfect(left + c * child_span, height - 1, k);
        let ghost before = children@;
        children.push(child);
        proof {
            assert(children@.drop_last() =~= before);
            assert(children@.last() == child);
            assert(k >= 2 ==> fanout_list(children@, k as nat, d));
            assert(sig_list(children@, d) == sig_list(before, d) + sig(child, d));
            assert(perfect_kids_sig(left as nat, d, k as nat, (c + 1) as nat) == perfect_kids_sig(
                left as nat,
                d,
                k as nat,
                c as nat,
            ) + perfect_sig((left + c * pow(k as nat, d)) as nat, d, k as nat));
            assert((c + 1) * child_span == c * child_span + child_span) by (nonlinear_arith);
            assert(leaves_list(children@, d) =~= positions(left as nat, ((c + 1) * child_span) as nat));
        }
        c = c + 1;
    }
    proof {
        assert(k * child_span == c * child_span);
    }
    ShapeNode::Inner(children)
}


/// Every shape of a well-formed list is well formed.
proof fn lemma_list_index(ch: Seq<ShapeNode>, d: nat, i: int)
    requires
        wf_list(ch, d),
        0 <= i < ch.len(),
    ensures
        wf_shape(ch[i], d),
    decreases ch.len(),
{
    if i < ch.len() - 1 {
        lemma_list_index(ch.drop_last(), d, i);
    }
}

/// The leaves of a one-shape list are that shape's leaves.
proof fn lemma_list_single(x: ShapeNode, d: nat)
    ensures
        leaves_list(seq![x], d) == leaves(x, d),
        wf_list(seq![x], d) == wf_shape(x, d),
{
    let e = Seq::<ShapeNode>::empty();
    assert(seq![x].drop_last() =~= e);
    assert(leaves_list(e, d) == Seq::<u64>::empty());
    assert(wf_list(e, d));
    assert(leaves_list(seq![x], d) =~= Seq::<u64>::empty() + leaves(x, d));
}

/// Reading a well-formed shape deeper changes nothing.
proof fn lemma_deeper_to(node: ShapeNode, d: nat, e: nat)
    requires
        wf_shape(node, d),
        d <= e,
    ensures
        wf_shape(node, e),
        leaves(node, e) == leaves(node, d),
    decreases e - d,
{
    if d < e {
        lemma_deeper(node, d);
        lemma_deeper_to(node, d + 1, e);
    }
}

/// The leftmost leaf of `node`, a shape of depth at most `d`.
pub fn leftmost(node: &ShapeNode, Ghost(d): Ghost<nat>) -> (pos: u64)
    requires
        wf_shape(*node, d),
    ensures
        pos == leaves(*node, d)[0],
{
    let mut cur = node;
    let ghost mut dd = d;
    loop
        invariant
            wf_shape(*cur, dd),
            leaves(*cur, dd)[0] == leaves(*node, d)[0],
        decreases dd,
    {
        match cur {
            ShapeNode::Leaf(pos) => {
                return *pos;
            },
            ShapeNode::Inner(children) => {
                proof {
                    let e = (dd - 1) as nat;
                    let ch = children@;
                    lemma_list_index(ch, e, 0);
                    lemma_leaves_nonempty(ch[0], e);
                    lemma_list_append(ch.take(1), ch.skip(1), e);
                    assert(ch.take(1) + ch.skip(1) =~= ch);
                    assert(ch.take(1) =~= seq![ch[0]]);
                    lemma_list_single(ch[0], e);
                    dd = e;
                }
                cur = &children[0];
            },
        }
    }
}

/// The rightmost leaf of `node`, a shape of depth at most `d`.
pub fn rightmost(node: &ShapeNode, Ghost(d): Ghost<nat>) -> (pos: u64)
    requires
        wf_shape(*node, d),
    ensures
        pos == leaves(*node, d).last(),
{
    let mut cur = node;
    let ghost mut dd = d;
    loop
        invariant
            wf_shape(*cur, dd),
            leaves(*cur, dd).last() == leaves(*node, d).last(),
        decreases dd,
    {
        match cur {
            ShapeNode::Leaf(pos) => {
                return *pos;
            },
            ShapeNode::Inner(children) => {
                proof {
                    let e = (dd - 1) as nat;
                    let ch = children@;
                    lemma_list_index(ch, e, ch.len() - 1);
                    lemma_leaves_nonempty(ch.last(), e);
                    dd = e;
                }
                cur = &children[children.len() - 1];
            },
        }
    }
}

/// Whether `index` lies between the leftmost and rightmost leaves of `node`.
pub fn covers(node: &ShapeNode, index: u64, Ghost(d): Ghost<nat>) -> (b: bool)
    requires
        wf_shape(*node, d),
    ensures
        b == (leaves(*node, d)[0] <= index && index <= leaves(*node, d).last()),
{
    leftmost(node, Ghost(d)) <= index && index <= rightmost(node, Ghost(d))
}

/// The positions the frontier subtrees `fs` span, left to right.
pub open spec fn frontier_positions(fs: Seq<(nat, nat)>, k: nat) -> Seq<u64>
    decreases fs.len(),
{
    if fs.len() == 0 {
        seq![]
    } else {
        frontier_positions(fs.drop_last(), k) + positions(fs.last().0, pow(k, fs.last().1))
    }
}

/// The frontier subtrees of `n` positions from `base` span exactly those
/// positions, in order.
proof fn lemma_frontier_positions(n: nat, k: nat, base: nat)
    requires
        k >= 2,
    ensures
        frontier_positions(frontier_at(n, k, base), k) == positions(base, n),
    decreases n,
{
    let fs = frontier_at(n, k, base);
    if n == 0 {
        assert(positions(base, 0) =~= Seq::<u64>::empty());
    } else {
        lemma_frontier_unfold(n, k, base);
        let h = max_height(n, k);
        let c = pow(k, h);
        lemma_pow_positive(k, h);
        let rest = frontier_at((n - c) as nat, k, base + c);
        lemma_frontier_positions((n - c) as nat, k, base + c);
        assert(fs == seq![(base, h)] + rest);
        lemma_positions_prepend(seq![(base, h)], rest, k);
        assert(frontier_positions(seq![(base, h)], k) =~= positions(base, c)) by {
            let e = Seq::<(nat, nat)>::empty();
            assert(seq![(base, h)].drop_last() =~= e);
            assert(frontier_positions(e, k) == Seq::<u64>::empty());
        }
        assert(positions(base, c) + positions(base + c, (n - c) as nat) =~= positions(base, n));
    }
}

/// The positions of a concatenation of frontier lists concatenate.
proof fn lemma_positions_prepend(a: Seq<(nat, nat)>, b: Seq<(nat, nat)>, k: nat)
    ensures
        frontier_positions(a + b, k) == frontier_positions(a, k) + frontier_positions(b, k),
    decreases b.len(),
{
    if b.len() == 0 {
        assert(a + b =~= a);
    } else {
        assert((a + b).drop_last() =~= a + b.drop_last());
        assert((a + b).last() == b.last());
        lemma_positions_prepend(a, b.drop_last(), k);
    }
}

/// The rebalanced shape of a dense tree of `size` positions at arity `k`:
/// the frontier's perfect subtrees folded right to left, `k` at a time.
/// `None` for an arity outside `2..=256` or an empty tree.
pub fn build(size: u64, k: u64) -> (shape: Option<ShapeNode>)
    ensures
        shape is None <==> (k < 2 || k > 256 || size == 0),
        shape matches Some(node) ==> exists|d: nat|
            wf_shape(node, d) && fanout_ok(node, k as nat, d) && sig(node, d) == canonical_sig(size as nat, k as nat)
                && #[trigger] leaves(node, d) == positions(0, size as nat),
{
    if k < 2 || k > 256 || size == 0 {
        return None;
    }
    let coords = frontier_for_size(size, k);
    let ghost fs = frontier_spec(size as nat, k as nat);
    proof {
        crate::topology::lemma_frontier_covers(size as nat, k as nat, 0, 0);
        crate::topology::lemma_frontier_within(size as nat, k as nat, 0);
        lemma_frontier_positions(size as nat, k as nat, 0);
    }
    if coords.len() == 0 {
        return None;
    }
    let ghost big: nat = 64;
    let ghost ps = fs.map_values(|c: (nat, nat)| perfect_sig(c.0, c.1, k as nat));
    let mut frontier: Vec<ShapeNode> = Vec::new();
    let mut i: usize = 0;
    proof {
        assert(fs.take(0) =~= Seq::<(nat, nat)>::empty());
    }
    while i < coords.len()
        invariant
            2 <= k <= 256,
            coords_view(coords@) == fs,
            fs == frontier_spec(size as nat, k as nat),
            forall|j: int| 0 <= j < fs.len() ==> #[trigger] fs[j].0 + pow(k as nat, fs[j].1) <= size,
            i <= coords@.len(),
            big == 64,
            frontier@.len() == i,
            wf_list(frontier@, big),
            fanout_list(frontier@, k as nat, big),
            leaves_list(frontier@, big) == frontier_positions(fs.take(i as int), k as nat),
            ps == fs.map_values(|c: (nat, nat)| perfect_sig(c.0, c.1, k as nat)),
            sigs_of(frontier@, big) == ps.take(i as int),
        decreases coords@.len() - i,
    {
        let (left, height) = coords[i];
        proof {
            assert(fs[i as int] == (left as nat, height as nat));
            assert(left + pow(k as nat, height as nat) <= size);
            lemma_pow_u64_height(k as nat, height as nat);
        }
        let node = perfect(left, height, k);
        proof {
            lemma_deeper_to(node, height as nat, big);
            lemma_fanout_deeper_to(node, k as nat, height as nat, big);
            lemma_sig_deeper_to(node, height as nat, big);
        }
        let ghost before = frontier@;
        frontier.push(node);
        proof {
            assert(frontier@.drop_last() =~= before);
            assert(frontier@.last() == node);
            assert(fs.take(i + 1).drop_last() =~= fs.take(i as int));
            assert(fs.take(i + 1).last() == fs[i as int]);
            assert(ps[i as int] == perfect_sig(left as nat, height as nat, k as nat));
            assert(sigs_of(frontier@, big) =~= ps.take(i + 1));
        }
        i = i + 1;
    }
    proof {
        assert(fs.take(i as int) =~= fs);
        assert(ps.take(i as int) =~= ps);
    }
    let ghost mut depth: nat = big;
    let k_usize = k as usize;
    while frontier.len() > k_usize
        invariant
            k_usize == k,
            2 <= k <= 256,
            frontier@.len() >= 1,
            wf_list(frontier@, depth),
            fanout_list(frontier@, k as nat, depth),
            leaves_list(frontier@, depth) == positions(0, size as nat),
            fold_sigs(sigs_of(frontier@, depth), k as nat) == canonical_sig(size as nat, k as nat),
        decreases frontier@.len(),
    {
        let split = frontier.len() - k_usize;
        let ghost whole = frontier@;
        let ghost sw = sigs_of(whole, depth);
        let group = frontier.split_off(split);
        proof {
            assert(whole =~= frontier@ + group@);
            lemma_list_append(frontier@, group@, depth);
            lemma_list_deeper(frontier@, depth);
            lemma_fanout_append(frontier@, group@, k as nat, depth);
            lemma_fanout_list_deeper(frontier@, k as nat, depth);
        }
        let ghost left_part = frontier@;
        let ghost group_v = group@;
        let inner = ShapeNode::Inner(group);
        let ghost node = inner;
        frontier.push(inner);
        proof {
            assert(frontier@ =~= left_part.push(node));
            assert(frontier@.drop_last() =~= left_part);
            assert(wf_shape(node, depth + 1));
            assert(fanout_ok(node, k as nat, depth + 1));
            lemma_fanout_append(left_part, seq![node], k as nat, depth + 1);
            lemma_fanout_single(node, k as nat, depth + 1);
            assert(leaves(node, depth + 1) == leaves_list(group_v, depth));
            lemma_sig_list_cat(group_v, depth);
            assert(sigs_of(group_v, depth) =~= sw.skip(split as int));
            assert(sigs_of(left_part, depth) =~= sw.take(split as int));
            lemma_sig_list_deeper(left_part, depth);
            assert(sig(node, depth + 1) == seq![-(k as int)] + cat(sw.skip(split as int)));
            assert(sigs_of(frontier@, depth + 1) =~= sigs_of(left_part, depth + 1).push(sig(node, depth + 1)));
            assert(fold_sigs(sw, k as nat) == fold_sigs(
                sw.take(split as int).push(seq![-(k as int)] + cat(sw.skip(split as int))),
                k as nat,
            ));
            depth = depth + 1;
        }
    }
    if frontier.len() == 1 {
        let ghost only = frontier@;
        let node = frontier.pop().unwrap();
        proof {
            assert(only =~= seq![node]);
            lemma_list_single(node, depth);
            lemma_fanout_single(node, k as nat, depth);
            assert(sigs_of(only, depth)[0] == sig(node, depth));
            assert(wf_shape(node, depth) && leaves(node, depth) == positions(0, size as nat));
        }
        Some(node)
    } else {
        let ghost list = frontier@;
        let node = ShapeNode::Inner(frontier);
        proof {
            assert(wf_shape(node, depth + 1) && leaves(node, depth + 1) == positions(0, size as nat));
            assert(fanout_ok(node, k as nat, depth + 1));
            lemma_sig_list_cat(list, depth);
            assert(sig(node, depth + 1) == seq![-(list.len() as int)] + cat(sigs_of(list, depth)));
        }
        Some(node)
    }
}


/// The path from frontier peak `j` up to the root when `m` peaks are folded
/// by grouping the rightmost `k` while more than `k` remain and then hashing
/// what is left, one `(position, sibling_count)` per inner node, peak first.
pub open spec fn group_skel(m: nat, j: nat, k: nat) -> Seq<(nat, nat)>
    decreases m,
{
    if k < 2 || j >= m || m <= 1 {
        seq![]
    } else if m <= k {
        seq![(j, (m - 1) as nat)]
    } else if j + k >= m {
        seq![((j + k - m) as nat, (k - 1) as nat)] + group_skel((m - k + 1) as nat, (m - k) as nat, k)
    } else {
        group_skel((m - k + 1) as nat, j, k)
    }
}

/// The inclusion skeleton of position `index` in the rebalanced shape of
/// `n` positions at arity `k`, leaf to root: the base-`k` digits inside its
/// perfect subtree, then the grouping steps from that subtree up to the
/// root. `None` where the shape is undefined or `index` is outside it.
pub open spec fn rebalanced_skel(k: nat, n: nat, index: nat) -> Option<Seq<(nat, nat)>> {
    if !(2 <= k <= 256) || n == 0 || index >= n {
        None
    } else {
        let fs = frontier_spec(n, k);
        let f = peak_of(fs, index, k);
        Some(digit_steps((index - fs[f].0) as nat, fs[f].1, k) + group_skel(fs.len(), f as nat, k))
    }
}

/// Append to `steps` the grouping steps of peak `j` among `m` peaks.
fn group_steps(m0: usize, j0: usize, k: usize, steps: &mut Vec<SkeletonStep>)
    requires
        2 <= k <= 256,
        j0 < m0,
    ensures
        skels_view(final(steps)@) == skels_view(old(steps)@) + group_skel(m0 as nat, j0 as nat, k as nat),
{
    let ghost base = skels_view(steps@);
    let mut m = m0;
    let mut j = j0;
    proof {
        assert(skels_view(steps@) =~= base + Seq::<(nat, nat)>::empty());
    }
    while m > k
        invariant
            2 <= k <= 256,
            j < m <= m0,
            skels_view(steps@) + group_skel(m as nat, j as nat, k as nat) == base + group_skel(
                m0 as nat,
                j0 as nat,
                k as nat,
            ),
        decreases m,
    {
        let ghost before = skels_view(steps@);
        let ghost rest = group_skel(m as nat, j as nat, k as nat);
        if j >= m - k {
            let step = SkeletonStep { position: j - (m - k), sibling_count: k - 1 };
            steps.push(step);
            proof {
                let st = ((j + k - m) as nat, (k - 1) as nat);
                assert(skels_view(steps@) =~= before.push(st));
                assert(rest == seq![st] + group_skel((m - k + 1) as nat, (m - k) as nat, k as nat));
                assert(before + rest =~= before.push(st) + group_skel((m - k + 1) as nat, (m - k) as nat, k as nat));
            }
            j = m - k;
        }
        m = m - k + 1;
    }
    if m >= 2 {
        let ghost before = skels_view(steps@);
        let step = SkeletonStep { position: j, sibling_count: m - 1 };
        steps.push(step);
        proof {
            assert(skels_view(steps@) =~= before.push((j as nat, (m - 1) as nat)));
            assert(group_skel(m as nat, j as nat, k as nat) == seq![(j as nat, (m - 1) as nat)]);
        }
    } else {
        proof {
            assert(group_skel(m as nat, j as nat, k as nat) =~= Seq::<(nat, nat)>::empty());
            assert(skels_view(steps@) =~= skels_view(steps@) + Seq::<(nat, nat)>::empty());
        }
    }
}

/// The inclusion skeleton of position `index` in the rebalanced shape of
/// `size` positions at arity `k` (`rebalanced_skel`), leaf to root; `None`
/// for an arity outside `2..=256`, an empty tree, or an index outside it.
#[verifier::rlimit(50)]
pub fn rebalanced_skeleton(size: u64, k: u64, index: u64) -> (sk: Option<Vec<SkeletonStep>>)
    ensures
        match sk {
            Some(v) => rebalanced_skel(k as nat, size as nat, index as nat) == Some(skels_view(v@)),
            None => rebalanced_skel(k as nat, size as nat, index as nat) is None,
        },
{
    if index >= size || k < 2 || k > 256 {
        return None;
    }
    let coords = frontier_for_size(size, k);
    proof {
        crate::topology::lemma_frontier_covers(size as nat, k as nat, 0, 0);
    }
    let ghost fs = frontier_spec(size as nat, k as nat);
    let f_idx = find_peak(&coords, index, size, k);
    let (left, height) = coords[f_idx];
    proof {
        assert(fs[f_idx as int] == (left as nat, height as nat));
        lemma_frontier_within(size as nat, k as nat, 0);
    }
    let mut steps = digit_skeleton(index - left, height, k);
    group_steps(coords.len(), f_idx, k as usize, &mut steps);
    Some(steps)
}


/// Bag a frontier's peaks into the member root under `hasher`: the
/// rebalanced fold, grouping the rightmost `k` while more remain, then
/// hashing what is left; no peak is the empty root.
pub fn rebalanced_bag<H: crate::hasher::Hasher>(hasher: &H, peaks: &[Vec<u8>], k: u64) -> (root: Vec<u8>)
    requires
        k >= 2,
    ensures
        root@ == crate::model::fold_frontier(*hasher, crate::hasher::digests_view(peaks@), k as nat),
{
    let mut v: Vec<Vec<u8>> = Vec::new();
    let mut i: usize = 0;
    while i < peaks.len()
        invariant
            i <= peaks@.len(),
            crate::hasher::digests_view(v@) == crate::hasher::digests_view(peaks@).take(i as int),
        decreases peaks@.len() - i,
    {
        let ghost before = v@;
        let c = crate::hasher::copy_bytes(&peaks[i]);
        v.push(c);
        proof {
            crate::hasher::lemma_digests_push(before, c);
            assert(crate::hasher::digests_view(v@) =~= crate::hasher::digests_view(peaks@).take(i + 1));
        }
        i = i + 1;
    }
    proof {
        assert(crate::hasher::digests_view(peaks@).take(peaks@.len() as int) =~= crate::hasher::digests_view(peaks@));
    }
    crate::model::fold_peaks(hasher, v, k)
}

} // verus!
