//! Log topology: the base-k frontier decomposition of a log of `n` cells and
//! the carry schedule that maintains it under appends.
use vstd::prelude::*;

verus! {

/// `k` raised to the power `h`.
pub open spec fn pow(k: nat, h: nat) -> nat
    decreases h,
{
    if h == 0 {
        1
    } else {
        k * pow(k, (h - 1) as nat)
    }
}

/// The largest height `h` with `k^h <= n` (0 when `n < k`).
pub open spec fn max_height(n: nat, k: nat) -> nat
    decreases n,
{
    if k < 2 || n < k {
        0
    } else {
        proof {
            vstd::arithmetic::div_mod::lemma_div_is_strictly_smaller(n as int, k as int);
        }
        1 + max_height(n / k, k)
    }
}

/// The frontier of a log of `n` cells whose first cell sits at `base`: the
/// left-to-right list of perfect k-ary subtrees `(left, height)`, each the
/// largest that still fits in what remains.
pub open spec fn frontier_at(n: nat, k: nat, base: nat) -> Seq<(nat, nat)>
    decreases n,
{
    if n == 0 || k < 2 {
        seq![]
    } else {
        let h = max_height(n, k);
        let c = pow(k, h);
        if c == 0 || c > n {
            seq![]
        } else {
            seq![(base, h)] + frontier_at((n - c) as nat, k, base + c)
        }
    }
}

/// The frontier of a log of `n` cells.
pub open spec fn frontier_spec(n: nat, k: nat) -> Seq<(nat, nat)> {
    frontier_at(n, k, 0)
}

/// Number of times `k` divides `m` (for `m >= 1`).
pub open spec fn trailing_count(m: nat, k: nat) -> nat
    decreases m,
{
    if k < 2 || m == 0 || m % k != 0 {
        0
    } else {
        proof {
            vstd::arithmetic::div_mod::lemma_div_is_strictly_smaller(m as int, k as int);
        }
        1 + trailing_count(m / k, k)
    }
}

/// `d` consecutive subtrees of height `j`, the first at `base`.
pub open spec fn const_run(base: nat, d: nat, j: nat, k: nat) -> Seq<(nat, nat)> {
    Seq::new(d, |i: int| ((base + i * pow(k, j)) as nat, j))
}

pub proof fn lemma_pow_positive(k: nat, h: nat)
    requires
        k >= 1,
    ensures
        pow(k, h) >= 1,
    decreases h,
{
    if h > 0 {
        lemma_pow_positive(k, (h - 1) as nat);
        assert(k * pow(k, (h - 1) as nat) >= 1) by (nonlinear_arith)
            requires
                k >= 1,
                pow(k, (h - 1) as nat) >= 1,
        ;
    }
}

pub proof fn lemma_pow_succ(k: nat, h: nat)
    ensures
        pow(k, h + 1) == k * pow(k, h),
{
    assert(pow(k, h + 1) == k * pow(k, ((h + 1) - 1) as nat));
}

pub proof fn lemma_pow_adds(k: nat, a: nat, b: nat)
    ensures
        pow(k, a + b) == pow(k, a) * pow(k, b),
    decreases a,
{
    if a == 0 {
        assert(pow(k, b) == 1 * pow(k, b));
    } else {
        lemma_pow_adds(k, (a - 1) as nat, b);
        lemma_pow_succ(k, ((a - 1) + b) as nat);
        lemma_pow_succ(k, (a - 1) as nat);
        let pa = pow(k, (a - 1) as nat);
        let pb = pow(k, b);
        assert(k * (pa * pb) == (k * pa) * pb) by (nonlinear_arith);
        assert((a - 1 + b) + 1 == a + b);
    }
}

pub proof fn lemma_pow_monotone(k: nat, a: nat, b: nat)
    requires
        k >= 1,
        a <= b,
    ensures
        pow(k, a) <= pow(k, b),
    decreases b,
{
    if a < b {
        lemma_pow_monotone(k, a, (b - 1) as nat);
        lemma_pow_positive(k, (b - 1) as nat);
        lemma_pow_succ(k, (b - 1) as nat);
        let p = pow(k, (b - 1) as nat);
        assert(p <= k * p) by (nonlinear_arith)
            requires
                k >= 1,
                p >= 1,
        ;
    }
}

pub proof fn lemma_pow_strict(k: nat, a: nat, b: nat)
    requires
        k >= 2,
        a < b,
    ensures
        pow(k, a) < pow(k, b),
    decreases b,
{
    lemma_pow_monotone(k, a, (b - 1) as nat);
    lemma_pow_positive(k, (b - 1) as nat);
    lemma_pow_succ(k, (b - 1) as nat);
    let p = pow(k, (b - 1) as nat);
    assert(p < k * p) by (nonlinear_arith)
        requires
            k >= 2,
            p >= 1,
    ;
}

/// The height `max_height` picks is the one whose power brackets `n`.
pub proof fn lemma_max_height_bounds(n: nat, k: nat)
    requires
        k >= 2,
        n >= 1,
    ensures
        pow(k, max_height(n, k)) <= n,
        n < pow(k, max_height(n, k) + 1),
    decreases n,
{
    if n < k {
        assert(pow(k, 0) == 1);
        lemma_pow_succ(k, 0);
    } else {
        let q = n / k;
        assert(q >= 1 && q < n) by (nonlinear_arith)
            requires
                k >= 2,
                n >= k,
                q == n / k,
        ;
        lemma_max_height_bounds(q, k);
        let h = max_height(q, k);
        assert(max_height(n, k) == 1 + h);
        lemma_pow_succ(k, h);
        lemma_pow_succ(k, h + 1);
        let p = pow(k, h);
        let p1 = pow(k, h + 1);
        assert(k * p <= n) by (nonlinear_arith)
            requires
                p <= q,
                q == n / k,
                k >= 2,
        ;
        assert(n < k * p1) by (nonlinear_arith)
            requires
                q < p1,
                q == n / k,
                k >= 2,
        ;
    }
}

/// Any height whose power brackets `n` is `max_height(n)`.
pub proof fn lemma_max_height_unique(n: nat, k: nat, h: nat)
    requires
        k >= 2,
        pow(k, h) <= n,
        n < pow(k, h + 1),
    ensures
        max_height(n, k) == h,
{
    lemma_pow_positive(k, h);
    lemma_max_height_bounds(n, k);
    let m = max_height(n, k);
    if m < h {
        lemma_pow_monotone(k, m + 1, h);
    } else if m > h {
        lemma_pow_monotone(k, h + 1, m);
    }
}

/// Unfolding the frontier by its first (tallest) subtree.
pub proof fn lemma_frontier_unfold(n: nat, k: nat, base: nat)
    requires
        k >= 2,
        n >= 1,
    ensures
        pow(k, max_height(n, k)) <= n,
        frontier_at(n, k, base) == seq![(base, max_height(n, k))] + frontier_at(
            (n - pow(k, max_height(n, k))) as nat,
            k,
            base + pow(k, max_height(n, k)),
        ),
{
    lemma_max_height_bounds(n, k);
    lemma_pow_positive(k, max_height(n, k));
}

/// `d < k` subtrees of height `j` form their own frontier.
pub proof fn lemma_frontier_const(base: nat, d: nat, j: nat, k: nat)
    requires
        k >= 2,
        d < k,
    ensures
        frontier_at(d * pow(k, j), k, base) == const_run(base, d, j, k),
    decreases d,
{
    let c = pow(k, j);
    lemma_pow_positive(k, j);
    if d == 0 {
        assert(0 * c == 0);
        assert(frontier_at(0, k, base) =~= const_run(base, 0, j, k));
    } else {
        let n = d * c;
        lemma_pow_succ(k, j);
        assert(c <= n && n < k * c) by (nonlinear_arith)
            requires
                1 <= d < k,
                c >= 1,
                n == d * c,
        ;
        lemma_max_height_unique(n, k, j);
        lemma_frontier_unfold(n, k, base);
        assert((d - 1) * c == n - c) by (nonlinear_arith)
            requires
                n == d * c,
                d >= 1,
        ;
        lemma_frontier_const(base + c, (d - 1) as nat, j, k);
        let rest = const_run(base + c, (d - 1) as nat, j, k);
        assert forall|i: int| 0 <= i < d implies #[trigger] const_run(base, d, j, k)[i] == (
        seq![(base, j)] + rest)[i] by {
            if i > 0 {
                assert(base + c + (i - 1) * c == base + i * c) by (nonlinear_arith);
            }
        }
        assert(const_run(base, d, j, k) =~= seq![(base, j)] + rest);
    }
}

/// A frontier splits at any boundary aligned to a power larger than the tail.
pub proof fn lemma_frontier_split(a: nat, e: nat, b: nat, base: nat, k: nat)
    requires
        k >= 2,
        b < pow(k, e),
    ensures
        frontier_at(a * pow(k, e) + b, k, base) == frontier_at(a * pow(k, e), k, base)
            + frontier_at(b, k, base + a * pow(k, e)),
    decreases a,
{
    let pe = pow(k, e);
    lemma_pow_positive(k, e);
    let big = a * pe;
    if a == 0 {
        assert(0 * pe == 0);
        assert(frontier_at(0, k, base) =~= Seq::<(nat, nat)>::empty());
        assert(frontier_at(b, k, base) =~= frontier_at(0, k, base) + frontier_at(b, k, base));
    } else {
        assert(big >= pe) by (nonlinear_arith)
            requires
                a >= 1,
                big == a * pe,
        ;
        let hh = max_height(big, k);
        lemma_max_height_bounds(big, k);
        let c = pow(k, hh);
        // hh >= e because k^e <= big
        if hh < e {
            lemma_pow_monotone(k, hh + 1, e);
        }
        let d = (hh - e) as nat;
        lemma_pow_adds(k, d, e);
        assert(c == pow(k, d) * pe);
        lemma_pow_adds(k, d + 1, e);
        lemma_pow_succ(k, hh);
        assert(pow(k, hh + 1) == pow(k, d + 1) * pe) by {
            assert(hh + 1 == (d + 1) + e);
        }
        let pd1 = pow(k, d + 1);
        let pd = pow(k, d);
        // a < k^(d+1) since big < k^(hh+1)
        assert(a < pd1) by (nonlinear_arith)
            requires
                a * pe < pd1 * pe,
                pe >= 1,
        ;
        assert(big + b < pow(k, hh + 1)) by (nonlinear_arith)
            requires
                a + 1 <= pd1,
                big == a * pe,
                b < pe,
                pow(k, hh + 1) == pd1 * pe,
        ;
        lemma_max_height_unique(big + b, k, hh);
        lemma_frontier_unfold(big + b, k, base);
        lemma_frontier_unfold(big, k, base);
        // recurse on a - pd
        lemma_pow_positive(k, d);
        assert(pd <= a) by (nonlinear_arith)
            requires
                pd * pe <= a * pe,
                pe >= 1,
        ;
        let a2 = (a - pd) as nat;
        assert(a2 * pe == big - c) by (nonlinear_arith)
            requires
                a2 == a - pd,
                big == a * pe,
                c == pd * pe,
        ;
        lemma_frontier_split(a2, e, b, base + c, k);
        assert(big + b - c == a2 * pe + b);
        assert(base + c + a2 * pe == base + big);
        let head = seq![(base, hh)];
        let x = frontier_at(a2 * pe, k, base + c);
        let y = frontier_at(b, k, base + big);
        assert(head + (x + y) =~= (head + x) + y);
    }
}

/// `m` decomposes as `y * k^t` with `y` not divisible by `k`, where
/// `t = trailing_count(m)`.
pub proof fn lemma_trailing_decomp(m: nat, k: nat) -> (y: nat)
    requires
        k >= 2,
        m >= 1,
    ensures
        m == y * pow(k, trailing_count(m, k)),
        y % k != 0,
        y >= 1,
    decreases m,
{
    if m % k != 0 {
        assert(m == m * 1);
        m
    } else {
        let q = m / k;
        assert(m == k * q && q >= 1 && q < m) by (nonlinear_arith)
            requires
                m % k == 0,
                q == m / k,
                k >= 2,
                m >= 1,
        ;
        let y = lemma_trailing_decomp(q, k);
        let t = trailing_count(q, k);
        assert(trailing_count(m, k) == t + 1);
        lemma_pow_succ(k, t);
        let p = pow(k, t);
        assert(m == y * (k * p)) by (nonlinear_arith)
            requires
                m == k * q,
                q == y * p,
        ;
        y
    }
}

/// The state of the frontier after `j` of the `r` merges that follow an
/// append at position `n`: the frontier of `n + 1 - k^j` plus the freshly
/// merged subtree of height `j`.
pub open spec fn carry_state(n: nat, j: nat, k: nat) -> Seq<(nat, nat)> {
    frontier_spec((n + 1 - pow(k, j)) as nat, k).push(((n + 1 - pow(k, j)) as nat, j))
}

/// Before each merge of the carry, the frontier's last `k` subtrees are the
/// `k` height-`j` children of the node being formed, and merging them gives
/// the next state; after all merges the state is the frontier of `n + 1`.
pub proof fn lemma_carry_step(n: nat, j: nat, k: nat)
    requires
        k >= 2,
        j < trailing_count(n + 1, k),
    ensures
        pow(k, j + 1) <= n + 1,
        carry_state(n, j, k).len() >= k,
        ({
            let s = carry_state(n, j, k);
            let l = s.len();
            &&& forall|i: int|
                0 <= i < k ==> #[trigger] s[l - k + i] == (((n + 1 - pow(k, j + 1)) + i * pow(
                    k,
                    j,
                )) as nat, j)
            &&& s.take(l - k).push(((n + 1 - pow(k, j + 1)) as nat, j + 1)) == carry_state(
                n,
                j + 1,
                k,
            )
        }),
{
    let r = trailing_count(n + 1, k);
    let y = lemma_trailing_decomp(n + 1, k);
    let pj = pow(k, j);
    let pj1 = pow(k, j + 1);
    lemma_pow_positive(k, j);
    lemma_pow_succ(k, j);
    let rj = (r - (j + 1)) as nat;
    lemma_pow_adds(k, rj, j + 1);
    assert(r == rj + (j + 1));
    let prj = pow(k, rj);
    lemma_pow_positive(k, rj);
    // n + 1 = y * prj * pj1
    assert(n + 1 == (y * prj) * pj1) by (nonlinear_arith)
        requires
            n + 1 == y * pow(k, r),
            pow(k, r) == prj * pj1,
    ;
    let w = (y * prj) as nat;
    assert(w >= 1) by (nonlinear_arith)
        requires
            y >= 1,
            prj >= 1,
            w == y * prj,
    ;
    assert(pj1 <= n + 1) by (nonlinear_arith)
        requires
            n + 1 == w * pj1,
            w >= 1,
    ;
    // x = n + 1 - k^j = (w*k - 1) * k^j ; A = n + 1 - k^(j+1) = (w - 1) * k * k^j
    let a = (w - 1) as nat;
    assert(n + 1 - pj1 == a * pj1) by (nonlinear_arith)
        requires
            n + 1 == w * pj1,
            a == w - 1,
    ;
    assert(n + 1 - pj == a * pj1 + (k - 1) * pj) by (nonlinear_arith)
        requires
            n + 1 == w * pj1,
            a == w - 1,
            pj1 == k * pj,
    ;
    assert((k - 1) * pj < pj1) by (nonlinear_arith)
        requires
            pj1 == k * pj,
            pj >= 1,
    ;
    lemma_frontier_split(a, j + 1, ((k - 1) * pj) as nat, 0, k);
    lemma_frontier_const((a * pj1) as nat, (k - 1) as nat, j, k);
    let fa = frontier_at(a * pj1, k, 0);
    let run = const_run((a * pj1) as nat, (k - 1) as nat, j, k);
    assert(frontier_spec((n + 1 - pj) as nat, k) == fa + run);
    let s = carry_state(n, j, k);
    assert(s =~= (fa + run).push(((n + 1 - pj) as nat, j)));
    let l = s.len();
    assert(l == fa.len() + k);
    assert forall|i: int| 0 <= i < k implies #[trigger] s[l - k + i] == (((n + 1 - pj1) + i * pj)
        as nat, j) by {
        if i < k - 1 {
            assert(s[l - k + i] == run[i]);
        } else {
            assert(s[l - k + i] == ((n + 1 - pj) as nat, j));
            assert(n + 1 - pj == (n + 1 - pj1) + (k - 1) * pj) by (nonlinear_arith)
                requires
                    pj1 == k * pj,
                    pj1 <= n + 1,
            ;
        }
    }
    assert(s.take(l - k) =~= fa);
    assert(frontier_spec((n + 1 - pow(k, j + 1)) as nat, k) == fa);
}

/// After the last merge the carried state is exactly the frontier of `n + 1`.
pub proof fn lemma_carry_done(n: nat, k: nat)
    requires
        k >= 2,
    ensures
        pow(k, trailing_count(n + 1, k)) <= n + 1,
        carry_state(n, trailing_count(n + 1, k), k) == frontier_spec(n + 1, k),
{
    let r = trailing_count(n + 1, k);
    let y = lemma_trailing_decomp(n + 1, k);
    let pr = pow(k, r);
    lemma_pow_positive(k, r);
    lemma_pow_succ(k, r);
    let ym1 = (y - 1) as nat;
    let q = ym1 / k;
    let d = ym1 % k;
    assert(y - 1 == q * k + d && d < k) by (nonlinear_arith)
        requires
            y >= 1,
            q == ym1 / k,
            d == ym1 % k,
            ym1 == y - 1,
            k >= 2,
    ;
    // y % k != 0 so d + 1 < k
    assert(d + 1 < k) by (nonlinear_arith)
        requires
            y - 1 == q * k + d,
            d < k,
            y % k != 0,
            k >= 2,
    ;
    let pr1 = pow(k, r + 1);
    assert(n + 1 == q * pr1 + (d + 1) * pr) by (nonlinear_arith)
        requires
            n + 1 == y * pr,
            y - 1 == q * k + d,
            pr1 == k * pr,
    ;
    assert(n + 1 - pr == q * pr1 + d * pr) by (nonlinear_arith)
        requires
            n + 1 == q * pr1 + (d + 1) * pr,
    ;
    assert(pr <= n + 1) by (nonlinear_arith)
        requires
            n + 1 == y * pr,
            y >= 1,
    ;
    assert((d + 1) * pr < pr1 && d * pr < pr1) by (nonlinear_arith)
        requires
            d + 1 < k,
            pr1 == k * pr,
            pr >= 1,
    ;
    lemma_frontier_split(q, r + 1, ((d + 1) * pr) as nat, 0, k);
    lemma_frontier_split(q, r + 1, (d * pr) as nat, 0, k);
    lemma_frontier_const((q * pr1) as nat, d + 1, r, k);
    lemma_frontier_const((q * pr1) as nat, d, r, k);
    let fq = frontier_at(q * pr1, k, 0);
    let run1 = const_run((q * pr1) as nat, d + 1, r, k);
    let run0 = const_run((q * pr1) as nat, d, r, k);
    assert(frontier_spec(n + 1, k) == fq + run1);
    assert(frontier_spec((n + 1 - pr) as nat, k) == fq + run0);
    assert(q * pr1 + d * pr == n + 1 - pr);
    assert(run1 =~= run0.push(((n + 1 - pr) as nat, r)));
    assert(carry_state(n, r, k) =~= frontier_spec(n + 1, k));
}

/// The carry starts from the frontier of `n` with the new cell pushed.
pub proof fn lemma_carry_start(n: nat, k: nat)
    requires
        k >= 2,
    ensures
        carry_state(n, 0, k) == frontier_spec(n, k).push((n, 0)),
{
    assert(pow(k, 0) == 1);
    assert((n + 1 - 1) as nat == n);
}


pub proof fn lemma_pow_base_monotone(a: nat, b: nat, h: nat)
    requires
        1 <= a <= b,
    ensures
        pow(a, h) <= pow(b, h),
    decreases h,
{
    if h > 0 {
        lemma_pow_base_monotone(a, b, (h - 1) as nat);
        lemma_pow_positive(a, (h - 1) as nat);
        let pa = pow(a, (h - 1) as nat);
        let pb = pow(b, (h - 1) as nat);
        assert(a * pa <= b * pb) by (nonlinear_arith)
            requires
                1 <= a <= b,
                1 <= pa <= pb,
        ;
    }
}

/// `2^64`, the first power of two beyond every `u64`.
pub proof fn lemma_pow2_64()
    ensures
        pow(2, 64) == 0x1_0000_0000_0000_0000,
{
    lemma_pow_succ(2, 0);
    assert(pow(2, 1) == 2) by {
        assert(pow(2, 0) == 1);
    }
    lemma_pow_adds(2, 1, 1);
    lemma_pow_adds(2, 2, 2);
    lemma_pow_adds(2, 4, 4);
    lemma_pow_adds(2, 8, 8);
    lemma_pow_adds(2, 16, 16);
    lemma_pow_adds(2, 32, 32);
}

/// No power `k^h` with `h >= 64` fits in a `u64`.
pub proof fn lemma_pow_u64_height(k: nat, h: nat)
    requires
        k >= 2,
        pow(k, h) <= u64::MAX,
    ensures
        h < 64,
{
    if h >= 64 {
        lemma_pow_base_monotone(2, k, h);
        lemma_pow_monotone(2, 64, h);
        lemma_pow2_64();
    }
}

/// The frontier coordinates a `Vec<(u64, u32)>` describes.
pub open spec fn coords_view(v: Seq<(u64, u32)>) -> Seq<(nat, nat)> {
    v.map_values(|c: (u64, u32)| (c.0 as nat, c.1 as nat))
}

/// `k^h`, or `None` when it does not fit in a `u64`.
pub fn checked_pow(k: u64, h: u32) -> (r: Option<u64>)
    requires
        k >= 1,
    ensures
        r matches Some(v) ==> v == pow(k as nat, h as nat),
        r is None ==> pow(k as nat, h as nat) > u64::MAX,
{
    let mut acc: u64 = 1;
    let mut i: u32 = 0;
    while i < h
        invariant
            k >= 1,
            i <= h,
            acc == pow(k as nat, i as nat),
        decreases h - i,
    {
        proof {
            lemma_pow_succ(k as nat, i as nat);
        }
        match acc.checked_mul(k) {
            Some(v) => {
                acc = v;
            },
            None => {
                proof {
                    lemma_pow_monotone(k as nat, i as nat + 1, h as nat);
                }
                return None;
            },
        }
        i = i + 1;
    }
    Some(acc)
}

/// A copy of a list of frontier coordinates.
pub fn copy_coords(v: &Vec<(u64, u32)>) -> (r: Vec<(u64, u32)>)
    ensures
        r@ == v@,
{
    let mut r: Vec<(u64, u32)> = Vec::new();
    let mut i: usize = 0;
    while i < v.len()
        invariant
            i <= v@.len(),
            r@ == v@.take(i as int),
        decreases v@.len() - i,
    {
        r.push(v[i]);
        proof {
            assert(r@ =~= v@.take(i + 1));
        }
        i = i + 1;
    }
    proof {
        assert(v@.take(v@.len() as int) =~= v@);
    }
    r
}

/// Number of k-ary merges after appending an item at 0-based index `n`: the
/// number of times `k` divides `n + 1`.
pub fn reduction_count(n: u64, k: u64) -> (count: u32)
    requires
        k >= 2,
    ensures
        count == trailing_count(n as nat + 1, k as nat),
{
    let mut count: u32 = 0;
    let mut m: u128 = n as u128 + 1;
    let k128: u128 = k as u128;
    proof {
        let t = trailing_count(n as nat + 1, k as nat);
        let y = lemma_trailing_decomp(n as nat + 1, k as nat);
        lemma_pow_monotone(k as nat, t, t);
        assert(pow(k as nat, t) <= n as nat + 1) by (nonlinear_arith)
            requires
                n as nat + 1 == y * pow(k as nat, t),
                y >= 1,
        ;
        if t >= 65 {
            lemma_pow_base_monotone(2, k as nat, t);
            lemma_pow_monotone(2, 65, t);
            lemma_pow2_64();
            lemma_pow_succ(2, 64);
        }
    }
    while m % k128 == 0
        invariant
            k >= 2,
            k128 == k,
            m >= 1,
            count as nat + trailing_count(m as nat, k as nat) == trailing_count(
                n as nat + 1,
                k as nat,
            ),
            trailing_count(n as nat + 1, k as nat) <= 64,
        decreases m,
    {
        proof {
            vstd::arithmetic::div_mod::lemma_div_is_strictly_smaller(m as int, k as int);
            assert(m / k128 >= 1) by (nonlinear_arith)
                requires
                    m % k128 == 0,
                    m >= 1,
                    k128 >= 2,
            ;
        }
        count = count + 1;
        m = m / k128;
    }
    count
}

/// The frontier coordinates `(left, height)` of a log of `n` cells at arity
/// `k`: the perfect k-ary subtrees, tallest first, that tile `[0, n)`.
/// Every `n` that fits in a `u64` is accepted, those above `u64::MAX / k`
/// too: a width is grown only while it stays at most the remaining count
/// divided by `k`, so no width overflows, and the result is the true
/// frontier there as well.
pub fn frontier_for_size(n: u64, k: u64) -> (frontier: Vec<(u64, u32)>)
    requires
        k >= 2,
    ensures
        coords_view(frontier@) == frontier_spec(n as nat, k as nat),
{
    let mut frontier: Vec<(u64, u32)> = Vec::new();
    let mut curr_left: u64 = 0;
    let mut temp_n: u64 = n;
    while temp_n > 0
        invariant
            k >= 2,
            curr_left + temp_n == n,
            coords_view(frontier@) + frontier_at(temp_n as nat, k as nat, curr_left as nat)
                == frontier_spec(n as nat, k as nat),
        decreases temp_n,
    {
        let mut height: u32 = 0;
        let mut cap: u64 = 1;
        proof {
            assert(pow(k as nat, 0) == 1);
        }
        while cap <= temp_n / k
            invariant
                k >= 2,
                temp_n >= 1,
                cap as nat == pow(k as nat, height as nat),
                1 <= cap <= temp_n,
                height < 64,
            decreases temp_n - cap,
        {
            proof {
                lemma_pow_succ(k as nat, height as nat);
                assert(cap * k <= temp_n) by (nonlinear_arith)
                    requires
                        cap <= temp_n / k,
                        k >= 2,
                ;
                assert(cap * k > cap) by (nonlinear_arith)
                    requires
                        cap >= 1,
                        k >= 2,
                ;
                lemma_pow_u64_height(k as nat, height as nat + 1);
            }
            cap = cap * k;
            height = height + 1;
        }
        proof {
            lemma_pow_succ(k as nat, height as nat);
            assert(temp_n < cap * k) by (nonlinear_arith)
                requires
                    cap > temp_n / k,
                    k >= 2,
            ;
            lemma_max_height_unique(temp_n as nat, k as nat, height as nat);
            lemma_frontier_unfold(temp_n as nat, k as nat, curr_left as nat);
        }
        let ghost old_frontier = frontier@;
        frontier.push((curr_left, height));
        proof {
            let head = seq![(curr_left as nat, height as nat)];
            let rest = frontier_at((temp_n - cap) as nat, k as nat, (curr_left + cap) as nat);
            assert(coords_view(frontier@) =~= coords_view(old_frontier) + head);
            assert(coords_view(old_frontier) + (head + rest) =~= (coords_view(old_frontier) + head)
                + rest);
        }
        curr_left = curr_left + cap;
        temp_n = temp_n - cap;
    }
    proof {
        assert(frontier_at(0, k as nat, curr_left as nat) =~= Seq::<(nat, nat)>::empty());
        assert(coords_view(frontier@) + Seq::<(nat, nat)>::empty() =~= coords_view(frontier@));
    }
    frontier
}


/// Every subtree of a frontier lies within the cells it describes.
pub proof fn lemma_frontier_within(n: nat, k: nat, base: nat)
    requires
        k >= 2,
    ensures
        forall|i: int|
            0 <= i < frontier_at(n, k, base).len() ==> {
                let c = #[trigger] frontier_at(n, k, base)[i];
                &&& base <= c.0
                &&& c.0 + pow(k, c.1) <= base + n
            },
    decreases n,
{
    if n >= 1 {
        lemma_frontier_unfold(n, k, base);
        let h = max_height(n, k);
        let c = pow(k, h);
        lemma_frontier_within((n - c) as nat, k, base + c);
        let rest = frontier_at((n - c) as nat, k, base + c);
        assert forall|i: int| 0 <= i < frontier_at(n, k, base).len() implies {
            let c2 = #[trigger] frontier_at(n, k, base)[i];
            &&& base <= c2.0
            &&& c2.0 + pow(k, c2.1) <= base + n
        } by {
            if i > 0 {
                assert(frontier_at(n, k, base)[i] == rest[i - 1]);
            }
        }
    }
}

/// Every position of the log lies in one subtree of its frontier.
pub proof fn lemma_frontier_covers(n: nat, k: nat, base: nat, index: nat)
    requires
        k >= 2,
        base <= index < base + n,
    ensures
        exists|i: int|
            0 <= i < frontier_at(n, k, base).len() && #[trigger] frontier_at(n, k, base)[i].0 <= index
                && index < frontier_at(n, k, base)[i].0 + pow(k, frontier_at(n, k, base)[i].1),
    decreases n,
{
    lemma_frontier_unfold(n, k, base);
    let h = max_height(n, k);
    let c = pow(k, h);
    let fs = frontier_at(n, k, base);
    lemma_pow_positive(k, h);
    if index < base + c {
        assert(fs[0] == (base, h));
        assert(fs[0].0 <= index && index < fs[0].0 + pow(k, fs[0].1));
    } else {
        lemma_frontier_covers((n - c) as nat, k, base + c, index);
        let rest = frontier_at((n - c) as nat, k, base + c);
        let i = choose|i: int|
            0 <= i < rest.len() && #[trigger] rest[i].0 <= index && index < rest[i].0 + pow(k, rest[i].1);
        assert(fs[i + 1] == rest[i]);
        assert(fs[i + 1].0 <= index && index < fs[i + 1].0 + pow(k, fs[i + 1].1));
    }
}

/// A subtree of height `ht` at `left` is aligned: `left` is a multiple of
/// `k^ht`.
pub open spec fn aligned(left: nat, ht: nat, k: nat) -> bool {
    left % pow(k, ht) == 0
}

/// A multiple of `k^b` is a multiple of every lower power.
pub proof fn lemma_aligned_lower(x: nat, k: nat, a: nat, b: nat)
    requires
        k >= 1,
        a <= b,
        x % pow(k, b) == 0,
    ensures
        x % pow(k, a) == 0,
{
    let d = (b - a) as nat;
    lemma_pow_adds(k, a, d);
    assert(a + d == b);
    lemma_pow_positive(k, a);
    lemma_pow_positive(k, b);
    let pa = pow(k, a);
    let pd = pow(k, d);
    let pb = pow(k, b);
    vstd::arithmetic::div_mod::lemma_fundamental_div_mod(x as int, pb as int);
    let q = x as int / pb as int;
    assert(x == pb * q);
    assert(x == (pd * q) * pa) by (nonlinear_arith)
        requires
            x == pb * q,
            pb == pa * pd,
    ;
    vstd::arithmetic::div_mod::lemma_mod_multiples_basic(pd * q, pa as int);
}

/// Adding a multiple of `k^a` keeps alignment at height `a`.
pub proof fn lemma_aligned_add(x: nat, j: nat, k: nat, a: nat)
    requires
        k >= 1,
        x % pow(k, a) == 0,
    ensures
        (x + j * pow(k, a)) % pow(k, a) == 0,
{
    let p = pow(k, a);
    lemma_pow_positive(k, a);
    vstd::arithmetic::div_mod::lemma_fundamental_div_mod(x as int, p as int);
    let q = x as int / p as int;
    assert(x + j * p == (q + j) * p) by (nonlinear_arith)
        requires
            x == p * q,
    ;
    vstd::arithmetic::div_mod::lemma_mod_multiples_basic(q + j, p as int);
}

/// The children of an aligned subtree are aligned.
pub proof fn lemma_aligned_child(left: nat, hc: nat, k: nat, j: nat)
    requires
        k >= 1,
        aligned(left, hc + 1, k),
    ensures
        aligned(left + j * pow(k, hc), hc, k),
{
    lemma_aligned_lower(left, k, hc, hc + 1);
    lemma_aligned_add(left, j, k, hc);
}

/// The frontier subtrees of a log whose first cell sits at a multiple of
/// `k^max_height(n)` are all aligned.
pub proof fn lemma_frontier_aligned(n: nat, k: nat, base: nat)
    requires
        k >= 2,
        n >= 1 ==> base % pow(k, max_height(n, k)) == 0,
    ensures
        forall|i: int|
            0 <= i < frontier_at(n, k, base).len() ==> aligned(
                #[trigger] frontier_at(n, k, base)[i].0,
                frontier_at(n, k, base)[i].1,
                k,
            ),
    decreases n,
{
    if n >= 1 {
        lemma_frontier_unfold(n, k, base);
        lemma_max_height_bounds(n, k);
        let h = max_height(n, k);
        let c = pow(k, h);
        let fs = frontier_at(n, k, base);
        let rest = frontier_at((n - c) as nat, k, base + c);
        if n - c >= 1 {
            let h2 = max_height((n - c) as nat, k);
            lemma_max_height_bounds((n - c) as nat, k);
            if h2 > h {
                lemma_pow_monotone(k, h + 1, h2);
            }
            lemma_aligned_lower(base, k, h2, h);
            lemma_aligned_add(base, pow(k, (h - h2) as nat), k, h2);
            lemma_pow_adds(k, h2, (h - h2) as nat);
            assert(h2 + (h - h2) == h);
            assert(pow(k, (h - h2) as nat) * pow(k, h2) == c) by (nonlinear_arith)
                requires
                    c == pow(k, h2) * pow(k, (h - h2) as nat),
            ;
        }
        lemma_frontier_aligned((n - c) as nat, k, base + c);
        assert forall|i: int| 0 <= i < fs.len() implies aligned(#[trigger] fs[i].0, fs[i].1, k) by {
            if i > 0 {
                assert(fs[i] == rest[i - 1]);
            }
        }
    }
}

/// A positive multiple of `k^h` is divisible by `k` at least `h` times.
pub proof fn lemma_trailing_of_multiple(m: nat, k: nat, h: nat)
    requires
        k >= 2,
        m >= 1,
        m % pow(k, h) == 0,
    ensures
        trailing_count(m, k) >= h,
    decreases h,
{
    if h > 0 {
        let hc = (h - 1) as nat;
        lemma_pow_succ(k, hc);
        lemma_pow_positive(k, hc);
        let p = pow(k, hc);
        assert(k * p >= 1) by (nonlinear_arith)
            requires
                k >= 2,
                p >= 1,
        ;
        assert(pow(k, h) == k * p);
        vstd::arithmetic::div_mod::lemma_fundamental_div_mod(m as int, (k * p) as int);
        let q = m as int / (k * p) as int;
        assert(m == (q * p) * k) by (nonlinear_arith)
            requires
                m == (k * p) * q + 0,
        ;
        vstd::arithmetic::div_mod::lemma_mod_multiples_basic(q * p, k as int);
        assert(m % k == 0);
        assert(m / k == q * p) by {
            vstd::arithmetic::div_mod::lemma_div_multiples_vanish(q * p, k as int);
        }
        assert(q * p >= 1) by (nonlinear_arith)
            requires
                m == (q * p) * k,
                m >= 1,
                k >= 2,
        ;
        vstd::arithmetic::div_mod::lemma_mod_multiples_basic(q, p as int);
        lemma_trailing_of_multiple((q * p) as nat, k, hc);
    }
}

/// `x` with every factor `k` divided out (for `x >= 1`).
pub open spec fn pow_rest(x: nat, k: nat) -> nat
    decreases x,
{
    if k < 2 || x == 0 || x % k != 0 {
        x
    } else {
        proof {
            vstd::arithmetic::div_mod::lemma_div_is_strictly_smaller(x as int, k as int);
        }
        pow_rest(x / k, k)
    }
}

/// Dividing every factor `k` out of `k^h` leaves 1.
pub proof fn lemma_pow_rest_pow(k: nat, h: nat)
    requires
        k >= 2,
    ensures
        pow_rest(pow(k, h), k) == 1,
    decreases h,
{
    if h > 0 {
        let hc = (h - 1) as nat;
        lemma_pow_succ(k, hc);
        lemma_pow_positive(k, hc);
        let p = pow(k, hc);
        vstd::arithmetic::div_mod::lemma_mod_multiples_basic(p as int, k as int);
        assert((p * k) % k == 0);
        assert(k * p == p * k) by (nonlinear_arith);
        vstd::arithmetic::div_mod::lemma_div_multiples_vanish(p as int, k as int);
        assert((k * p) / k == p);
        lemma_pow_rest_pow(k, hc);
    } else {
        assert(pow(k, 0) == 1);
        assert(1nat % k == 1) by {
            vstd::arithmetic::div_mod::lemma_small_mod(1, k);
        }
    }
}

/// Whether frontier subtree `i` of `fs` holds position `index`.
pub open spec fn peak_holds(fs: Seq<(nat, nat)>, i: int, index: nat, k: nat) -> bool {
    &&& 0 <= i < fs.len()
    &&& fs[i].0 <= index
    &&& index < fs[i].0 + pow(k, fs[i].1)
}

/// The first frontier subtree of `fs` holding `index`.
pub open spec fn peak_of(fs: Seq<(nat, nat)>, index: nat, k: nat) -> int {
    choose|i: int| peak_holds(fs, i, index, k) && forall|j: int| 0 <= j < i ==> !peak_holds(fs, j, index, k)
}

/// If some frontier subtree holds `index`, the first one does.
pub proof fn lemma_first_peak(fs: Seq<(nat, nat)>, index: nat, k: nat, i: int)
    requires
        peak_holds(fs, i, index, k),
    ensures
        peak_holds(fs, peak_of(fs, index, k), index, k),
        forall|j: int| 0 <= j < peak_of(fs, index, k) ==> !peak_holds(fs, j, index, k),
    decreases i,
{
    if exists|j: int| 0 <= j < i && peak_holds(fs, j, index, k) {
        let j = choose|j: int| 0 <= j < i && peak_holds(fs, j, index, k);
        lemma_first_peak(fs, index, k, j);
    } else {
        assert(peak_holds(fs, i, index, k) && forall|j: int| 0 <= j < i ==> !peak_holds(fs, j, index, k));
    }
}

/// Position of the frontier subtree of a log of `n` cells holding `index`.
pub fn find_peak(coords: &Vec<(u64, u32)>, index: u64, n: u64, k: u64) -> (f: usize)
    requires
        2 <= k <= 256,
        index < n,
        coords_view(coords@) == frontier_spec(n as nat, k as nat),
    ensures
        f == peak_of(frontier_spec(n as nat, k as nat), index as nat, k as nat),
        peak_holds(frontier_spec(n as nat, k as nat), f as int, index as nat, k as nat),
{
    let ghost fs = frontier_spec(n as nat, k as nat);
    proof {
        lemma_frontier_covers(n as nat, k as nat, 0, index as nat);
        lemma_frontier_within(n as nat, k as nat, 0);
        let w = choose|i: int|
            0 <= i < fs.len() && #[trigger] fs[i].0 <= index && index < fs[i].0 + pow(k as nat, fs[i].1);
        assert(peak_holds(fs, w, index as nat, k as nat));
    }
    let mut f: usize = 0;
    while f < coords.len()
        invariant
            2 <= k <= 256,
            index < n,
            coords_view(coords@) == fs,
            fs == frontier_spec(n as nat, k as nat),
            f <= coords@.len(),
            forall|j: int| 0 <= j < f ==> !peak_holds(fs, j, index as nat, k as nat),
            exists|i: int| peak_holds(fs, i, index as nat, k as nat),
            forall|i: int| 0 <= i < fs.len() ==> #[trigger] fs[i].0 + pow(k as nat, fs[i].1) <= n,
        decreases coords@.len() - f,
    {
        let (l, ht) = coords[f];
        proof {
            assert(fs[f as int] == (l as nat, ht as nat));
        }
        let cap = match checked_pow(k, ht) {
            Some(c) => c,
            None => {
                proof {
                    assert(false);
                }
                0
            },
        };
        if index >= l && index < l + cap {
            proof {
                assert(peak_holds(fs, f as int, index as nat, k as nat));
                let c = peak_of(fs, index as nat, k as nat);
                assert(peak_holds(fs, c, index as nat, k as nat) && forall|j: int|
                    0 <= j < c ==> !peak_holds(fs, j, index as nat, k as nat));
                if c < f {
                } else if c > f {
                }
            }
            return f;
        }
        f = f + 1;
    }
    proof {
        let i = choose|i: int| peak_holds(fs, i, index as nat, k as nat);
        assert(false);
    }
    0
}


/// After `j` merges of the carry that follows an append at `n`, the state
/// holds one subtree more than the frontier of `n`, less `k - 1` per merge.
proof fn lemma_carry_state_len(n: nat, j: nat, k: nat)
    requires
        k >= 2,
        j <= trailing_count(n + 1, k),
    ensures
        carry_state(n, j, k).len() + (k - 1) * j == frontier_spec(n, k).len() + 1,
    decreases j,
{
    if j == 0 {
        lemma_carry_start(n, k);
    } else {
        lemma_carry_state_len(n, (j - 1) as nat, k);
        lemma_carry_step(n, (j - 1) as nat, k);
        let s = carry_state(n, (j - 1) as nat, k);
        assert(carry_state(n, j, k).len() == s.len() - k + 1);
        assert((k - 1) * j == (k - 1) * (j - 1) + (k - 1)) by (nonlinear_arith)
            requires
                j >= 1,
        ;
    }
}

/// Frontier length across one append: the new cell adds one subtree, and
/// each of the `trailing_count(n + 1, k)` merges that follow replaces `k`
/// subtrees by one.
pub proof fn lemma_frontier_len_append(n: nat, k: nat)
    requires
        k >= 2,
    ensures
        frontier_spec(n + 1, k).len() + (k - 1) * trailing_count(n + 1, k) == frontier_spec(n, k).len() + 1,
{
    lemma_carry_state_len(n, trailing_count(n + 1, k), k);
    lemma_carry_done(n, k);
}


/// Each subtree the carry after an append at `n` merges ends at `n + 1` and
/// is aligned.
pub proof fn lemma_merge_aligned(n: nat, j: nat, k: nat)
    requires
        k >= 2,
        j <= trailing_count(n + 1, k),
    ensures
        pow(k, j) <= n + 1,
        aligned((n + 1 - pow(k, j)) as nat, j, k),
{
    let r = trailing_count(n + 1, k);
    let y = lemma_trailing_decomp(n + 1, k);
    lemma_pow_adds(k, j, (r - j) as nat);
    assert(j + (r - j) as nat == r);
    lemma_pow_positive(k, j);
    lemma_pow_positive(k, (r - j) as nat);
    let pj = pow(k, j);
    let q = y * pow(k, (r - j) as nat);
    assert(n + 1 == q * pj) by (nonlinear_arith)
        requires
            n + 1 == y * pow(k, r),
            pow(k, r) == pj * pow(k, (r - j) as nat),
            q == y * pow(k, (r - j) as nat),
    ;
    assert(q >= 1) by (nonlinear_arith)
        requires
            y >= 1,
            pow(k, (r - j) as nat) >= 1,
            q == y * pow(k, (r - j) as nat),
    ;
    assert(pj <= n + 1) by (nonlinear_arith)
        requires
            n + 1 == q * pj,
            q >= 1,
            pj >= 1,
    ;
    assert(n + 1 - pj == (q - 1) * pj) by (nonlinear_arith)
        requires
            n + 1 == q * pj,
    ;
    vstd::arithmetic::div_mod::lemma_mod_multiples_basic((q - 1) as int, pj as int);
}

} // verus!
