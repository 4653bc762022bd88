//! The bitonic sorting network.
//!
//! The network sorts an array whose length is a power of two by a fixed schedule of
//! compare-exchange steps. A step is given by a distance `j` and a stage `k`: it pairs every
//! position with the one `j` further on, and orders each pair upwards or downwards by the
//! parity of the stage's block that the pair lies in.
use vstd::arithmetic::div_mod::lemma_div_denominator;
use vstd::arithmetic::power2::{lemma2_to64, lemma_pow2_pos, lemma_pow2_unfold, pow2};
use vstd::prelude::*;

verus! {

/// Whether the numbers of `v` ascend.
pub open spec fn ascending(v: Seq<int>) -> bool {
    forall|x: int, y: int| 0 <= x <= y < v.len() ==> #[trigger] v[x] <= #[trigger] v[y]
}

pub open spec fn least(a: int, b: int) -> int {
    if a <= b {
        a
    } else {
        b
    }
}

pub open spec fn greatest(a: int, b: int) -> int {
    if a <= b {
        b
    } else {
        a
    }
}

/// Whether position `x` lies in the first half of its block of `2 * j` positions.
pub open spec fn is_lower(x: int, j: int) -> bool {
    (x / j) % 2 == 0
}

/// The position that a step with distance `j` pairs `x` with.
pub open spec fn partner(x: int, j: int) -> int {
    if is_lower(x, j) {
        x + j
    } else {
        x - j
    }
}

/// Whether stage `k` orders the block of `x` upwards.
pub open spec fn is_upward(x: int, k: int) -> bool {
    (x / k) % 2 == 0
}

/// One compare-exchange step.
pub open spec fn exchanged(v: Seq<int>, j: int, k: int) -> Seq<int> {
    Seq::new(
        v.len(),
        |x: int|
            if is_lower(x, j) == is_upward(x, k) {
                least(v[x], v[partner(x, j)])
            } else {
                greatest(v[x], v[partner(x, j)])
            },
    )
}

/// One compare-exchange step that orders every pair upwards.
spec fn exchanged_up(w: Seq<int>, j: int) -> Seq<int> {
    Seq::new(
        w.len(),
        |x: int|
            if is_lower(x, j) {
                least(w[x], w[x + j])
            } else {
                greatest(w[x], w[x - j])
            },
    )
}

/// Whether the positions of `w` from `s` to `s + m` that hold more than `t` form one run, or
/// those that do not hold more than `t` do.
spec fn one_run(w: Seq<int>, s: int, m: int, t: int) -> bool {
    exists|a: int, b: int| #[trigger] is_run(w, s, m, t, a, b)
}

spec fn is_run(w: Seq<int>, s: int, m: int, t: int, a: int, b: int) -> bool {
    &&& s <= a <= b <= s + m
    &&& (forall|i: int| s <= i < s + m ==> (#[trigger] w[i] > t <==> a <= i < b)) || (forall|i: int|
        s <= i < s + m ==> (#[trigger] w[i] > t <==> !(a <= i < b)))
}

/// One step on a block with one run leaves both halves with one run, and leaves nothing above
/// `t` in the lower half or everything above `t` in the upper half.
proof fn lemma_half_clean(w: Seq<int>, u: Seq<int>, s: int, h: int, t: int)
    requires
        0 <= s,
        0 < h,
        s + 2 * h <= w.len(),
        u.len() == w.len(),
        forall|i: int| s <= i < s + h ==> #[trigger] u[i] == least(w[i], w[i + h]),
        forall|i: int| s + h <= i < s + 2 * h ==> #[trigger] u[i] == greatest(w[i], w[i - h]),
        one_run(w, s, 2 * h, t),
    ensures
        one_run(u, s, h, t),
        one_run(u, s + h, h, t),
        (forall|i: int| s <= i < s + h ==> #[trigger] u[i] <= t) || (forall|i: int|
            s + h <= i < s + 2 * h ==> #[trigger] u[i] > t),
{
    let (a, b) = choose|a: int, b: int| #[trigger] is_run(w, s, 2 * h, t, a, b);
    let mid = s + h;
    assert forall|i: int| s <= i < mid implies (#[trigger] u[i] > t <==> w[i] > t && w[i + h] > t) by {}
    assert forall|i: int| mid <= i < s + 2 * h implies (#[trigger] u[i] > t <==> w[i] > t || w[i - h]
        > t) by {}
    let (la, lb, ua, ub) = if b <= mid {
        (a, b, a + h, b + h)
    } else if a >= mid {
        (a - h, b - h, a, b)
    } else if a <= b - h {
        (a, b - h, a + h, b)
    } else {
        (b - h, a, b, a + h)
    };
    let inside = forall|i: int| s <= i < s + 2 * h ==> (#[trigger] w[i] > t <==> a <= i < b);
    if inside {
        if b <= mid || a >= mid {
            assert(is_run(u, s, h, t, s, s));
            assert(is_run(u, mid, h, t, ua, ub));
        } else if a <= b - h {
            assert(is_run(u, s, h, t, la, lb));
            assert(is_run(u, mid, h, t, mid, mid + h));
        } else {
            assert(is_run(u, s, h, t, s, s));
            assert(is_run(u, mid, h, t, ua, ub));
        }
    } else {
        if b <= mid || a >= mid {
            assert(is_run(u, s, h, t, la, lb));
            assert(is_run(u, mid, h, t, mid, mid + h));
        } else if a <= b - h {
            assert(is_run(u, s, h, t, s, s));
            assert(is_run(u, mid, h, t, ua, ub));
        } else {
            assert(is_run(u, s, h, t, la, lb));
            assert(is_run(u, mid, h, t, mid, mid + h));
        }
    }
}

/// The halves of a block are the blocks of half the length.
proof fn lemma_halves(x: int, h: int)
    requires
        0 <= x,
        0 < h,
    ensures
        is_lower(x, h) <==> x % (2 * h) < h,
        x / (2 * h) == (x / h) / 2,
        x == (2 * h) * (x / (2 * h)) + x % (2 * h),
        0 <= x % (2 * h) < 2 * h,
{
    lemma_div_denominator(x, h, 2);
    assert(h * 2 == 2 * h);
    let (q, r) = ((x / h) / 2, (x / h) % 2);
    assert(x / h == 2 * q + r);
    assert(x == h * (x / h) + x % h && 0 <= x % h < h) by (nonlinear_arith)
        requires
            0 <= x,
            0 < h,
    ;
    assert(h * (2 * q + r) == (2 * h) * q + h * r) by (nonlinear_arith);
    assert(x == (2 * h) * (x / (2 * h)) + x % (2 * h) && 0 <= x % (2 * h) < 2 * h)
        by (nonlinear_arith)
        requires
            0 <= x,
            0 < h,
    ;
    if r == 0 {
        assert(h * r == 0) by (nonlinear_arith)
            requires
                r == 0,
        ;
    } else {
        assert(h * r == h) by (nonlinear_arith)
            requires
                r == 1,
        ;
    }
}

/// The position `q * m + r` lies in block `q` of the blocks of `m` positions.
pub(crate) proof fn lemma_block_of(q: int, m: int, r: int)
    requires
        0 <= r < m,
    ensures
        (q * m + r) / m == q,
        (q * m + r) % m == r,
{
    vstd::arithmetic::div_mod::lemma_fundamental_div_mod_converse(q * m + r, m, q, r);
}

/// Where a step's partner lies: in the same block of `2 * h` positions, and in the other half.
pub(crate) proof fn lemma_partner(x: int, h: int, len: int)
    requires
        0 <= x < len,
        0 < h,
        len % (2 * h) == 0,
    ensures
        0 <= partner(x, h) < len,
        partner(x, h) / (2 * h) == x / (2 * h),
        is_lower(partner(x, h), h) == !is_lower(x, h),
        partner(partner(x, h), h) == x,
{
    lemma_halves(x, h);
    let m = 2 * h;
    let (q, r) = (x / m, x % m);
    let p = partner(x, h);
    let pr = if is_lower(x, h) {
        r + h
    } else {
        r - h
    };
    assert(q * m == m * q) by (nonlinear_arith);
    lemma_block_of(q, m, pr);
    assert(p == q * m + pr);
    lemma_multiple_fits(q, m, r, len);
    lemma_halves(p, h);
}

/// Blocks of `m` positions lie within blocks of `m * c` positions.
pub(crate) proof fn lemma_nested(x: int, y: int, m: int, c: int)
    requires
        0 <= x,
        0 <= y,
        0 < m,
        0 < c,
        x / m == y / m,
    ensures
        x / (m * c) == y / (m * c),
{
    lemma_div_denominator(x, m, c);
    lemma_div_denominator(y, m, c);
}

/// A block that starts below a multiple of the block length also ends there.
proof fn lemma_multiple_fits(q: int, m: int, r: int, n: int)
    requires
        0 <= q * m + r < n,
        0 <= r < m,
        n % m == 0,
    ensures
        0 <= q * m,
        q * m + m <= n,
{
    let p = n / m;
    assert(n == p * m) by (nonlinear_arith)
        requires
            p == n / m,
            n % m == 0,
            m > 0,
    ;
    assert(q < p) by (nonlinear_arith)
        requires
            q * m + r < p * m,
            0 <= r,
            m > 0,
    ;
    assert(q * m + m <= p * m) by (nonlinear_arith)
        requires
            q + 1 <= p,
            m > 0,
    ;
    assert(0 <= q * m) by (nonlinear_arith)
        requires
            0 <= q * m + r,
            r < m,
            m > 0,
    ;
}

/// What a step leaves of the block that starts at `s`, for the bound `t`.
spec fn is_cleaned(u: Seq<int>, s: int, h: int, t: int) -> bool {
    &&& one_run(u, s, h, t)
    &&& one_run(u, s + h, h, t)
    &&& (forall|i: int| s <= i < s + h ==> #[trigger] u[i] <= t) || (forall|i: int|
        s + h <= i < s + 2 * h ==> #[trigger] u[i] > t)
}

/// The state within a stage that merges blocks of `k` positions: every block of `m` positions
/// has one run for each bound, and the blocks of `m` positions ascend within those of `k`.
spec fn merging(w: Seq<int>, k: int, m: int) -> bool {
    &&& forall|s: int, t: int|
        0 <= s && s % m == 0 && s + m <= w.len() ==> #[trigger] one_run(w, s, m, t)
    &&& forall|x: int, y: int|
        0 <= x < w.len() && 0 <= y < w.len() && x / k == y / k && x / m < y / m ==> #[trigger] w[x]
            <= #[trigger] w[y]
}

/// A step with half the distance halves the blocks.
proof fn lemma_merge_step(w: Seq<int>, k: int, h: int, c: int)
    requires
        0 < h,
        0 < c,
        k == (2 * h) * c,
        w.len() as int % (2 * h) == 0,
        merging(w, k, 2 * h),
    ensures
        merging(exchanged_up(w, h), k, h),
{
    let u = exchanged_up(w, h);
    let m = 2 * h;
    let n = w.len() as int;
    assert forall|s: int, t: int| 0 <= s && s % m == 0 && s + m <= n implies #[trigger] is_cleaned(
        u,
        s,
        h,
        t,
    ) by {
        assert(one_run(w, s, m, t));
        let q = s / m;
        assert(s == q * m) by (nonlinear_arith)
            requires
                q == s / m,
                s % m == 0,
                m > 0,
        ;
        assert forall|i: int| s <= i < s + h implies #[trigger] u[i] == least(w[i], w[i + h]) by {
            lemma_block_of(q, m, i - s);
            lemma_halves(i, h);
        }
        assert forall|i: int| s + h <= i < s + 2 * h implies #[trigger] u[i] == greatest(
            w[i],
            w[i - h],
        ) by {
            lemma_block_of(q, m, i - s);
            lemma_halves(i, h);
        }
        lemma_half_clean(w, u, s, h, t);
    }
    assert forall|s: int, t: int| 0 <= s && s % h == 0 && s + h <= u.len() implies
        #[trigger] one_run(u, s, h, t) by {
        lemma_halves(s, h);
        let r = s % m;
        let base = s - r;
        let q = s / m;
        assert(m * q == q * m) by (nonlinear_arith);
        lemma_block_of(q, m, 0);
        assert(base + m <= n && (r == 0 || r == h)) by {
            lemma_multiple_fits(q, m, r, n);
            let p = s / h;
            assert(s == h * p) by (nonlinear_arith)
                requires
                    p == s / h,
                    s % h == 0,
                    h > 0,
            ;
            let z = p - 2 * q;
            assert(r == h * z) by (nonlinear_arith)
                requires
                    s == h * p,
                    s == (2 * h) * q + r,
                    z == p - 2 * q,
            ;
            assert(z == 0 || z == 1) by (nonlinear_arith)
                requires
                    r == h * z,
                    0 <= r < 2 * h,
                    h > 0,
            ;
        }
        assert(is_cleaned(u, base, h, t));
    }
    assert forall|x: int, y: int|
        0 <= x < u.len() && 0 <= y < u.len() && x / k == y / k && x / h < y / h implies #[trigger] u[x]
        <= #[trigger] u[y] by {
        lemma_halves(x, h);
        lemma_halves(y, h);
        lemma_partner(x, h, n);
        lemma_partner(y, h, n);
        let (px, py) = (partner(x, h), partner(y, h));
        if x / m == y / m {
            let q = x / m;
            assert(is_lower(x, h) && !is_lower(y, h));
            assert(m * q == q * m) by (nonlinear_arith);
            lemma_multiple_fits(q, m, x % m, n);
            lemma_block_of(q, m, 0);
            let t = u[y];
            assert(is_cleaned(u, q * m, h, t));
            assert(u[x] <= t);
        } else {
            lemma_nested(px, x, m, c);
            lemma_nested(py, y, m, c);
            assert(w[x] <= w[y] && w[x] <= w[py] && w[px] <= w[y] && w[px] <= w[py]);
        }
    }
}

/// The numbers as the stage's blocks order them: those of downward blocks negated.
spec fn signed(v: Seq<int>, k: int) -> Seq<int> {
    Seq::new(
        v.len(),
        |x: int|
            if is_upward(x, k) {
                v[x]
            } else {
                -v[x]
            },
    )
}

proof fn lemma_signed_step(v: Seq<int>, j: int, k: int, c: int)
    requires
        0 < j,
        0 < c,
        k == (2 * j) * c,
        v.len() as int % (2 * j) == 0,
    ensures
        signed(exchanged(v, j, k), k) == exchanged_up(signed(v, k), j),
{
    let a = signed(exchanged(v, j, k), k);
    let b = exchanged_up(signed(v, k), j);
    assert forall|x: int| 0 <= x < v.len() implies #[trigger] a[x] == b[x] by {
        lemma_partner(x, j, v.len() as int);
        lemma_nested(partner(x, j), x, 2 * j, c);
    }
    assert(a =~= b);
}

/// Whether the blocks of `b` positions are sorted, upwards and downwards in turn.
pub open spec fn alternating(v: Seq<int>, b: int) -> bool {
    forall|x: int, y: int|
        0 <= x <= y < v.len() && x / b == y / b ==> if is_upward(x, b) {
            #[trigger] v[x] <= #[trigger] v[y]
        } else {
            v[x] >= v[y]
        }
}

/// The steps of stage `k` with the distances `j`, `j / 2`, and so on down to 1.
pub open spec fn merged(v: Seq<int>, j: int, k: int) -> Seq<int>
    decreases j,
{
    if j <= 0 {
        v
    } else {
        merged(exchanged(v, j, k), j / 2, k)
    }
}

/// The stages 2, 4, and so on up to `k`.
pub open spec fn network(v: Seq<int>, k: int) -> Seq<int>
    decreases k,
{
    if k < 2 {
        v
    } else {
        merged(network(v, k / 2), k / 2, k)
    }
}

pub(crate) proof fn lemma_merged_len(v: Seq<int>, j: int, k: int)
    ensures
        merged(v, j, k).len() == v.len(),
    decreases j,
{
    if j > 0 {
        lemma_merged_len(exchanged(v, j, k), j / 2, k);
    }
}

pub(crate) proof fn lemma_network_len(v: Seq<int>, k: int)
    ensures
        network(v, k).len() == v.len(),
    decreases k,
{
    if k >= 2 {
        lemma_network_len(v, k / 2);
        lemma_merged_len(network(v, k / 2), k / 2, k);
    }
}

proof fn lemma_merged_sorts_blocks(v: Seq<int>, e: nat, k: int, c: int)
    requires
        0 < c,
        k == (2 * pow2(e)) * c,
        v.len() as int % k == 0,
        merging(signed(v, k), k, 2 * pow2(e) as int),
    ensures
        merging(signed(merged(v, pow2(e) as int, k), k), k, 1),
    decreases e,
{
    let j = pow2(e) as int;
    lemma_pow2_pos(e);
    lemma_multiple_of_part(v.len() as int, 2 * j, c);
    lemma_signed_step(v, j, k, c);
    lemma_merge_step(signed(v, k), k, j, c);
    let next = exchanged(v, j, k);
    lemma2_to64();
    if e == 0 {
        assert(merged(next, 0, k) == next);
    } else {
        lemma_pow2_unfold(e);
        let half = pow2((e - 1) as nat) as int;
        assert(j == 2 * half);
        assert(k == (2 * half) * (2 * c)) by (nonlinear_arith)
            requires
                k == (2 * j) * c,
                j == 2 * half,
        ;
        lemma_merged_sorts_blocks(next, (e - 1) as nat, k, 2 * c);
    }
}

pub(crate) proof fn lemma_multiple_of_part(n: int, m: int, c: int)
    requires
        0 < m,
        0 < c,
        n % (m * c) == 0,
    ensures
        n % m == 0,
{
    let k = m * c;
    assert(k > 0) by (nonlinear_arith)
        requires
            k == m * c,
            m > 0,
            c > 0,
    ;
    let p = n / k;
    assert(n == p * k) by (nonlinear_arith)
        requires
            p == n / k,
            n % k == 0,
            k > 0,
    ;
    assert(n == (p * c) * m + 0) by (nonlinear_arith)
        requires
            n == p * k,
            k == m * c,
    ;
    lemma_block_of(p * c, m, 0);
}

/// In an ascending stretch the positions above `t` are the last ones.
proof fn lemma_ascent_crosses(v: Seq<int>, s: int, h: int, t: int) -> (a: int)
    requires
        0 <= s,
        0 <= h,
        s + h <= v.len(),
        forall|x: int, y: int| s <= x <= y < s + h ==> #[trigger] v[x] <= #[trigger] v[y],
    ensures
        s <= a <= s + h,
        forall|i: int| s <= i < s + h ==> (#[trigger] v[i] > t <==> a <= i),
    decreases h,
{
    if h == 0 {
        s
    } else {
        let a = lemma_ascent_crosses(v, s, h - 1, t);
        let last = s + h - 1;
        if a == last && v[last] <= t {
            a + 1
        } else {
            assert forall|i: int| s <= i < s + h implies (#[trigger] v[i] > t <==> a <= i) by {
                if i == last && a < last {
                    assert(v[a] > t);
                    assert(v[a] <= v[last]);
                }
            }
            a
        }
    }
}

/// In a descending stretch the positions above `t` are the first ones.
proof fn lemma_descent_crosses(v: Seq<int>, s: int, h: int, t: int) -> (b: int)
    requires
        0 <= s,
        0 <= h,
        s + h <= v.len(),
        forall|x: int, y: int| s <= x <= y < s + h ==> #[trigger] v[x] >= #[trigger] v[y],
    ensures
        s <= b <= s + h,
        forall|i: int| s <= i < s + h ==> (#[trigger] v[i] > t <==> i < b),
    decreases h,
{
    if h == 0 {
        s
    } else {
        let b = lemma_descent_crosses(v, s, h - 1, t);
        let last = s + h - 1;
        if b == last && v[last] > t {
            b + 1
        } else {
            assert forall|i: int| s <= i < s + h implies (#[trigger] v[i] > t <==> i < b) by {
                if i == last && b < last {
                    assert(v[b] <= t);
                    assert(v[b] >= v[last]);
                }
            }
            b
        }
    }
}

/// Sorted blocks, upwards and downwards in turn, are what a stage of twice the length starts
/// from.
proof fn lemma_stage_starts(v: Seq<int>, h: int)
    requires
        0 < h,
        v.len() as int % (2 * h) == 0,
        alternating(v, h),
    ensures
        merging(signed(v, 2 * h), 2 * h, 2 * h),
{
    let k = 2 * h;
    let w = signed(v, k);
    assert forall|s: int, t: int| 0 <= s && s % k == 0 && s + k <= w.len() implies
        #[trigger] one_run(w, s, k, t) by {
        let q = s / k;
        assert(s == q * k) by (nonlinear_arith)
            requires
                q == s / k,
                s % k == 0,
                k > 0,
        ;
        assert forall|i: int| s <= i < s + k implies #[trigger] (i / k) == q && is_lower(i, h) == (i
            < s + h) && i / h == (if i < s + h {
            2 * q
        } else {
            2 * q + 1
        }) by {
            lemma_block_of(q, k, i - s);
            lemma_halves(i, h);
        }
        assert forall|x: int, y: int| s <= x <= y < s + h implies #[trigger] v[x] <= #[trigger] v[y] by {
            assert(x / k == q && y / k == q);
        }
        assert forall|x: int, y: int| s + h <= x <= y < s + h + h implies #[trigger] v[x]
            >= #[trigger] v[y] by {
            assert(x / k == q && y / k == q);
        }
        let bound = if q % 2 == 0 {
            t
        } else {
            -t - 1
        };
        let a = lemma_ascent_crosses(v, s, h, bound);
        let b = lemma_descent_crosses(v, s + h, h, bound);
        assert forall|i: int| s <= i < s + k implies (#[trigger] w[i] > t <==> if q % 2 == 0 {
            a <= i < b
        } else {
            !(a <= i < b)
        }) by {
            assert(i / k == q);
            assert(v[i] > bound <==> a <= i < b);
        }
        assert(is_run(w, s, k, t, a, b));
    }
}

/// The stages up to `k` sort every block of `k` positions, upwards and downwards in turn.
pub proof fn law_network_sorts_blocks(v: Seq<int>, e: nat)
    requires
        v.len() as int % pow2(e) as int == 0,
    ensures
        alternating(network(v, pow2(e) as int), pow2(e) as int),
    decreases e,
{
    lemma2_to64();
    if e > 0 {
        let h = pow2((e - 1) as nat) as int;
        let k = pow2(e) as int;
        lemma_pow2_unfold(e);
        lemma_pow2_pos((e - 1) as nat);
        assert(k == 2 * h);
        lemma_multiple_of_part(v.len() as int, h, 2);
        law_network_sorts_blocks(v, (e - 1) as nat);
        let before = network(v, h);
        lemma_network_len(v, h);
        lemma_stage_starts(before, h);
        lemma_merged_sorts_blocks(before, (e - 1) as nat, k, 1);
        let after = merged(before, h, k);
        lemma_merged_len(before, h, k);
        assert(k / 2 == h);
        assert(after == network(v, k));
        let w = signed(after, k);
        assert forall|x: int, y: int| 0 <= x <= y < after.len() && x / k == y / k implies (
        if is_upward(x, k) {
            #[trigger] after[x] <= #[trigger] after[y]
        } else {
            after[x] >= after[y]
        }) by {
            if x < y {
                assert(x / 1 == x && y / 1 == y);
                assert(w[x] <= w[y]);
            }
        }
    }
}

/// The whole network sorts an array whose length is a power of two.
pub proof fn law_network_sorts(v: Seq<int>, e: nat)
    requires
        v.len() == pow2(e),
    ensures
        ascending(network(v, v.len() as int)),
{
    let n = v.len() as int;
    lemma_pow2_pos(e);
    lemma_block_of(1, n, 0);
    law_network_sorts_blocks(v, e);
    lemma_network_len(v, n);
    let out = network(v, n);
    assert forall|x: int, y: int| 0 <= x <= y < out.len() implies #[trigger] out[x]
        <= #[trigger] out[y] by {
        lemma_block_of(0, n, x);
        lemma_block_of(0, n, y);
        assert(0 * n == 0);
    }
}

/// One compare-exchange step inside a threadgroup whose first position is `base`: the threads
/// pair up by their positions in the group, and order their pairs by their positions in the
/// whole array.
pub open spec fn group_exchanged(s: Seq<int>, base: int, j: int, k: int) -> Seq<int> {
    Seq::new(
        s.len(),
        |x: int|
            if is_lower(x, j) == is_upward(base + x, k) {
                least(s[x], s[partner(x, j)])
            } else {
                greatest(s[x], s[partner(x, j)])
            },
    )
}

/// The steps of stage `k` inside a threadgroup, with the distances `j`, `j / 2`, and so on
/// down to 1.
pub open spec fn group_merged(s: Seq<int>, base: int, j: int, k: int) -> Seq<int>
    decreases j,
{
    if j <= 0 {
        s
    } else {
        group_merged(group_exchanged(s, base, j, k), base, j / 2, k)
    }
}

/// The stages 2, 4, and so on up to `k` inside a threadgroup.
pub open spec fn group_network(s: Seq<int>, base: int, k: int) -> Seq<int>
    decreases k,
{
    if k < 2 {
        s
    } else {
        group_merged(group_network(s, base, k / 2), base, k / 2, k)
    }
}

/// Shifting a position by whole blocks shifts its block's number.
pub(crate) proof fn lemma_shifted_block(base: int, x: int, m: int)
    requires
        0 < m,
        base % m == 0,
    ensures
        (base + x) / m == base / m + x / m,
{
    let (q, b, r) = (base / m, x / m, x % m);
    assert(base == m * q && x == m * b + r && 0 <= r < m) by (nonlinear_arith)
        requires
            0 < m,
            base % m == 0,
            q == base / m,
            b == x / m,
            r == x % m,
    ;
    assert(base + x == (q + b) * m + r) by (nonlinear_arith)
        requires
            base == m * q,
            x == m * b + r,
    ;
    lemma_block_of(q + b, m, r);
}

/// Positions in a group pair up like the positions in the whole array.
proof fn lemma_shifted_pair(base: int, x: int, j: int)
    requires
        0 < j,
        base % (2 * j) == 0,
    ensures
        is_lower(base + x, j) == is_lower(x, j),
        partner(base + x, j) == base + partner(x, j),
{
    let q = base / (2 * j);
    assert(base == (2 * q) * j + 0) by (nonlinear_arith)
        requires
            0 < j,
            base % (2 * j) == 0,
            q == base / (2 * j),
    ;
    lemma_block_of(2 * q, j, 0);
    lemma_shifted_block(base, x, j);
    assert((2 * q + x / j) % 2 == (x / j) % 2);
}

/// A step whose pairs lie inside the threadgroups never needs to leave them: what becomes of
/// a group's elements depends on that group's elements alone.
pub proof fn law_small_steps_stay_in_group(v: Seq<int>, base: int, len: int, j: int, k: int)
    requires
        0 < j,
        0 <= base,
        0 <= len,
        base + len <= v.len(),
        base % (2 * j) == 0,
        len % (2 * j) == 0,
    ensures
        exchanged(v, j, k).subrange(base, base + len) == group_exchanged(
            v.subrange(base, base + len),
            base,
            j,
            k,
        ),
{
    let s = v.subrange(base, base + len);
    let out = exchanged(v, j, k).subrange(base, base + len);
    assert forall|x: int| 0 <= x < len implies #[trigger] out[x] == group_exchanged(
        s,
        base,
        j,
        k,
    )[x] by {
        lemma_shifted_pair(base, x, j);
        lemma_partner(x, j, len);
        assert(s[x] == v[base + x]);
        assert(s[partner(x, j)] == v[base + partner(x, j)]);
    }
    assert(out =~= group_exchanged(s, base, j, k));
}

pub(crate) proof fn lemma_merged_in_group(v: Seq<int>, base: int, len: int, e: nat, k: int)
    requires
        0 <= base,
        0 <= len,
        base + len <= v.len(),
        base % (2 * pow2(e)) as int == 0,
        len % (2 * pow2(e)) as int == 0,
    ensures
        merged(v, pow2(e) as int, k).subrange(base, base + len) == group_merged(
            v.subrange(base, base + len),
            base,
            pow2(e) as int,
            k,
        ),
    decreases e,
{
    let j = pow2(e) as int;
    lemma_pow2_pos(e);
    law_small_steps_stay_in_group(v, base, len, j, k);
    let next = exchanged(v, j, k);
    if e == 0 {
        lemma2_to64();
        assert(merged(next, 0, k) == next);
        let s = next.subrange(base, base + len);
        assert(group_merged(s, base, 0, k) == s);
    } else {
        let p = (e - 1) as nat;
        lemma_pow2_unfold(e);
        lemma_multiple_of_part(base, j, 2);
        lemma_multiple_of_part(len, j, 2);
        lemma_merged_in_group(next, base, len, p, k);
    }
}

pub(crate) proof fn lemma_network_in_group(v: Seq<int>, base: int, len: int, e: nat)
    requires
        0 <= base,
        0 <= len,
        base + len <= v.len(),
        base % pow2(e) as int == 0,
        len % pow2(e) as int == 0,
    ensures
        network(v, pow2(e) as int).subrange(base, base + len) == group_network(
            v.subrange(base, base + len),
            base,
            pow2(e) as int,
        ),
    decreases e,
{
    if e == 0 {
        lemma2_to64();
    } else {
        let p = (e - 1) as nat;
        let h = pow2(p) as int;
        lemma_pow2_pos(p);
        lemma_pow2_unfold(e);
        lemma_multiple_of_part(base, h, 2);
        lemma_multiple_of_part(len, h, 2);
        lemma_network_in_group(v, base, len, p);
        lemma_network_len(v, h);
        lemma_merged_in_group(network(v, h), base, len, p, 2 * h);
    }
}

} // verus!
