//! Rounding to nearest, ties to the even pattern: what it means, that it picks
//! exactly one magnitude pattern, and the routine that carries it out.

use vstd::prelude::*;
use vstd::arithmetic::power2::{pow2, lemma_pow2_pos, lemma_pow2_unfold, lemma_pow2_adds};
use crate::scalar::{magnitude, INFINITY_BITS};

verus! {

/// Twice the midpoint between the magnitude `k` and the one below it.
pub open spec fn low_sum(k: nat) -> int {
    (magnitude((k - 1) as nat) + magnitude(k)) as int
}

/// Twice the midpoint between the magnitude `k` and the one above it.
pub open spec fn high_sum(k: nat) -> int {
    (magnitude(k) + magnitude(k + 1)) as int
}

/// The magnitude pattern `k` is the one nearest to `n / d` units, a tie going
/// to the even pattern. What lies at or beyond the midpoint between the
/// largest finite magnitude and 2^277 goes to infinity.
pub open spec fn nearest(n: int, d: int, k: nat) -> bool {
    &&& k <= INFINITY_BITS
    &&& k > 0 ==> if k % 2 == 0 {
        low_sum(k) * d <= 2 * n
    } else {
        low_sum(k) * d < 2 * n
    }
    &&& k < INFINITY_BITS ==> if k % 2 == 0 {
        2 * n <= high_sum(k) * d
    } else {
        2 * n < high_sum(k) * d
    }
}

/// The magnitude pattern that `n / d` units round to.
pub open spec fn round_nearest(n: int, d: int) -> nat {
    choose|k: nat| nearest(n, d, k)
}

/// As `nearest`, for the square root of `n` units: the comparisons with the
/// midpoints are made between squares.
pub open spec fn nearest_root(n: int, k: nat) -> bool {
    &&& k <= INFINITY_BITS
    &&& k > 0 ==> if k % 2 == 0 {
        low_sum(k) * low_sum(k) <= 4 * n
    } else {
        low_sum(k) * low_sum(k) < 4 * n
    }
    &&& k < INFINITY_BITS ==> if k % 2 == 0 {
        4 * n <= high_sum(k) * high_sum(k)
    } else {
        4 * n < high_sum(k) * high_sum(k)
    }
}

/// The magnitude pattern that the square root of `n` units rounds to.
pub open spec fn round_nearest_root(n: int) -> nat {
    choose|k: nat| nearest_root(n, k)
}

/// A significand `q` at the quantum exponent `x` is the magnitude of the
/// pattern `x * 2^23 + q`.
pub proof fn lemma_magnitude_compose(q: nat, x: nat)
    requires
        q <= 0x100_0000,
        q >= 0x80_0000 || x == 0,
    ensures
        magnitude(x * 0x80_0000 + q) == q * pow2(x),
{
    let k = x * 0x80_0000 + q;
    if q < 0x80_0000 {
        assert(pow2(0) == 1) by {
            lemma_pow2_unfold(1);
            vstd::arithmetic::power2::lemma2_to64();
        }
        assert(k == q);
        assert(q * pow2(0) == q);
    } else if q < 0x100_0000 {
        assert(k / 0x80_0000 == x + 1);
        assert(k % 0x80_0000 == q - 0x80_0000);
    } else {
        assert(k / 0x80_0000 == x + 2);
        assert(k % 0x80_0000 == 0);
        lemma_pow2_unfold(x + 1);
        assert(pow2(x + 1) == 2 * pow2(x));
        assert(0x80_0000 * (2 * pow2(x)) == 0x100_0000 * pow2(x)) by (nonlinear_arith);
    }
}

/// Each magnitude pattern stands for more units than the one before it.
pub proof fn lemma_magnitude_step(k: nat)
    requires
        k < INFINITY_BITS,
    ensures
        magnitude(k) < magnitude(k + 1),
{
    let e = k / 0x80_0000;
    let f = k % 0x80_0000;
    if f + 1 < 0x80_0000 {
        assert((k + 1) / 0x80_0000 == e);
        assert((k + 1) % 0x80_0000 == f + 1);
        if e > 0 {
            let p = pow2((e - 1) as nat);
            lemma_pow2_pos((e - 1) as nat);
            assert((0x80_0000 + f) * p < (0x80_0000 + f + 1) * p) by (nonlinear_arith)
                requires
                    p > 0,
            ;
        }
    } else {
        assert((k + 1) / 0x80_0000 == e + 1);
        assert((k + 1) % 0x80_0000 == 0);
        lemma_pow2_unfold(e + 1);
        if e == 0 {
            assert(pow2(0) == 1) by {
                vstd::arithmetic::power2::lemma2_to64();
            }
        } else {
            let p = pow2((e - 1) as nat);
            lemma_pow2_pos((e - 1) as nat);
            lemma_pow2_unfold(e);
            assert(pow2(e) == 2 * p);
            assert((0x80_0000 + f) * p < 0x80_0000 * (2 * p)) by (nonlinear_arith)
                requires
                    p > 0,
                    f < 0x80_0000,
            ;
        }
    }
}

/// More pattern, more units.
pub proof fn lemma_magnitude_increasing(k1: nat, k2: nat)
    requires
        k1 < k2 <= INFINITY_BITS,
    ensures
        magnitude(k1) < magnitude(k2),
    decreases k2 - k1,
{
    if k1 + 1 < k2 {
        lemma_magnitude_increasing(k1, (k2 - 1) as nat);
    }
    lemma_magnitude_step((k2 - 1) as nat);
}

/// Magnitude patterns and the units they stand for are ordered alike.
pub proof fn lemma_magnitude_order(k1: nat, k2: nat)
    requires
        k1 <= INFINITY_BITS,
        k2 <= INFINITY_BITS,
    ensures
        (k1 < k2) == (magnitude(k1) < magnitude(k2)),
        (k1 == k2) == (magnitude(k1) == magnitude(k2)),
{
    if k1 < k2 {
        lemma_magnitude_increasing(k1, k2);
    } else if k2 < k1 {
        lemma_magnitude_increasing(k2, k1);
    }
}

/// Rounding to nearest picks at most one pattern.
pub proof fn lemma_nearest_unique(n: int, d: int, k1: nat, k2: nat)
    requires
        d > 0,
        nearest(n, d, k1),
        nearest(n, d, k2),
    ensures
        k1 == k2,
{
    if k1 < k2 {
        lemma_nearest_ordered(n, d, k1, k2);
    } else if k2 < k1 {
        lemma_nearest_ordered(n, d, k2, k1);
    }
}

/// Of two patterns that a ratio rounds to, the first is not below the
/// second.
proof fn lemma_nearest_ordered(n: int, d: int, k1: nat, k2: nat)
    requires
        d > 0,
        nearest(n, d, k1),
        nearest(n, d, k2),
        k1 <= k2,
    ensures
        k1 == k2,
{
    if k1 == k2 {
        return ;
    }
    let h = high_sum(k1);
    let l = low_sum(k2);
    lemma_magnitude_order(k1, (k2 - 1) as nat);
    lemma_magnitude_order(k1 + 1, k2);
    assert(h <= l);
    assert(h * d <= l * d) by (nonlinear_arith)
        requires
            h <= l,
            d > 0,
    ;
    if h < l {
        assert(h * d < l * d) by (nonlinear_arith)
            requires
                h < l,
                d > 0,
        ;
    }
}

/// Rounding a square root to nearest picks at most one pattern.
pub proof fn lemma_nearest_root_unique(n: int, k1: nat, k2: nat)
    requires
        nearest_root(n, k1),
        nearest_root(n, k2),
    ensures
        k1 == k2,
{
    if k1 < k2 {
        lemma_nearest_root_ordered(n, k1, k2);
    } else if k2 < k1 {
        lemma_nearest_root_ordered(n, k2, k1);
    }
}

/// Of two patterns that a root rounds to, the first is not below the
/// second.
proof fn lemma_nearest_root_ordered(n: int, k1: nat, k2: nat)
    requires
        nearest_root(n, k1),
        nearest_root(n, k2),
        k1 <= k2,
    ensures
        k1 == k2,
{
    if k1 == k2 {
        return ;
    }
    let h = high_sum(k1);
    let l = low_sum(k2);
    lemma_magnitude_order(k1, (k2 - 1) as nat);
    lemma_magnitude_order(k1 + 1, k2);
    assert(0 <= h <= l);
    assert(h * h <= l * l) by (nonlinear_arith)
        requires
            0 <= h <= l,
    ;
    if h < l {
        assert(h * h < l * l) by (nonlinear_arith)
            requires
                0 <= h < l,
        ;
    }
}


/// The value `(m + r) * 2^(u - 200)` units, with `r` zero when `sticky` is
/// unset and strictly between zero and one when it is set, rounds to the
/// magnitude pattern `k`. Both sides of each comparison are scaled by 2^200
/// so that they are integers.
pub open spec fn bracketed(m: nat, u: nat, sticky: bool, k: nat) -> bool {
    let w = pow2(200) as int;
    let v = (m * pow2(u)) as int;
    let v1 = ((m + 1) * pow2(u)) as int;
    &&& k <= INFINITY_BITS
    &&& k > 0 ==> if sticky || k % 2 == 0 {
        low_sum(k) * w <= 2 * v
    } else {
        low_sum(k) * w < 2 * v
    }
    &&& k < INFINITY_BITS ==> if sticky {
        2 * v1 <= high_sum(k) * w
    } else if k % 2 == 0 {
        2 * v <= high_sum(k) * w
    } else {
        2 * v < high_sum(k) * w
    }
}

/// A bracketed rational rounds to the bracket's pattern.
pub proof fn lemma_bracketed_nearest(n: int, d: int, m: nat, u: nat, sticky: bool, k: nat)
    requires
        d > 0,
        bracketed(m, u, sticky, k),
        !sticky ==> m * pow2(u) * d == n * pow2(200),
        sticky ==> m * pow2(u) * d < n * pow2(200) < (m + 1) * pow2(u) * d,
    ensures
        nearest(n, d, k),
{
    let w = pow2(200) as int;
    let v = (m * pow2(u)) as int;
    let v1 = ((m + 1) * pow2(u)) as int;
    lemma_pow2_pos(200);
    if k > 0 {
        let l = low_sum(k);
        if sticky || k % 2 == 0 {
            assert(l * d <= 2 * n) by (nonlinear_arith)
                requires
                    l * w <= 2 * v,
                    v * d <= n * w,
                    d > 0,
                    w > 0,
            ;
        }
        if sticky {
            assert(l * d < 2 * n) by (nonlinear_arith)
                requires
                    l * w <= 2 * v,
                    v * d < n * w,
                    d > 0,
                    w > 0,
            ;
        } else if k % 2 != 0 {
            assert(l * d < 2 * n) by (nonlinear_arith)
                requires
                    l * w < 2 * v,
                    v * d == n * w,
                    d > 0,
                    w > 0,
            ;
        }
    }
    if k < INFINITY_BITS {
        let h = high_sum(k);
        if sticky {
            assert(2 * n < h * d) by (nonlinear_arith)
                requires
                    2 * v1 <= h * w,
                    n * w < v1 * d,
                    d > 0,
                    w > 0,
            ;
        } else if k % 2 == 0 {
            assert(2 * n <= h * d) by (nonlinear_arith)
                requires
                    2 * v <= h * w,
                    v * d == n * w,
                    d > 0,
                    w > 0,
            ;
        } else {
            assert(2 * n < h * d) by (nonlinear_arith)
                requires
                    2 * v < h * w,
                    v * d == n * w,
                    d > 0,
                    w > 0,
            ;
        }
    }
}

/// Powers of two grow with the exponent.
pub proof fn lemma_pow2_le(a: nat, b: nat)
    requires
        a <= b,
    ensures
        0 < pow2(a) <= pow2(b),
{
    lemma_pow2_pos(a);
    if a < b {
        vstd::arithmetic::power2::lemma_pow2_strictly_increases(a, b);
    }
}

/// A dividend between two multiples of the divisor has its quotient
/// between the two factors.
pub proof fn lemma_div_between(m: int, p: int, lo: int, hi: int)
    requires
        p > 0,
        lo * p <= m < hi * p,
    ensures
        lo <= m / p < hi,
{
    vstd::arithmetic::div_mod::lemma_fundamental_div_mod(m, p);
    vstd::arithmetic::div_mod::lemma_mod_bound(m, p);
    let q = m / p;
    let r = m % p;
    assert(lo <= q) by (nonlinear_arith)
        requires
            lo * p <= p * q + r,
            0 <= r < p,
            p > 0,
    ;
    assert(q < hi) by (nonlinear_arith)
        requires
            p * q + r < hi * p,
            0 <= r < p,
            p > 0,
    ;
}

/// Two to the `s`.
pub(crate) fn pow2_u64(s: u32) -> (p: u64)
    requires
        s <= 63,
    ensures
        p == pow2(s as nat),
{
    let mut p: u64 = 1;
    let mut i: u32 = 0;
    proof {
        vstd::arithmetic::power2::lemma2_to64();
    }
    while i < s
        invariant
            i <= s <= 63,
            p == pow2(i as nat),
        decreases s - i,
    {
        proof {
            lemma_pow2_unfold((i + 1) as nat);
            lemma_pow2_le((i + 1) as nat, 63);
            vstd::arithmetic::power2::lemma2_to64_rest();
        }
        p = p * 2;
        i = i + 1;
    }
    p
}

/// The number of bits needed to write `m`.
pub(crate) fn bit_length(m: u64) -> (l: u32)
    requires
        0 < m < 0x8000_0000_0000_0000,
    ensures
        1 <= l <= 63,
        pow2((l - 1) as nat) <= m < pow2(l as nat),
{
    let mut l: u32 = 1;
    let mut p: u64 = 2;
    proof {
        vstd::arithmetic::power2::lemma2_to64();
    }
    while p <= m
        invariant
            1 <= l <= 63,
            p == pow2(l as nat),
            pow2((l - 1) as nat) <= m < 0x8000_0000_0000_0000,
        decreases 64 - l,
    {
        proof {
            vstd::arithmetic::power2::lemma2_to64_rest();
            if l >= 63 {
                lemma_pow2_le(63, l as nat);
            }
            lemma_pow2_unfold((l + 1) as nat);
        }
        p = p * 2;
        l = l + 1;
    }
    l
}


/// A quotient and remainder scaled by a power of two.
proof fn lemma_scale_identity(q: int, p: int, rem: int, uu: int, xw: int)
    requires
        p * uu == xw,
    ensures
        (q * p + rem) * uu == q * xw + rem * uu,
        (q * p + rem + 1) * uu == q * xw + (rem + 1) * uu,
{
    assert((q * p + rem) * uu == q * (p * uu) + rem * uu) by (nonlinear_arith);
    assert((q * p + rem + 1) * uu == q * (p * uu) + (rem + 1) * uu) by (nonlinear_arith);
}

/// A value of at least 2^277 units rounds to infinity.
proof fn lemma_round_overflow(m: nat, u: nat, l: nat, sticky: bool)
    requires
        l >= 1,
        pow2((l - 1) as nat) <= m,
        u + l - 1 >= 477,
    ensures
        bracketed(m, u, sticky, INFINITY_BITS as nat),
{
    let w = pow2(200) as int;
    let uu = pow2(u) as int;
    let top = (u + l - 1) as nat;
    let inf = INFINITY_BITS as nat;
    vstd::arithmetic::power2::lemma2_to64();
    lemma_pow2_pos(200);
    lemma_pow2_pos(u);
    lemma_pow2_adds((l - 1) as nat, u);
    lemma_magnitude_increasing((inf - 1) as nat, inf);
    assert(inf / 0x80_0000 == 255 && inf % 0x80_0000 == 0);
    lemma_pow2_adds(23, 254);
    assert(magnitude(inf) == pow2(277));
    lemma_pow2_adds(277, 200);
    lemma_pow2_le(477, top);
    let lead = pow2((l - 1) as nat) as int;
    assert(lead * uu <= m * uu) by (nonlinear_arith)
        requires
            lead <= m,
            uu > 0,
    ;
    let t = pow2(277) as int;
    assert(low_sum(inf) * w < 2 * (t * w)) by (nonlinear_arith)
        requires
            low_sum(inf) < 2 * t,
            w > 0,
    ;
}

/// A value below 2^-64 units rounds to zero.
proof fn lemma_round_tiny(m: nat, u: nat, sticky: bool)
    requires
        m < 0x8000_0000_0000_0000,
        u <= 136,
    ensures
        bracketed(m, u, sticky, 0),
{
    let uu = pow2(u) as int;
    vstd::arithmetic::power2::lemma2_to64();
    lemma_pow2_pos(u);
    assert(magnitude(0) == 0);
    assert(magnitude(1) == 1);
    assert(high_sum(0) == 1);
    lemma_pow2_le(u, 136);
    lemma_pow2_adds(64, 136);
    let c = pow2(136) as int;
    assert(2 * ((m + 1) * uu) <= 0x1_0000_0000_0000_0000 * c) by (nonlinear_arith)
        requires
            0 <= m + 1 <= 0x8000_0000_0000_0000,
            0 < uu <= c,
    ;
    assert(m * uu <= (m + 1) * uu) by (nonlinear_arith)
        requires
            uu > 0,
    ;
}

/// A value that is a magnitude rounds to it.
proof fn lemma_round_exact(m: nat, u: nat, xq: nat, sh: nat, q: nat)
    requires
        u == xq + 200 + sh,
        q == m * pow2(sh),
        q < 0x100_0000,
        xq <= 253,
        q >= 0x80_0000 || xq == 0,
    ensures
        bracketed(m, u, false, xq * 0x80_0000 + q),
{
    let k = xq * 0x80_0000 + q;
    let w = pow2(200) as int;
    let uu = pow2(u) as int;
    let ps = pow2(sh) as int;
    let px = pow2(xq) as int;
    lemma_pow2_pos(200);
    lemma_magnitude_compose(q, xq);
    lemma_pow2_adds(sh, xq);
    lemma_pow2_adds(sh + xq, 200);
    assert(uu == ps * px * w);
    let mk = magnitude(k) as int;
    assert(m * uu == mk * w) by (nonlinear_arith)
        requires
            uu == ps * px * w,
            q == m * ps,
            mk == q * px,
    ;
    if k > 0 {
        lemma_magnitude_increasing((k - 1) as nat, k);
        assert(low_sum(k) * w < 2 * (mk * w)) by (nonlinear_arith)
            requires
                low_sum(k) < 2 * mk,
                w > 0,
        ;
    }
    lemma_magnitude_increasing(k, k + 1);
    assert(2 * (mk * w) < high_sum(k) * w) by (nonlinear_arith)
        requires
            2 * mk < high_sum(k),
            w > 0,
    ;
}

/// The scaled quantities that the rounding decision compares.
proof fn lemma_round_scaled(m: nat, u: nat, xq: nat, s: nat, q: nat, rem: nat)
    requires
        s + u == xq + 200,
        m == q * pow2(s) + rem,
        q < 0x100_0000,
        q >= 0x80_0000 || xq == 0,
    ensures
        magnitude(xq * 0x80_0000 + q) * pow2(200) + rem * pow2(u) == m * pow2(u),
        magnitude(xq * 0x80_0000 + q + 1) * pow2(200) == magnitude(xq * 0x80_0000 + q) * pow2(
            200,
        ) + pow2(s) * pow2(u),
{
    let w = pow2(200) as int;
    let uu = pow2(u) as int;
    let p = pow2(s) as int;
    let px = pow2(xq) as int;
    let k0 = xq * 0x80_0000 + q;
    lemma_pow2_adds(s, u);
    lemma_pow2_adds(xq, 200);
    let xw = px * w;
    assert(p * uu == xw);
    lemma_scale_identity(q as int, p, rem as int, uu, xw);
    lemma_magnitude_compose(q, xq);
    lemma_magnitude_compose(q + 1, xq);
    let mk = magnitude(k0) as int;
    let mk1 = magnitude(k0 + 1) as int;
    assert(mk * w == q * xw) by (nonlinear_arith)
        requires
            mk == q * px,
            xw == px * w,
    ;
    assert(mk1 * w == q * xw + xw) by (nonlinear_arith)
        requires
            mk1 == (q + 1) * px,
            xw == px * w,
    ;
}

/// Rounding down is right below the midpoint, and at it when that leaves an
/// even pattern.
proof fn lemma_round_down(m: nat, u: nat, sticky: bool, xq: nat, s: nat, q: nat, rem: nat)
    requires
        s >= 1,
        s + u == xq + 200,
        m == q * pow2(s) + rem,
        q < 0x100_0000,
        q >= 0x80_0000 || xq == 0,
        xq <= 253,
        2 * rem < pow2(s) || (2 * rem == pow2(s) && !sticky && q % 2 == 0),
    ensures
        bracketed(m, u, sticky, xq * 0x80_0000 + q),
{
    let w = pow2(200) as int;
    let uu = pow2(u) as int;
    let p = pow2(s) as int;
    let k0 = xq * 0x80_0000 + q;
    let mk = magnitude(k0) as int;
    let mk1 = magnitude(k0 + 1) as int;
    lemma_round_scaled(m, u, xq, s, q, rem);
    lemma_pow2_pos(200);
    lemma_pow2_pos(u);
    lemma_pow2_unfold(s);
    let pu = p * uu;
    let ru = rem * uu;
    assert(ru >= 0) by (nonlinear_arith)
        requires
            ru == rem * uu,
            rem >= 0,
            uu > 0,
    ;
    if k0 > 0 {
        lemma_magnitude_increasing((k0 - 1) as nat, k0);
        assert(low_sum(k0) * w < 2 * (mk * w)) by (nonlinear_arith)
            requires
                low_sum(k0) < 2 * mk,
                w > 0,
        ;
    }
    assert(high_sum(k0) * w == 2 * (mk * w) + pu) by (nonlinear_arith)
        requires
            high_sum(k0) == mk + mk1,
            mk1 * w == mk * w + pu,
    ;
    if 2 * rem < p {
        assert(2 * ((rem + 1) * uu) <= pu) by (nonlinear_arith)
            requires
                2 * (rem + 1) <= p,
                pu == p * uu,
                uu > 0,
        ;
        assert((m + 1) * uu == m * uu + uu) by (nonlinear_arith);
        assert((rem + 1) * uu == ru + uu) by (nonlinear_arith)
            requires
                ru == rem * uu,
        ;
    } else {
        assert(2 * ru == pu) by (nonlinear_arith)
            requires
                2 * rem == p,
                pu == p * uu,
                ru == rem * uu,
        ;
        assert(k0 % 2 == 0);
    }
}

/// Rounding up is right above the midpoint, and at it when that leaves an
/// even pattern or when the value lies a little above what `m` shows.
proof fn lemma_round_up(m: nat, u: nat, sticky: bool, xq: nat, s: nat, q: nat, rem: nat)
    requires
        s >= 1,
        s + u == xq + 200,
        m == q * pow2(s) + rem,
        rem < pow2(s),
        q < 0x100_0000,
        q >= 0x80_0000 || xq == 0,
        xq <= 253,
        2 * rem > pow2(s) || (2 * rem == pow2(s) && (sticky || q % 2 == 1)),
    ensures
        bracketed(m, u, sticky, xq * 0x80_0000 + q + 1),
{
    let w = pow2(200) as int;
    let uu = pow2(u) as int;
    let p = pow2(s) as int;
    let k0 = xq * 0x80_0000 + q;
    let k = k0 + 1;
    let mk = magnitude(k0) as int;
    let mk1 = magnitude(k0 + 1) as int;
    lemma_round_scaled(m, u, xq, s, q, rem);
    lemma_pow2_pos(200);
    lemma_pow2_pos(u);
    let pu = p * uu;
    let ru = rem * uu;
    assert(low_sum(k) == high_sum(k0));
    assert(high_sum(k0) * w == 2 * (mk * w) + pu) by (nonlinear_arith)
        requires
            high_sum(k0) == mk + mk1,
            mk1 * w == mk * w + pu,
    ;
    if 2 * rem > p {
        assert(2 * ru > pu) by (nonlinear_arith)
            requires
                2 * rem > p,
                pu == p * uu,
                ru == rem * uu,
                uu > 0,
        ;
    } else {
        assert(2 * ru == pu) by (nonlinear_arith)
            requires
                2 * rem == p,
                pu == p * uu,
                ru == rem * uu,
        ;
        assert(sticky || k % 2 == 0);
    }
    if k < INFINITY_BITS {
        lemma_magnitude_increasing(k, k + 1);
        assert(2 * (mk1 * w) < high_sum(k) * w) by (nonlinear_arith)
            requires
                2 * mk1 < high_sum(k),
                w > 0,
        ;
        assert((rem + 1) * uu <= pu) by (nonlinear_arith)
            requires
                rem + 1 <= p,
                pu == p * uu,
                uu > 0,
        ;
        assert((m + 1) * uu == m * uu + uu) by (nonlinear_arith);
        assert((rem + 1) * uu == ru + uu) by (nonlinear_arith)
            requires
                ru == rem * uu,
        ;
    }
}

/// How the leading bits of `m` fall when `s` low bits are dropped.
proof fn lemma_quotient_range(m: nat, l: nat, s: nat, normal: bool)
    requires
        l >= 1,
        pow2((l - 1) as nat) <= m < pow2(l),
        normal ==> l == s + 24,
        !normal ==> l <= s + 23,
    ensures
        m / pow2(s) < 0x100_0000,
        normal ==> m / pow2(s) >= 0x80_0000,
        !normal ==> m / pow2(s) < 0x80_0000,
{
    let p = pow2(s) as int;
    vstd::arithmetic::power2::lemma2_to64();
    lemma_pow2_pos(s);
    lemma_pow2_adds(s, 24);
    lemma_pow2_adds(s, 23);
    if normal {
        lemma_div_between(m as int, p, 0x80_0000, 0x100_0000);
    } else {
        lemma_pow2_le(l, s + 23);
        assert(0 * p == 0) by (nonlinear_arith);
        lemma_div_between(m as int, p, 0, 0x80_0000);
    }
}

/// How the leading bits of `m` fall when it is shifted up by `sh`.
pub proof fn lemma_product_range(m: nat, l: nat, sh: nat, normal: bool)
    requires
        l >= 1,
        pow2((l - 1) as nat) <= m < pow2(l),
        normal ==> l + sh == 24,
        !normal ==> l + sh < 24,
    ensures
        m * pow2(sh) < 0x100_0000,
        normal ==> m * pow2(sh) >= 0x80_0000,
{
    let ps = pow2(sh) as int;
    vstd::arithmetic::power2::lemma2_to64();
    lemma_pow2_pos(sh);
    lemma_pow2_adds(l, sh);
    lemma_pow2_adds((l - 1) as nat, sh);
    lemma_pow2_le(l + sh, 24);
    let hi = pow2(l) as int;
    let lo = pow2((l - 1) as nat) as int;
    assert(m * ps < hi * ps) by (nonlinear_arith)
        requires
            m < hi,
            ps > 0,
    ;
    assert(lo * ps <= m * ps) by (nonlinear_arith)
        requires
            lo <= m,
            ps > 0,
    ;
}

/// Rounds `(m + r) * 2^(u - 200)` units to the nearest magnitude pattern,
/// where `r` is zero if `sticky` is unset and some amount strictly between
/// zero and one if it is set.
pub(crate) fn round_pack(m: u64, u: u32, sticky: bool) -> (k: u32)
    requires
        0 < m < 0x8000_0000_0000_0000,
        u <= 1000,
        sticky ==> m >= 0x100_0000,
    ensures
        bracketed(m as nat, u as nat, sticky, k as nat),
{
    let l: u32 = bit_length(m);
    let top: u32 = u + l - 1;
    let xq: u32 = if top >= 223 {
        top - 223
    } else {
        0
    };
    if xq >= 254 {
        proof {
            lemma_round_overflow(m as nat, u as nat, l as nat, sticky);
        }
        return INFINITY_BITS;
    }
    proof {
        vstd::arithmetic::power2::lemma2_to64();
        if sticky {
            if l < 25 {
                lemma_pow2_le(l as nat, 24);
            }
            assert(l >= 25);
        }
    }
    if xq + 200 <= u {
        let sh: u32 = u - (xq + 200);
        proof {
            lemma_product_range(m as nat, l as nat, sh as nat, top >= 223);
        }
        let ps: u64 = pow2_u64(sh);
        let q: u64 = m * ps;
        proof {
            lemma_round_exact(m as nat, u as nat, xq as nat, sh as nat, q as nat);
        }
        return xq * 0x80_0000 + (q as u32);
    }
    let s: u32 = xq + 200 - u;
    if s >= 64 {
        proof {
            lemma_round_tiny(m as nat, u as nat, sticky);
        }
        return 0;
    }
    let p: u64 = pow2_u64(s);
    proof {
        lemma_pow2_pos(s as nat);
    }
    let q: u64 = m / p;
    let rem: u64 = m % p;
    let half: u64 = p / 2;
    let up: bool = rem > half || (rem == half && (sticky || q % 2 == 1));
    proof {
        lemma_pow2_unfold(s as nat);
        lemma_quotient_range(m as nat, l as nat, s as nat, top >= 223);
        vstd::arithmetic::div_mod::lemma_fundamental_div_mod(m as int, p as int);
        assert(m == q * p + rem) by (nonlinear_arith)
            requires
                m == p * q + rem,
        ;
        if up {
            lemma_round_up(m as nat, u as nat, sticky, xq as nat, s as nat, q as nat, rem as nat);
        } else {
            lemma_round_down(
                m as nat,
                u as nat,
                sticky,
                xq as nat,
                s as nat,
                q as nat,
                rem as nat,
            );
        }
    }
    let k0: u32 = xq * 0x80_0000 + (q as u32);
    if up {
        k0 + 1
    } else {
        k0
    }
}


/// What rounds to `k` is what `round_nearest` names.
pub proof fn lemma_round_nearest_is(n: int, d: int, k: nat)
    requires
        d > 0,
        nearest(n, d, k),
    ensures
        round_nearest(n, d) == k,
{
    lemma_nearest_unique(n, d, round_nearest(n, d), k);
}

/// What the root rounds to is what `round_nearest_root` names.
pub proof fn lemma_round_nearest_root_is(n: int, k: nat)
    requires
        nearest_root(n, k),
    ensures
        round_nearest_root(n) == k,
{
    lemma_nearest_root_unique(n, round_nearest_root(n), k);
}

/// A finite magnitude rounds to itself.
pub proof fn lemma_nearest_exact(k: nat)
    requires
        k < INFINITY_BITS,
    ensures
        nearest(magnitude(k) as int, 1, k),
{
    if k > 0 {
        lemma_magnitude_increasing((k - 1) as nat, k);
    }
    lemma_magnitude_increasing(k, k + 1);
}

/// The significand of a finite magnitude pattern: its fraction bits, with the
/// implicit leading bit where the exponent bits are not all zero.
pub open spec fn significand(k: nat) -> nat {
    if k / 0x80_0000 == 0 {
        k % 0x80_0000
    } else {
        0x80_0000 + k % 0x80_0000
    }
}

/// The exponent of the last place of a finite magnitude pattern, in units.
pub open spec fn quantum(k: nat) -> nat {
    if k / 0x80_0000 == 0 {
        0
    } else {
        (k / 0x80_0000 - 1) as nat
    }
}

/// A magnitude is its significand times two to its quantum exponent.
pub proof fn lemma_magnitude_parts(k: nat)
    ensures
        magnitude(k) == significand(k) * pow2(quantum(k)),
{
    vstd::arithmetic::power2::lemma2_to64();
    if k / 0x80_0000 == 0 {
        assert(significand(k) * pow2(0) == significand(k));
    }
}

/// Splits a finite magnitude pattern into significand and quantum exponent.
pub(crate) fn decompose(k: u32) -> (r: (u64, u32))
    requires
        k < INFINITY_BITS,
    ensures
        r.0 == significand(k as nat),
        r.1 == quantum(k as nat),
        r.0 < 0x100_0000,
        r.1 <= 253,
        r.1 > 0 ==> r.0 >= 0x80_0000,
        magnitude(k as nat) == r.0 * pow2(r.1 as nat),
{
    proof {
        lemma_magnitude_parts(k as nat);
    }
    let e: u32 = k / 0x80_0000;
    let f: u32 = k % 0x80_0000;
    if e == 0 {
        (f as u64, 0)
    } else {
        ((0x80_0000 + f) as u64, e - 1)
    }
}


/// Shifts a nonzero significand up until its leading bit is the hidden bit.
pub(crate) fn normalize(m: u64) -> (r: (u64, u32))
    requires
        0 < m < 0x100_0000,
    ensures
        r.0 == m * pow2(r.1 as nat),
        0x80_0000 <= r.0 < 0x100_0000,
        r.1 <= 23,
{
    let l: u32 = bit_length(m);
    proof {
        vstd::arithmetic::power2::lemma2_to64();
        if l > 24 {
            lemma_pow2_le(24, (l - 1) as nat);
        }
    }
    let sh: u32 = 24 - l;
    proof {
        lemma_product_range(m as nat, l as nat, sh as nat, true);
    }
    let ps: u64 = pow2_u64(sh);
    (m * ps, sh)
}

/// The lower half of `nearest`: `n / d` lies at or above the midpoint below
/// `k`, strictly above where `k` is odd.
pub open spec fn reaches(n: int, d: int, k: nat) -> bool {
    k > 0 ==> if k % 2 == 0 {
        low_sum(k) * d <= 2 * n
    } else {
        low_sum(k) * d < 2 * n
    }
}

/// Searching downwards from `j` finds a pattern that the ratio rounds to.
proof fn lemma_nearest_search(n: int, d: int, j: nat)
    requires
        j <= INFINITY_BITS,
        j < INFINITY_BITS ==> !reaches(n, d, j + 1),
    ensures
        exists|k: nat| nearest(n, d, k),
    decreases j,
{
    if reaches(n, d, j) {
        assert(low_sum(j + 1) == high_sum(j));
        assert(nearest(n, d, j));
    } else {
        lemma_nearest_search(n, d, (j - 1) as nat);
    }
}

/// Every ratio has a pattern that it rounds to, and `round_nearest` names it.
pub proof fn lemma_round_nearest_total(n: int, d: int)
    ensures
        nearest(n, d, round_nearest(n, d)),
        round_nearest(n, d) <= INFINITY_BITS,
{
    lemma_nearest_search(n, d, INFINITY_BITS as nat);
}

/// Rounding keeps the order of what it rounds.
pub proof fn lemma_round_nearest_monotone(n1: int, n2: int, d: int)
    requires
        d > 0,
        n1 <= n2,
    ensures
        round_nearest(n1, d) <= round_nearest(n2, d),
{
    let k1 = round_nearest(n1, d);
    let k2 = round_nearest(n2, d);
    lemma_round_nearest_total(n1, d);
    lemma_round_nearest_total(n2, d);
    if k2 < k1 {
        let h = high_sum(k2);
        let l = low_sum(k1);
        lemma_magnitude_order(k2, (k1 - 1) as nat);
        lemma_magnitude_order(k2 + 1, k1);
        assert(h <= l);
        assert(h * d <= l * d) by (nonlinear_arith)
            requires
                h <= l,
                d > 0,
        ;
        if h < l {
            assert(h * d < l * d) by (nonlinear_arith)
                requires
                    h < l,
                    d > 0,
            ;
        }
    }
}

/// The lower half of `nearest_root`.
pub open spec fn reaches_root(n: int, k: nat) -> bool {
    k > 0 ==> if k % 2 == 0 {
        low_sum(k) * low_sum(k) <= 4 * n
    } else {
        low_sum(k) * low_sum(k) < 4 * n
    }
}

/// Searching downwards from `j` finds a pattern that the root rounds to.
proof fn lemma_nearest_root_search(n: int, j: nat)
    requires
        j <= INFINITY_BITS,
        j < INFINITY_BITS ==> !reaches_root(n, j + 1),
    ensures
        exists|k: nat| nearest_root(n, k),
    decreases j,
{
    if reaches_root(n, j) {
        assert(low_sum(j + 1) == high_sum(j));
        assert(nearest_root(n, j));
    } else {
        lemma_nearest_root_search(n, (j - 1) as nat);
    }
}

/// Every radicand has a pattern that its root rounds to, and
/// `round_nearest_root` names it.
pub proof fn lemma_round_nearest_root_total(n: int)
    ensures
        nearest_root(n, round_nearest_root(n)),
        round_nearest_root(n) <= INFINITY_BITS,
{
    lemma_nearest_root_search(n, INFINITY_BITS as nat);
}

/// The smallest normal magnitude is 2^23 units, and the largest subnormal
/// one a unit less.
pub proof fn lemma_first_normal()
    ensures
        magnitude(0x80_0000) == 0x80_0000,
        magnitude(0x7f_ffff) == 0x7f_ffff,
{
    vstd::arithmetic::power2::lemma2_to64();
    assert(0x80_0000nat / 0x80_0000 == 1 && 0x80_0000nat % 0x80_0000 == 0);
    assert(0x7f_ffffnat / 0x80_0000 == 0 && 0x7f_ffffnat % 0x80_0000 == 0x7f_ffff);
    assert(0x80_0000 * pow2(0) == 0x80_0000);
}

/// How far a normal magnitude lies from its neighbours: one last place up,
/// at most one last place down, and a last place is at most 2^-23 of the
/// magnitude.
pub proof fn lemma_spacing(k: nat)
    requires
        0x80_0000 <= k < INFINITY_BITS,
    ensures
        magnitude(k + 1) == magnitude(k) + pow2(quantum(k)),
        magnitude((k - 1) as nat) < magnitude(k),
        magnitude(k) - magnitude((k - 1) as nat) <= pow2(quantum(k)),
        0x100_0000 * pow2(quantum(k)) <= 2 * magnitude(k),
        k > 0x80_0000 ==> 0x100_0001 * (magnitude(k) - magnitude((k - 1) as nat)) <= 2
            * magnitude(k),
{
    let q = significand(k);
    let x = quantum(k);
    let s = pow2(x) as int;
    lemma_pow2_pos(x);
    assert(k == x * 0x80_0000 + q);
    lemma_magnitude_compose(q, x);
    lemma_magnitude_compose(q + 1, x);
    assert((q + 1) * s == q * s + s) by (nonlinear_arith);
    assert(0x80_0000 * s <= q * s) by (nonlinear_arith)
        requires
            0x80_0000 <= q,
            s > 0,
    ;
    lemma_magnitude_increasing((k - 1) as nat, k);
    if q > 0x80_0000 {
        assert(k - 1 == x * 0x80_0000 + (q - 1));
        lemma_magnitude_compose((q - 1) as nat, x);
        assert((q - 1) * s == q * s - s) by (nonlinear_arith);
        assert(0x80_0001 * s <= q * s) by (nonlinear_arith)
            requires
                0x80_0001 <= q,
                s > 0,
        ;
    } else if x > 0 {
        let t = pow2((x - 1) as nat) as int;
        lemma_pow2_unfold(x);
        lemma_pow2_pos((x - 1) as nat);
        assert(k - 1 == (x - 1) * 0x80_0000 + 0xff_ffff);
        lemma_magnitude_compose(0xff_ffff, (x - 1) as nat);
        assert(s == 2 * t);
        assert(0x80_0000 * (2 * t) - 0xff_ffff * t == t) by (nonlinear_arith);
        assert(0x100_0001 * t <= 2 * (0x80_0000 * (2 * t))) by (nonlinear_arith)
            requires
                t > 0,
        ;
    } else {
        assert(k == 0x80_0000);
        lemma_first_normal();
        assert(pow2(0) == 1) by {
            vstd::arithmetic::power2::lemma2_to64();
        }
    }
}

/// Rounding to a normal number moves a ratio by at most one part in 2^24:
/// for `n / d` from 2^23 units up and below 2^276 units, the result is a
/// normal finite magnitude `m` with `|m d - n| 2^24 <= n`.
pub proof fn lemma_round_relative(n: int, d: int)
    requires
        d > 0,
        0x80_0000 * d <= n < pow2(276) * d,
    ensures
        0x80_0000 <= round_nearest(n, d) < INFINITY_BITS,
        0xff_ffff * n <= 0x100_0000 * (magnitude(round_nearest(n, d)) * d) <= 0x100_0001 * n,
{
    let k = round_nearest(n, d);
    lemma_round_nearest_total(n, d);
    let m = magnitude(k) as int;
    if k == INFINITY_BITS {
        let inf = INFINITY_BITS as nat;
        assert(inf / 0x80_0000 == 255 && inf % 0x80_0000 == 0);
        assert((inf - 1) as nat / 0x80_0000 == 254 && (inf - 1) as nat % 0x80_0000 == 0x7f_ffff);
        vstd::arithmetic::power2::lemma2_to64();
        lemma_pow2_adds(23, 254);
        lemma_pow2_unfold(277);
        assert(magnitude(inf) == pow2(277));
        assert(low_sum(inf) >= 2 * pow2(276));
        let c = pow2(276) as int;
        assert(low_sum(inf) * d >= 2 * (c * d)) by (nonlinear_arith)
            requires
                low_sum(inf) >= 2 * c,
                d > 0,
        ;
    }
    if k < 0x80_0000 {
        lemma_magnitude_order(k + 1, 0x80_0000);
        lemma_magnitude_order(k, 0x7f_ffff);
        lemma_first_normal();
        let h = high_sum(k);
        assert(h <= 0xff_ffff);
        assert(h * d < 0x100_0000 * d) by (nonlinear_arith)
            requires
                h <= 0xff_ffff,
                d > 0,
        ;
    }
    lemma_spacing(k);
    let s = pow2(quantum(k)) as int;
    let below = m - magnitude((k - 1) as nat);
    let md = m * d;
    assert(low_sum(k) == 2 * m - below);
    assert(high_sum(k) == 2 * m + s);
    assert((2 * m - below) * d == 2 * md - below * d) by (nonlinear_arith)
        requires
            md == m * d,
    ;
    assert((2 * m + s) * d == 2 * md + s * d) by (nonlinear_arith)
        requires
            md == m * d,
    ;
    assert(0x100_0000 * (s * d) <= 2 * md) by (nonlinear_arith)
        requires
            0x100_0000 * s <= 2 * m,
            md == m * d,
            d > 0,
    ;
    if k > 0x80_0000 {
        assert(0x100_0001 * (below * d) <= 2 * md) by (nonlinear_arith)
            requires
                0x100_0001 * below <= 2 * m,
                md == m * d,
                d > 0,
        ;
    } else {
        lemma_first_normal();
    }
    assert(low_sum(k) * d <= 2 * n <= high_sum(k) * d);
}

/// Rounding a whole number of units moves it by at most one part in 2^24,
/// and not at all below 2^23 units.
pub proof fn lemma_round_whole(n: int)
    requires
        0 <= n < pow2(276),
    ensures
        round_nearest(n, 1) < INFINITY_BITS,
        0xff_ffff * n <= 0x100_0000 * magnitude(round_nearest(n, 1)) <= 0x100_0001 * n,
        n < 0x80_0000 ==> magnitude(round_nearest(n, 1)) == n,
{
    if n < 0x80_0000 {
        assert(magnitude(n as nat) == n);
        lemma_nearest_exact(n as nat);
        lemma_round_nearest_is(n, 1, n as nat);
    } else {
        lemma_round_relative(n, 1);
    }
}

/// The rounded square root of `n` units squared, for `n` from 2^46 up and
/// below 2^550, is a normal finite magnitude whose square lies within three
/// parts in 2^24 of `n`.
pub proof fn lemma_round_root_relative(n: int)
    requires
        pow2(46) < n < pow2(550),
    ensures
        0x80_0000 <= round_nearest_root(n) < INFINITY_BITS,
        0xff_fffd * n <= 0x100_0000 * (magnitude(round_nearest_root(n)) * magnitude(
            round_nearest_root(n),
        )) <= 0x100_0003 * n,
{
    let k = round_nearest_root(n);
    lemma_round_nearest_root_total(n);
    let m = magnitude(k) as int;
    vstd::arithmetic::power2::lemma2_to64();
    vstd::arithmetic::power2::lemma2_to64_rest();
    if k == INFINITY_BITS {
        let inf = INFINITY_BITS as nat;
        lemma_magnitude_order(0x7f00_0000, (inf - 1) as nat);
        assert(0x7f00_0000nat / 0x80_0000 == 254 && 0x7f00_0000nat % 0x80_0000 == 0);
        lemma_pow2_adds(23, 253);
        lemma_pow2_adds(275, 275);
        let l = low_sum(inf);
        let c = pow2(275) as int;
        assert(pow2(276) == magnitude(0x7f00_0000));
        lemma_pow2_unfold(276);
        assert(l >= 2 * c);
        assert(l * l >= 4 * (c * c)) by (nonlinear_arith)
            requires
                l >= 2 * c,
                c > 0,
        ;
    }
    if k < 0x80_0000 {
        lemma_magnitude_order(k + 1, 0x80_0000);
        lemma_magnitude_order(k, 0x7f_ffff);
        lemma_first_normal();
        let h = high_sum(k);
        assert(0 <= h <= 0xff_ffff);
        assert(h * h <= 0xff_ffff * 0xff_ffff) by (nonlinear_arith)
            requires
                0 <= h <= 0xff_ffff,
        ;
        lemma_pow2_adds(23, 23);
    }
    lemma_spacing(k);
    let s = pow2(quantum(k)) as int;
    let below = m - magnitude((k - 1) as nat);
    let l = low_sum(k);
    let h = high_sum(k);
    assert(l == 2 * m - below);
    assert(h == 2 * m + s);
    assert(l * l <= 4 * n <= h * h);
    assert(0x100_0000 * l >= 0xff_ffff * (2 * m));
    assert(0x100_0000 * h <= 0x100_0001 * (2 * m));
    let mm = m * m;
    let ll = l * l;
    let hh = h * h;
    assert(0x1_0000_0000_0000 * ll >= 0xffff_fe00_0001 * (4 * mm)) by (nonlinear_arith)
        requires
            0x100_0000 * l >= 0xff_ffff * (2 * m),
            m > 0,
            l >= 0,
            mm == m * m,
            ll == l * l,
    ;
    assert(0x1_0000_0000_0000 * hh <= 0x1_0000_0200_0001 * (4 * mm)) by (nonlinear_arith)
        requires
            0x100_0000 * h <= 0x100_0001 * (2 * m),
            m > 0,
            h >= 0,
            mm == m * m,
            hh == h * h,
    ;
    assert(0x1_0000_0000_0000 * (4 * n) >= 0xffff_fe00_0001 * (4 * mm));
    assert(0x1_0000_0000_0000 * (4 * n) <= 0x1_0000_0200_0001 * (4 * mm));
    assert(mm > 0) by (nonlinear_arith)
        requires
            mm == m * m,
            m > 0,
    ;
}

} // verus!
