//! How far rounding can carry a computed length, or the hit of a ray aimed
//! at the centre of a sphere, from the true one.
//!
//! Magnitudes are counted in units of 2^-149, so that one is 2^149 units and
//! the product of two magnitudes counts units of 2^-298.

use vstd::prelude::*;
use vstd::arithmetic::power2::{pow2, lemma_pow2_adds, lemma_pow2_pos};
use crate::geom::{unit_spec, Vec3};
use crate::rounding::{
    lemma_round_relative,
    lemma_round_root_relative,
    lemma_round_whole,
    round_nearest,
    round_nearest_root,
};
use crate::scalar::{magnitude, one, zero, Scalar, INFINITY_BITS, ONE_BITS};

verus! {

/// `a` lies within `j` parts in 2^24 of `b`.
pub open spec fn near(a: int, b: int, j: int) -> bool {
    (0x100_0000 - j) * b <= 0x100_0000 * a <= (0x100_0000 + j) * b
}

/// Products of near quantities are near.
proof fn lemma_near_mul(a: int, b: int, i: int, c: int, d: int, j: int)
    requires
        near(a, b, i),
        near(c, d, j),
        0 <= a,
        0 <= b,
        0 <= c,
        0 <= d,
        0 <= i <= 4000,
        0 <= j <= 4000,
    ensures
        near(a * c, b * d, i + j + 1),
{
    let n: int = 0x100_0000;
    let ac = a * c;
    let bd = b * d;
    assert(n * n * ac <= (n + i) * (n + j) * bd) by (nonlinear_arith)
        requires
            n * a <= (n + i) * b,
            n * c <= (n + j) * d,
            0 <= a,
            0 <= c,
            0 <= b,
            0 <= d,
            n > 0,
            i >= 0,
            j >= 0,
            ac == a * c,
            bd == b * d,
    ;
    assert((n + i) * (n + j) * bd <= n * ((n + i + j + 1) * bd)) by (nonlinear_arith)
        requires
            n == 0x100_0000,
            0 <= i <= 4000,
            0 <= j <= 4000,
            bd >= 0,
    ;
    assert(n * n * ac >= (n - i) * (n - j) * bd) by (nonlinear_arith)
        requires
            n * a >= (n - i) * b,
            n * c >= (n - j) * d,
            0 <= a,
            0 <= c,
            0 <= b,
            0 <= d,
            n == 0x100_0000,
            0 <= i <= 4000,
            0 <= j <= 4000,
            ac == a * c,
            bd == b * d,
    ;
    assert((n - i) * (n - j) * bd >= n * ((n - i - j - 1) * bd)) by (nonlinear_arith)
        requires
            n == 0x100_0000,
            0 <= i <= 4000,
            0 <= j <= 4000,
            bd >= 0,
    ;
    assert(bd >= 0) by (nonlinear_arith)
        requires
            bd == b * d,
            b >= 0,
            d >= 0,
    ;
    let lo = (n - i - j - 1) * bd;
    let hi = (n + i + j + 1) * bd;
    assert(n * lo <= n * (n * ac) <= n * hi) by (nonlinear_arith)
        requires
            n * n * ac <= (n + i) * (n + j) * bd,
            (n + i) * (n + j) * bd <= n * hi,
            n * n * ac >= (n - i) * (n - j) * bd,
            (n - i) * (n - j) * bd >= n * lo,
    ;
    assert(lo <= n * ac <= hi) by (nonlinear_arith)
        requires
            n * lo <= n * (n * ac) <= n * hi,
            n > 0,
    ;
}

/// What is near something near a third is near the third.
proof fn lemma_near_trans(a: int, b: int, i: int, c: int, j: int)
    requires
        near(a, b, i),
        near(b, c, j),
        0 <= a,
        0 <= b,
        0 <= c,
        0 <= i <= 4000,
        0 <= j <= 4000,
    ensures
        near(a, c, i + j + 1),
{
    assert(near(1, 1, 0));
    lemma_near_mul(a, b, i, b, c, j);
    // a b within b c, and b cancels
    let n: int = 0x100_0000;
    let k = i + j + 1;
    if b == 0 {
        assert(c == 0 && a == 0) by (nonlinear_arith)
            requires
                b == 0,
                (n - i) * b <= n * a <= (n + i) * b,
                (n - j) * c <= n * b <= (n + j) * c,
                n == 0x100_0000,
                0 <= i <= 4000,
                0 <= j <= 4000,
                0 <= a,
                0 <= c,
        ;
    } else {
        assert((n - k) * c <= n * a <= (n + k) * c) by (nonlinear_arith)
            requires
                (n - k) * (b * c) <= n * (a * b) <= (n + k) * (b * c),
                b > 0,
        ;
    }
}

/// Near quantities stay near when both are scaled.
proof fn lemma_near_scale(a: int, b: int, m: int, i: int)
    requires
        near(a, b, i),
        m >= 0,
    ensures
        near(a * m, b * m, i),
        near(m * a, m * b, i),
{
    let n: int = 0x100_0000;
    assert((n - i) * (b * m) <= n * (a * m) <= (n + i) * (b * m)) by (nonlinear_arith)
        requires
            (n - i) * b <= n * a <= (n + i) * b,
            m >= 0,
    ;
    assert(a * m == m * a && b * m == m * b) by (nonlinear_arith);
}

/// A common factor above zero can be dropped.
proof fn lemma_near_cancel(a: int, b: int, m: int, i: int)
    requires
        near(a * m, b * m, i),
        m > 0,
    ensures
        near(a, b, i),
{
    let n: int = 0x100_0000;
    assert((n - i) * b <= n * a <= (n + i) * b) by (nonlinear_arith)
        requires
            (n - i) * (b * m) <= n * (a * m) <= (n + i) * (b * m),
            m > 0,
    ;
}

/// Nearness the other way round costs one part more.
proof fn lemma_near_flip(a: int, b: int, i: int)
    requires
        near(a, b, i),
        0 <= a,
        0 <= b,
        0 <= i <= 4000,
    ensures
        near(b, a, i + 1),
{
    let n: int = 0x100_0000;
    assert((n - i - 1) * a <= n * b <= (n + i + 1) * a) by (nonlinear_arith)
        requires
            (n - i) * b <= n * a <= (n + i) * b,
            n == 0x100_0000,
            0 <= i <= 4000,
            0 <= a,
            0 <= b,
    ;
}

/// Where the squares are near, the quantities are.
proof fn lemma_near_root(a: int, b: int, j: int)
    requires
        near(a * a, b * b, j),
        0 <= a,
        0 <= b,
        0 <= j <= 4000,
    ensures
        near(a, b, j),
{
    let n: int = 0x100_0000;
    let aa = a * a;
    let bb = b * b;
    if n * a > (n + j) * b {
        assert(n * n * aa > (n + j) * (n + j) * bb) by (nonlinear_arith)
            requires
                n * a > (n + j) * b,
                (n + j) * b >= 0,
                aa == a * a,
                bb == b * b,
        ;
        assert((n + j) * (n + j) * bb >= n * ((n + j) * bb)) by (nonlinear_arith)
            requires
                n > 0,
                j >= 0,
                bb == b * b,
        ;
        assert(n * (n * aa) <= n * ((n + j) * bb)) by (nonlinear_arith)
            requires
                n * aa <= (n + j) * bb,
                n > 0,
        ;
        assert(n * n * aa == n * (n * aa)) by (nonlinear_arith);
    }
    if n * a < (n - j) * b {
        assert(n * n * aa < (n - j) * (n - j) * bb) by (nonlinear_arith)
            requires
                0 <= n * a < (n - j) * b,
                aa == a * a,
                bb == b * b,
        ;
        assert((n - j) * (n - j) * bb <= n * ((n - j) * bb)) by (nonlinear_arith)
            requires
                n == 0x100_0000,
                0 <= j <= 4000,
                bb == b * b,
        ;
        assert(n * (n * aa) >= n * ((n - j) * bb)) by (nonlinear_arith)
            requires
                n * aa >= (n - j) * bb,
                n > 0,
        ;
        assert(n * n * aa == n * (n * aa)) by (nonlinear_arith);
    }
}

/// The product of two quantities between powers of two.
proof fn lemma_mul_range(a: int, la: nat, ha: nat, b: int, lb: nat, hb: nat)
    requires
        pow2(la) <= a <= pow2(ha),
        pow2(lb) <= b <= pow2(hb),
    ensures
        pow2(la + lb) <= a * b <= pow2(ha + hb),
{
    lemma_pow2_adds(la, lb);
    lemma_pow2_adds(ha, hb);
    lemma_pow2_pos(la);
    lemma_pow2_pos(lb);
    let p = pow2(la) as int;
    let q = pow2(lb) as int;
    let r = pow2(ha) as int;
    let t = pow2(hb) as int;
    assert(p * q <= a * b <= r * t) by (nonlinear_arith)
        requires
            0 < p <= a <= r,
            0 < q <= b <= t,
    ;
}

/// From a bound on a product and on one factor to a bound on the other.
proof fn lemma_factor_range(m: int, c: int, lc: nat, hc: nat, lp: nat, hp: nat)
    requires
        0 <= m,
        pow2(lc) <= c <= pow2(hc),
        pow2(lp) <= m * c <= pow2(hp),
        hc <= lp,
        lc <= hp,
    ensures
        pow2((lp - hc) as nat) <= m <= pow2((hp - lc) as nat),
{
    lemma_pow2_adds((lp - hc) as nat, hc);
    lemma_pow2_adds((hp - lc) as nat, lc);
    lemma_pow2_pos(lc);
    let lo = pow2((lp - hc) as nat) as int;
    let hi = pow2((hp - lc) as nat) as int;
    let cl = pow2(lc) as int;
    let ch = pow2(hc) as int;
    assert(m <= hi) by (nonlinear_arith)
        requires
            m * c <= hi * cl,
            0 < cl <= c,
            0 <= m,
    ;
    assert(lo <= m) by (nonlinear_arith)
        requires
            lo * ch <= m * c,
            0 < c <= ch,
            0 <= m,
            0 <= lo,
    ;
}

/// What is near a quantity lies within a factor of two of it.
proof fn lemma_near_range(a: int, b: int, j: int, lb: nat, hb: nat)
    requires
        near(a, b, j),
        0 <= j <= 4000,
        1 <= lb,
        pow2(lb) <= b <= pow2(hb),
    ensures
        pow2((lb - 1) as nat) <= a <= pow2(hb + 1),
{
    vstd::arithmetic::power2::lemma_pow2_unfold(lb);
    vstd::arithmetic::power2::lemma_pow2_unfold(hb + 1);
    let n: int = 0x100_0000;
    assert(a <= 2 * b) by (nonlinear_arith)
        requires
            n * a <= (n + j) * b,
            n == 0x100_0000,
            0 <= j <= 4000,
            b >= 0,
    ;
    assert(2 * a >= b) by (nonlinear_arith)
        requires
            n * a >= (n - j) * b,
            n == 0x100_0000,
            0 <= j <= 4000,
            b >= 0,
    ;
}

/// A quantity whose square lies between two even powers of two.
proof fn lemma_root_range(a: int, l: nat, h: nat)
    requires
        0 <= a,
        pow2(2 * l) <= a * a <= pow2(2 * h),
    ensures
        pow2(l) <= a <= pow2(h),
{
    lemma_pow2_adds(l, l);
    lemma_pow2_adds(h, h);
    lemma_pow2_pos(l);
    lemma_pow2_pos(h);
    let p = pow2(l) as int;
    let q = pow2(h) as int;
    if a < p {
        assert(a * a < p * p) by (nonlinear_arith)
            requires
                0 <= a < p,
        ;
    }
    if a > q {
        assert(a * a > q * q) by (nonlinear_arith)
            requires
                a > q > 0,
        ;
    }
}

/// One is 2^149 units.
pub proof fn lemma_one_units()
    ensures
        magnitude(ONE_BITS as nat) == pow2(149),
        one().pattern() == ONE_BITS,
        !one().negative(),
{
    vstd::arithmetic::power2::lemma2_to64();
    assert(ONE_BITS as nat / 0x80_0000 == 127 && ONE_BITS as nat % 0x80_0000 == 0);
    lemma_pow2_adds(23, 126);
}

/// One half is 2^148 units.
pub proof fn lemma_half_units()
    ensures
        magnitude(crate::scalar::HALF_BITS as nat) == pow2(148),
        crate::scalar::half().pattern() == crate::scalar::HALF_BITS,
        !crate::scalar::half().negative(),
{
    vstd::arithmetic::power2::lemma2_to64();
    assert(crate::scalar::HALF_BITS as nat / 0x80_0000 == 126 && crate::scalar::HALF_BITS as nat
        % 0x80_0000 == 0);
    lemma_pow2_adds(23, 125);
}

/// The units that a finite number's magnitude counts.
pub open spec fn size(a: Scalar) -> int {
    magnitude(a.pattern()) as int
}

/// The product of two finite numbers, where it is zero or in the normal
/// range, is finite and within one part in 2^24 of the exact product.
pub proof fn lemma_mul_accuracy(a: Scalar, b: Scalar)
    requires
        a.finite(),
        b.finite(),
        size(a) * size(b) == 0 || pow2(172) <= size(a) * size(b) < pow2(425),
    ensures
        a.mul_spec(b).finite(),
        a.mul_spec(b).negative() == (a.negative() != b.negative()),
        near(size(a.mul_spec(b)) * pow2(149), size(a) * size(b), 1),
        size(a) * size(b) == 0 ==> size(a.mul_spec(b)) == 0,
{
    reveal(Scalar::mul_spec);
    let p = size(a) * size(b);
    let u = pow2(149) as int;
    let k = round_nearest(p, u);
    lemma_pow2_pos(149);
    vstd::arithmetic::power2::lemma2_to64();
    lemma_pow2_adds(23, 149);
    lemma_pow2_adds(276, 149);
    crate::rounding::lemma_round_nearest_total(p, u);
    crate::arith::lemma_compose_parts(a.negative() != b.negative(), k);
    assert(a.mul_spec(b) == Scalar::compose(a.negative() != b.negative(), k));
    if p == 0 {
        assert(magnitude(0) == 0);
        crate::rounding::lemma_nearest_exact(0);
        crate::rounding::lemma_round_nearest_is(0, u, 0);
        assert(k == 0);
        assert(size(a.mul_spec(b)) == 0);
        assert(size(a.mul_spec(b)) * pow2(149) == 0) by (nonlinear_arith)
            requires
                size(a.mul_spec(b)) == 0,
        ;
    } else {
        lemma_round_relative(p, u);
        assert(size(a.mul_spec(b)) == magnitude(k));
    }
}

/// The sum of two finite numbers that are not below zero is within one part
/// in 2^24 of the exact sum.
pub proof fn lemma_add_accuracy(a: Scalar, b: Scalar)
    requires
        a.finite(),
        b.finite(),
        !a.negative(),
        !b.negative(),
        size(a) + size(b) < pow2(276),
    ensures
        a.add_spec(b).finite(),
        !a.add_spec(b).negative(),
        near(size(a.add_spec(b)), size(a) + size(b), 1),
{
    reveal(Scalar::add_spec);
    let t = size(a) + size(b);
    crate::arith::lemma_from_units_parts(t, false);
    lemma_round_whole(t);
    assert(magnitude(0) == 0);
}

/// The square root of a finite number above zero is finite, not below zero,
/// and its square is within three parts in 2^24 of the number.
pub proof fn lemma_sqrt_accuracy(a: Scalar)
    requires
        a.finite(),
        !a.negative(),
        pow2(46) < size(a) * pow2(149) < pow2(550),
    ensures
        a.sqrt_spec().finite(),
        !a.sqrt_spec().negative(),
        size(a.sqrt_spec()) >= 0x80_0000,
        near(size(a.sqrt_spec()) * size(a.sqrt_spec()), size(a) * pow2(149), 3),
{
    reveal(Scalar::sqrt_spec);
    let n = size(a) * pow2(149);
    assert(magnitude(0) == 0);
    if a.zero() {
        assert(size(a) * pow2(149) == 0) by (nonlinear_arith)
            requires
                size(a) == 0,
        ;
    }
    lemma_round_root_relative(n);
    let k = round_nearest_root(n);
    crate::arith::lemma_compose_parts(false, k);
    crate::rounding::lemma_magnitude_order(0x80_0000, k);
    crate::rounding::lemma_first_normal();
}

/// The reciprocal of a finite number above zero, where it is in the normal
/// range, is within one part in 2^24 of the exact reciprocal.
pub proof fn lemma_reciprocal_accuracy(a: Scalar)
    requires
        a.finite(),
        !a.negative(),
        size(a) > 0,
        pow2(23) * size(a) <= pow2(298) < pow2(276) * size(a),
    ensures
        one().div_spec(a).finite(),
        !one().div_spec(a).negative(),
        near(size(one().div_spec(a)) * size(a), pow2(298) as int, 1),
{
    reveal(Scalar::div_spec);
    lemma_one_units();
    lemma_pow2_adds(149, 149);
    vstd::arithmetic::power2::lemma2_to64();
    assert(magnitude(0) == 0);
    let n = (magnitude(ONE_BITS as nat) * pow2(149)) as int;
    let d = size(a);
    lemma_round_relative(n, d);
    crate::arith::lemma_compose_parts(false, round_nearest(n, d));
}

/// The magnitude is zero or from 2^86 to 2^200 units: its square neither
/// falls below the normal range nor overflows.
pub open spec fn squarable(a: Scalar) -> bool {
    a.finite() && (size(a) == 0 || pow2(86) <= size(a) <= pow2(200))
}

/// The exact sum of the squares of the components, in units of 2^-298.
pub open spec fn square_sum(v: Vec3) -> int {
    size(v.0[0]) * size(v.0[0]) + size(v.0[1]) * size(v.0[1]) + size(v.0[2]) * size(v.0[2])
}

/// The square of a number that can be squared, and how large it is.
proof fn lemma_square_accuracy(a: Scalar)
    requires
        squarable(a),
    ensures
        a.mul_spec(a).finite(),
        !a.mul_spec(a).negative(),
        near(size(a.mul_spec(a)) * pow2(149), size(a) * size(a), 1),
        0 <= size(a.mul_spec(a)) <= pow2(252),
        size(a) * size(a) <= pow2(400),
        size(a) > 0 ==> size(a) * size(a) >= pow2(172),
{
    let m = size(a);
    if m == 0 {
        assert(m * m == 0) by (nonlinear_arith)
            requires
                m == 0,
        ;
        lemma_pow2_pos(400);
        lemma_pow2_pos(252);
        lemma_mul_accuracy(a, a);
    } else {
        lemma_mul_range(m, 86, 200, m, 86, 200);
        crate::rounding::lemma_pow2_le(400, 424);
        vstd::arithmetic::power2::lemma_pow2_strictly_increases(424, 425);
        lemma_mul_accuracy(a, a);
        let s = size(a.mul_spec(a));
        lemma_near_range(s * pow2(149), m * m, 1, 172, 400);
        lemma_pow2_pos(149);
        crate::rounding::lemma_pow2_le(149, 149);
        lemma_factor_range(s, pow2(149) as int, 149, 149, 171, 401);
    }
}

/// The squared length of a vector whose components can be squared is within
/// five parts in 2^24 of the exact sum of squares.
pub proof fn lemma_length_squared_accuracy(v: Vec3)
    requires
        squarable(v.0[0]),
        squarable(v.0[1]),
        squarable(v.0[2]),
    ensures
        v.length_squared_spec().finite(),
        !v.length_squared_spec().negative(),
        near(size(v.length_squared_spec()) * pow2(149), square_sum(v), 5),
{
    let u = pow2(149) as int;
    let sx = v.0[0].mul_spec(v.0[0]);
    let sy = v.0[1].mul_spec(v.0[1]);
    let sz = v.0[2].mul_spec(v.0[2]);
    lemma_square_accuracy(v.0[0]);
    lemma_square_accuracy(v.0[1]);
    lemma_square_accuracy(v.0[2]);
    lemma_pow2_pos(149);
    vstd::arithmetic::power2::lemma_pow2_unfold(253);
    vstd::arithmetic::power2::lemma_pow2_unfold(254);
    vstd::arithmetic::power2::lemma_pow2_unfold(255);
    crate::rounding::lemma_pow2_le(255, 276);
    vstd::arithmetic::power2::lemma_pow2_strictly_increases(255, 276);
    lemma_add_accuracy(sx, sy);
    let first = sx.add_spec(sy);
    assert(size(first) <= 2 * (size(sx) + size(sy)));
    lemma_add_accuracy(first, sz);
    let ls = first.add_spec(sz);
    assert(ls == v.length_squared_spec());
    let total = size(sx) + size(sy) + size(sz);
    assert(near(size(first) + size(sz), total, 1));
    lemma_near_trans(size(ls), size(first) + size(sz), 1, total, 1);
    lemma_near_scale(size(ls), total, u, 3);
    assert(total * u == size(sx) * u + size(sy) * u + size(sz) * u) by (nonlinear_arith)
        requires
            total == size(sx) + size(sy) + size(sz),
    ;
    assert(near(total * u, square_sum(v), 1));
    assert(size(ls) * u >= 0) by (nonlinear_arith)
        requires
            size(ls) >= 0,
            u > 0,
    ;
    assert(total * u >= 0) by (nonlinear_arith)
        requires
            total >= 0,
            u > 0,
    ;
    let xx = size(v.0[0]) * size(v.0[0]);
    let yy = size(v.0[1]) * size(v.0[1]);
    let zz = size(v.0[2]) * size(v.0[2]);
    assert(xx >= 0 && yy >= 0 && zz >= 0) by (nonlinear_arith)
        requires
            xx == size(v.0[0]) * size(v.0[0]),
            yy == size(v.0[1]) * size(v.0[1]),
            zz == size(v.0[2]) * size(v.0[2]),
    ;
    lemma_near_trans(size(ls) * u, total * u, 3, square_sum(v), 1);
}

/// The magnitude is zero or from 2^e to 2^(e + 48) units.
pub open spec fn moderate(a: Scalar, e: nat) -> bool {
    a.finite() && (size(a) == 0 || pow2(e) <= size(a) <= pow2(e + 48))
}

/// A moderate component times a reciprocal length in range can be squared,
/// and is within one part in 2^24 of the exact product.
proof fn lemma_component_accuracy(a: Scalar, k: Scalar, e: nat)
    requires
        86 <= e <= 152,
        moderate(a, e),
        k.finite(),
        pow2((247 - e) as nat) <= size(k) <= pow2((300 - e) as nat),
    ensures
        squarable(a.mul_spec(k)),
        near(size(a.mul_spec(k)) * pow2(149), size(a) * size(k), 1),
{
    let p = size(a) * size(k);
    let w = size(a.mul_spec(k));
    if size(a) == 0 {
        assert(p == 0) by (nonlinear_arith)
            requires
                p == size(a) * size(k),
                size(a) == 0,
        ;
        lemma_mul_accuracy(a, k);
    } else {
        lemma_mul_range(size(a), e, e + 48, size(k), (247 - e) as nat, (300 - e) as nat);
        crate::rounding::lemma_pow2_le(172, 247);
        crate::rounding::lemma_pow2_le(348, 424);
        vstd::arithmetic::power2::lemma_pow2_strictly_increases(424, 425);
        lemma_mul_accuracy(a, k);
        lemma_near_range(w * pow2(149), p, 1, 247, 348);
        crate::rounding::lemma_pow2_le(149, 149);
        lemma_factor_range(w, pow2(149) as int, 149, 149, 246, 349);
        crate::rounding::lemma_pow2_le(86, 97);
    }
}

/// Squares of near quantities are near.
proof fn lemma_near_square(a: int, b: int, c: int, d: int)
    requires
        near(a * b, c * d, 1),
        0 <= a,
        0 <= b,
        0 <= c,
        0 <= d,
    ensures
        near((a * a) * (b * b), (c * c) * (d * d), 3),
{
    let ab = a * b;
    let cd = c * d;
    assert(ab >= 0 && cd >= 0) by (nonlinear_arith)
        requires
            ab == a * b,
            cd == c * d,
            0 <= a,
            0 <= b,
            0 <= c,
            0 <= d,
    ;
    lemma_near_mul(ab, cd, 1, ab, cd, 1);
    assert(ab * ab == (a * a) * (b * b)) by (nonlinear_arith)
        requires
            ab == a * b,
    ;
    assert(cd * cd == (c * c) * (d * d)) by (nonlinear_arith)
        requires
            cd == c * d,
    ;
}

/// The exact algebra of normalizing: where the computed length and its
/// reciprocal are near the true ones, and each scaled component near the
/// true product, the scaled components' squares add up near to one.
proof fn lemma_normalized_square_sum(
    x: int,
    y: int,
    z: int,
    k: int,
    len: int,
    wx: int,
    wy: int,
    wz: int,
    u: int,
)
    requires
        0 <= x,
        0 <= y,
        0 <= z,
        0 <= k,
        0 <= len,
        0 <= wx,
        0 <= wy,
        0 <= wz,
        0 < u,
        near(wx * u, x * k, 1),
        near(wy * u, y * k, 1),
        near(wz * u, z * k, 1),
        near(k * len, u * u, 1),
        near(len * len, x * x + y * y + z * z, 9),
    ensures
        near(wx * wx + wy * wy + wz * wz, u * u, 18),
{
    let uu = u * u;
    let kk = k * k;
    let ll = len * len;
    let t = x * x + y * y + z * z;
    let t2 = wx * wx + wy * wy + wz * wz;
    lemma_near_square(wx, u, x, k);
    lemma_near_square(wy, u, y, k);
    lemma_near_square(wz, u, z, k);
    lemma_near_square(k, len, u, u);
    assert(t2 * uu == (wx * wx) * uu + (wy * wy) * uu + (wz * wz) * uu) by (nonlinear_arith)
        requires
            t2 == wx * wx + wy * wy + wz * wz,
    ;
    assert(t * kk == (x * x) * kk + (y * y) * kk + (z * z) * kk) by (nonlinear_arith)
        requires
            t == x * x + y * y + z * z,
    ;
    assert(near(t2 * uu, t * kk, 3));
    assert(uu > 0 && kk >= 0 && ll >= 0 && t >= 0 && t2 >= 0) by (nonlinear_arith)
        requires
            uu == u * u,
            kk == k * k,
            ll == len * len,
            t == x * x + y * y + z * z,
            t2 == wx * wx + wy * wy + wz * wz,
            u > 0,
    ;
    lemma_near_flip(ll, t, 9);
    lemma_near_scale(t, ll, kk, 10);
    assert(ll * kk == kk * ll) by (nonlinear_arith);
    assert(t * kk >= 0 && kk * ll >= 0 && uu * uu >= 0 && t2 * uu >= 0) by (nonlinear_arith)
        requires
            uu > 0,
            kk >= 0,
            ll >= 0,
            t >= 0,
            t2 >= 0,
    ;
    lemma_near_trans(t * kk, kk * ll, 10, uu * uu, 3);
    lemma_near_trans(t2 * uu, t * kk, 3, uu * uu, 14);
    lemma_near_cancel(t2, uu, uu, 18);
}

/// How large the exact square of a moderate magnitude is.
proof fn lemma_moderate_square(a: Scalar, e: nat)
    requires
        moderate(a, e),
    ensures
        0 <= size(a) * size(a) <= pow2(2 * e + 96),
        size(a) > 0 ==> pow2(2 * e) <= size(a) * size(a),
{
    let x = size(a);
    lemma_pow2_pos(2 * e + 96);
    if x > 0 {
        lemma_mul_range(x, e, e + 48, x, e, e + 48);
    } else {
        assert(x * x == 0) by (nonlinear_arith)
            requires
                x == 0,
        ;
    }
}

/// The sum of squares of moderate components that are not all zero lies from
/// 2^(2e) to 2^(2e + 98).
proof fn lemma_moderate_square_sum(v: Vec3, e: nat)
    requires
        moderate(v.0[0], e),
        moderate(v.0[1], e),
        moderate(v.0[2], e),
        size(v.0[0]) + size(v.0[1]) + size(v.0[2]) > 0,
    ensures
        pow2(2 * e) <= square_sum(v) <= pow2(2 * e + 98),
{
    vstd::arithmetic::power2::lemma_pow2_unfold(2 * e + 97);
    vstd::arithmetic::power2::lemma_pow2_unfold(2 * e + 98);
    lemma_pow2_pos(2 * e);
    lemma_moderate_square(v.0[0], e);
    lemma_moderate_square(v.0[1], e);
    lemma_moderate_square(v.0[2], e);
}

/// A normalized vector has length one, to within 28 parts in 2^24, where
/// the components of the vector that are not zero have magnitudes from 2^e
/// to 2^(e + 48) units, for some `e` from 86 to 152, and not all are zero.
/// Then no step overflows or falls below the normal range, and each of the
/// roundings moves its result by at most one part in 2^24. A unit is 2^-149,
/// so the magnitudes may lie anywhere from 2^-63 to 2^51, within a factor of
/// 2^48 of each other.
pub proof fn law_unit_vector_length(v: Vec3, e: nat)
    requires
        86 <= e <= 152,
        moderate(v.0[0], e),
        moderate(v.0[1], e),
        moderate(v.0[2], e),
        size(v.0[0]) + size(v.0[1]) + size(v.0[2]) > 0,
    ensures
        unit_spec(v).length_spec().finite(),
        !unit_spec(v).length_spec().negative(),
        near(size(unit_spec(v).length_spec()), pow2(149) as int, 28),
{
    let u = pow2(149) as int;
    let x = size(v.0[0]);
    let y = size(v.0[1]);
    let z = size(v.0[2]);
    let t = square_sum(v);
    lemma_pow2_pos(149);
    lemma_pow2_adds(149, 149);
    crate::rounding::lemma_pow2_le(86, e);
    crate::rounding::lemma_pow2_le(e + 48, 200);
    // the length
    lemma_moderate_square_sum(v, e);
    lemma_length_squared_accuracy(v);
    let ls = v.length_squared_spec();
    lemma_near_range(size(ls) * u, t, 5, 2 * e, 2 * e + 98);
    vstd::arithmetic::power2::lemma_pow2_strictly_increases(46, (2 * e - 1) as nat);
    vstd::arithmetic::power2::lemma_pow2_strictly_increases(2 * e + 99, 550);
    lemma_sqrt_accuracy(ls);
    let len = v.length_spec();
    let ll = size(len) * size(len);
    assert(size(ls) * u >= 0 && ll >= 0) by (nonlinear_arith)
        requires
            size(ls) >= 0,
            u > 0,
            ll == size(len) * size(len),
    ;
    lemma_near_trans(ll, size(ls) * u, 3, t, 5);
    lemma_near_range(ll, t, 9, 2 * e, 2 * e + 98);
    crate::rounding::lemma_pow2_le((2 * e - 2) as nat, (2 * e - 1) as nat);
    crate::rounding::lemma_pow2_le(2 * e + 99, 2 * e + 100);
    assert(2 * (e - 1) == 2 * e - 2 && 2 * (e + 50) == 2 * e + 100);
    lemma_root_range(size(len), (e - 1) as nat, e + 50);
    // its reciprocal
    lemma_mul_range(pow2(23) as int, 23, 23, size(len), (e - 1) as nat, e + 50);
    crate::rounding::lemma_pow2_le(23 + e + 50, 298);
    lemma_mul_range(pow2(276) as int, 276, 276, size(len), (e - 1) as nat, e + 50);
    vstd::arithmetic::power2::lemma_pow2_strictly_increases(298, (276 + e - 1) as nat);
    lemma_pow2_pos((e - 1) as nat);
    lemma_reciprocal_accuracy(len);
    let k = one().div_spec(len);
    lemma_near_range(size(k) * size(len), pow2(298) as int, 1, 298, 298);
    lemma_factor_range(size(k), size(len), (e - 1) as nat, e + 50, 297, 299);
    // the scaled components
    let w = unit_spec(v);
    assert(w == Vec3::of(v.0[0].mul_spec(k), v.0[1].mul_spec(k), v.0[2].mul_spec(k)));
    lemma_component_accuracy(v.0[0], k, e);
    lemma_component_accuracy(v.0[1], k, e);
    lemma_component_accuracy(v.0[2], k, e);
    let wx = size(w.0[0]);
    let wy = size(w.0[1]);
    let wz = size(w.0[2]);
    lemma_normalized_square_sum(x, y, z, size(k), size(len), wx, wy, wz, u);
    // their length
    lemma_length_squared_accuracy(w);
    let ls2 = w.length_squared_spec();
    let t2 = square_sum(w);
    assert(t2 >= 0 && size(ls2) * u >= 0) by (nonlinear_arith)
        requires
            t2 == wx * wx + wy * wy + wz * wz,
            size(ls2) >= 0,
            u > 0,
    ;
    lemma_near_trans(size(ls2) * u, t2, 5, u * u, 18);
    lemma_near_range(size(ls2) * u, u * u, 24, 298, 298);
    vstd::arithmetic::power2::lemma_pow2_strictly_increases(46, 297);
    vstd::arithmetic::power2::lemma_pow2_strictly_increases(299, 550);
    lemma_sqrt_accuracy(ls2);
    let l = w.length_spec();
    let l2 = size(l) * size(l);
    assert(l2 >= 0) by (nonlinear_arith)
        requires
            l2 == size(l) * size(l),
    ;
    lemma_near_trans(l2, size(ls2) * u, 3, u * u, 24);
    lemma_near_root(size(l), u, 28);
}

/// The difference of near quantities is near the difference, less so the
/// more the two cancel: `m` bounds how many times the difference goes into
/// the larger quantity.
proof fn lemma_near_sub(x: int, xt: int, i: int, y: int, yt: int, j: int, m: int)
    requires
        near(x, xt, i),
        near(y, yt, j),
        0 <= yt <= xt,
        xt <= m * (xt - yt),
        0 <= i,
        0 <= j,
        0 <= m,
    ensures
        near(x - y, xt - yt, (i + j) * m),
{
    let n: int = 0x100_0000;
    let dt = xt - yt;
    assert((i + j) * xt <= (i + j) * m * dt) by (nonlinear_arith)
        requires
            xt <= m * dt,
            0 <= i + j,
    ;
    assert(j * yt <= j * xt) by (nonlinear_arith)
        requires
            yt <= xt,
            0 <= j,
    ;
    assert((n - i) * xt == n * xt - i * xt && (n + i) * xt == n * xt + i * xt
        && (n - j) * yt == n * yt - j * yt && (n + j) * yt == n * yt + j * yt
        && (i + j) * xt == i * xt + j * xt) by (nonlinear_arith);
    let k = (i + j) * m;
    assert((n - k) * dt == n * dt - k * dt && (n + k) * dt == n * dt + k * dt)
        by (nonlinear_arith);
    assert(n * dt == n * xt - n * yt) by (nonlinear_arith)
        requires
            dt == xt - yt,
    ;
    assert(n * (x - y) == n * x - n * y) by (nonlinear_arith);
}

/// The difference of two finite numbers that are not below zero, the first
/// above the second, is within one part in 2^24 of the exact difference.
pub proof fn lemma_sub_accuracy(a: Scalar, b: Scalar)
    requires
        a.finite(),
        b.finite(),
        !a.negative(),
        !b.negative(),
        size(b) < size(a),
    ensures
        a.sub_spec(b).finite(),
        !a.sub_spec(b).negative(),
        near(size(a.sub_spec(b)), size(a) - size(b), 1),
{
    reveal(Scalar::add_spec);
    let t = size(a) - size(b);
    assert(magnitude(0) == 0);
    crate::arith::lemma_compose_parts(!b.negative(), b.pattern());
    assert(b.neg_spec().units() == -size(b));
    crate::arith::lemma_from_units_parts(t, a.negative() && b.neg_spec().negative());
    // the difference rounds to no more than `a` itself, which is finite
    crate::rounding::lemma_nearest_exact(a.pattern());
    crate::rounding::lemma_round_nearest_is(size(a), 1, a.pattern());
    crate::rounding::lemma_round_nearest_monotone(t, size(a), 1);
    lemma_whole_accuracy(t);
}

/// A whole number of units that rounds to a finite pattern is moved by at
/// most one part in 2^24.
proof fn lemma_whole_accuracy(t: int)
    requires
        t >= 0,
        round_nearest(t, 1) < INFINITY_BITS,
    ensures
        near(magnitude(round_nearest(t, 1)) as int, t, 1),
{
    let k = round_nearest(t, 1);
    crate::rounding::lemma_round_nearest_total(t, 1);
    vstd::arithmetic::power2::lemma2_to64();
    if t < pow2(276) {
        lemma_round_whole(t);
    } else {
        // from 2^276 up the pattern is normal, and the spacing bound applies
        crate::rounding::lemma_first_normal();
        if k < 0x80_0000 {
            crate::rounding::lemma_magnitude_order(k + 1, 0x80_0000);
            crate::rounding::lemma_magnitude_order(k, 0x7f_ffff);
            crate::rounding::lemma_pow2_le(64, 276);
        }
        crate::rounding::lemma_spacing(k);
    }
}

/// The quotient of two finite numbers above zero, where it is in the normal
/// range, is within one part in 2^24 of the exact quotient.
pub proof fn lemma_div_accuracy(a: Scalar, b: Scalar)
    requires
        a.finite(),
        b.finite(),
        size(b) > 0,
        pow2(23) * size(b) <= size(a) * pow2(149) < pow2(276) * size(b),
    ensures
        a.div_spec(b).finite(),
        a.div_spec(b).negative() == (a.negative() != b.negative()),
        near(size(a.div_spec(b)) * size(b), size(a) * pow2(149), 1),
{
    reveal(Scalar::div_spec);
    vstd::arithmetic::power2::lemma2_to64();
    assert(magnitude(0) == 0);
    let n = size(a) * pow2(149);
    let d = size(b);
    lemma_round_relative(n, d);
    crate::arith::lemma_compose_parts(a.negative() != b.negative(), round_nearest(n, d));
    if a.zero() {
        assert(n == 0) by (nonlinear_arith)
            requires
                n == size(a) * pow2(149),
                size(a) == 0,
        ;
        lemma_pow2_pos(23);
        assert(pow2(23) * d > 0) by (nonlinear_arith)
            requires
                pow2(23) > 0,
                d > 0,
        ;
    }
}

/// The rounded square of a radius that is from a sixteenth to a quarter of
/// a length, against the squared length `a`.
proof fn lemma_radius_share(a: int, r: int, rr: int, u: int)
    requires
        u > 0,
        a > 0,
        r >= 0,
        rr >= 0,
        near(rr * u, r * r, 1),
        16 * (r * r) <= a * u <= 256 * (r * r),
    ensures
        8 * rr <= a <= 257 * rr,
{
    let n: int = 0x100_0000;
    let q = r * r;
    let ru = rr * u;
    let au = a * u;
    assert(8 * ru <= au <= 257 * ru);
    assert(8 * rr <= a) by (nonlinear_arith)
        requires
            8 * (rr * u) <= a * u,
            u > 0,
    ;
    assert(a <= 257 * rr) by (nonlinear_arith)
        requires
            a * u <= 257 * (rr * u),
            u > 0,
    ;
}

/// The discriminant of a ray aimed at the centre: the difference of two
/// rounded products that nearly cancel is near the squared length times the
/// squared radius.
proof fn lemma_aimed_discriminant(a: int, c: int, rr: int, hb2: int, ac: int, u: int)
    requires
        u > 0,
        a > 0,
        c >= 0,
        rr >= 0,
        hb2 >= 0,
        ac >= 0,
        8 * rr <= a <= 257 * rr,
        near(c, a - rr, 1),
        near(hb2 * u, a * a, 1),
        near(ac * u, a * c, 1),
    ensures
        ac < hb2,
        near((hb2 - ac) * u, a * rr, 1028),
{
    let aa = a * a;
    let ar = a * rr;
    let y = a * (a - rr);
    assert(y == aa - ar) by (nonlinear_arith)
        requires
            y == a * (a - rr),
            aa == a * a,
            ar == a * rr,
    ;
    assert(8 * ar <= aa <= 257 * ar) by (nonlinear_arith)
        requires
            8 * rr <= a <= 257 * rr,
            a > 0,
            aa == a * a,
            ar == a * rr,
    ;
    assert(ar > 0) by (nonlinear_arith)
        requires
            ar == a * rr,
            a > 0,
            a <= 257 * rr,
    ;
    lemma_near_scale(c, a - rr, a, 1);
    assert(a * c >= 0) by (nonlinear_arith)
        requires
            a > 0,
            c >= 0,
    ;
    assert(ac * u >= 0 && hb2 * u >= 0) by (nonlinear_arith)
        requires
            ac >= 0,
            hb2 >= 0,
            u > 0,
    ;
    lemma_near_trans(ac * u, a * c, 1, y, 1);
    assert(aa <= 257 * (aa - y));
    lemma_near_sub(hb2 * u, aa, 1, ac * u, y, 3, 257);
    assert(hb2 * u - ac * u == (hb2 - ac) * u) by (nonlinear_arith);
    assert((1 + 3) * 257 == 1028);
    let n: int = 0x100_0000;
    assert(ac * u < hb2 * u);
    assert(ac < hb2) by (nonlinear_arith)
        requires
            ac * u < hb2 * u,
            u > 0,
    ;
}

/// The root of the discriminant is from a seventeenth to two fifths of the
/// squared length.
proof fn lemma_aimed_root_share(a: int, rr: int, s: int)
    requires
        a > 0,
        rr >= 0,
        s >= 0,
        8 * rr <= a <= 257 * rr,
        near(s * s, a * rr, 1034),
    ensures
        5 * s <= 2 * a,
        a <= 17 * s,
{
    let ss = s * s;
    let ar = a * rr;
    let aa = a * a;
    assert(8 * ar <= aa <= 257 * ar) by (nonlinear_arith)
        requires
            8 * rr <= a <= 257 * rr,
            a > 0,
            aa == a * a,
            ar == a * rr,
    ;
    assert(25 * ss <= 4 * aa);
    assert(aa <= 289 * ss);
    if 5 * s > 2 * a {
        assert(25 * ss > 4 * aa) by (nonlinear_arith)
            requires
                5 * s > 2 * a,
                a > 0,
                ss == s * s,
                aa == a * a,
        ;
    }
    if a > 17 * s {
        assert(aa > 289 * ss) by (nonlinear_arith)
            requires
                a > 17 * s,
                s >= 0,
                ss == s * s,
                aa == a * a,
        ;
    }
}

/// The parameter of the hit: `t a` is near `(a - s) u`, so `t` is from a
/// half to one and `(u - t) a` is near `s u`.
proof fn lemma_aimed_parameter(a: int, s: int, t: int, u: int)
    requires
        u > 0,
        a > 0,
        s >= 0,
        t >= 0,
        5 * s <= 2 * a,
        a <= 17 * s,
        near(t * a, (a - s) * u, 3),
    ensures
        u <= 2 * t,
        t <= u,
        near((u - t) * a, s * u, 51),
{
    let n: int = 0x100_0000;
    let au = a * u;
    let su = s * u;
    let ta = t * a;
    assert((a - s) * u == au - su) by (nonlinear_arith)
        requires
            au == a * u,
            su == s * u,
    ;
    assert(5 * su <= 2 * au && au <= 17 * su) by (nonlinear_arith)
        requires
            5 * s <= 2 * a,
            a <= 17 * s,
            u > 0,
            au == a * u,
            su == s * u,
    ;
    assert(su >= 0 && au > 0) by (nonlinear_arith)
        requires
            s >= 0,
            a > 0,
            u > 0,
            au == a * u,
            su == s * u,
    ;
    assert(near(au, au, 0));
    lemma_near_sub(au, au, 0, ta, au - su, 3, 17);
    assert(au - ta == (u - t) * a) by (nonlinear_arith)
        requires
            au == a * u,
            ta == t * a,
    ;
    assert(au - (au - su) == su);
    assert((0 + 3) * 17 == 51);
    // t a lies between a u / 2 and a u
    assert(2 * ta >= au);
    assert(ta <= au);
    assert(2 * t >= u) by (nonlinear_arith)
        requires
            2 * (t * a) >= a * u,
            a > 0,
    ;
    assert(t <= u) by (nonlinear_arith)
        requires
            t * a <= a * u,
            a > 0,
    ;
}

/// The end of the chain: the squared distance from the hit to the end of the
/// direction is near the squared radius.
proof fn lemma_aimed_distance(a: int, r: int, rr: int, s: int, t: int, u: int)
    requires
        u > 0,
        a > 0,
        r >= 0,
        rr >= 0,
        s >= 0,
        0 <= t <= u,
        near((u - t) * a, s * u, 51),
        near(s * s, a * rr, 1034),
        near(rr * u, r * r, 1),
    ensures
        near((u - t) * (u - t) * a, r * r * u, 1140),
{
    let w = (u - t) * a;
    let su = s * u;
    let ss = s * s;
    let q = r * r;
    assert(w >= 0 && su >= 0 && ss >= 0 && q >= 0 && a * rr >= 0 && rr * u >= 0)
        by (nonlinear_arith)
        requires
            w == (u - t) * a,
            su == s * u,
            ss == s * s,
            q == r * r,
            u > 0,
            a > 0,
            rr >= 0,
            s >= 0,
            t <= u,
    ;
    lemma_near_mul(w, su, 51, w, su, 51);
    // (s u)^2 = s^2 u^2 is near a rr u^2, which is near a r^2 u
    let uu = u * u;
    lemma_near_scale(ss, a * rr, uu, 1034);
    lemma_near_scale(rr * u, q, a * u, 1);
    assert(a * u > 0 && uu > 0) by (nonlinear_arith)
        requires
            a > 0,
            u > 0,
            uu == u * u,
    ;
    assert(su * su == ss * uu) by (nonlinear_arith)
        requires
            su == s * u,
            ss == s * s,
            uu == u * u,
    ;
    assert((a * rr) * uu == (rr * u) * (a * u)) by (nonlinear_arith)
        requires
            uu == u * u,
    ;
    let target = q * (a * u);
    assert(target >= 0 && (a * rr) * uu >= 0 && ss * uu >= 0 && w * w >= 0) by (nonlinear_arith)
        requires
            target == q * (a * u),
            q >= 0,
            a * u > 0,
            a * rr >= 0,
            uu > 0,
            ss >= 0,
    ;
    lemma_near_trans(ss * uu, (a * rr) * uu, 1034, target, 1);
    lemma_near_trans(w * w, su * su, 103, target, 1036);
    let left = (u - t) * (u - t) * a;
    let right = r * r * u;
    assert(w * w == left * a) by (nonlinear_arith)
        requires
            w == (u - t) * a,
            left == (u - t) * (u - t) * a,
    ;
    assert(target == right * a) by (nonlinear_arith)
        requires
            target == q * (a * u),
            q == r * r,
            right == r * r * u,
    ;
    lemma_near_cancel(left, right, a, 1140);
}

/// The discriminant that a sphere of radius `r` has for a ray whose
/// direction runs from the origin of the ray to the centre, with `a` the
/// squared length of that direction: `a a - a (a - r r)`.
pub open spec fn aimed_discriminant(a: Scalar, r: Scalar) -> Scalar {
    a.mul_spec(a).sub_spec(a.mul_spec(a.sub_spec(r.mul_spec(r))))
}

/// The smaller root for such a ray: `(a - sqrt(discriminant)) / a`.
pub open spec fn aimed_parameter(a: Scalar, r: Scalar) -> Scalar {
    a.sub_spec(aimed_discriminant(a, r).sqrt_spec()).div_spec(a)
}

/// The squared radius and the third coefficient of the quadratic.
proof fn lemma_aimed_coefficient(a: Scalar, r: Scalar)
    requires
        a.finite(),
        r.finite(),
        !a.negative(),
        !r.negative(),
        pow2(88) <= size(a) <= pow2(200),
        pow2(86) <= size(r),
        16 * (size(r) * size(r)) <= size(a) * pow2(149) <= 256 * (size(r) * size(r)),
    ensures
        r.mul_spec(r).finite(),
        !r.mul_spec(r).negative(),
        near(size(r.mul_spec(r)) * pow2(149), size(r) * size(r), 1),
        8 * size(r.mul_spec(r)) <= size(a) <= 257 * size(r.mul_spec(r)),
        a.sub_spec(r.mul_spec(r)).finite(),
        !a.sub_spec(r.mul_spec(r)).negative(),
        near(size(a.sub_spec(r.mul_spec(r))), size(a) - size(r.mul_spec(r)), 1),
        pow2(86) <= size(a.sub_spec(r.mul_spec(r))) <= pow2(201),
{
    let u = pow2(149) as int;
    let av = size(a);
    let rv = size(r);
    lemma_pow2_pos(149);
    lemma_pow2_pos(88);
    lemma_pow2_pos(86);
    lemma_pow2_adds(86, 86);
    lemma_pow2_adds(200, 149);
    let q = rv * rv;
    let p86 = pow2(86) as int;
    assert(q >= p86 * p86) by (nonlinear_arith)
        requires
            q == rv * rv,
            rv >= p86,
            p86 > 0,
    ;
    assert(av * u <= pow2(200) * u) by (nonlinear_arith)
        requires
            av <= pow2(200),
            u > 0,
    ;
    vstd::arithmetic::power2::lemma_pow2_strictly_increases(349, 425);
    lemma_mul_accuracy(r, r);
    let rr = r.mul_spec(r);
    lemma_radius_share(av, rv, size(rr), u);
    lemma_sub_accuracy(a, rr);
    vstd::arithmetic::power2::lemma_pow2_unfold(88);
    vstd::arithmetic::power2::lemma_pow2_unfold(87);
    vstd::arithmetic::power2::lemma_pow2_unfold(201);
}

/// The discriminant: finite, above zero, and near the squared length times
/// the rounded squared radius.
proof fn lemma_aimed_difference(a: Scalar, c: Scalar, share: int)
    requires
        a.finite(),
        c.finite(),
        !a.negative(),
        !c.negative(),
        pow2(88) <= size(a) <= pow2(200),
        pow2(86) <= size(c) <= pow2(201),
        share >= 0,
        8 * share <= size(a) <= 257 * share,
        near(size(c), size(a) - share, 1),
    ensures
        a.mul_spec(a).sub_spec(a.mul_spec(c)).finite(),
        !a.mul_spec(a).sub_spec(a.mul_spec(c)).negative(),
        size(a.mul_spec(a).sub_spec(a.mul_spec(c))) > 0,
        near(
            size(a.mul_spec(a).sub_spec(a.mul_spec(c))) * pow2(149),
            size(a) * share,
            1030,
        ),
        size(a) * share <= pow2(400),
{
    let u = pow2(149) as int;
    let av = size(a);
    lemma_pow2_pos(149);
    lemma_pow2_pos(88);
    lemma_mul_range(av, 88, 200, av, 88, 200);
    lemma_mul_range(av, 88, 200, size(c), 86, 201);
    crate::rounding::lemma_pow2_le(172, 174);
    crate::rounding::lemma_pow2_le(172, 176);
    vstd::arithmetic::power2::lemma_pow2_strictly_increases(400, 425);
    vstd::arithmetic::power2::lemma_pow2_strictly_increases(401, 425);
    lemma_mul_accuracy(a, a);
    lemma_mul_accuracy(a, c);
    let hb2 = a.mul_spec(a);
    let ac = a.mul_spec(c);
    lemma_aimed_discriminant(av, size(c), share, size(hb2), size(ac), u);
    lemma_sub_accuracy(hb2, ac);
    let disc = hb2.sub_spec(ac);
    let gap = size(hb2) - size(ac);
    lemma_near_scale(size(disc), gap, u, 1);
    let ar = av * share;
    assert(ar >= 0 && gap * u >= 0 && size(disc) * u >= 0) by (nonlinear_arith)
        requires
            ar == av * share,
            av > 0,
            share >= 0,
            gap > 0,
            size(disc) >= 0,
            u > 0,
    ;
    lemma_near_trans(size(disc) * u, gap * u, 1, ar, 1028);
    assert(ar <= av * av) by (nonlinear_arith)
        requires
            ar == av * share,
            8 * share <= av,
            av > 0,
            share >= 0,
    ;
}

/// The smaller root: from a half to one, with what is left up to one near
/// the root of the discriminant over the squared length.
proof fn lemma_aimed_quotient(a: Scalar, disc: Scalar, share: int)
    requires
        a.finite(),
        disc.finite(),
        !a.negative(),
        !disc.negative(),
        pow2(88) <= size(a) <= pow2(200),
        size(disc) > 0,
        share >= 0,
        8 * share <= size(a) <= 257 * share,
        size(a) * share <= pow2(400),
        near(size(disc) * pow2(149), size(a) * share, 1030),
    ensures
        a.sub_spec(disc.sqrt_spec()).div_spec(a).finite(),
        !a.sub_spec(disc.sqrt_spec()).div_spec(a).negative(),
        pow2(149) <= 2 * size(a.sub_spec(disc.sqrt_spec()).div_spec(a)),
        size(a.sub_spec(disc.sqrt_spec()).div_spec(a)) <= pow2(149),
        near(
            (pow2(149) - size(a.sub_spec(disc.sqrt_spec()).div_spec(a))) * size(a),
            size(disc.sqrt_spec()) * pow2(149),
            51,
        ),
        near(size(disc.sqrt_spec()) * size(disc.sqrt_spec()), size(a) * share, 1034),
{
    let u = pow2(149) as int;
    let av = size(a);
    let ar = av * share;
    lemma_pow2_pos(149);
    lemma_pow2_pos(88);
    assert(u <= size(disc) * u) by (nonlinear_arith)
        requires
            size(disc) >= 1,
            u > 0,
    ;
    vstd::arithmetic::power2::lemma_pow2_strictly_increases(46, 149);
    vstd::arithmetic::power2::lemma_pow2_unfold(401);
    vstd::arithmetic::power2::lemma_pow2_strictly_increases(401, 550);
    assert(ar >= 0) by (nonlinear_arith)
        requires
            ar == av * share,
            av > 0,
            share >= 0,
    ;
    lemma_sqrt_accuracy(disc);
    let s = disc.sqrt_spec();
    let ss = size(s) * size(s);
    assert(ss >= 0) by (nonlinear_arith)
        requires
            ss == size(s) * size(s),
    ;
    lemma_near_trans(ss, size(disc) * u, 3, ar, 1030);
    lemma_aimed_root_share(av, share, size(s));
    lemma_sub_accuracy(a, s);
    let num = a.sub_spec(s);
    let rest = av - size(s);
    assert(4 * size(num) >= av && size(num) <= 2 * av);
    vstd::arithmetic::power2::lemma2_to64();
    lemma_pow2_adds(25, 124);
    lemma_pow2_adds(149, 127);
    lemma_pow2_pos(124);
    lemma_pow2_adds(2, 125);
    lemma_pow2_pos(125);
    assert(pow2(23) * av <= size(num) * u) by (nonlinear_arith)
        requires
            4 * size(num) >= av,
            av > 0,
            u == pow2(25) * pow2(124),
            pow2(25) == 0x200_0000,
            pow2(23) == 0x80_0000,
            pow2(124) >= 1,
    ;
    assert(size(num) * u < pow2(276) * av) by (nonlinear_arith)
        requires
            size(num) <= 2 * av,
            size(num) >= 0,
            av > 0,
            pow2(276) == u * pow2(127),
            pow2(127) == 4 * pow2(125),
            pow2(125) >= 1,
            u > 0,
    ;
    lemma_div_accuracy(num, a);
    let t = num.div_spec(a);
    lemma_near_scale(size(num), rest, u, 1);
    assert(size(t) * av >= 0 && size(num) * u >= 0 && rest * u >= 0) by (nonlinear_arith)
        requires
            size(t) >= 0,
            av > 0,
            size(num) >= 0,
            rest >= 0,
            u > 0,
    ;
    lemma_near_trans(size(t) * av, size(num) * u, 1, rest * u, 1);
    lemma_aimed_parameter(av, size(s), size(t), u);
}

/// For a ray aimed at the centre from four to sixteen radii away, the
/// discriminant is above zero and the smaller root lies from a half to one;
/// what is left of the direction beyond the root has the length of the
/// radius, to within 1140 parts in 2^24 between the squares.
pub proof fn lemma_aimed_scalars(a: Scalar, r: Scalar)
    requires
        a.finite(),
        r.finite(),
        !a.negative(),
        !r.negative(),
        pow2(88) <= size(a) <= pow2(200),
        pow2(86) <= size(r),
        16 * (size(r) * size(r)) <= size(a) * pow2(149) <= 256 * (size(r) * size(r)),
    ensures
        aimed_discriminant(a, r).finite(),
        !aimed_discriminant(a, r).negative(),
        size(aimed_discriminant(a, r)) > 0,
        aimed_parameter(a, r).finite(),
        !aimed_parameter(a, r).negative(),
        pow2(149) <= 2 * size(aimed_parameter(a, r)),
        size(aimed_parameter(a, r)) <= pow2(149),
        near(
            (pow2(149) - size(aimed_parameter(a, r))) * (pow2(149) - size(aimed_parameter(a, r)))
                * size(a),
            size(r) * size(r) * pow2(149),
            1140,
        ),
{
    let u = pow2(149) as int;
    lemma_pow2_pos(149);
    lemma_pow2_pos(88);
    let rr = r.mul_spec(r);
    let c = a.sub_spec(rr);
    lemma_aimed_coefficient(a, r);
    lemma_aimed_difference(a, c, size(rr));
    let disc = aimed_discriminant(a, r);
    lemma_aimed_quotient(a, disc, size(rr));
    let s = disc.sqrt_spec();
    let t = aimed_parameter(a, r);
    lemma_aimed_distance(size(a), size(r), size(rr), size(s), size(t), u);
}

/// One component of the outward normal that a sphere centred at the
/// origin has where a ray aimed at that centre hits it at parameter `t`:
/// with `o` the component of the ray's origin, the direction is `0 - o`,
/// the point `o + (0 - o) t`, and the normal the point less zero, times the
/// reciprocal of the radius.
pub open spec fn aimed_normal(o: Scalar, t: Scalar, r: Scalar) -> Scalar {
    o.add_spec(zero().sub_spec(o).mul_spec(t)).sub_spec(zero()).mul_spec(one().div_spec(r))
}

/// The algebra of one component of the normal.
proof fn lemma_aimed_normal_chain(
    o: int,
    t: int,
    td: int,
    point: int,
    k: int,
    r: int,
    out: int,
    u: int,
)
    requires
        u > 0,
        r > 0,
        0 <= o,
        0 <= t <= u,
        0 <= td <= o,
        0 <= point,
        0 <= k,
        0 <= out,
        u <= 18 * (u - t),
        near(td * u, o * t, 1),
        near(point, o - td, 1),
        near(k * r, u * u, 1),
        near(out * u, point * k, 1),
    ensures
        near(out * r, (u - t) * o, 24),
{
    let ou = o * u;
    let ot = o * t;
    assert(0 <= ot <= ou && ou - ot == (u - t) * o && ou <= 18 * (ou - ot)) by (nonlinear_arith)
        requires
            ou == o * u,
            ot == o * t,
            0 <= o,
            0 <= t <= u,
            u <= 18 * (u - t),
    ;
    assert(near(ou, ou, 0));
    lemma_near_sub(ou, ou, 0, td * u, ot, 1, 18);
    assert(ou - td * u == (o - td) * u) by (nonlinear_arith)
        requires
            ou == o * u,
    ;
    lemma_near_scale(point, o - td, u, 1);
    let goal = (u - t) * o;
    assert(point * u >= 0 && (o - td) * u >= 0 && goal >= 0) by (nonlinear_arith)
        requires
            point >= 0,
            o - td >= 0,
            u > 0,
            goal == (u - t) * o,
            t <= u,
            o >= 0,
    ;
    lemma_near_trans(point * u, (o - td) * u, 1, goal, 18);
    // out r u is near point k r, which is near point u u
    lemma_near_scale(out * u, point * k, r, 1);
    lemma_near_scale(k * r, u * u, point, 1);
    let left = (out * u) * r;
    let mid = (point * k) * r;
    let right = point * (u * u);
    assert(mid == point * (k * r)) by (nonlinear_arith)
        requires
            mid == (point * k) * r,
    ;
    assert(left >= 0 && mid >= 0 && right >= 0) by (nonlinear_arith)
        requires
            left == (out * u) * r,
            mid == (point * k) * r,
            right == point * (u * u),
            out >= 0,
            u > 0,
            r > 0,
            point >= 0,
            k >= 0,
    ;
    lemma_near_trans(left, mid, 1, right, 1);
    assert(left == (out * r) * u && right == (point * u) * u) by (nonlinear_arith)
        requires
            left == (out * u) * r,
            right == point * (u * u),
    ;
    lemma_near_cancel(out * r, point * u, u, 3);
    assert(out * r >= 0) by (nonlinear_arith)
        requires
            out >= 0,
            r > 0,
    ;
    lemma_near_trans(out * r, point * u, 3, goal, 20);
}

/// One component of the normal for a component of the origin that is not
/// zero: it has the sign of that component and is near `(1 - t) o / r`.
proof fn lemma_aimed_normal_nonzero(o: Scalar, t: Scalar, r: Scalar)
    requires
        o.finite(),
        pow2(86) <= size(o) <= pow2(176),
        t.finite(),
        !t.negative(),
        pow2(149) <= 2 * size(t),
        size(t) <= pow2(149),
        pow2(149) <= 18 * (pow2(149) - size(t)),
        r.finite(),
        !r.negative(),
        pow2(86) <= size(r) <= pow2(173),
    ensures
        zero().sub_spec(o).finite(),
        size(zero().sub_spec(o)) == size(o),
        zero().sub_spec(o).negative() != o.negative(),
        aimed_normal(o, t, r).finite(),
        aimed_normal(o, t, r).negative() == o.negative(),
        size(aimed_normal(o, t, r)) > 0,
        near(size(aimed_normal(o, t, r)) * size(r), (pow2(149) - size(t)) * size(o), 24),
{
    let u = pow2(149) as int;
    let ov = size(o);
    let tv = size(t);
    let rv = size(r);
    lemma_pow2_pos(149);
    lemma_pow2_pos(86);
    vstd::arithmetic::power2::lemma_pow2_unfold(149);
    assert(magnitude(0) == 0);
    // the direction
    let d = zero().sub_spec(o);
    crate::arith::lemma_zero_minus(zero(), o);
    crate::rounding::lemma_magnitude_order(0, o.pattern());
    // the step along the ray
    lemma_mul_range(ov, 86, 176, tv, 148, 149);
    crate::rounding::lemma_pow2_le(172, 234);
    vstd::arithmetic::power2::lemma_pow2_strictly_increases(325, 425);
    lemma_mul_accuracy(d, t);
    let td = d.mul_spec(t);
    let n: int = 0x100_0000;
    let ot = ov * tv;
    assert(size(td) * u <= 2 * ot);
    assert(18 * ot <= 17 * (ov * u)) by (nonlinear_arith)
        requires
            ot == ov * tv,
            u <= 18 * (u - tv),
            ov >= 0,
    ;
    assert(n * (size(td) * u) <= (n + 1) * ot);
    assert(size(td) * u < ov * u);
    assert(size(td) < ov) by (nonlinear_arith)
        requires
            size(td) * u < ov * u,
            u > 0,
    ;
    // the point
    reveal(Scalar::add_spec);
    let total = o.units() + td.units();
    let point = o.add_spec(td);
    assert(point == Scalar::from_units(total, o.negative() && td.negative()));
    assert(total == if o.negative() { -(ov - size(td)) } else { ov - size(td) });
    crate::arith::lemma_from_units_bounded(total, o.negative() && td.negative(), o.pattern());
    crate::arith::lemma_from_units_parts(total, o.negative() && td.negative());
    lemma_whole_accuracy(ov - size(td));
    // the point against the centre
    crate::arith::lemma_sub_zero(point, zero());
    let off = point.sub_spec(zero());
    assert(size(off) == size(point));
    // the reciprocal of the radius
    lemma_pow2_adds(23, 173);
    crate::rounding::lemma_pow2_le(196, 298);
    lemma_pow2_adds(276, 86);
    vstd::arithmetic::power2::lemma_pow2_strictly_increases(298, 362);
    vstd::arithmetic::power2::lemma2_to64();
    assert(pow2(23) * rv <= pow2(23) * pow2(173)) by (nonlinear_arith)
        requires
            rv <= pow2(173),
    ;
    assert(pow2(276) * pow2(86) <= pow2(276) * rv) by (nonlinear_arith)
        requires
            pow2(86) <= rv,
    ;
    lemma_reciprocal_accuracy(r);
    let k = one().div_spec(r);
    lemma_near_range(size(k) * rv, pow2(298) as int, 1, 298, 298);
    lemma_factor_range(size(k), rv, 86, 173, 297, 299);
    // the normal
    let rest = ov - size(td);
    assert(38 * size(point) >= ov && size(point) <= 2 * ov) by {
        assert(19 * (rest * u) >= ov * u) by (nonlinear_arith)
            requires
                rest == ov - size(td),
                n * (size(td) * u) <= (n + 1) * ot,
                18 * ot <= 17 * (ov * u),
                n == 0x100_0000,
                ov >= 0,
                u > 0,
        ;
        assert(19 * rest >= ov) by (nonlinear_arith)
            requires
                19 * (rest * u) >= ov * u,
                u > 0,
        ;
    }
    vstd::arithmetic::power2::lemma_pow2_unfold(177);
    lemma_pow2_adds(6, 80);
    lemma_pow2_pos(80);
    assert(pow2(80) <= size(point)) by (nonlinear_arith)
        requires
            38 * size(point) >= ov,
            ov >= pow2(86),
            pow2(86) == pow2(6) * pow2(80),
            pow2(6) == 64,
            pow2(80) > 0,
    ;
    lemma_mul_range(size(off), 80, 177, size(k), 124, 213);
    crate::rounding::lemma_pow2_le(172, 204);
    vstd::arithmetic::power2::lemma_pow2_strictly_increases(390, 425);
    lemma_mul_accuracy(off, k);
    let out = off.mul_spec(k);
    assert(out == aimed_normal(o, t, r));
    lemma_pow2_pos(204);
    assert(size(out) > 0) by {
        assert(size(out) * u > 0);
        if size(out) == 0 {
            assert(size(out) * u == 0) by (nonlinear_arith)
                requires
                    size(out) == 0,
            ;
        }
    }
    lemma_pow2_adds(149, 149);
    lemma_aimed_normal_chain(ov, tv, size(td), size(point), size(k), rv, size(out), u);
}

/// One component of the normal for a component of the origin that is zero:
/// it is zero.
proof fn lemma_aimed_normal_zero(o: Scalar, t: Scalar, r: Scalar)
    requires
        o.zero(),
        t.finite(),
        r.finite(),
        !r.negative(),
        pow2(86) <= size(r) <= pow2(173),
    ensures
        zero().sub_spec(o).zero(),
        aimed_normal(o, t, r).zero(),
{
    assert(magnitude(0) == 0);
    lemma_pow2_pos(86);
    crate::arith::lemma_zero_minus(zero(), o);
    let d = zero().sub_spec(o);
    crate::arith::lemma_mul_zero(t, d);
    crate::arith::lemma_mul_commutes(t, d);
    let td = d.mul_spec(t);
    crate::arith::lemma_add_zero(o, td);
    let point = o.add_spec(td);
    crate::arith::lemma_sub_zero(point, zero());
    let off = point.sub_spec(zero());
    lemma_pow2_adds(23, 173);
    crate::rounding::lemma_pow2_le(196, 298);
    lemma_pow2_adds(276, 86);
    vstd::arithmetic::power2::lemma_pow2_strictly_increases(298, 362);
    assert(pow2(23) * size(r) <= pow2(23) * pow2(173)) by (nonlinear_arith)
        requires
            size(r) <= pow2(173),
    ;
    assert(pow2(276) * pow2(86) <= pow2(276) * size(r)) by (nonlinear_arith)
        requires
            pow2(86) <= size(r),
    ;
    lemma_reciprocal_accuracy(r);
    let k = one().div_spec(r);
    crate::arith::lemma_mul_zero(k, off);
    crate::arith::lemma_mul_commutes(k, off);
}

/// The hit of an aimed ray stays at least an eighteenth of the direction
/// short of its end.
pub proof fn lemma_aimed_margin(w: int, a: int, q: int, u: int)
    requires
        w >= 0,
        a > 0,
        u > 0,
        q >= 0,
        near(w * w * a, q * u, 1140),
        a * u <= 256 * q,
    ensures
        u <= 18 * w,
{
    let n: int = 0x100_0000;
    let ww = w * w;
    let uu = u * u;
    assert(256 * (n * (ww * a)) >= (n - 1140) * (a * uu)) by (nonlinear_arith)
        requires
            n * (ww * a) >= (n - 1140) * (q * u),
            a * u <= 256 * q,
            uu == u * u,
            u > 0,
            n == 0x100_0000,
    ;
    assert(256 * n * ww >= (n - 1140) * uu) by (nonlinear_arith)
        requires
            256 * (n * (ww * a)) >= (n - 1140) * (a * uu),
            a > 0,
    ;
    if 18 * w < u {
        assert(324 * ww < uu) by (nonlinear_arith)
            requires
                0 <= 18 * w < u,
                ww == w * w,
                uu == u * u,
        ;
    }
}

/// Of the products of the components of the direction with those of the
/// normal, one at least is in the normal range.
pub proof fn lemma_aimed_large_term(
    o0: int,
    o1: int,
    o2: int,
    n0: int,
    n1: int,
    n2: int,
    r: int,
    a: int,
    t: int,
    u: int,
)
    requires
        u == pow2(149),
        0 <= t <= u,
        u <= 18 * (u - t),
        0 < r <= pow2(173),
        a >= pow2(88),
        0 <= o0,
        0 <= o1,
        0 <= o2,
        0 <= n0,
        0 <= n1,
        0 <= n2,
        near(n0 * r, (u - t) * o0, 24),
        near(n1 * r, (u - t) * o1, 24),
        near(n2 * r, (u - t) * o2, 24),
        near(a * u, o0 * o0 + o1 * o1 + o2 * o2, 5),
    ensures
        o0 * n0 >= pow2(172) || o1 * n1 >= pow2(172) || o2 * n2 >= pow2(172),
{
    let w = u - t;
    let x0 = o0 * n0;
    let x1 = o1 * n1;
    let x2 = o2 * n2;
    let z0 = o0 * o0;
    let z1 = o1 * o1;
    let z2 = o2 * o2;
    let total = z0 + z1 + z2;
    let sum = x0 + x1 + x2;
    assert(36 * (n0 * r) >= u * o0) by (nonlinear_arith)
        requires
            near(n0 * r, w * o0, 24),
            u <= 18 * w,
            0 <= o0,
    ;
    assert(36 * (n1 * r) >= u * o1) by (nonlinear_arith)
        requires
            near(n1 * r, w * o1, 24),
            u <= 18 * w,
            0 <= o1,
    ;
    assert(36 * (n2 * r) >= u * o2) by (nonlinear_arith)
        requires
            near(n2 * r, w * o2, 24),
            u <= 18 * w,
            0 <= o2,
    ;
    assert(36 * (x0 * r) >= u * z0) by (nonlinear_arith)
        requires
            36 * (n0 * r) >= u * o0,
            0 <= o0,
            x0 == o0 * n0,
            z0 == o0 * o0,
    ;
    assert(36 * (x1 * r) >= u * z1) by (nonlinear_arith)
        requires
            36 * (n1 * r) >= u * o1,
            0 <= o1,
            x1 == o1 * n1,
            z1 == o1 * o1,
    ;
    assert(36 * (x2 * r) >= u * z2) by (nonlinear_arith)
        requires
            36 * (n2 * r) >= u * o2,
            0 <= o2,
            x2 == o2 * n2,
            z2 == o2 * o2,
    ;
    assert(sum * r == x0 * r + x1 * r + x2 * r) by (nonlinear_arith)
        requires
            sum == x0 + x1 + x2,
    ;
    assert(u * total == u * z0 + u * z1 + u * z2) by (nonlinear_arith)
        requires
            total == z0 + z1 + z2,
    ;
    assert(2 * total >= a * u);
    lemma_pow2_adds(88, 149);
    lemma_pow2_adds(237, 149);
    lemma_pow2_adds(172, 173);
    lemma_pow2_adds(41, 345);
    lemma_pow2_pos(345);
    lemma_pow2_pos(172);
    vstd::arithmetic::power2::lemma2_to64();
    vstd::arithmetic::power2::lemma2_to64_rest();
    let au = a * u;
    assert(au >= pow2(237)) by (nonlinear_arith)
        requires
            au == a * u,
            a >= pow2(88),
            u == pow2(149),
            pow2(237) == pow2(88) * pow2(149),
    ;
    assert(2 * (u * total) >= pow2(386)) by (nonlinear_arith)
        requires
            2 * total >= au,
            au >= pow2(237),
            u == pow2(149),
            pow2(386) == pow2(237) * pow2(149),
    ;
    let big = pow2(172) as int;
    let edge = pow2(345) as int;
    if x0 < big && x1 < big && x2 < big {
        assert(x0 * r <= big * pow2(173)) by (nonlinear_arith)
            requires
                x0 < big,
                0 < r <= pow2(173),
                big > 0,
        ;
        assert(x1 * r <= big * pow2(173)) by (nonlinear_arith)
            requires
                x1 < big,
                0 < r <= pow2(173),
                big > 0,
        ;
        assert(x2 * r <= big * pow2(173)) by (nonlinear_arith)
            requires
                x2 < big,
                0 < r <= pow2(173),
                big > 0,
        ;
        assert(big * pow2(173) == edge);
        assert(72 * (sum * r) <= 216 * edge);
        assert(pow2(386) == 0x200_0000_0000 * edge);
    }
}

/// A component of the origin of a ray: finite, and zero or from 2^86 to
/// 2^176 units, which is from 2^-63 to 2^27.
pub open spec fn placed(o: Scalar) -> bool {
    o.finite() && (size(o) == 0 || pow2(86) <= size(o) <= pow2(176))
}

/// The direction from `o` to the origin of the space.
pub open spec fn inward(o: Vec3) -> Vec3 {
    Vec3::of(zero().sub_spec(o.0[0]), zero().sub_spec(o.0[1]), zero().sub_spec(o.0[2]))
}

/// The outward normal where the ray from `o` along `inward(o)` hits, at
/// parameter `t`, the sphere of radius `r` about the origin of the space.
pub open spec fn outward(o: Vec3, t: Scalar, r: Scalar) -> Vec3 {
    Vec3::of(aimed_normal(o.0[0], t, r), aimed_normal(o.0[1], t, r), aimed_normal(o.0[2], t, r))
}

/// What holds of one component of the direction and the normal.
pub open spec fn turned_back(o: Scalar, d: Scalar, n: Scalar, t: Scalar, r: Scalar) -> bool {
    &&& d.finite()
    &&& n.finite()
    &&& size(d) == size(o)
    &&& n.zero() == o.zero()
    &&& !o.zero() ==> n.negative() == o.negative() && d.negative() != o.negative()
    &&& near(size(n) * size(r), (pow2(149) - size(t)) * size(o), 24)
}

/// One component of the direction and of the normal, whether the component
/// of the origin is zero or not.
proof fn lemma_turned_back(o: Scalar, t: Scalar, r: Scalar)
    requires
        placed(o),
        t.finite(),
        !t.negative(),
        pow2(149) <= 2 * size(t),
        size(t) <= pow2(149),
        pow2(149) <= 18 * (pow2(149) - size(t)),
        r.finite(),
        !r.negative(),
        pow2(86) <= size(r) <= pow2(173),
    ensures
        turned_back(o, zero().sub_spec(o), aimed_normal(o, t, r), t, r),
        size(zero().sub_spec(o)) * size(aimed_normal(o, t, r)) <= pow2(270) * pow2(149),
{
    let u = pow2(149) as int;
    let n = aimed_normal(o, t, r);
    assert(magnitude(0) == 0);
    crate::rounding::lemma_magnitude_order(0, o.pattern());
    lemma_pow2_pos(149);
    lemma_pow2_pos(270);
    if size(o) == 0 {
        lemma_aimed_normal_zero(o, t, r);
        assert((u - size(t)) * size(o) == 0) by (nonlinear_arith)
            requires
                size(o) == 0,
        ;
        assert(size(n) * size(r) == 0) by (nonlinear_arith)
            requires
                size(n) == 0,
        ;
        assert(size(zero().sub_spec(o)) * size(n) == 0) by (nonlinear_arith)
            requires
                size(n) == 0,
        ;
        assert(pow2(270) * pow2(149) > 0) by (nonlinear_arith)
            requires
                pow2(270) > 0,
                pow2(149) > 0,
        ;
    } else {
        lemma_aimed_normal_nonzero(o, t, r);
        // the normal is at most 2^240 units
        let nr = size(n) * size(r);
        let wo = (u - size(t)) * size(o);
        lemma_pow2_adds(149, 176);
        lemma_pow2_adds(240, 86);
        lemma_pow2_pos(86);
        vstd::arithmetic::power2::lemma_pow2_unfold(326);
        assert(wo <= u * pow2(176)) by (nonlinear_arith)
            requires
                wo == (u - size(t)) * size(o),
                0 <= u - size(t) <= u,
                0 <= size(o) <= pow2(176),
        ;
        assert(nr <= 2 * wo);
        assert(u * pow2(176) == pow2(325));
        assert(nr <= pow2(240) * pow2(86));
        assert(size(n) <= pow2(240)) by (nonlinear_arith)
            requires
                nr == size(n) * size(r),
                nr <= pow2(240) * pow2(86),
                size(r) >= pow2(86),
                pow2(86) > 0,
                size(n) >= 0,
        ;
        lemma_pow2_pos(86);
        assert(pow2(0) <= size(n)) by {
            vstd::arithmetic::power2::lemma2_to64();
        }
        lemma_mul_range(size(o), 86, 176, size(n), 0, 240);
        lemma_pow2_adds(176, 240);
        lemma_pow2_adds(270, 149);
        crate::rounding::lemma_pow2_le(416, 419);
        crate::rounding::lemma_magnitude_order(0, n.pattern());
    }
}

/// For a ray aimed at the origin of the space, the direction and the
/// outward normal of the sphere about that origin oppose each other: each
/// component of the normal has the sign of the component of the ray's
/// origin and is near `(1 - t) o / r`, and the dot product of direction and
/// normal is below zero.
pub proof fn lemma_aimed_normal_vector(o: Vec3, t: Scalar, r: Scalar)
    requires
        placed(o.0[0]),
        placed(o.0[1]),
        placed(o.0[2]),
        t.finite(),
        !t.negative(),
        pow2(149) <= 2 * size(t),
        size(t) <= pow2(149),
        pow2(149) <= 18 * (pow2(149) - size(t)),
        r.finite(),
        !r.negative(),
        pow2(86) <= size(r) <= pow2(173),
        inward(o).length_squared_spec().finite(),
        pow2(88) <= size(inward(o).length_squared_spec()),
    ensures
        forall|i: int|
            0 <= i < 3 ==> turned_back(
                #[trigger] o.0[i],
                inward(o).0[i],
                outward(o, t, r).0[i],
                t,
                r,
            ),
        crate::geom::dot_spec(inward(o), outward(o, t, r)).lt_spec(zero()),
{
    let d = inward(o);
    let n = outward(o, t, r);
    let u = pow2(149) as int;
    lemma_pow2_pos(149);
    lemma_turned_back(o.0[0], t, r);
    lemma_turned_back(o.0[1], t, r);
    lemma_turned_back(o.0[2], t, r);
    crate::rounding::lemma_pow2_le(176, 200);
    lemma_length_squared_accuracy(d);
    let a = d.length_squared_spec();
    assert(magnitude(0) == 0);
    lemma_pow2_pos(86);
    lemma_aimed_large_term(
        size(o.0[0]),
        size(o.0[1]),
        size(o.0[2]),
        size(n.0[0]),
        size(n.0[1]),
        size(n.0[2]),
        size(r),
        size(a),
        size(t),
        u,
    );
    assert(size(d.0[0]) * size(n.0[0]) >= pow2(172) || size(d.0[1]) * size(n.0[1]) >= pow2(172)
        || size(d.0[2]) * size(n.0[2]) >= pow2(172));
    crate::rounding::lemma_magnitude_order(0, o.0[0].pattern());
    crate::rounding::lemma_magnitude_order(0, o.0[1].pattern());
    crate::rounding::lemma_magnitude_order(0, o.0[2].pattern());
    crate::rounding::lemma_magnitude_order(0, d.0[0].pattern());
    crate::rounding::lemma_magnitude_order(0, d.0[1].pattern());
    crate::rounding::lemma_magnitude_order(0, d.0[2].pattern());
    crate::geom::lemma_opposed_dot(d, n);
}

} // verus!
