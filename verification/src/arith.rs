//! Multiplication, division, addition, subtraction and square root of
//! binary32 numbers, each the exact result rounded to nearest.

use vstd::prelude::*;
use vstd::arithmetic::power2::{pow2, lemma_pow2_pos, lemma_pow2_adds};
use crate::scalar::{magnitude, Scalar, INFINITY_BITS, NAN_BITS, SIGN_BIT};
use crate::rounding::{
    bracketed,
    high_sum,
    low_sum,
    nearest_root,
    round_nearest_root,
    lemma_round_nearest_root_is,
    pow2_u64,
    decompose,
    lemma_bracketed_nearest,
    lemma_nearest_exact,
    lemma_round_nearest_is,
    nearest,
    normalize,
    round_nearest,
    round_pack,
};

verus! {

/// Puts a sign on a magnitude pattern.
pub(crate) fn with_sign(negative: bool, pattern: u32) -> (r: Scalar)
    requires
        pattern < SIGN_BIT,
    ensures
        r == Scalar::compose(negative, pattern as nat),
        r.negative() == negative,
        r.pattern() == pattern,
{
    if negative {
        Scalar { bits: pattern + SIGN_BIT }
    } else {
        Scalar { bits: pattern }
    }
}

impl Scalar {
    /// The quiet NaN.
    pub open spec fn nan_value() -> Scalar {
        Scalar { bits: NAN_BITS }
    }

    /// The product: NaN where an operand is NaN or where zero meets
    /// infinity; else signed by the operands' signs, infinite where an operand
    /// is, and otherwise the exact product of the two magnitudes rounded to
    /// nearest.
    #[verifier::opaque]
    pub open spec fn mul_spec(self, rhs: Scalar) -> Scalar {
        if self.nan() || rhs.nan() {
            Scalar::nan_value()
        } else if (self.infinite() && rhs.zero()) || (self.zero() && rhs.infinite()) {
            Scalar::nan_value()
        } else if self.infinite() || rhs.infinite() {
            Scalar::compose(self.negative() != rhs.negative(), INFINITY_BITS as nat)
        } else {
            Scalar::compose(
                self.negative() != rhs.negative(),
                round_nearest(
                    (magnitude(self.pattern()) * magnitude(rhs.pattern())) as int,
                    pow2(149) as int,
                ),
            )
        }
    }

    /// The product, rounded to nearest.
    pub fn mul(self, rhs: Scalar) -> (r: Scalar)
        ensures
            r == self.mul_spec(rhs),
    {
        reveal(Scalar::mul_spec);
        let pa: u32 = self.magnitude_bits();
        let pb: u32 = rhs.magnitude_bits();
        if pa > INFINITY_BITS || pb > INFINITY_BITS {
            return Scalar { bits: NAN_BITS };
        }
        if (pa == INFINITY_BITS && pb == 0) || (pa == 0 && pb == INFINITY_BITS) {
            return Scalar { bits: NAN_BITS };
        }
        let negative: bool = self.is_negative() != rhs.is_negative();
        if pa == INFINITY_BITS || pb == INFINITY_BITS {
            return with_sign(negative, INFINITY_BITS);
        }
        let (ma, xa) = decompose(pa);
        let (mb, xb) = decompose(pb);
        let ghost n = (magnitude(pa as nat) * magnitude(pb as nat)) as int;
        let ghost d = pow2(149) as int;
        proof {
            lemma_pow2_pos(149);
        }
        if ma == 0 || mb == 0 {
            proof {
                assert(n == 0) by (nonlinear_arith)
                    requires
                        n == (ma * pow2(xa as nat)) * (mb * pow2(xb as nat)),
                        ma == 0 || mb == 0,
                ;
                lemma_nearest_exact(0);
                assert(magnitude(0) == 0);
                assert(nearest(0, d, 0));
                lemma_round_nearest_is(n, d, 0);
            }
            return with_sign(negative, 0);
        }
        assert(0 < ma * mb < 0x1_0000_0000_0000) by (nonlinear_arith)
            requires
                0 < ma < 0x100_0000,
                0 < mb < 0x100_0000,
        ;
        let m: u64 = ma * mb;
        let u: u32 = xa + xb + 51;
        let k: u32 = round_pack(m, u, false);
        proof {
            lemma_pow2_adds(xa as nat, xb as nat);
            lemma_pow2_adds((xa + xb) as nat, 51);
            lemma_pow2_adds(u as nat, 149);
            lemma_pow2_adds((xa + xb) as nat, 200);
            let ea = pow2(xa as nat) as int;
            let eb = pow2(xb as nat) as int;
            let w = pow2(200) as int;
            let uu = pow2(u as nat) as int;
            assert(uu * d == ea * eb * w);
            assert(m * uu * d == n * w) by (nonlinear_arith)
                requires
                    uu * d == ea * eb * w,
                    m == ma * mb,
                    n == (ma * ea) * (mb * eb),
            ;
            lemma_bracketed_nearest(n, d, m as nat, u as nat, false, k as nat);
            lemma_round_nearest_is(n, d, k as nat);
        }
        with_sign(negative, k)
    }
}

/// The bracket that long division leaves: with `q` the quotient and `r` the
/// remainder of the normalized significands, the true quotient lies at `q`
/// when `r` is zero and strictly between `q` and `q + 1` otherwise.
proof fn lemma_quotient_scaled(
    ma: int,
    xa: nat,
    sa: nat,
    mb: int,
    xb: nat,
    sb: nat,
    q: int,
    r: int,
    u: nat,
)
    requires
        sa <= 23,
        mb > 0,
        u + sa + xb == xa + sb + 310,
        ma * pow2(sa) * pow2(39) == q * (mb * pow2(sb)) + r,
        0 <= r < mb * pow2(sb),
    ensures
        mb * pow2(xb) > 0,
        r == 0 ==> q * pow2(u) * (mb * pow2(xb)) == (ma * pow2(xa) * pow2(149)) * pow2(200),
        r > 0 ==> q * pow2(u) * (mb * pow2(xb)) < (ma * pow2(xa) * pow2(149)) * pow2(200) < (q
            + 1) * pow2(u) * (mb * pow2(xb)),
{
    let z = pow2((xa + 310 - sa) as nat) as int;
    let a1 = pow2(sa) as int;
    let a2 = pow2(39) as int;
    let b1 = pow2(xa) as int;
    let b2 = pow2(149) as int;
    let w = pow2(200) as int;
    let uu = pow2(u) as int;
    let c1 = pow2(xb) as int;
    let c2 = pow2(sb) as int;
    lemma_pow2_pos((xa + 310 - sa) as nat);
    lemma_pow2_pos(xb);
    lemma_pow2_adds(sa, 39);
    lemma_pow2_adds(sa + 39, (xa + 310 - sa) as nat);
    lemma_pow2_adds(xa, 149);
    lemma_pow2_adds(xa + 149, 200);
    assert(a1 * a2 * z == b1 * b2 * w);
    lemma_pow2_adds(u, xb);
    lemma_pow2_adds(sb, (xa + 310 - sa) as nat);
    assert(uu * c1 == c2 * z);
    let n = ma * b1 * b2;
    let d = mb * c1;
    let num = ma * a1 * a2;
    let nb = mb * c2;
    assert(d > 0) by (nonlinear_arith)
        requires
            d == mb * c1,
            mb > 0,
            c1 > 0,
    ;
    let aa = a1 * a2;
    let bb = b1 * b2;
    assert(n == ma * bb) by (nonlinear_arith)
        requires
            n == ma * b1 * b2,
            bb == b1 * b2,
    ;
    assert(num == ma * aa) by (nonlinear_arith)
        requires
            num == ma * a1 * a2,
            aa == a1 * a2,
    ;
    let az = aa * z;
    assert(n * w == ma * az) by (nonlinear_arith)
        requires
            n == ma * bb,
            az == bb * w,
    ;
    assert(num * z == ma * az) by (nonlinear_arith)
        requires
            num == ma * aa,
            az == aa * z,
    ;
    let cz = c2 * z;
    let qm = q * mb;
    assert(q * uu * d == qm * cz) by (nonlinear_arith)
        requires
            d == mb * c1,
            qm == q * mb,
            cz == uu * c1,
    ;
    assert((q * nb) * z == qm * cz) by (nonlinear_arith)
        requires
            nb == mb * c2,
            qm == q * mb,
            cz == c2 * z,
    ;
    assert((q + 1) * uu * d == q * uu * d + mb * cz) by (nonlinear_arith)
        requires
            d == mb * c1,
            cz == uu * c1,
    ;
    assert((q * nb + nb) * z == (q * nb) * z + mb * cz) by (nonlinear_arith)
        requires
            nb == mb * c2,
            cz == c2 * z,
    ;
    assert(num == q * nb + r);
    if r > 0 {
        assert((q * nb) * z < num * z < (q * nb + nb) * z) by (nonlinear_arith)
            requires
                num == q * nb + r,
                0 < r < nb,
                z > 0,
        ;
    }
}

impl Scalar {
    /// The quotient: NaN where an operand is NaN, where both are infinite or
    /// both are zero; else signed by the operands' signs, infinite where the
    /// dividend is infinite or the divisor is zero, zero where the divisor is
    /// infinite, and otherwise the exact quotient of the two magnitudes rounded
    /// to nearest.
    #[verifier::opaque]
    pub open spec fn div_spec(self, rhs: Scalar) -> Scalar {
        if self.nan() || rhs.nan() {
            Scalar::nan_value()
        } else if (self.infinite() && rhs.infinite()) || (self.zero() && rhs.zero()) {
            Scalar::nan_value()
        } else if self.infinite() || rhs.zero() {
            Scalar::compose(self.negative() != rhs.negative(), INFINITY_BITS as nat)
        } else if rhs.infinite() {
            Scalar::compose(self.negative() != rhs.negative(), 0)
        } else {
            Scalar::compose(
                self.negative() != rhs.negative(),
                round_nearest(
                    (magnitude(self.pattern()) * pow2(149)) as int,
                    magnitude(rhs.pattern()) as int,
                ),
            )
        }
    }

    /// The quotient, rounded to nearest.
    pub fn div(self, rhs: Scalar) -> (r: Scalar)
        ensures
            r == self.div_spec(rhs),
    {
        reveal(Scalar::div_spec);
        let pa: u32 = self.magnitude_bits();
        let pb: u32 = rhs.magnitude_bits();
        if pa > INFINITY_BITS || pb > INFINITY_BITS {
            return Scalar { bits: NAN_BITS };
        }
        if (pa == INFINITY_BITS && pb == INFINITY_BITS) || (pa == 0 && pb == 0) {
            return Scalar { bits: NAN_BITS };
        }
        let negative: bool = self.is_negative() != rhs.is_negative();
        if pa == INFINITY_BITS || pb == 0 {
            return with_sign(negative, INFINITY_BITS);
        }
        if pb == INFINITY_BITS {
            return with_sign(negative, 0);
        }
        let (ma, xa) = decompose(pa);
        let (mb, xb) = decompose(pb);
        let ghost n = (magnitude(pa as nat) * pow2(149)) as int;
        let ghost d = magnitude(pb as nat) as int;
        proof {
            crate::rounding::lemma_magnitude_order(0, pb as nat);
            assert(magnitude(0) == 0);
            assert(d > 0);
        }
        if ma == 0 {
            proof {
                assert(magnitude(pa as nat) == 0) by (nonlinear_arith)
                    requires
                        magnitude(pa as nat) == ma * pow2(xa as nat),
                        ma == 0,
                ;
                assert(n == 0);
                lemma_nearest_exact(0);
                assert(nearest(0, d, 0));
                lemma_round_nearest_is(n, d, 0);
            }
            return with_sign(negative, 0);
        }
        proof {
            if mb == 0 {
                assert(mb * pow2(xb as nat) == 0) by (nonlinear_arith)
                    requires
                        mb == 0,
                ;
            }
        }
        let (na, sa) = normalize(ma);
        let (nb, sb) = normalize(mb);
        let num: u64 = na * 0x80_0000_0000;
        let q: u64 = num / nb;
        let rem: u64 = num % nb;
        let u: u32 = xa + sb + 310 - sa - xb;
        proof {
            vstd::arithmetic::power2::lemma2_to64();
            vstd::arithmetic::power2::lemma2_to64_rest();
            assert(0x40_0000_0000 * nb <= num < 0x100_0000_0001 * nb) by (nonlinear_arith)
                requires
                    num == na * 0x80_0000_0000,
                    0x80_0000 <= na < 0x100_0000,
                    0x80_0000 <= nb < 0x100_0000,
            ;
            crate::rounding::lemma_div_between(
                num as int,
                nb as int,
                0x40_0000_0000,
                0x100_0000_0001,
            );
            vstd::arithmetic::div_mod::lemma_fundamental_div_mod(num as int, nb as int);
            assert(num == q * nb + rem) by (nonlinear_arith)
                requires
                    num == nb * q + rem,
            ;
            lemma_quotient_scaled(
                ma as int,
                xa as nat,
                sa as nat,
                mb as int,
                xb as nat,
                sb as nat,
                q as int,
                rem as int,
                u as nat,
            );
        }
        let k: u32 = round_pack(q, u, rem != 0);
        proof {
            lemma_bracketed_nearest(n, d, q as nat, u as nat, rem != 0, k as nat);
            lemma_round_nearest_is(n, d, k as nat);
        }
        with_sign(negative, k)
    }
}

/// The sum or difference of two aligned magnitudes is a whole number of the
/// smaller quantum.
proof fn lemma_sum_aligned(ma: int, xa: nat, mb: int, xb: nat, m: int, same: bool)
    requires
        xb <= xa,
        m == if same {
            ma * pow2((xa - xb) as nat) + mb
        } else {
            ma * pow2((xa - xb) as nat) - mb
        },
    ensures
        m * pow2(xb + 200) == (if same {
            ma * pow2(xa) + mb * pow2(xb)
        } else {
            ma * pow2(xa) - mb * pow2(xb)
        }) * pow2(200),
        m * pow2(xb) == (if same {
            ma * pow2(xa) + mb * pow2(xb)
        } else {
            ma * pow2(xa) - mb * pow2(xb)
        }),
{
    let pd = pow2((xa - xb) as nat) as int;
    let pb = pow2(xb) as int;
    let pa = pow2(xa) as int;
    let w = pow2(200) as int;
    lemma_pow2_adds((xa - xb) as nat, xb);
    lemma_pow2_adds(xb, 200);
    assert(pd * pb == pa);
    if same {
        assert((ma * pd + mb) * pb == ma * pa + mb * pb) by (nonlinear_arith)
            requires
                pd * pb == pa,
        ;
        assert((ma * pd + mb) * (pb * w) == (ma * pa + mb * pb) * w) by (nonlinear_arith)
            requires
                pd * pb == pa,
        ;
    } else {
        assert((ma * pd - mb) * pb == ma * pa - mb * pb) by (nonlinear_arith)
            requires
                pd * pb == pa,
        ;
        assert((ma * pd - mb) * (pb * w) == (ma * pa - mb * pb) * w) by (nonlinear_arith)
            requires
                pd * pb == pa,
        ;
    }
}

/// A magnitude more than twenty-five binary places below another moves the
/// sum or difference by less than a quarter of the larger one's last place.
proof fn lemma_sum_far(ma: int, xa: nat, mb: int, xb: nat, same: bool)
    requires
        xb + 26 <= xa,
        0 < mb < 0x100_0000,
    ensures
        same ==> (4 * ma) * pow2((xa + 198) as nat) < (ma * pow2(xa) + mb * pow2(xb)) * pow2(200)
            < (4 * ma + 1) * pow2((xa + 198) as nat),
        !same ==> (4 * ma - 1) * pow2((xa + 198) as nat) < (ma * pow2(xa) - mb * pow2(xb))
            * pow2(200) < (4 * ma) * pow2((xa + 198) as nat),
{
    let p = pow2((xa - 2) as nat) as int;
    let pb = pow2(xb) as int;
    let pa = pow2(xa) as int;
    let w = pow2(200) as int;
    let b = mb * pb;
    vstd::arithmetic::power2::lemma2_to64();
    lemma_pow2_pos(xb);
    lemma_pow2_pos(200);
    lemma_pow2_adds((xa - 2) as nat, 2);
    lemma_pow2_adds((xa - 2) as nat, 200);
    lemma_pow2_adds(24, xb);
    crate::rounding::lemma_pow2_le(xb + 24, (xa - 2) as nat);
    assert(pa == 4 * p);
    assert(0 < b < p) by (nonlinear_arith)
        requires
            b == mb * pb,
            0 < mb < 0x100_0000,
            pb > 0,
            0x100_0000 * pb <= p,
    ;
    let v = pow2((xa + 198) as nat) as int;
    assert(v == p * w);
    if same {
        assert((4 * ma) * (p * w) < (ma * (4 * p) + b) * w < (4 * ma + 1) * (p * w))
            by (nonlinear_arith)
            requires
                0 < b < p,
                w > 0,
        ;
    } else {
        assert((4 * ma - 1) * (p * w) < (ma * (4 * p) - b) * w < (4 * ma) * (p * w))
            by (nonlinear_arith)
            requires
                0 < b < p,
                w > 0,
        ;
    }
}

impl Scalar {
    /// The number that stands for `total` units: the magnitude rounded to
    /// nearest under the sign of `total`, and a zero signed as told.
    pub open spec fn from_units(total: int, zero_negative: bool) -> Scalar {
        if total == 0 {
            Scalar::compose(zero_negative, 0)
        } else if total < 0 {
            Scalar::compose(true, round_nearest(-total, 1))
        } else {
            Scalar::compose(false, round_nearest(total, 1))
        }
    }

    /// The sum: NaN where an operand is NaN or where the operands are
    /// infinities of opposite signs; an infinite operand otherwise; and for
    /// finite operands the exact sum rounded to nearest, an exact zero being
    /// negative only where both operands are.
    #[verifier::opaque]
    pub open spec fn add_spec(self, rhs: Scalar) -> Scalar {
        if self.nan() || rhs.nan() {
            Scalar::nan_value()
        } else if self.infinite() && rhs.infinite() && self.negative() != rhs.negative() {
            Scalar::nan_value()
        } else if self.infinite() {
            Scalar::compose(self.negative(), INFINITY_BITS as nat)
        } else if rhs.infinite() {
            Scalar::compose(rhs.negative(), INFINITY_BITS as nat)
        } else {
            Scalar::from_units(self.units() + rhs.units(), self.negative() && rhs.negative())
        }
    }

    /// The difference: the sum with the subtrahend's sign flipped.
    pub open spec fn sub_spec(self, rhs: Scalar) -> Scalar {
        self.add_spec(rhs.neg_spec())
    }

    /// The sum, rounded to nearest.
    pub fn add(self, rhs: Scalar) -> (r: Scalar)
        ensures
            r == self.add_spec(rhs),
    {
        reveal(Scalar::add_spec);
        let pa: u32 = self.magnitude_bits();
        let pb: u32 = rhs.magnitude_bits();
        if pa > INFINITY_BITS || pb > INFINITY_BITS {
            return Scalar { bits: NAN_BITS };
        }
        let sa: bool = self.is_negative();
        let sb: bool = rhs.is_negative();
        if pa == INFINITY_BITS {
            if pb == INFINITY_BITS && sa != sb {
                return Scalar { bits: NAN_BITS };
            }
            return with_sign(sa, INFINITY_BITS);
        }
        if pb == INFINITY_BITS {
            return with_sign(sb, INFINITY_BITS);
        }
        let swap: bool = pa < pb;
        let big: u32 = if swap { pb } else { pa };
        let small: u32 = if swap { pa } else { pb };
        let sbig: bool = if swap { sb } else { sa };
        let same: bool = sa == sb;
        let (ma, xa) = decompose(big);
        let (mb, xb0) = decompose(small);
        let xb: u32 = if mb == 0 { xa } else { xb0 };
        let ghost ua = magnitude(big as nat) as int;
        let ghost ub = magnitude(small as nat) as int;
        let ghost total = self.units() + rhs.units();
        let ghost n = if same { ua + ub } else { ua - ub };
        proof {
            crate::rounding::lemma_magnitude_order(small as nat, big as nat);
            assert(ub <= ua);
            assert(total == if sbig { -n } else { n });
            if mb == 0 {
                assert(mb * pow2(xb0 as nat) == 0) by (nonlinear_arith)
                    requires
                        mb == 0,
                ;
                assert(mb * pow2(xb as nat) == 0) by (nonlinear_arith)
                    requires
                        mb == 0,
                ;
            }
            assert(ub == mb * pow2(xb as nat));
        }
        let gap: u32 = xa - xb;
        if gap <= 25 {
            let pd: u64 = pow2_u64_small(gap);
            assert(ma * pd < 0x2_0000_0000_0000) by (nonlinear_arith)
                requires
                    0 <= ma < 0x100_0000,
                    0 < pd <= 0x200_0000,
            ;
            let a: u64 = ma * pd;
            proof {
                lemma_sum_aligned(ma as int, xa as nat, mb as int, xb as nat, a + mb, true);
                lemma_sum_aligned(ma as int, xa as nat, mb as int, xb as nat, a - mb, false);
                lemma_pow2_pos(xb as nat);
                if a < mb {
                    assert((a - mb) * pow2(xb as nat) < 0) by (nonlinear_arith)
                        requires
                            a - mb < 0,
                            pow2(xb as nat) > 0,
                    ;
                }
            }
            let m: u64 = if same { a + mb } else { a - mb };
            if m == 0 {
                proof {
                    assert(m * pow2(xb as nat) == 0) by (nonlinear_arith)
                        requires
                            m == 0,
                    ;
                    assert(total == 0);
                    if same {
                        assert(ua == 0 && ub == 0);
                        crate::rounding::lemma_magnitude_order(0, big as nat);
                        crate::rounding::lemma_magnitude_order(0, small as nat);
                        assert(magnitude(0) == 0);
                    }
                }
                return with_sign(sa && sb, 0);
            }
            let k: u32 = round_pack(m, xb + 200, false);
            proof {
                assert(n > 0) by (nonlinear_arith)
                    requires
                        n == m * pow2(xb as nat),
                        m > 0,
                        pow2(xb as nat) > 0,
                ;
                assert(m * pow2((xb + 200) as nat) * 1 == n * pow2(200));
                lemma_bracketed_nearest(n, 1, m as nat, (xb + 200) as nat, false, k as nat);
                lemma_round_nearest_is(n, 1, k as nat);
            }
            return with_sign(sbig, k);
        }
        let m: u64 = if same { 4 * ma } else { 4 * ma - 1 };
        let k: u32 = round_pack(m, xa + 198, true);
        proof {
            lemma_sum_far(ma as int, xa as nat, mb as int, xb as nat, same);
            assert(m * pow2((xa + 198) as nat) * 1 < n * pow2(200) < (m + 1) * pow2(
                (xa + 198) as nat,
            ) * 1);
            lemma_pow2_pos(200);
            lemma_pow2_pos((xa + 198) as nat);
            assert(n > 0) by (nonlinear_arith)
                requires
                    m * pow2((xa + 198) as nat) < n * pow2(200),
                    m > 0,
                    pow2((xa + 198) as nat) > 0,
                    pow2(200) > 0,
            ;
            lemma_bracketed_nearest(n, 1, m as nat, (xa + 198) as nat, true, k as nat);
            lemma_round_nearest_is(n, 1, k as nat);
        }
        with_sign(sbig, k)
    }

    /// The difference, rounded to nearest.
    pub fn sub(self, rhs: Scalar) -> (r: Scalar)
        ensures
            r == self.sub_spec(rhs),
    {
        self.add(rhs.neg())
    }
}

/// Two to the `s`, for a small `s`.
fn pow2_u64_small(s: u32) -> (p: u64)
    requires
        s <= 25,
    ensures
        p == pow2(s as nat),
        0 < p <= 0x200_0000,
{
    proof {
        vstd::arithmetic::power2::lemma2_to64();
        crate::rounding::lemma_pow2_le(s as nat, 25);
    }
    crate::rounding::pow2_u64(s)
}

/// The largest integer whose square does not exceed `x`.
pub(crate) fn isqrt(x: u64) -> (r: u64)
    requires
        x < 0x40_0000_0000_0000,
    ensures
        r * r <= x < (r + 1) * (r + 1),
        r < 0x800_0000,
{
    let mut r: u64 = 0;
    let mut span: u64 = 0x800_0000;
    let mut j: u32 = 27;
    proof {
        vstd::arithmetic::power2::lemma2_to64();
    }
    while j > 0
        invariant
            span == pow2(j as nat),
            j <= 27,
            r + span <= 0x800_0000,
            r * r <= x < (r + span) * (r + span),
            x < 0x40_0000_0000_0000,
        decreases j,
    {
        proof {
            vstd::arithmetic::power2::lemma_pow2_unfold(j as nat);
        }
        let half: u64 = span / 2;
        let c: u64 = r + half;
        assert(c * c <= 0x40_0000_0000_0000) by (nonlinear_arith)
            requires
                0 <= c <= 0x800_0000,
        ;
        if c * c <= x {
            r = c;
        }
        span = half;
        j = j - 1;
    }
    assert(r < 0x800_0000) by (nonlinear_arith)
        requires
            r * r <= x,
            x < 0x40_0000_0000_0000,
            r >= 0,
    ;
    r
}

/// A bracketed square root rounds to the bracket's pattern.
proof fn lemma_bracketed_root(n: int, r: nat, t: nat, sticky: bool, k: nat)
    requires
        bracketed(r, t + 200, sticky, k),
        !sticky ==> n == (r * pow2(t)) * (r * pow2(t)),
        sticky ==> (r * pow2(t)) * (r * pow2(t)) < n < ((r + 1) * pow2(t)) * ((r + 1) * pow2(t)),
    ensures
        nearest_root(n, k),
{
    let w = pow2(200) as int;
    let tt = pow2(t) as int;
    let a = r * tt;
    let b = (r + 1) * tt;
    lemma_pow2_pos(200);
    lemma_pow2_pos(t);
    lemma_pow2_adds(t, 200);
    assert(r * pow2(t + 200) == a * w) by (nonlinear_arith)
        requires
            pow2(t + 200) == tt * w,
            a == r * tt,
    ;
    assert((r + 1) * pow2(t + 200) == b * w) by (nonlinear_arith)
        requires
            pow2(t + 200) == tt * w,
            b == (r + 1) * tt,
    ;
    assert(0 <= a) by (nonlinear_arith)
        requires
            a == r * tt,
            r >= 0,
            tt > 0,
    ;
    assert(a < b) by (nonlinear_arith)
        requires
            a == r * tt,
            b == (r + 1) * tt,
            tt > 0,
    ;
    if k > 0 {
        let l = low_sum(k);
        if sticky || k % 2 == 0 {
            assert(l * l <= 4 * (a * a)) by (nonlinear_arith)
                requires
                    l * w <= 2 * (a * w),
                    w > 0,
                    0 <= l,
                    0 <= a,
            ;
        } else {
            assert(l * l < 4 * (a * a)) by (nonlinear_arith)
                requires
                    l * w < 2 * (a * w),
                    w > 0,
                    0 <= l,
                    0 <= a,
            ;
        }
    }
    if k < INFINITY_BITS {
        let h = high_sum(k);
        if sticky {
            assert(4 * (b * b) <= h * h) by (nonlinear_arith)
                requires
                    2 * (b * w) <= h * w,
                    w > 0,
                    0 <= h,
                    0 <= b,
            ;
        } else if k % 2 == 0 {
            assert(4 * (a * a) <= h * h) by (nonlinear_arith)
                requires
                    2 * (a * w) <= h * w,
                    w > 0,
                    0 <= h,
                    0 <= a,
            ;
        } else {
            assert(4 * (a * a) < h * h) by (nonlinear_arith)
                requires
                    2 * (a * w) < h * w,
                    w > 0,
                    0 <= h,
                    0 <= a,
            ;
        }
    }
}

/// The radicand, scaled so that its integer root has twenty-six bits or more,
/// against the magnitude it came from.
proof fn lemma_root_scaled(nm: int, e: nat, m2: int, e2: nat, big: int, r: int)
    requires
        e2 >= 28,
        e2 % 2 == 0,
        m2 * pow2(e2) == nm * pow2(e),
        big == m2 * 0x1000_0000,
        r >= 0,
        r * r <= big < (r + 1) * (r + 1),
    ensures
        r * r == big ==> nm * pow2(e) == (r * pow2(((e2 - 28) / 2) as nat)) * (r * pow2(
            ((e2 - 28) / 2) as nat,
        )),
        r * r != big ==> (r * pow2(((e2 - 28) / 2) as nat)) * (r * pow2(((e2 - 28) / 2) as nat))
            < nm * pow2(e) < ((r + 1) * pow2(((e2 - 28) / 2) as nat)) * ((r + 1) * pow2(
            ((e2 - 28) / 2) as nat,
        )),
{
    let t = ((e2 - 28) / 2) as nat;
    let tt = pow2(t) as int;
    vstd::arithmetic::power2::lemma2_to64();
    lemma_pow2_pos(t);
    lemma_pow2_adds(t, t);
    lemma_pow2_adds(28, t + t);
    assert(t + t + 28 == e2);
    let n = nm * pow2(e);
    assert(n == big * (tt * tt)) by (nonlinear_arith)
        requires
            n == m2 * pow2(e2),
            pow2(e2) == 0x1000_0000 * (tt * tt),
            big == m2 * 0x1000_0000,
    ;
    assert((r * tt) * (r * tt) == (r * r) * (tt * tt)) by (nonlinear_arith);
    assert(((r + 1) * tt) * ((r + 1) * tt) == ((r + 1) * (r + 1)) * (tt * tt))
        by (nonlinear_arith);
    let t2 = tt * tt;
    assert(t2 > 0) by (nonlinear_arith)
        requires
            t2 == tt * tt,
            tt > 0,
    ;
    let lo = r * r;
    let hi = (r + 1) * (r + 1);
    if lo != big {
        assert(lo * t2 < big * t2) by (nonlinear_arith)
            requires
                lo < big,
                t2 > 0,
        ;
    }
    assert(big * t2 < hi * t2) by (nonlinear_arith)
        requires
            big < hi,
            t2 > 0,
    ;
}

impl Scalar {
    /// The square root: NaN of NaN and of what is below zero, a zero of
    /// either sign unchanged, infinity of infinity, and otherwise the exact
    /// root rounded to nearest.
    #[verifier::opaque]
    pub open spec fn sqrt_spec(self) -> Scalar {
        if self.nan() {
            Scalar::nan_value()
        } else if self.zero() {
            self
        } else if self.negative() {
            Scalar::nan_value()
        } else if self.infinite() {
            self
        } else {
            Scalar::compose(
                false,
                round_nearest_root((magnitude(self.pattern()) * pow2(149)) as int),
            )
        }
    }

    /// The square root, rounded to nearest.
    pub fn sqrt(self) -> (r: Scalar)
        ensures
            r == self.sqrt_spec(),
    {
        reveal(Scalar::sqrt_spec);
        let pa: u32 = self.magnitude_bits();
        if pa > INFINITY_BITS {
            return Scalar { bits: NAN_BITS };
        }
        if pa == 0 {
            return self;
        }
        if self.is_negative() {
            return Scalar { bits: NAN_BITS };
        }
        if pa == INFINITY_BITS {
            return self;
        }
        let (m0, x) = decompose(pa);
        proof {
            crate::rounding::lemma_magnitude_order(0, pa as nat);
            assert(magnitude(0) == 0);
            if m0 == 0 {
                assert(m0 * pow2(x as nat) == 0) by (nonlinear_arith)
                    requires
                        m0 == 0,
                ;
            }
        }
        let (nm, sh) = normalize(m0);
        let e: u32 = x + 149 - sh;
        let ghost n = (magnitude(pa as nat) * pow2(149)) as int;
        proof {
            // the magnitude is nm * 2^(x - sh), where sh is zero unless x is
            lemma_pow2_adds(sh as nat, e as nat);
            lemma_pow2_adds(x as nat, 149);
            assert(n == nm * pow2(e as nat)) by (nonlinear_arith)
                requires
                    n == (m0 * pow2(x as nat)) * pow2(149),
                    nm == m0 * pow2(sh as nat),
                    pow2(sh as nat) * pow2(e as nat) == pow2(x as nat) * pow2(149),
            ;
        }
        let odd: bool = e % 2 == 1;
        let m2: u64 = if odd { 2 * nm } else { nm };
        let e2: u32 = if odd { e - 1 } else { e };
        proof {
            if odd {
                vstd::arithmetic::power2::lemma_pow2_unfold(e as nat);
                assert(m2 * pow2(e2 as nat) == nm * pow2(e as nat)) by (nonlinear_arith)
                    requires
                        m2 == 2 * nm,
                        pow2(e as nat) == 2 * pow2(e2 as nat),
                ;
            }
        }
        let big: u64 = m2 * 0x1000_0000;
        let r: u64 = isqrt(big);
        let sticky: bool = r * r != big;
        let t: u32 = (e2 - 28) / 2;
        proof {
            lemma_root_scaled(nm as int, e as nat, m2 as int, e2 as nat, big as int, r as int);
            assert(r >= 0x100_0000) by (nonlinear_arith)
                requires
                    big < (r + 1) * (r + 1),
                    big >= 0x8_0000_0000_0000,
                    r >= 0,
            ;
        }
        let k: u32 = round_pack(r, t + 200, sticky);
        proof {
            lemma_bracketed_root(n, r as nat, t as nat, sticky, k as nat);
            lemma_round_nearest_root_is(n, k as nat);
        }
        with_sign(false, k)
    }
}

impl Scalar {
    /// The number nearest to the integer `i`.
    pub open spec fn from_int_spec(i: int) -> Scalar {
        Scalar::from_units(i * pow2(149), false)
    }

    /// The number nearest to `i`.
    pub fn from_i32(i: i32) -> (r: Scalar)
        ensures
            r == Scalar::from_int_spec(i as int),
    {
        proof {
            lemma_pow2_pos(149);
            lemma_pow2_adds(149, 200);
        }
        if i == 0 {
            assert(0 * pow2(149) == 0);
            return Scalar { bits: 0 };
        }
        let negative: bool = i < 0;
        let m: u64 = if negative {
            (-(i as i64)) as u64
        } else {
            i as u64
        };
        let k: u32 = round_pack(m, 349, false);
        proof {
            let n = (m * pow2(149)) as int;
            assert(m * pow2(349) * 1 == n * pow2(200)) by (nonlinear_arith)
                requires
                    n == m * pow2(149),
                    pow2(349) == pow2(149) * pow2(200),
            ;
            lemma_bracketed_nearest(n, 1, m as nat, 349, false, k as nat);
            lemma_round_nearest_is(n, 1, k as nat);
            assert(i * pow2(149) == if negative { -n } else { n }) by (nonlinear_arith)
                requires
                    n == m * pow2(149),
                    m == if negative { -i } else { i as int },
            ;
            assert(n > 0) by (nonlinear_arith)
                requires
                    n == m * pow2(149),
                    m > 0,
                    pow2(149) > 0,
            ;
        }
        with_sign(negative, k)
    }
}

/// A composed number has the sign and the magnitude pattern it was made of.
pub proof fn lemma_compose_parts(negative: bool, pattern: nat)
    requires
        pattern < SIGN_BIT,
    ensures
        Scalar::compose(negative, pattern).negative() == negative,
        Scalar::compose(negative, pattern).pattern() == pattern,
{
}

/// The product does not depend on the order of the factors.
pub proof fn lemma_mul_commutes(a: Scalar, b: Scalar)
    ensures
        a.mul_spec(b) == b.mul_spec(a),
{
    reveal(Scalar::mul_spec);
    vstd::arithmetic::mul::lemma_mul_is_commutative(
        magnitude(a.pattern()) as int,
        magnitude(b.pattern()) as int,
    );
}

/// What `from_units` makes has the sign of the total and a magnitude
/// pattern that is not a NaN's.
pub proof fn lemma_from_units_parts(total: int, zero_negative: bool)
    ensures
        !Scalar::from_units(total, zero_negative).nan(),
        Scalar::from_units(total, zero_negative).negative() == (total < 0 || (total == 0
            && zero_negative)),
        total == 0 ==> Scalar::from_units(total, zero_negative).pattern() == 0,
        total > 0 ==> Scalar::from_units(total, zero_negative).pattern() == round_nearest(total, 1),
        total < 0 ==> Scalar::from_units(total, zero_negative).pattern() == round_nearest(
            -total,
            1,
        ),
{
    crate::rounding::lemma_round_nearest_total(total, 1);
    crate::rounding::lemma_round_nearest_total(-total, 1);
}

/// More units in, no fewer units out.
pub proof fn lemma_from_units_monotone(t1: int, z1: bool, t2: int, z2: bool)
    requires
        t1 <= t2,
    ensures
        Scalar::from_units(t1, z1).units() <= Scalar::from_units(t2, z2).units(),
{
    let r1 = Scalar::from_units(t1, z1);
    let r2 = Scalar::from_units(t2, z2);
    lemma_from_units_parts(t1, z1);
    lemma_from_units_parts(t2, z2);
    if t2 < 0 {
        crate::rounding::lemma_round_nearest_monotone(-t2, -t1, 1);
    } else if t1 > 0 {
        crate::rounding::lemma_round_nearest_monotone(t1, t2, 1);
    }
    assert(r1.key() <= r2.key());
    crate::scalar::lemma_units_order(r2, r1);
}

/// Taking a number that is not below zero away leaves no more than adding
/// it: `b - s` and `b + s` are ordered so, unless one of them is NaN.
pub proof fn lemma_sub_below_add(b: Scalar, s: Scalar)
    requires
        !s.nan(),
        !s.negative(),
    ensures
        b.sub_spec(s).nan() || b.add_spec(s).nan() || b.sub_spec(s).units() <= b.add_spec(
            s,
        ).units(),
{
    reveal(Scalar::add_spec);
    if b.nan() {
    } else if b.infinite() {
    } else if s.infinite() {
    } else {
        assert(s.neg_spec().units() == -s.units());
        lemma_from_units_monotone(
            b.units() - s.units(),
            b.negative() && s.neg_spec().negative(),
            b.units() + s.units(),
            b.negative() && s.negative(),
        );
    }
}

/// The magnitude pattern of the quotient of a magnitude pattern `k` by a
/// finite magnitude of `d` units.
pub open spec fn quotient_pattern(k: nat, d: int) -> nat {
    if k == INFINITY_BITS {
        INFINITY_BITS as nat
    } else {
        round_nearest((magnitude(k) * pow2(149)) as int, d)
    }
}

/// A larger dividend pattern gives no smaller quotient pattern, and zero
/// gives zero.
proof fn lemma_quotient_pattern_monotone(k1: nat, k2: nat, d: int)
    requires
        k1 <= k2 <= INFINITY_BITS,
        d > 0,
    ensures
        quotient_pattern(k1, d) <= quotient_pattern(k2, d) <= INFINITY_BITS,
        quotient_pattern(0, d) == 0,
{
    let p = pow2(149) as int;
    lemma_pow2_pos(149);
    crate::rounding::lemma_round_nearest_total(magnitude(k1) * p, d);
    crate::rounding::lemma_round_nearest_total(magnitude(k2) * p, d);
    crate::rounding::lemma_magnitude_order(k1, k2);
    let m1 = magnitude(k1) as int;
    let m2 = magnitude(k2) as int;
    assert(m1 * p <= m2 * p) by (nonlinear_arith)
        requires
            m1 <= m2,
            p > 0,
    ;
    crate::rounding::lemma_round_nearest_monotone(m1 * p, m2 * p, d);
    assert(magnitude(0) == 0);
    assert(magnitude(0) * p == 0);
    lemma_nearest_exact(0);
    assert(nearest(0, d, 0));
    lemma_round_nearest_is(0, d, 0);
}

/// Dividing by a number that is not below zero keeps the order: for
/// `x <= y`, `x / a` and `y / a` are ordered so, unless one of them is NaN.
pub proof fn lemma_div_monotone(x: Scalar, y: Scalar, a: Scalar)
    requires
        !x.nan(),
        !y.nan(),
        x.units() <= y.units(),
        !a.negative(),
    ensures
        x.div_spec(a).nan() || y.div_spec(a).nan() || x.div_spec(a).units() <= y.div_spec(
            a,
        ).units(),
{
    reveal(Scalar::div_spec);
    let qx = x.div_spec(a);
    let qy = y.div_spec(a);
    crate::scalar::lemma_units_order(y, x);
    assert(x.key() <= y.key());
    assert(magnitude(0) == 0);
    if qx.nan() || qy.nan() {
    } else if a.nan() {
    } else if a.zero() {
        crate::scalar::lemma_units_order(qy, qx);
    } else if a.infinite() {
        assert(x.finite() && y.finite());
        crate::scalar::lemma_units_order(qy, qx);
    } else {
        let d = magnitude(a.pattern()) as int;
        crate::rounding::lemma_magnitude_order(0, a.pattern());
        let kx = quotient_pattern(x.pattern(), d);
        let ky = quotient_pattern(y.pattern(), d);
        if x.pattern() <= y.pattern() {
            lemma_quotient_pattern_monotone(x.pattern(), y.pattern(), d);
        } else {
            lemma_quotient_pattern_monotone(y.pattern(), x.pattern(), d);
        }
        lemma_compose_parts(x.negative(), kx);
        lemma_compose_parts(y.negative(), ky);
        assert(qx == Scalar::compose(x.negative(), kx));
        assert(qy == Scalar::compose(y.negative(), ky));
        assert(qx.key() <= qy.key());
        crate::scalar::lemma_units_order(qy, qx);
    }
}

/// The square root of a number above zero is not NaN and not below zero.
pub proof fn lemma_sqrt_of_positive(x: Scalar)
    requires
        crate::scalar::zero().lt_spec(x),
    ensures
        !x.sqrt_spec().nan(),
        !x.sqrt_spec().negative(),
{
    reveal(Scalar::sqrt_spec);
    assert(magnitude(0) == 0);
    crate::rounding::lemma_round_nearest_root_total((magnitude(x.pattern()) * pow2(149)) as int);
    crate::rounding::lemma_magnitude_order(0, x.pattern());
}

/// A square is NaN or not below zero.
pub proof fn lemma_square_sign(x: Scalar)
    ensures
        x.mul_spec(x).nan() || !x.mul_spec(x).negative(),
{
    reveal(Scalar::mul_spec);
    crate::rounding::lemma_round_nearest_total(
        (magnitude(x.pattern()) * magnitude(x.pattern())) as int,
        pow2(149) as int,
    );
}

/// The sum of two numbers that are not below zero is NaN or not below zero.
pub proof fn lemma_sum_sign(x: Scalar, y: Scalar)
    requires
        x.nan() || !x.negative(),
        y.nan() || !y.negative(),
    ensures
        x.add_spec(y).nan() || !x.add_spec(y).negative(),
{
    reveal(Scalar::add_spec);
    if !x.nan() && !y.nan() && x.finite() && y.finite() {
        lemma_from_units_parts(x.units() + y.units(), false);
    }
}

/// `b` is `a` with the sign flipped, as numbers: both are NaN, or they have
/// the same magnitude and, unless that is zero, opposite signs.
pub open spec fn mirrored(a: Scalar, b: Scalar) -> bool {
    &&& a.nan() == b.nan()
    &&& !a.nan() ==> a.pattern() == b.pattern()
    &&& !a.nan() && !a.zero() ==> a.negative() != b.negative()
}

/// `b` is `a`, as numbers: both are NaN, or they have the same magnitude
/// and, unless that is zero, the same sign.
pub open spec fn alike(a: Scalar, b: Scalar) -> bool {
    &&& a.nan() == b.nan()
    &&& !a.nan() ==> a.pattern() == b.pattern()
    &&& !a.nan() && !a.zero() ==> a.negative() == b.negative()
}

/// Flipping the sign of a factor flips the sign of the product.
pub proof fn lemma_mul_mirrored(a: Scalar, b: Scalar, c: Scalar)
    requires
        mirrored(b, c),
    ensures
        mirrored(a.mul_spec(b), a.mul_spec(c)),
        mirrored(b.mul_spec(a), c.mul_spec(a)),
{
    reveal(Scalar::mul_spec);
    lemma_mul_commutes(b, a);
    lemma_mul_commutes(c, a);
    if !a.nan() && !b.nan() && a.finite() && b.finite() {
        let n = (magnitude(a.pattern()) * magnitude(b.pattern())) as int;
        let d = pow2(149) as int;
        lemma_pow2_pos(149);
        crate::rounding::lemma_round_nearest_total(n, d);
        let k = round_nearest(n, d);
        lemma_compose_parts(a.negative() != b.negative(), k);
        lemma_compose_parts(a.negative() != c.negative(), k);
        if b.zero() {
            assert(magnitude(0) == 0);
            assert(n == 0) by (nonlinear_arith)
                requires
                    n == magnitude(a.pattern()) * magnitude(b.pattern()),
                    magnitude(b.pattern()) == 0,
            ;
            lemma_nearest_exact(0);
            lemma_round_nearest_is(0, d, 0);
        } else if a.zero() {
            assert(magnitude(0) == 0);
            assert(n == 0) by (nonlinear_arith)
                requires
                    n == magnitude(a.pattern()) * magnitude(b.pattern()),
                    magnitude(a.pattern()) == 0,
            ;
            lemma_nearest_exact(0);
            lemma_round_nearest_is(0, d, 0);
        }
    }
}

/// Flipping the signs of both terms flips the sign of the sum.
pub proof fn lemma_add_mirrored(a: Scalar, b: Scalar, c: Scalar, d: Scalar)
    requires
        mirrored(a, c),
        mirrored(b, d),
    ensures
        mirrored(a.add_spec(b), c.add_spec(d)),
{
    reveal(Scalar::add_spec);
    if !a.nan() && !b.nan() && a.finite() && b.finite() {
        assert(magnitude(0) == 0);
        let t = a.units() + b.units();
        assert(c.units() + d.units() == -t);
        lemma_from_units_parts(t, a.negative() && b.negative());
        lemma_from_units_parts(-t, c.negative() && d.negative());
    }
}

/// Adding a zero leaves a number as it is, but for the sign of a zero.
pub proof fn lemma_add_zero(a: Scalar, z: Scalar)
    requires
        z.zero(),
    ensures
        alike(a.add_spec(z), a),
{
    reveal(Scalar::add_spec);
    if !a.nan() && a.finite() {
        assert(magnitude(0) == 0);
        let t = a.units() + z.units();
        assert(t == a.units());
        lemma_from_units_parts(t, a.negative() && z.negative());
        crate::rounding::lemma_magnitude_order(0, a.pattern());
        if !a.zero() {
            lemma_nearest_exact(a.pattern());
            lemma_round_nearest_is(magnitude(a.pattern()) as int, 1, a.pattern());
        }
    }
}

/// A finite number times zero is a zero.
pub proof fn lemma_mul_zero(a: Scalar, z: Scalar)
    requires
        a.finite(),
        z.zero(),
    ensures
        a.mul_spec(z).zero(),
{
    reveal(Scalar::mul_spec);
    let n = (magnitude(a.pattern()) * magnitude(z.pattern())) as int;
    let d = pow2(149) as int;
    lemma_pow2_pos(149);
    assert(magnitude(0) == 0);
    assert(n == 0) by (nonlinear_arith)
        requires
            n == magnitude(a.pattern()) * magnitude(z.pattern()),
            magnitude(z.pattern()) == 0,
    ;
    lemma_nearest_exact(0);
    lemma_round_nearest_is(0, d, 0);
    lemma_compose_parts(a.negative() != z.negative(), 0);
}

/// Swapping the operands of a subtraction flips the sign of the result.
pub proof fn lemma_sub_mirrored(p: Scalar, q: Scalar)
    ensures
        mirrored(p.sub_spec(q), q.sub_spec(p)),
{
    reveal(Scalar::add_spec);
    lemma_compose_parts(!p.negative(), p.pattern());
    lemma_compose_parts(!q.negative(), q.pattern());
    if p.nan() || q.nan() {
    } else if p.infinite() || q.infinite() {
    } else {
        let total = p.units() - q.units();
        assert(q.neg_spec().units() == -q.units());
        assert(p.neg_spec().units() == -p.units());
        lemma_from_units_parts(total, p.negative() && q.neg_spec().negative());
        lemma_from_units_parts(-total, q.negative() && p.neg_spec().negative());
        assert(magnitude(0) == 0);
    }
}

/// Numbers that differ by their sign at most have the same square.
pub proof fn lemma_square_of_mirrored(x: Scalar, y: Scalar)
    requires
        mirrored(x, y),
    ensures
        x.mul_spec(x) == y.mul_spec(y),
{
    reveal(Scalar::mul_spec);
}

/// The negation of a number's mirror image is like the number, and such
/// numbers are equal unless they are NaN.
pub proof fn lemma_mirrored_neg(a: Scalar, b: Scalar)
    requires
        mirrored(a, b),
    ensures
        alike(a, b.neg_spec()),
        !a.nan() ==> a.eq_spec(b.neg_spec()),
{
    lemma_compose_parts(!b.negative(), b.pattern());
    assert(magnitude(0) == 0);
}

/// The sum does not depend on the order of the terms.
pub proof fn lemma_add_commutes(a: Scalar, b: Scalar)
    ensures
        a.add_spec(b) == b.add_spec(a),
{
    reveal(Scalar::add_spec);
}

/// Taking zero away leaves a number as it is, but for the sign of a zero.
pub proof fn lemma_sub_zero(a: Scalar, z: Scalar)
    requires
        z.zero(),
    ensures
        alike(a.sub_spec(z), a),
{
    lemma_compose_parts(!z.negative(), 0);
    lemma_add_zero(a, z.neg_spec());
}

/// Taking a number away from zero flips its sign.
pub proof fn lemma_zero_minus(z: Scalar, a: Scalar)
    requires
        z.zero(),
    ensures
        mirrored(a, z.sub_spec(a)),
{
    lemma_compose_parts(!a.negative(), a.pattern());
    lemma_add_commutes(z, a.neg_spec());
    lemma_add_zero(a.neg_spec(), z);
}

/// The pattern `(e - 22) 2^23` stands for 2^e units.
pub proof fn lemma_power_pattern(e: nat)
    requires
        23 <= e <= 276,
    ensures
        magnitude(((e - 22) * 0x80_0000) as nat) == pow2(e),
        (e - 22) * 0x80_0000 < INFINITY_BITS,
{
    vstd::arithmetic::power2::lemma2_to64();
    crate::rounding::lemma_magnitude_compose(0x80_0000, (e - 23) as nat);
    lemma_pow2_adds(23, (e - 23) as nat);
    assert((e - 23) * 0x80_0000 + 0x80_0000 == (e - 22) * 0x80_0000);
}

/// The product of two finite numbers whose exact product is at most 2^e,
/// for `e` from 23 to 276, is finite, carries the sign that the signs of the
/// factors give, and is no larger than 2^e units.
pub proof fn lemma_mul_finite(a: Scalar, b: Scalar, e: nat)
    requires
        23 <= e <= 276,
        a.finite(),
        b.finite(),
        magnitude(a.pattern()) * magnitude(b.pattern()) <= pow2(e) * pow2(149),
    ensures
        a.mul_spec(b).finite(),
        a.mul_spec(b).negative() == (a.negative() != b.negative()),
        magnitude(a.mul_spec(b).pattern()) <= pow2(e),
{
    reveal(Scalar::mul_spec);
    let n = (magnitude(a.pattern()) * magnitude(b.pattern())) as int;
    let d = pow2(149) as int;
    let top = ((e - 22) * 0x80_0000) as nat;
    lemma_pow2_pos(149);
    lemma_power_pattern(e);
    crate::rounding::lemma_round_nearest_monotone(n, magnitude(top) * d, d);
    let m = magnitude(top) as int;
    assert(nearest(m * d, d, top)) by {
        crate::rounding::lemma_magnitude_order((top - 1) as nat, top);
        crate::rounding::lemma_magnitude_order(top, top + 1);
        let l = low_sum(top);
        let h = high_sum(top);
        assert(l * d < 2 * (m * d) < h * d) by (nonlinear_arith)
            requires
                l < 2 * m < h,
                d > 0,
        ;
    }
    lemma_round_nearest_is(m * d, d, top);
    let k = round_nearest(n, d);
    crate::rounding::lemma_magnitude_order(k, top);
    lemma_compose_parts(a.negative() != b.negative(), k);
}

/// The number that stands for a total whose size a finite magnitude bounds
/// is finite and within one part in 2^24 of the total.
pub proof fn lemma_from_units_bounded(total: int, zero_negative: bool, bound: nat)
    requires
        bound < INFINITY_BITS,
        -(magnitude(bound) as int) <= total <= magnitude(bound),
    ensures
        Scalar::from_units(total, zero_negative).finite(),
        Scalar::from_units(total, zero_negative).pattern() <= bound,
        total != 0 ==> Scalar::from_units(total, zero_negative).pattern() > 0,
{
    let size = if total < 0 {
        -total
    } else {
        total
    };
    lemma_from_units_parts(total, zero_negative);
    lemma_nearest_exact(bound);
    lemma_round_nearest_is(magnitude(bound) as int, 1, bound);
    crate::rounding::lemma_round_nearest_monotone(size, magnitude(bound) as int, 1);
    if total != 0 {
        assert(magnitude(0) == 0);
        assert(magnitude(1) == 1);
        lemma_nearest_exact(1);
        lemma_round_nearest_is(1, 1, 1);
        crate::rounding::lemma_round_nearest_monotone(1, size, 1);
    }
}

/// Finite, zero or below zero, and of at most 2^e units.
pub open spec fn nonpositive(p: Scalar, e: nat) -> bool {
    p.finite() && (p.zero() || p.negative()) && magnitude(p.pattern()) <= pow2(e)
}

/// The sum of two numbers that are not above zero is not above zero, and is
/// below zero where one of them is.
pub proof fn lemma_nonpositive_sum(p: Scalar, q: Scalar, e: nat)
    requires
        23 <= e <= 274,
        nonpositive(p, e),
        nonpositive(q, e),
    ensures
        nonpositive(p.add_spec(q), e + 1),
        p.add_spec(q).zero() == (p.zero() && q.zero()),
{
    reveal(Scalar::add_spec);
    assert(magnitude(0) == 0);
    crate::rounding::lemma_magnitude_order(0, p.pattern());
    crate::rounding::lemma_magnitude_order(0, q.pattern());
    let total = p.units() + q.units();
    let z = p.negative() && q.negative();
    lemma_power_pattern(e + 1);
    vstd::arithmetic::power2::lemma_pow2_unfold(e + 1);
    let top = ((e + 1 - 22) * 0x80_0000) as nat;
    lemma_from_units_bounded(total, z, top);
    lemma_from_units_parts(total, z);
    crate::rounding::lemma_magnitude_order(Scalar::from_units(total, z).pattern(), top);
}

/// The product of two finite numbers of opposite signs, or of which one is
/// zero, is not above zero; it is below zero where the exact product is in
/// the normal range.
pub proof fn lemma_nonpositive_product(a: Scalar, b: Scalar, e: nat)
    requires
        23 <= e <= 275,
        a.finite(),
        b.finite(),
        a.zero() || b.zero() || a.negative() != b.negative(),
        magnitude(a.pattern()) * magnitude(b.pattern()) <= pow2(e) * pow2(149),
    ensures
        nonpositive(a.mul_spec(b), e),
        magnitude(a.pattern()) * magnitude(b.pattern()) >= pow2(172) ==> !a.mul_spec(b).zero(),
{
    lemma_mul_finite(a, b, e);
    let n = (magnitude(a.pattern()) * magnitude(b.pattern())) as int;
    assert(magnitude(0) == 0);
    if a.zero() {
        lemma_mul_zero(b, a);
        lemma_mul_commutes(b, a);
        assert(n == 0) by (nonlinear_arith)
            requires
                n == magnitude(a.pattern()) * magnitude(b.pattern()),
                magnitude(a.pattern()) == 0,
        ;
        lemma_pow2_pos(172);
    } else if b.zero() {
        lemma_mul_zero(a, b);
        assert(n == 0) by (nonlinear_arith)
            requires
                n == magnitude(a.pattern()) * magnitude(b.pattern()),
                magnitude(b.pattern()) == 0,
        ;
        lemma_pow2_pos(172);
    } else if n >= pow2(172) {
        reveal(Scalar::mul_spec);
        let d = pow2(149) as int;
        vstd::arithmetic::power2::lemma2_to64();
        lemma_pow2_adds(23, 149);
        lemma_pow2_adds(276, 149);
        lemma_pow2_pos(149);
        crate::rounding::lemma_pow2_le(e, 275);
        vstd::arithmetic::power2::lemma_pow2_strictly_increases(275, 276);
        assert(n < pow2(276) * d) by (nonlinear_arith)
            requires
                n <= pow2(e) * d,
                pow2(e) < pow2(276),
                d > 0,
        ;
        crate::rounding::lemma_round_relative(n, d);
    }
}

} // verus!
