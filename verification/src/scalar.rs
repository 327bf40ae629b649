//! IEEE 754 binary32 numbers held by their bit patterns.
//!
//! A pattern is a sign bit, eight exponent bits and twenty-three fraction
//! bits. The 31 low bits are called the magnitude pattern. Finite magnitudes
//! are measured in units of 2^-149, the smallest positive value, so that every
//! finite number is an integer count of units.

use vstd::prelude::*;
use vstd::arithmetic::power2::pow2;

verus! {

/// The sign bit of a pattern.
pub const SIGN_BIT: u32 = 0x8000_0000;

/// The magnitude pattern of infinity; larger magnitude patterns are NaNs.
pub const INFINITY_BITS: u32 = 0x7f80_0000;

/// The quiet NaN that every invalid operation returns.
pub const NAN_BITS: u32 = 0x7fc0_0000;

/// The number of units of 2^-149 that the magnitude pattern `k` stands for.
/// At `INFINITY_BITS` this is 2^277, the start of the binade that binary32
/// does not have, which is what rounding to nearest measures against.
pub open spec fn magnitude(k: nat) -> nat {
    let e = k / 0x80_0000;
    let f = k % 0x80_0000;
    if e == 0 {
        f
    } else {
        (0x80_0000 + f) * pow2((e - 1) as nat)
    }
}

/// What a binary32 number is, apart from how it is encoded.
pub enum Number {
    Nan,
    Infinite { negative: bool },
    /// `units` counts multiples of 2^-149; zero keeps its sign.
    Finite { negative: bool, units: nat },
}

/// A binary32 number.
#[derive(Clone, Copy, Debug)]
pub struct Scalar {
    pub bits: u32,
}

impl View for Scalar {
    type V = Number;

    open spec fn view(&self) -> Number {
        if self.pattern() > INFINITY_BITS {
            Number::Nan
        } else if self.pattern() == INFINITY_BITS {
            Number::Infinite { negative: self.negative() }
        } else {
            Number::Finite { negative: self.negative(), units: magnitude(self.pattern()) }
        }
    }
}

impl Scalar {
    /// The sign bit is set.
    pub open spec fn negative(self) -> bool {
        self.bits >= SIGN_BIT
    }

    /// The magnitude pattern: the bits without the sign.
    pub open spec fn pattern(self) -> nat {
        (self.bits % SIGN_BIT) as nat
    }

    /// Not a number.
    pub open spec fn nan(self) -> bool {
        self.pattern() > INFINITY_BITS
    }

    /// Plus or minus infinity.
    pub open spec fn infinite(self) -> bool {
        self.pattern() == INFINITY_BITS
    }

    /// Neither NaN nor infinite.
    pub open spec fn finite(self) -> bool {
        self.pattern() < INFINITY_BITS
    }

    /// Plus or minus zero.
    pub open spec fn zero(self) -> bool {
        self.pattern() == 0
    }

    /// The signed count of units, for a number that is not NaN; infinity
    /// counts as 2^277 units.
    pub open spec fn units(self) -> int {
        if self.negative() {
            -(magnitude(self.pattern()) as int)
        } else {
            magnitude(self.pattern()) as int
        }
    }

    /// The number with the given sign and magnitude pattern.
    pub open spec fn compose(negative: bool, pattern: nat) -> Scalar {
        Scalar { bits: (if negative { pattern + SIGN_BIT } else { pattern as int }) as u32 }
    }

    /// The number with the given bit pattern.
    pub fn from_bits(bits: u32) -> (r: Scalar)
        ensures
            r.bits == bits,
    {
        Scalar { bits }
    }

    /// The bit pattern of the number.
    pub fn to_bits(self) -> (r: u32)
        ensures
            r == self.bits,
    {
        self.bits
    }

    /// Whether the sign bit is set.
    pub fn is_negative(self) -> (r: bool)
        ensures
            r == self.negative(),
    {
        self.bits >= SIGN_BIT
    }

    /// The bits without the sign.
    pub fn magnitude_bits(self) -> (r: u32)
        ensures
            r == self.pattern(),
    {
        self.bits % SIGN_BIT
    }

    /// Whether the number is NaN.
    pub fn is_nan(self) -> (r: bool)
        ensures
            r == self.nan(),
    {
        self.magnitude_bits() > INFINITY_BITS
    }

    /// Whether the number is plus or minus infinity.
    pub fn is_infinite(self) -> (r: bool)
        ensures
            r == self.infinite(),
    {
        self.magnitude_bits() == INFINITY_BITS
    }

    /// Whether the number is neither NaN nor infinite.
    pub fn is_finite(self) -> (r: bool)
        ensures
            r == self.finite(),
    {
        self.magnitude_bits() < INFINITY_BITS
    }

    /// The same number with the sign bit flipped, NaN included.
    pub open spec fn neg_spec(self) -> Scalar {
        Scalar::compose(!self.negative(), self.pattern())
    }

    /// The number with its sign flipped.
    pub fn neg(self) -> (r: Scalar)
        ensures
            r == self.neg_spec(),
    {
        if self.bits >= SIGN_BIT {
            Scalar { bits: self.bits - SIGN_BIT }
        } else {
            Scalar { bits: self.bits + SIGN_BIT }
        }
    }

    /// The same number with the sign bit cleared.
    pub open spec fn abs_spec(self) -> Scalar {
        Scalar::compose(false, self.pattern())
    }

    /// The number without its sign.
    pub fn abs(self) -> (r: Scalar)
        ensures
            r == self.abs_spec(),
    {
        Scalar { bits: self.bits % SIGN_BIT }
    }
}

/// The pattern of zero.
pub const ZERO_BITS: u32 = 0;

/// The pattern of one.
pub const ONE_BITS: u32 = 0x3f80_0000;

/// The pattern of two.
pub const TWO_BITS: u32 = 0x4000_0000;

/// The pattern of one half.
pub const HALF_BITS: u32 = 0x3f00_0000;

/// The pattern of 255.
pub const BYTE_MAX_BITS: u32 = 0x437f_0000;

/// The pattern of the largest finite number.
pub const MAX_BITS: u32 = 0x7f7f_ffff;

/// Patterns of numbers that are not NaN are ordered as the numbers are, once
/// the sign is taken from the pattern.
pub proof fn lemma_units_order(a: Scalar, b: Scalar)
    requires
        !a.nan(),
        !b.nan(),
    ensures
        (a.key() < b.key()) == (a.units() < b.units()),
        (a.key() == b.key()) == (a.units() == b.units()),
{
    crate::rounding::lemma_magnitude_order(a.pattern(), b.pattern());
    crate::rounding::lemma_magnitude_order(0, a.pattern());
    crate::rounding::lemma_magnitude_order(0, b.pattern());
    assert(magnitude(0) == 0);
}

impl Scalar {
    /// The magnitude pattern with the number's sign: an integer that orders
    /// numbers as their values do.
    pub open spec fn key(self) -> int {
        if self.negative() {
            -(self.pattern() as int)
        } else {
            self.pattern() as int
        }
    }

    /// The magnitude pattern under the number's sign.
    fn signed_pattern(self) -> (r: i64)
        ensures
            r == self.key(),
    {
        let p: u32 = self.bits % SIGN_BIT;
        if self.bits >= SIGN_BIT {
            -(p as i64)
        } else {
            p as i64
        }
    }

    /// Less than: false where an operand is NaN.
    pub open spec fn lt_spec(self, rhs: Scalar) -> bool {
        !self.nan() && !rhs.nan() && self.units() < rhs.units()
    }

    /// Less than or equal: false where an operand is NaN.
    pub open spec fn le_spec(self, rhs: Scalar) -> bool {
        !self.nan() && !rhs.nan() && self.units() <= rhs.units()
    }

    /// Equal as numbers: false where an operand is NaN, true of the two zeros.
    pub open spec fn eq_spec(self, rhs: Scalar) -> bool {
        !self.nan() && !rhs.nan() && self.units() == rhs.units()
    }

    /// Whether the number is less than `rhs`.
    pub fn lt(self, rhs: Scalar) -> (r: bool)
        ensures
            r == self.lt_spec(rhs),
    {
        if self.is_nan() || rhs.is_nan() {
            return false;
        }
        proof {
            lemma_units_order(self, rhs);
        }
        self.signed_pattern() < rhs.signed_pattern()
    }

    /// Whether the number is less than or equal to `rhs`.
    pub fn le(self, rhs: Scalar) -> (r: bool)
        ensures
            r == self.le_spec(rhs),
    {
        if self.is_nan() || rhs.is_nan() {
            return false;
        }
        proof {
            lemma_units_order(self, rhs);
        }
        self.signed_pattern() <= rhs.signed_pattern()
    }

    /// Whether the number is greater than `rhs`.
    pub fn gt(self, rhs: Scalar) -> (r: bool)
        ensures
            r == rhs.lt_spec(self),
    {
        rhs.lt(self)
    }

    /// Whether the number is greater than or equal to `rhs`.
    pub fn ge(self, rhs: Scalar) -> (r: bool)
        ensures
            r == rhs.le_spec(self),
    {
        rhs.le(self)
    }

    /// Whether the two are equal as numbers.
    pub fn equals(self, rhs: Scalar) -> (r: bool)
        ensures
            r == self.eq_spec(rhs),
    {
        if self.is_nan() || rhs.is_nan() {
            return false;
        }
        proof {
            lemma_units_order(self, rhs);
        }
        self.signed_pattern() == rhs.signed_pattern()
    }

    /// The smaller operand, and the other operand where one is NaN.
    pub open spec fn min_spec(self, rhs: Scalar) -> Scalar {
        if self.nan() {
            rhs
        } else if rhs.nan() {
            self
        } else if rhs.lt_spec(self) {
            rhs
        } else {
            self
        }
    }

    /// The larger operand, and the other operand where one is NaN.
    pub open spec fn max_spec(self, rhs: Scalar) -> Scalar {
        if self.nan() {
            rhs
        } else if rhs.nan() {
            self
        } else if self.lt_spec(rhs) {
            rhs
        } else {
            self
        }
    }

    /// The smaller of the two.
    pub fn min(self, rhs: Scalar) -> (r: Scalar)
        ensures
            r == self.min_spec(rhs),
    {
        if self.is_nan() {
            rhs
        } else if rhs.is_nan() {
            self
        } else if rhs.lt(self) {
            rhs
        } else {
            self
        }
    }

    /// The larger of the two.
    pub fn max(self, rhs: Scalar) -> (r: Scalar)
        ensures
            r == self.max_spec(rhs),
    {
        if self.is_nan() {
            rhs
        } else if rhs.is_nan() {
            self
        } else if self.lt(rhs) {
            rhs
        } else {
            self
        }
    }

    /// The whole part of the number as a byte: 0 for NaN and for what is
    /// below 1, 255 for what is 255 or above.
    pub open spec fn byte_spec(self) -> int {
        if self.nan() || self.negative() {
            0
        } else if magnitude(self.pattern()) / pow2(149) >= 255 {
            255
        } else {
            (magnitude(self.pattern()) / pow2(149)) as int
        }
    }

    /// The whole part of the number, kept within a byte.
    pub fn to_byte(self) -> (r: u8)
        ensures
            r == self.byte_spec(),
    {
        let p: u32 = self.magnitude_bits();
        if p > INFINITY_BITS || self.is_negative() {
            return 0;
        }
        proof {
            vstd::arithmetic::power2::lemma2_to64();
            vstd::arithmetic::power2::lemma_pow2_pos(149);
        }
        if p >= 0x4380_0000 {
            proof {
                crate::rounding::lemma_magnitude_order(0x4380_0000, p as nat);
                assert(0x4380_0000nat / 0x80_0000 == 135 && 0x4380_0000nat % 0x80_0000 == 0);
                vstd::arithmetic::power2::lemma_pow2_adds(23, 134);
                vstd::arithmetic::power2::lemma_pow2_adds(8, 149);
                assert(magnitude(0x4380_0000) == 256 * pow2(149));
                vstd::arithmetic::div_mod::lemma_div_is_ordered(
                    (256 * pow2(149)) as int,
                    magnitude(p as nat) as int,
                    pow2(149) as int,
                );
                vstd::arithmetic::div_mod::lemma_div_by_multiple(256, pow2(149) as int);
            }
            return 255;
        }
        if p < ONE_BITS {
            proof {
                crate::rounding::lemma_magnitude_order(p as nat, ONE_BITS as nat);
                assert(ONE_BITS as nat / 0x80_0000 == 127 && ONE_BITS as nat % 0x80_0000 == 0);
                vstd::arithmetic::power2::lemma_pow2_adds(23, 126);
                assert(magnitude(ONE_BITS as nat) == pow2(149));
                vstd::arithmetic::div_mod::lemma_basic_div(
                    magnitude(p as nat) as int,
                    pow2(149) as int,
                );
            }
            return 0;
        }
        let (m, x) = crate::rounding::decompose(p);
        let shift: u32 = 149 - x;
        let d: u64 = crate::rounding::pow2_u64(shift);
        proof {
            vstd::arithmetic::power2::lemma_pow2_pos(x as nat);
            vstd::arithmetic::power2::lemma_pow2_pos(shift as nat);
            vstd::arithmetic::power2::lemma_pow2_adds(x as nat, shift as nat);
            vstd::arithmetic::div_mod::lemma_div_multiples_vanish_quotient(
                pow2(x as nat) as int,
                m as int,
                d as int,
            );
            assert(pow2(x as nat) * m == m * pow2(x as nat)) by (nonlinear_arith);
            crate::rounding::lemma_pow2_le(16, shift as nat);
            assert(m < 256 * d) by (nonlinear_arith)
                requires
                    m < 0x100_0000,
                    d >= 0x1_0000,
            ;
            assert(0 * d == 0);
            crate::rounding::lemma_div_between(m as int, d as int, 0, 256);
        }
        (m / d) as u8
    }
}

/// The number zero.
pub open spec fn zero() -> Scalar {
    Scalar { bits: ZERO_BITS }
}

/// The number one.
pub open spec fn one() -> Scalar {
    Scalar { bits: ONE_BITS }
}

/// The number two.
pub open spec fn two() -> Scalar {
    Scalar { bits: TWO_BITS }
}

/// The number one half.
pub open spec fn half() -> Scalar {
    Scalar { bits: HALF_BITS }
}

} // verus!
