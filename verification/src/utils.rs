//! Small numeric helpers: clamping to a byte, interpolation, the tests that
//! rejection sampling makes, and degrees to radians.

use vstd::prelude::*;
use core::ops::Neg;
use crate::geom::{dot, dot_spec, unit_spec, unit_vector, Vec3};
use crate::scalar::{
    magnitude, one, zero, Number, Scalar, BYTE_MAX_BITS, INFINITY_BITS, ONE_BITS, ZERO_BITS,
};
use vstd::arithmetic::power2::pow2;

verus! {

/// The pattern of pi, rounded to binary32.
pub const PI_BITS: u32 = 0x4049_0fdb;

/// The pattern of 180.
pub const HALF_TURN_BITS: u32 = 0x4334_0000;

/// The byte that a number clamps to: 0 for NaN and for what is below zero,
/// 255 for what is above 255, and otherwise the number with its fraction
/// dropped. One is 2^149 units.
pub open spec fn clamp_spec(value: Scalar) -> int {
    match value@ {
        Number::Nan => 0,
        Number::Infinite { negative } => if negative {
            0
        } else {
            255
        },
        Number::Finite { negative, units } => if negative {
            0
        } else if units >= 255 * pow2(149) {
            255
        } else {
            (units / pow2(149)) as int
        },
    }
}

/// The number as a byte.
pub fn clamp(value: Scalar) -> (r: u8)
    ensures
        r == clamp_spec(value),
{
    let low: Scalar = Scalar::from_bits(ZERO_BITS);
    let high: Scalar = Scalar::from_bits(BYTE_MAX_BITS);
    let bounded: Scalar = value.max(low).min(high);
    proof {
        let v = magnitude(value.pattern());
        let p = pow2(149);
        vstd::arithmetic::power2::lemma2_to64();
        vstd::arithmetic::power2::lemma_pow2_pos(149);
        assert(BYTE_MAX_BITS as nat / 0x80_0000 == 134 && BYTE_MAX_BITS as nat % 0x80_0000
            == 0x7f_0000);
        vstd::arithmetic::power2::lemma_pow2_adds(16, 133);
        assert(magnitude(BYTE_MAX_BITS as nat) == 255 * p) by (nonlinear_arith)
            requires
                magnitude(BYTE_MAX_BITS as nat) == (0x80_0000 + 0x7f_0000) * pow2(133),
                p == 0x1_0000 * pow2(133),
        ;
        assert(magnitude(0) == 0);
        crate::rounding::lemma_magnitude_order(BYTE_MAX_BITS as nat, INFINITY_BITS as nat);
        vstd::arithmetic::div_mod::lemma_div_by_multiple(255, p as int);
        if !value.nan() && !value.negative() {
            crate::rounding::lemma_magnitude_order(value.pattern(), BYTE_MAX_BITS as nat);
            if v >= 255 * p {
                assert(bounded == high);
            } else {
                assert(bounded.pattern() == value.pattern());
                crate::rounding::lemma_div_between(v as int, p as int, 0, 255);
            }
        } else if value.nan() {
            assert(bounded == low);
        } else {
            assert(bounded.units() <= 0);
            vstd::arithmetic::div_mod::lemma_basic_div(0, p as int);
            if bounded.negative() {
            } else {
                assert(magnitude(bounded.pattern()) == 0);
            }
        }
    }
    bounded.to_byte()
}

/// The point a fraction `t` of the way from `from` to `to`:
/// `(1 - t) from + t to`.
pub open spec fn lerp_spec(from: Vec3, to: Vec3, t: Scalar) -> Vec3 {
    from.scaled(one().sub_spec(t)).plus(to.scaled(t))
}

/// The point a fraction `t` of the way from `from` to `to`.
pub fn lerp(from: Vec3, to: Vec3, t: Scalar) -> (r: Vec3)
    ensures
        r == lerp_spec(from, to, t),
{
    Scalar::from_bits(ONE_BITS).sub(t) * from + t * to
}

/// One try of rejection sampling in the unit ball: the point with the drawn
/// coordinates where its squared length is at most one, and nothing
/// otherwise, in which case the caller draws again.
pub fn random_in_unit_sphere(x: Scalar, y: Scalar, z: Scalar) -> (r: Option<Vec3>)
    ensures
        r == if Vec3::of(x, y, z).length_squared_spec().le_spec(one()) {
            Some(Vec3::of(x, y, z))
        } else {
            None
        },
{
    let p: Vec3 = Vec3::new(x, y, z);
    if p.length_squared().le(Scalar::from_bits(ONE_BITS)) {
        Some(p)
    } else {
        None
    }
}

/// The unit vector along a point drawn in the unit ball.
pub fn random_unit_vector(in_unit_sphere: Vec3) -> (r: Vec3)
    ensures
        r == unit_spec(in_unit_sphere),
{
    unit_vector(in_unit_sphere)
}

/// A point drawn in the unit ball, mirrored where needed so that it lies on
/// the side of `normal`.
pub fn random_in_hemisphere(normal: Vec3, in_unit_sphere: Vec3) -> (r: Vec3)
    ensures
        r == if zero().lt_spec(dot_spec(in_unit_sphere, normal)) {
            in_unit_sphere
        } else {
            in_unit_sphere.negated()
        },
{
    if dot(in_unit_sphere, normal).gt(Scalar::from_bits(ZERO_BITS)) {
        in_unit_sphere
    } else {
        in_unit_sphere.neg()
    }
}

/// One try of rejection sampling in the unit disk: the point with the drawn
/// coordinates in the plane `z = 0` where its squared length is below one,
/// and nothing otherwise.
pub fn random_in_unit_disk(x: Scalar, y: Scalar) -> (r: Option<Vec3>)
    ensures
        r == if Vec3::of(x, y, zero()).length_squared_spec().lt_spec(one()) {
            Some(Vec3::of(x, y, zero()))
        } else {
            None
        },
{
    let p: Vec3 = Vec3::from([x, y, Scalar::from_bits(ZERO_BITS)]);
    if p.length_squared().lt(Scalar::from_bits(ONE_BITS)) {
        Some(p)
    } else {
        None
    }
}

/// Degrees as radians: `deg * pi / 180`.
pub open spec fn deg_to_rad_spec(deg: Scalar) -> Scalar {
    deg.mul_spec(Scalar { bits: PI_BITS }).div_spec(Scalar { bits: HALF_TURN_BITS })
}

/// Degrees as radians.
pub fn deg_to_rad(deg: Scalar) -> (r: Scalar)
    ensures
        r == deg_to_rad_spec(deg),
{
    deg.mul(Scalar::from_bits(PI_BITS)).div(Scalar::from_bits(HALF_TURN_BITS))
}

} // verus!
