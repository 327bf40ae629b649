//! Three-component vectors of binary32 numbers: points, directions, colours.

use vstd::prelude::*;
use vstd::std_specs::ops::{AddSpecImpl, DivSpecImpl, MulSpecImpl, NegSpecImpl, SubSpecImpl};
use vstd::std_specs::cmp::PartialEqSpecImpl;
use vstd::std_specs::convert::FromSpecImpl;
use crate::scalar::{Scalar, ONE_BITS, ZERO_BITS};
use vstd::arithmetic::power2::pow2;

verus! {

/// A vector of three binary32 numbers.
#[derive(Clone, Copy, Debug)]
pub struct Vec3(pub [Scalar; 3]);

impl Vec3 {
    /// The vector with the given components.
    pub open spec fn of(x: Scalar, y: Scalar, z: Scalar) -> Vec3 {
        Vec3([x, y, z])
    }

    /// The sum, component by component.
    pub open spec fn plus(self, rhs: Vec3) -> Vec3 {
        Vec3::of(
            self.0[0].add_spec(rhs.0[0]),
            self.0[1].add_spec(rhs.0[1]),
            self.0[2].add_spec(rhs.0[2]),
        )
    }

    /// Each component with `rhs` added.
    pub open spec fn plus_scalar(self, rhs: Scalar) -> Vec3 {
        Vec3::of(self.0[0].add_spec(rhs), self.0[1].add_spec(rhs), self.0[2].add_spec(rhs))
    }

    /// The difference, component by component.
    pub open spec fn minus(self, rhs: Vec3) -> Vec3 {
        Vec3::of(
            self.0[0].sub_spec(rhs.0[0]),
            self.0[1].sub_spec(rhs.0[1]),
            self.0[2].sub_spec(rhs.0[2]),
        )
    }

    /// The product, component by component.
    pub open spec fn times(self, rhs: Vec3) -> Vec3 {
        Vec3::of(
            self.0[0].mul_spec(rhs.0[0]),
            self.0[1].mul_spec(rhs.0[1]),
            self.0[2].mul_spec(rhs.0[2]),
        )
    }

    /// Each component multiplied by `k`.
    pub open spec fn scaled(self, k: Scalar) -> Vec3 {
        Vec3::of(self.0[0].mul_spec(k), self.0[1].mul_spec(k), self.0[2].mul_spec(k))
    }

    /// The quotient, component by component.
    pub open spec fn over(self, rhs: Vec3) -> Vec3 {
        Vec3::of(
            self.0[0].div_spec(rhs.0[0]),
            self.0[1].div_spec(rhs.0[1]),
            self.0[2].div_spec(rhs.0[2]),
        )
    }

    /// Each component multiplied by the reciprocal of `k`: the reciprocal is
    /// rounded once, and each product once more.
    pub open spec fn divided(self, k: Scalar) -> Vec3 {
        self.scaled((Scalar { bits: ONE_BITS }).div_spec(k))
    }

    /// Each component with its sign flipped.
    pub open spec fn negated(self) -> Vec3 {
        Vec3::of(self.0[0].neg_spec(), self.0[1].neg_spec(), self.0[2].neg_spec())
    }

    /// The sum of the squares of the components, added from the first on.
    pub open spec fn length_squared_spec(self) -> Scalar {
        self.0[0].mul_spec(self.0[0]).add_spec(self.0[1].mul_spec(self.0[1])).add_spec(
            self.0[2].mul_spec(self.0[2]),
        )
    }

    /// The square root of `length_squared_spec`.
    pub open spec fn length_spec(self) -> Scalar {
        self.length_squared_spec().sqrt_spec()
    }

    /// Equal component by component, as numbers.
    pub open spec fn same(self, rhs: Vec3) -> bool {
        self.0[0].eq_spec(rhs.0[0]) && self.0[1].eq_spec(rhs.0[1]) && self.0[2].eq_spec(rhs.0[2])
    }

    /// Some component is NaN.
    pub open spec fn has_nan(self) -> bool {
        self.0[0].nan() || self.0[1].nan() || self.0[2].nan()
    }

    /// The vector with the given components.
    pub fn new(x: Scalar, y: Scalar, z: Scalar) -> (r: Vec3)
        ensures
            r == Vec3::of(x, y, z),
    {
        Vec3([x, y, z])
    }

    /// The length of the vector.
    pub fn length(&self) -> (r: Scalar)
        ensures
            r == self.length_spec(),
    {
        self.length_squared().sqrt()
    }

    /// The squared length of the vector.
    pub fn length_squared(&self) -> (r: Scalar)
        ensures
            r == self.length_squared_spec(),
    {
        self.0[0].mul(self.0[0]).add(self.0[1].mul(self.0[1])).add(self.0[2].mul(self.0[2]))
    }

    /// Scales the vector by the reciprocal of its length.
    pub fn make_unit_vector(&mut self)
        ensures
            *final(self) == old(self).divided(old(self).length_spec()),
    {
        let k: Scalar = Scalar::from_bits(ONE_BITS).div(self.length());
        core::ops::MulAssign::mul_assign(self, k);
    }

    /// Replaces the component at `index`.
    pub fn set(&mut self, index: usize, value: Scalar)
        requires
            index < 3,
        ensures
            final(self).0@ == old(self).0@.update(index as int, value),
    {
        let mut parts: [Scalar; 3] = self.0;
        parts[index] = value;
        *self = Vec3(parts);
    }
}

impl core::ops::Index<usize> for Vec3 {
    type Output = Scalar;

    fn index(&self, index: usize) -> (r: &Scalar)
        ensures
            *r == self.0[index as int],
    {
        &self.0[index]
    }
}

impl vstd::std_specs::core::IndexSpecImpl<usize> for Vec3 {
    open spec fn index_req(&self, index: &usize) -> bool {
        *index < 3
    }
}

impl core::ops::AddAssign for Vec3 {
    fn add_assign(&mut self, rhs: Vec3)
        ensures
            *final(self) == old(self).plus(rhs),
    {
        *self = Vec3::new(self.0[0].add(rhs.0[0]), self.0[1].add(rhs.0[1]), self.0[2].add(rhs.0[2]));
    }
}

impl core::ops::SubAssign for Vec3 {
    fn sub_assign(&mut self, rhs: Vec3)
        ensures
            *final(self) == old(self).minus(rhs),
    {
        *self = Vec3::new(self.0[0].sub(rhs.0[0]), self.0[1].sub(rhs.0[1]), self.0[2].sub(rhs.0[2]));
    }
}

impl core::ops::MulAssign for Vec3 {
    fn mul_assign(&mut self, rhs: Vec3)
        ensures
            *final(self) == old(self).times(rhs),
    {
        *self = Vec3::new(self.0[0].mul(rhs.0[0]), self.0[1].mul(rhs.0[1]), self.0[2].mul(rhs.0[2]));
    }
}

impl core::ops::DivAssign for Vec3 {
    fn div_assign(&mut self, rhs: Vec3)
        ensures
            *final(self) == old(self).over(rhs),
    {
        *self = Vec3::new(self.0[0].div(rhs.0[0]), self.0[1].div(rhs.0[1]), self.0[2].div(rhs.0[2]));
    }
}

impl core::ops::MulAssign<Scalar> for Vec3 {
    fn mul_assign(&mut self, rhs: Scalar)
        ensures
            *final(self) == old(self).scaled(rhs),
    {
        *self = Vec3::new(self.0[0].mul(rhs), self.0[1].mul(rhs), self.0[2].mul(rhs));
    }
}

impl core::ops::DivAssign<Scalar> for Vec3 {
    fn div_assign(&mut self, rhs: Scalar)
        ensures
            *final(self) == old(self).divided(rhs),
    {
        let k: Scalar = Scalar::from_bits(ONE_BITS).div(rhs);
        *self = Vec3::new(self.0[0].mul(k), self.0[1].mul(k), self.0[2].mul(k));
    }
}

impl Default for Vec3 {
    fn default() -> (r: Vec3)
        ensures
            r == Vec3::of(
                (Scalar { bits: ZERO_BITS }),
                (Scalar { bits: ZERO_BITS }),
                (Scalar { bits: ZERO_BITS }),
            ),
    {
        let zero: Scalar = Scalar::from_bits(ZERO_BITS);
        Vec3::new(zero, zero, zero)
    }
}

impl PartialEq for Vec3 {
    fn eq(&self, other: &Vec3) -> (r: bool) {
        self.0[0].equals(other.0[0]) && self.0[1].equals(other.0[1]) && self.0[2].equals(
            other.0[2],
        )
    }
}

impl PartialEqSpecImpl for Vec3 {
    open spec fn obeys_eq_spec() -> bool {
        true
    }

    open spec fn eq_spec(&self, other: &Vec3) -> bool {
        self.same(*other)
    }
}

impl core::ops::Neg for Vec3 {
    type Output = Vec3;

    fn neg(self) -> (r: Vec3) {
        Vec3::new(self.0[0].neg(), self.0[1].neg(), self.0[2].neg())
    }
}

impl NegSpecImpl for Vec3 {
    open spec fn obeys_neg_spec() -> bool {
        true
    }

    open spec fn neg_req(self) -> bool {
        true
    }

    open spec fn neg_spec(self) -> Vec3 {
        self.negated()
    }
}

impl core::ops::Add for Vec3 {
    type Output = Vec3;

    fn add(self, rhs: Vec3) -> (r: Vec3) {
        Vec3::new(self.0[0].add(rhs.0[0]), self.0[1].add(rhs.0[1]), self.0[2].add(rhs.0[2]))
    }
}

impl AddSpecImpl for Vec3 {
    open spec fn obeys_add_spec() -> bool {
        true
    }

    open spec fn add_req(self, rhs: Vec3) -> bool {
        true
    }

    open spec fn add_spec(self, rhs: Vec3) -> Vec3 {
        self.plus(rhs)
    }
}

impl core::ops::Add<Scalar> for Vec3 {
    type Output = Vec3;

    fn add(self, rhs: Scalar) -> (r: Vec3) {
        Vec3::new(self.0[0].add(rhs), self.0[1].add(rhs), self.0[2].add(rhs))
    }
}

impl AddSpecImpl<Scalar> for Vec3 {
    open spec fn obeys_add_spec() -> bool {
        true
    }

    open spec fn add_req(self, rhs: Scalar) -> bool {
        true
    }

    open spec fn add_spec(self, rhs: Scalar) -> Vec3 {
        self.plus_scalar(rhs)
    }
}

impl core::ops::Sub for Vec3 {
    type Output = Vec3;

    fn sub(self, rhs: Vec3) -> (r: Vec3) {
        Vec3::new(self.0[0].sub(rhs.0[0]), self.0[1].sub(rhs.0[1]), self.0[2].sub(rhs.0[2]))
    }
}

impl SubSpecImpl for Vec3 {
    open spec fn obeys_sub_spec() -> bool {
        true
    }

    open spec fn sub_req(self, rhs: Vec3) -> bool {
        true
    }

    open spec fn sub_spec(self, rhs: Vec3) -> Vec3 {
        self.minus(rhs)
    }
}

impl core::ops::Mul for Vec3 {
    type Output = Vec3;

    fn mul(self, rhs: Vec3) -> (r: Vec3) {
        Vec3::new(self.0[0].mul(rhs.0[0]), self.0[1].mul(rhs.0[1]), self.0[2].mul(rhs.0[2]))
    }
}

impl MulSpecImpl for Vec3 {
    open spec fn obeys_mul_spec() -> bool {
        true
    }

    open spec fn mul_req(self, rhs: Vec3) -> bool {
        true
    }

    open spec fn mul_spec(self, rhs: Vec3) -> Vec3 {
        self.times(rhs)
    }
}

impl core::ops::Mul<Scalar> for Vec3 {
    type Output = Vec3;

    fn mul(self, rhs: Scalar) -> (r: Vec3) {
        Vec3::new(self.0[0].mul(rhs), self.0[1].mul(rhs), self.0[2].mul(rhs))
    }
}

impl MulSpecImpl<Scalar> for Vec3 {
    open spec fn obeys_mul_spec() -> bool {
        true
    }

    open spec fn mul_req(self, rhs: Scalar) -> bool {
        true
    }

    open spec fn mul_spec(self, rhs: Scalar) -> Vec3 {
        self.scaled(rhs)
    }
}

impl core::ops::Mul<Vec3> for Scalar {
    type Output = Vec3;

    fn mul(self, rhs: Vec3) -> (r: Vec3) {
        Vec3::new(rhs.0[0].mul(self), rhs.0[1].mul(self), rhs.0[2].mul(self))
    }
}

impl MulSpecImpl<Vec3> for Scalar {
    open spec fn obeys_mul_spec() -> bool {
        true
    }

    open spec fn mul_req(self, rhs: Vec3) -> bool {
        true
    }

    open spec fn mul_spec(self, rhs: Vec3) -> Vec3 {
        rhs.scaled(self)
    }
}

impl core::ops::Div for Vec3 {
    type Output = Vec3;

    fn div(self, rhs: Vec3) -> (r: Vec3) {
        Vec3::new(self.0[0].div(rhs.0[0]), self.0[1].div(rhs.0[1]), self.0[2].div(rhs.0[2]))
    }
}

impl DivSpecImpl for Vec3 {
    open spec fn obeys_div_spec() -> bool {
        true
    }

    open spec fn div_req(self, rhs: Vec3) -> bool {
        true
    }

    open spec fn div_spec(self, rhs: Vec3) -> Vec3 {
        self.over(rhs)
    }
}

impl core::ops::Div<Scalar> for Vec3 {
    type Output = Vec3;

    fn div(self, rhs: Scalar) -> (r: Vec3) {
        let inverse: Scalar = Scalar::from_bits(ONE_BITS).div(rhs);
        Vec3::new(self.0[0].mul(inverse), self.0[1].mul(inverse), self.0[2].mul(inverse))
    }
}

impl DivSpecImpl<Scalar> for Vec3 {
    open spec fn obeys_div_spec() -> bool {
        true
    }

    open spec fn div_req(self, rhs: Scalar) -> bool {
        true
    }

    open spec fn div_spec(self, rhs: Scalar) -> Vec3 {
        self.divided(rhs)
    }
}

impl From<[Scalar; 3]> for Vec3 {
    fn from(a: [Scalar; 3]) -> (r: Vec3) {
        Vec3(a)
    }
}

impl FromSpecImpl<[Scalar; 3]> for Vec3 {
    open spec fn obeys_from_spec() -> bool {
        true
    }

    open spec fn from_spec(a: [Scalar; 3]) -> Vec3 {
        Vec3(a)
    }
}

/// The dot product: the three products, added from the first on.
pub open spec fn dot_spec(a: Vec3, b: Vec3) -> Scalar {
    a.0[0].mul_spec(b.0[0]).add_spec(a.0[1].mul_spec(b.0[1])).add_spec(a.0[2].mul_spec(b.0[2]))
}

/// The cross product.
pub open spec fn cross_spec(a: Vec3, b: Vec3) -> Vec3 {
    Vec3::of(
        a.0[1].mul_spec(b.0[2]).sub_spec(a.0[2].mul_spec(b.0[1])),
        a.0[2].mul_spec(b.0[0]).sub_spec(a.0[0].mul_spec(b.0[2])),
        a.0[0].mul_spec(b.0[1]).sub_spec(a.0[1].mul_spec(b.0[0])),
    )
}

/// The vector scaled by the reciprocal of its length.
pub open spec fn unit_spec(a: Vec3) -> Vec3 {
    a.divided(a.length_spec())
}

/// The dot product.
pub fn dot(a: Vec3, b: Vec3) -> (r: Scalar)
    ensures
        r == dot_spec(a, b),
{
    a.0[0].mul(b.0[0]).add(a.0[1].mul(b.0[1])).add(a.0[2].mul(b.0[2]))
}

/// The cross product.
pub fn cross(a: Vec3, b: Vec3) -> (r: Vec3)
    ensures
        r == cross_spec(a, b),
{
    Vec3::new(
        a.0[1].mul(b.0[2]).sub(a.0[2].mul(b.0[1])),
        a.0[2].mul(b.0[0]).sub(a.0[0].mul(b.0[2])),
        a.0[0].mul(b.0[1]).sub(a.0[1].mul(b.0[0])),
    )
}

/// The vector scaled to length one.
pub fn unit_vector(a: Vec3) -> (r: Vec3)
    ensures
        r == unit_spec(a),
{
    a / a.length()
}

/// A vector read as a point in space.
pub trait Point {
    spec fn x_spec(&self) -> Scalar;

    spec fn y_spec(&self) -> Scalar;

    spec fn z_spec(&self) -> Scalar;

    fn x(&self) -> (r: Scalar)
        ensures
            r == self.x_spec(),
    ;

    fn y(&self) -> (r: Scalar)
        ensures
            r == self.y_spec(),
    ;

    fn z(&self) -> (r: Scalar)
        ensures
            r == self.z_spec(),
    ;
}

/// A vector read as a colour.
pub trait Color {
    spec fn r_spec(&self) -> Scalar;

    spec fn g_spec(&self) -> Scalar;

    spec fn b_spec(&self) -> Scalar;

    fn r(&self) -> (c: Scalar)
        ensures
            c == self.r_spec(),
    ;

    fn g(&self) -> (c: Scalar)
        ensures
            c == self.g_spec(),
    ;

    fn b(&self) -> (c: Scalar)
        ensures
            c == self.b_spec(),
    ;
}

impl Point for Vec3 {
    open spec fn x_spec(&self) -> Scalar {
        self.0[0]
    }

    open spec fn y_spec(&self) -> Scalar {
        self.0[1]
    }

    open spec fn z_spec(&self) -> Scalar {
        self.0[2]
    }

    fn x(&self) -> (r: Scalar) {
        self.0[0]
    }

    fn y(&self) -> (r: Scalar) {
        self.0[1]
    }

    fn z(&self) -> (r: Scalar) {
        self.0[2]
    }
}

impl Color for Vec3 {
    open spec fn r_spec(&self) -> Scalar {
        self.0[0]
    }

    open spec fn g_spec(&self) -> Scalar {
        self.0[1]
    }

    open spec fn b_spec(&self) -> Scalar {
        self.0[2]
    }

    fn r(&self) -> (c: Scalar) {
        self.0[0]
    }

    fn g(&self) -> (c: Scalar) {
        self.0[1]
    }

    fn b(&self) -> (c: Scalar) {
        self.0[2]
    }
}

/// The dot product does not depend on the order of its operands: the two
/// results have the same bits.
pub proof fn law_dot_commutes(a: Vec3, b: Vec3)
    ensures
        dot_spec(a, b) == dot_spec(b, a),
{
    crate::arith::lemma_mul_commutes(a.0[0], b.0[0]);
    crate::arith::lemma_mul_commutes(a.0[1], b.0[1]);
    crate::arith::lemma_mul_commutes(a.0[2], b.0[2]);
}

/// The cross product changes sign when its operands are swapped: each
/// component of `cross(a, b)` and of `-cross(b, a)` is NaN in both or the
/// same number in both, so that the two vectors are equal unless a NaN
/// arises.
pub proof fn law_cross_anticommutes(a: Vec3, b: Vec3)
    ensures
        forall|i: int|
            0 <= i < 3 ==> crate::arith::alike(
                #[trigger] cross_spec(a, b).0[i],
                cross_spec(b, a).negated().0[i],
            ),
        !cross_spec(a, b).has_nan() ==> cross_spec(a, b).same(cross_spec(b, a).negated()),
{
    crate::arith::lemma_mul_commutes(a.0[1], b.0[2]);
    crate::arith::lemma_mul_commutes(a.0[2], b.0[1]);
    crate::arith::lemma_mul_commutes(a.0[2], b.0[0]);
    crate::arith::lemma_mul_commutes(a.0[0], b.0[2]);
    crate::arith::lemma_mul_commutes(a.0[0], b.0[1]);
    crate::arith::lemma_mul_commutes(a.0[1], b.0[0]);
    let x = cross_spec(a, b);
    let y = cross_spec(b, a);
    crate::arith::lemma_sub_mirrored(a.0[1].mul_spec(b.0[2]), a.0[2].mul_spec(b.0[1]));
    crate::arith::lemma_sub_mirrored(a.0[2].mul_spec(b.0[0]), a.0[0].mul_spec(b.0[2]));
    crate::arith::lemma_sub_mirrored(a.0[0].mul_spec(b.0[1]), a.0[1].mul_spec(b.0[0]));
    crate::arith::lemma_mirrored_neg(x.0[0], y.0[0]);
    crate::arith::lemma_mirrored_neg(x.0[1], y.0[1]);
    crate::arith::lemma_mirrored_neg(x.0[2], y.0[2]);
}

/// A squared length is NaN or not below zero.
pub proof fn lemma_length_squared_sign(v: Vec3)
    ensures
        v.length_squared_spec().nan() || !v.length_squared_spec().negative(),
{
    crate::arith::lemma_square_sign(v.0[0]);
    crate::arith::lemma_square_sign(v.0[1]);
    crate::arith::lemma_square_sign(v.0[2]);
    let first = v.0[0].mul_spec(v.0[0]).add_spec(v.0[1].mul_spec(v.0[1]));
    crate::arith::lemma_sum_sign(v.0[0].mul_spec(v.0[0]), v.0[1].mul_spec(v.0[1]));
    crate::arith::lemma_sum_sign(first, v.0[2].mul_spec(v.0[2]));
}

/// Flipping the sign of one operand flips the sign of the dot product.
pub proof fn lemma_dot_mirrored(a: Vec3, b: Vec3)
    ensures
        crate::arith::mirrored(dot_spec(a, b), dot_spec(a, b.negated())),
{
    let c = b.negated();
    crate::arith::lemma_compose_parts(!b.0[0].negative(), b.0[0].pattern());
    crate::arith::lemma_compose_parts(!b.0[1].negative(), b.0[1].pattern());
    crate::arith::lemma_compose_parts(!b.0[2].negative(), b.0[2].pattern());
    crate::arith::lemma_mul_mirrored(a.0[0], b.0[0], c.0[0]);
    crate::arith::lemma_mul_mirrored(a.0[1], b.0[1], c.0[1]);
    crate::arith::lemma_mul_mirrored(a.0[2], b.0[2], c.0[2]);
    crate::arith::lemma_add_mirrored(
        a.0[0].mul_spec(b.0[0]),
        a.0[1].mul_spec(b.0[1]),
        a.0[0].mul_spec(c.0[0]),
        a.0[1].mul_spec(c.0[1]),
    );
    crate::arith::lemma_add_mirrored(
        a.0[0].mul_spec(b.0[0]).add_spec(a.0[1].mul_spec(b.0[1])),
        a.0[2].mul_spec(b.0[2]),
        a.0[0].mul_spec(c.0[0]).add_spec(a.0[1].mul_spec(c.0[1])),
        a.0[2].mul_spec(c.0[2]),
    );
}

/// For vectors that differ by their signs, component by component, the
/// squared lengths are the same and the dot product is their negation.
pub proof fn lemma_dot_of_mirrored(a: Vec3, b: Vec3)
    requires
        crate::arith::mirrored(a.0[0], b.0[0]),
        crate::arith::mirrored(a.0[1], b.0[1]),
        crate::arith::mirrored(a.0[2], b.0[2]),
    ensures
        a.length_squared_spec() == b.length_squared_spec(),
        crate::arith::mirrored(b.length_squared_spec(), dot_spec(a, b)),
{
    crate::arith::lemma_square_of_mirrored(a.0[0], b.0[0]);
    crate::arith::lemma_square_of_mirrored(a.0[1], b.0[1]);
    crate::arith::lemma_square_of_mirrored(a.0[2], b.0[2]);
    crate::arith::lemma_mul_mirrored(a.0[0], a.0[0], b.0[0]);
    crate::arith::lemma_mul_mirrored(a.0[1], a.0[1], b.0[1]);
    crate::arith::lemma_mul_mirrored(a.0[2], a.0[2], b.0[2]);
    crate::arith::lemma_add_mirrored(
        a.0[0].mul_spec(a.0[0]),
        a.0[1].mul_spec(a.0[1]),
        a.0[0].mul_spec(b.0[0]),
        a.0[1].mul_spec(b.0[1]),
    );
    crate::arith::lemma_add_mirrored(
        a.0[0].mul_spec(a.0[0]).add_spec(a.0[1].mul_spec(a.0[1])),
        a.0[2].mul_spec(a.0[2]),
        a.0[0].mul_spec(b.0[0]).add_spec(a.0[1].mul_spec(b.0[1])),
        a.0[2].mul_spec(b.0[2]),
    );
}

/// The dot product of two finite vectors whose components have opposite
/// signs, or are zero, is below zero where the product of one pair of
/// components is in the normal range.
pub proof fn lemma_opposed_dot(a: Vec3, b: Vec3)
    requires
        forall|i: int|
            0 <= i < 3 ==> {
                &&& (#[trigger] a.0[i]).finite()
                &&& b.0[i].finite()
                &&& a.0[i].zero() || b.0[i].zero() || a.0[i].negative() != b.0[i].negative()
                &&& crate::accuracy::size(a.0[i]) * crate::accuracy::size(b.0[i]) <= pow2(270)
                    * pow2(149)
            },
        exists|i: int|
            0 <= i < 3 && crate::accuracy::size(#[trigger] a.0[i]) * crate::accuracy::size(b.0[i])
                >= pow2(172),
    ensures
        dot_spec(a, b).lt_spec(crate::scalar::zero()),
{
    let p0 = a.0[0].mul_spec(b.0[0]);
    let p1 = a.0[1].mul_spec(b.0[1]);
    let p2 = a.0[2].mul_spec(b.0[2]);
    assert(a.0[0].finite() && a.0[1].finite() && a.0[2].finite());
    crate::arith::lemma_nonpositive_product(a.0[0], b.0[0], 270);
    crate::arith::lemma_nonpositive_product(a.0[1], b.0[1], 270);
    crate::arith::lemma_nonpositive_product(a.0[2], b.0[2], 270);
    crate::arith::lemma_nonpositive_sum(p0, p1, 270);
    crate::rounding::lemma_pow2_le(270, 271);
    crate::arith::lemma_nonpositive_sum(p0.add_spec(p1), p2, 271);
    let s = dot_spec(a, b);
    assert(crate::scalar::magnitude(0) == 0);
    crate::rounding::lemma_magnitude_order(0, s.pattern());
}

} // verus!
