//! Surfaces that a ray can hit, and the record of a hit.

use vstd::prelude::*;
use core::ops::Neg;
use crate::geom::{dot, dot_spec, Vec3};
use crate::materials::Substance;
use crate::ray::Ray;
use crate::accuracy::{
    aimed_discriminant, aimed_parameter, inward, near, outward, placed, size, turned_back,
};
use crate::scalar::{half, one, zero, Scalar, ZERO_BITS};
use vstd::arithmetic::power2::pow2;

verus! {

/// Where and how a ray met a surface.
#[derive(Clone, Copy, Debug)]
pub struct HitRecord {
    /// The ray's parameter at the hit.
    pub t: Scalar,
    pub point: Vec3,
    /// The surface normal, turned to oppose the ray.
    pub normal: Vec3,
    pub material: Substance,
    /// The ray came from outside the surface.
    pub front_face: bool,
}

impl HitRecord {
    /// The record of a hit whose outward normal is `outward_normal`: the ray
    /// comes from outside where its direction opposes that normal, and the
    /// stored normal is flipped where it does not.
    pub open spec fn facing(
        t: Scalar,
        point: Vec3,
        material: Substance,
        outward_normal: Vec3,
        ray: &Ray,
    ) -> HitRecord {
        let front_face = dot_spec(ray.dir, outward_normal).lt_spec(zero());
        HitRecord {
            t,
            point,
            normal: if front_face {
                outward_normal
            } else {
                outward_normal.negated()
            },
            material,
            front_face,
        }
    }

    /// The record of a hit, its normal turned against the ray.
    pub fn with_front_face(
        t: Scalar,
        point: Vec3,
        material: Substance,
        outward_normal: Vec3,
        ray: &Ray,
    ) -> (r: HitRecord)
        ensures
            r == HitRecord::facing(t, point, material, outward_normal, ray),
    {
        let front_face: bool = dot(ray.direction(), outward_normal).lt(
            Scalar::from_bits(ZERO_BITS),
        );
        let normal: Vec3 = if front_face {
            outward_normal
        } else {
            outward_normal.neg()
        };
        HitRecord { t, point, normal, material, front_face }
    }
}

/// A surface that can be tested against a ray.
pub trait Hittable {
    spec fn hit_spec(&self, ray: &Ray, t_min: Scalar, t_max: Scalar) -> Option<HitRecord>;

    /// The hit of `ray` on the surface whose parameter lies strictly between
    /// `t_min` and `t_max`, if there is one.
    fn hit(&self, ray: &Ray, t_min: Scalar, t_max: Scalar) -> (r: Option<HitRecord>)
        ensures
            r == self.hit_spec(ray, t_min, t_max),
            r matches Some(h) ==> t_min.lt_spec(h.t) && h.t.lt_spec(t_max),
    ;
}

/// A sphere.
#[derive(Clone, Copy, Debug)]
pub struct Sphere {
    pub center: Vec3,
    pub radius: Scalar,
    pub material: Substance,
}

impl Sphere {
    /// The ray's origin relative to the centre.
    pub open spec fn offset(self, ray: &Ray) -> Vec3 {
        ray.orig.minus(self.center)
    }

    /// Half the linear coefficient of the quadratic in the ray's parameter.
    pub open spec fn half_b(self, ray: &Ray) -> Scalar {
        dot_spec(self.offset(ray), ray.dir)
    }

    /// A quarter of the discriminant of that quadratic: `half_b^2 - a c`,
    /// with `a` the squared length of the direction and `c` the squared
    /// distance of the origin from the centre less the squared radius.
    #[verifier::opaque]
    pub open spec fn discriminant(self, ray: &Ray) -> Scalar {
        let a = ray.dir.length_squared_spec();
        let c = self.offset(ray).length_squared_spec().sub_spec(self.radius.mul_spec(self.radius));
        self.half_b(ray).mul_spec(self.half_b(ray)).sub_spec(a.mul_spec(c))
    }

    /// The smaller root.
    #[verifier::opaque]
    pub open spec fn near_root(self, ray: &Ray) -> Scalar {
        self.half_b(ray).neg_spec().sub_spec(self.discriminant(ray).sqrt_spec()).div_spec(
            ray.dir.length_squared_spec(),
        )
    }

    /// The larger root.
    #[verifier::opaque]
    pub open spec fn far_root(self, ray: &Ray) -> Scalar {
        self.half_b(ray).neg_spec().add_spec(self.discriminant(ray).sqrt_spec()).div_spec(
            ray.dir.length_squared_spec(),
        )
    }

    /// The record of the hit at parameter `t`; the outward normal is the
    /// point relative to the centre, divided by the radius.
    #[verifier::opaque]
    pub open spec fn record_at(self, ray: &Ray, t: Scalar) -> HitRecord {
        let point = ray.at_spec(t);
        HitRecord::facing(
            t,
            point,
            self.material,
            point.minus(self.center).divided(self.radius),
            ray,
        )
    }

    /// The coefficients that the roots are computed from: the squared length
    /// of the direction, half the linear coefficient, and the discriminant.
    fn quadratic(&self, ray: &Ray) -> (r: (Scalar, Scalar, Scalar))
        ensures
            r.0 == ray.dir.length_squared_spec(),
            r.1 == self.half_b(ray),
            r.2 == self.discriminant(ray),
    {
        reveal(Sphere::discriminant);
        let oc: Vec3 = ray.origin() - self.center;
        let a: Scalar = ray.direction().length_squared();
        let half_b: Scalar = dot(oc, ray.direction());
        let c: Scalar = oc.length_squared().sub(self.radius.mul(self.radius));
        let discriminant: Scalar = half_b.mul(half_b).sub(a.mul(c));
        (a, half_b, discriminant)
    }

    /// The smaller root of the quadratic.
    fn first_root(&self, ray: &Ray, a: Scalar, half_b: Scalar, discriminant: Scalar) -> (r: Scalar)
        requires
            a == ray.dir.length_squared_spec(),
            half_b == self.half_b(ray),
            discriminant == self.discriminant(ray),
        ensures
            r == self.near_root(ray),
    {
        reveal(Sphere::near_root);
        half_b.neg().sub(discriminant.sqrt()).div(a)
    }

    /// The larger root of the quadratic.
    fn second_root(&self, ray: &Ray, a: Scalar, half_b: Scalar, discriminant: Scalar) -> (r:
        Scalar)
        requires
            a == ray.dir.length_squared_spec(),
            half_b == self.half_b(ray),
            discriminant == self.discriminant(ray),
        ensures
            r == self.far_root(ray),
    {
        reveal(Sphere::far_root);
        half_b.neg().add(discriminant.sqrt()).div(a)
    }

    /// The record of the hit at parameter `t`.
    fn record(&self, ray: &Ray, t: Scalar) -> (r: HitRecord)
        ensures
            r == self.record_at(ray, t),
            r.t == t,
    {
        reveal(Sphere::record_at);
        let point: Vec3 = ray.at(t);
        let outward_normal: Vec3 = (point - self.center) / self.radius;
        HitRecord::with_front_face(t, point, self.material, outward_normal, ray)
    }
}

impl Hittable for Sphere {
    /// No hit unless the discriminant is above zero; then the smaller root
    /// where it lies in the range, else the larger root where that does.
    open spec fn hit_spec(&self, ray: &Ray, t_min: Scalar, t_max: Scalar) -> Option<HitRecord> {
        if zero().lt_spec(self.discriminant(ray)) {
            let near = self.near_root(ray);
            let far = self.far_root(ray);
            if t_min.lt_spec(near) && near.lt_spec(t_max) {
                Some(self.record_at(ray, near))
            } else if t_min.lt_spec(far) && far.lt_spec(t_max) {
                Some(self.record_at(ray, far))
            } else {
                None
            }
        } else {
            None
        }
    }

    fn hit(&self, ray: &Ray, t_min: Scalar, t_max: Scalar) -> (r: Option<HitRecord>)
        ensures
            !zero().lt_spec(self.discriminant(ray)) ==> r is None,
    {
        let (a, half_b, discriminant) = self.quadratic(ray);
        if discriminant.gt(Scalar::from_bits(ZERO_BITS)) {
            let t: Scalar = self.first_root(ray, a, half_b, discriminant);
            if t_min.lt(t) && t.lt(t_max) {
                return Some(self.record(ray, t));
            }
            let t: Scalar = self.second_root(ray, a, half_b, discriminant);
            if t_min.lt(t) && t.lt(t_max) {
                return Some(self.record(ray, t));
            }
        }
        None
    }
}

/// For `s` and `a` not below zero, `(b + s) / a` is not below `(b - s) / a`.
proof fn lemma_quotients_ordered(b: Scalar, s: Scalar, a: Scalar)
    requires
        !s.nan(),
        !s.negative(),
        a.nan() || !a.negative(),
    ensures
        !b.add_spec(s).div_spec(a).lt_spec(b.sub_spec(s).div_spec(a)),
{
    reveal(Scalar::div_spec);
    crate::arith::lemma_sub_below_add(b, s);
    let x = b.sub_spec(s);
    let y = b.add_spec(s);
    if !x.nan() && !y.nan() && !a.nan() {
        crate::arith::lemma_div_monotone(x, y, a);
    }
}

/// Where the discriminant is above zero, the larger root is not below the
/// smaller one.
pub proof fn lemma_roots_ordered(sphere: Sphere, ray: &Ray)
    requires
        zero().lt_spec(sphere.discriminant(ray)),
    ensures
        !sphere.far_root(ray).lt_spec(sphere.near_root(ray)),
{
    reveal(Sphere::near_root);
    reveal(Sphere::far_root);
    let s = sphere.discriminant(ray).sqrt_spec();
    let b = sphere.half_b(ray).neg_spec();
    let a = ray.dir.length_squared_spec();
    crate::arith::lemma_sqrt_of_positive(sphere.discriminant(ray));
    crate::geom::lemma_length_squared_sign(ray.dir);
    lemma_quotients_ordered(b, s, a);
}

/// A sphere that a ray misses below one bound is missed below every lower
/// bound.
pub proof fn law_miss_below_lower_bound(
    sphere: Sphere,
    ray: &Ray,
    t_min: Scalar,
    bound: Scalar,
    lower: Scalar,
)
    requires
        sphere.hit_spec(ray, t_min, bound) is None,
        lower.lt_spec(bound),
    ensures
        sphere.hit_spec(ray, t_min, lower) is None,
{
}

/// The hit that a sphere reports is the closest it has: its parameter lies
/// strictly between the bounds, its record is the sphere's record at that
/// parameter, and below that parameter the ray misses the sphere.
pub proof fn law_sphere_hit_is_closest(sphere: Sphere, ray: &Ray, t_min: Scalar, t_max: Scalar)
    ensures
        sphere.hit_spec(ray, t_min, t_max) matches Some(h) ==> {
            &&& t_min.lt_spec(h.t)
            &&& h.t.lt_spec(t_max)
            &&& h == sphere.record_at(ray, h.t)
            &&& sphere.hit_spec(ray, t_min, h.t) is None
        },
{
    reveal(Sphere::record_at);
    if zero().lt_spec(sphere.discriminant(ray)) {
        lemma_roots_ordered(sphere, ray);
    }
}

/// The normal of a record never points along the ray: the dot product of
/// the ray's direction and the stored normal is not above zero.
pub proof fn law_normal_opposes_ray(
    t: Scalar,
    point: Vec3,
    material: Substance,
    outward_normal: Vec3,
    ray: &Ray,
)
    ensures
        !zero().lt_spec(
            dot_spec(ray.dir, HitRecord::facing(t, point, material, outward_normal, ray).normal),
        ),
{
    crate::geom::lemma_dot_mirrored(ray.dir, outward_normal);
    let d = dot_spec(ray.dir, outward_normal);
    let e = dot_spec(ray.dir, outward_normal.negated());
    assert(crate::scalar::magnitude(0) == 0);
    if !d.nan() {
        crate::rounding::lemma_magnitude_order(0, d.pattern());
    }
}

/// The record of a hit keeps the parameter, the point of the ray there and
/// the material of the sphere.
pub proof fn lemma_record_parts(sphere: Sphere, ray: &Ray, t: Scalar)
    ensures
        sphere.record_at(ray, t).t == t,
        sphere.record_at(ray, t).point == ray.at_spec(t),
        sphere.record_at(ray, t).material == sphere.material,
{
    reveal(Sphere::record_at);
}

/// The ray from `origin` whose direction runs to the centre of `sphere`.
pub open spec fn aimed_ray(sphere: Sphere, origin: Vec3) -> Ray {
    Ray { orig: origin, dir: sphere.center.minus(origin) }
}

/// For a ray aimed at the centre, the quadratic depends on the squared
/// length of the direction and on the radius alone.
proof fn lemma_aimed_quadratic(sphere: Sphere, origin: Vec3)
    requires
        aimed_ray(sphere, origin).dir.length_squared_spec().finite(),
        !aimed_ray(sphere, origin).dir.length_squared_spec().zero(),
    ensures
        sphere.discriminant(&aimed_ray(sphere, origin)) == aimed_discriminant(
            aimed_ray(sphere, origin).dir.length_squared_spec(),
            sphere.radius,
        ),
        sphere.near_root(&aimed_ray(sphere, origin)) == aimed_parameter(
            aimed_ray(sphere, origin).dir.length_squared_spec(),
            sphere.radius,
        ),
        !aimed_ray(sphere, origin).dir.length_squared_spec().negative(),
{
    reveal(Sphere::discriminant);
    reveal(Sphere::near_root);
    let ray = aimed_ray(sphere, origin);
    let oc = sphere.offset(&ray);
    let d = ray.dir;
    let a = d.length_squared_spec();
    let hb = sphere.half_b(&ray);
    crate::arith::lemma_sub_mirrored(origin.0[0], sphere.center.0[0]);
    crate::arith::lemma_sub_mirrored(origin.0[1], sphere.center.0[1]);
    crate::arith::lemma_sub_mirrored(origin.0[2], sphere.center.0[2]);
    crate::geom::lemma_dot_of_mirrored(oc, d);
    crate::geom::lemma_length_squared_sign(d);
    assert(hb == dot_spec(oc, d));
    crate::arith::lemma_compose_parts(false, a.pattern());
    assert(hb.neg_spec() == a);
    crate::arith::lemma_square_of_mirrored(hb, a);
}

/// A ray aimed at the centre of a sphere from four to sixteen radii away
/// hits the sphere at the smaller root, which lies from a half to one, and
/// what is left of the direction beyond the hit has the length of the
/// radius: with `t` the parameter of the hit, `a` the squared length of the
/// direction and `r` the radius, `(1 - t)^2 a` is within 1140 parts in 2^24
/// of `r^2`. The direction is the centre minus the origin, the squared
/// length is from 2^-61 to 2^51, the radius is at least 2^-63, and the range
/// for the parameter leaves room from a half to one.
pub proof fn law_aimed_ray_hits_at_radius(
    sphere: Sphere,
    origin: Vec3,
    t_min: Scalar,
    t_max: Scalar,
)
    requires
        aimed_ray(sphere, origin).dir.length_squared_spec().finite(),
        pow2(88) <= size(aimed_ray(sphere, origin).dir.length_squared_spec()) <= pow2(200),
        sphere.radius.finite(),
        !sphere.radius.negative(),
        pow2(86) <= size(sphere.radius),
        16 * (size(sphere.radius) * size(sphere.radius)) <= size(
            aimed_ray(sphere, origin).dir.length_squared_spec(),
        ) * pow2(149) <= 256 * (size(sphere.radius) * size(sphere.radius)),
        t_min.lt_spec(half()),
        one().lt_spec(t_max),
    ensures
        sphere.hit_spec(&aimed_ray(sphere, origin), t_min, t_max) matches Some(h) && {
            &&& h.t == sphere.near_root(&aimed_ray(sphere, origin))
            &&& h == sphere.record_at(&aimed_ray(sphere, origin), h.t)
            &&& h.t.finite()
            &&& !h.t.negative()
            &&& pow2(149) <= 2 * size(h.t)
            &&& size(h.t) <= pow2(149)
            &&& near(
                (pow2(149) - size(h.t)) * (pow2(149) - size(h.t)) * size(
                    aimed_ray(sphere, origin).dir.length_squared_spec(),
                ),
                size(sphere.radius) * size(sphere.radius) * pow2(149),
                1140,
            )
        },
{
    let ray = aimed_ray(sphere, origin);
    let a = ray.dir.length_squared_spec();
    vstd::arithmetic::power2::lemma_pow2_pos(88);
    assert(crate::scalar::magnitude(0) == 0);
    lemma_aimed_quadratic(sphere, origin);
    crate::accuracy::lemma_aimed_scalars(a, sphere.radius);
    crate::accuracy::lemma_one_units();
    crate::accuracy::lemma_half_units();
    vstd::arithmetic::power2::lemma_pow2_unfold(149);
    let t = sphere.near_root(&ray);
    let disc = sphere.discriminant(&ray);
    assert(zero().lt_spec(disc));
    assert(t_min.lt_spec(t));
    assert(t.lt_spec(t_max));
    lemma_record_parts(sphere, &ray, t);
    assert(sphere.hit_spec(&ray, t_min, t_max) == Some(sphere.record_at(&ray, t)));
}

/// For a sphere about the origin of the space and a ray aimed at it, the
/// record's outward normal is the one that the components of the ray's
/// origin give.
proof fn lemma_aimed_record(sphere: Sphere, origin: Vec3, t: Scalar)
    requires
        sphere.center == Vec3::of(zero(), zero(), zero()),
    ensures
        aimed_ray(sphere, origin).dir == inward(origin),
        sphere.record_at(&aimed_ray(sphere, origin), t) == HitRecord::facing(
            t,
            aimed_ray(sphere, origin).at_spec(t),
            sphere.material,
            outward(origin, t, sphere.radius),
            &aimed_ray(sphere, origin),
        ),
{
    reveal(Sphere::record_at);
    let ray = aimed_ray(sphere, origin);
    let point = ray.at_spec(t);
    let normal = point.minus(sphere.center).divided(sphere.radius);
    assert(normal.0 =~= outward(origin, t, sphere.radius).0);
    assert(ray.dir.0 =~= inward(origin).0);
}

/// A ray aimed at the centre of a sphere about the origin of the space,
/// from four to sixteen radii away, hits the sphere from outside, and the
/// normal of the hit points back at the origin of the ray: each of its
/// components has the sign of the component of the ray's origin, is zero
/// where that is zero, and is within 24 parts in 2^24 of `(1 - t) o / r`,
/// with `t` the parameter of the hit, `o` the component of the ray's origin
/// and `r` the radius. The components of the ray's origin are zero or from
/// 2^-63 to 2^27 in magnitude.
pub proof fn law_aimed_ray_normal(sphere: Sphere, origin: Vec3, t_min: Scalar, t_max: Scalar)
    requires
        sphere.center == Vec3::of(zero(), zero(), zero()),
        placed(origin.0[0]),
        placed(origin.0[1]),
        placed(origin.0[2]),
        aimed_ray(sphere, origin).dir.length_squared_spec().finite(),
        pow2(88) <= size(aimed_ray(sphere, origin).dir.length_squared_spec()) <= pow2(200),
        sphere.radius.finite(),
        !sphere.radius.negative(),
        pow2(86) <= size(sphere.radius),
        16 * (size(sphere.radius) * size(sphere.radius)) <= size(
            aimed_ray(sphere, origin).dir.length_squared_spec(),
        ) * pow2(149) <= 256 * (size(sphere.radius) * size(sphere.radius)),
        t_min.lt_spec(half()),
        one().lt_spec(t_max),
    ensures
        sphere.hit_spec(&aimed_ray(sphere, origin), t_min, t_max) matches Some(h) && {
            &&& h.front_face
            &&& forall|i: int|
                0 <= i < 3 ==> {
                    &&& (#[trigger] h.normal.0[i]).finite()
                    &&& h.normal.0[i].zero() == origin.0[i].zero()
                    &&& !origin.0[i].zero() ==> h.normal.0[i].negative()
                        == origin.0[i].negative()
                    &&& near(
                        size(h.normal.0[i]) * size(sphere.radius),
                        (pow2(149) - size(h.t)) * size(origin.0[i]),
                        24,
                    )
                }
        },
{
    let ray = aimed_ray(sphere, origin);
    let a = ray.dir.length_squared_spec();
    let r = sphere.radius;
    let u = pow2(149) as int;
    law_aimed_ray_hits_at_radius(sphere, origin, t_min, t_max);
    let h = sphere.hit_spec(&ray, t_min, t_max).unwrap();
    let t = h.t;
    vstd::arithmetic::power2::lemma_pow2_pos(149);
    vstd::arithmetic::power2::lemma_pow2_pos(88);
    crate::accuracy::lemma_aimed_margin(u - size(t), size(a), size(r) * size(r), u);
    // the radius is at most 2^173 units
    vstd::arithmetic::power2::lemma_pow2_adds(200, 149);
    vstd::arithmetic::power2::lemma_pow2_adds(173, 173);
    crate::rounding::lemma_pow2_le(349, 346 + 4);
    let q = size(r) * size(r);
    let edge = pow2(173) as int;
    vstd::arithmetic::power2::lemma_pow2_pos(173);
    vstd::arithmetic::power2::lemma_pow2_adds(4, 346);
    vstd::arithmetic::power2::lemma2_to64();
    assert(size(a) * u <= pow2(200) * u) by (nonlinear_arith)
        requires
            size(a) <= pow2(200),
            u > 0,
    ;
    assert(q <= edge * edge);
    if size(r) > edge {
        assert(q > edge * edge) by (nonlinear_arith)
            requires
                q == size(r) * size(r),
                size(r) > edge,
                edge > 0,
        ;
    }
    lemma_aimed_record(sphere, origin, t);
    crate::accuracy::lemma_aimed_normal_vector(origin, t, r);
    let n = outward(origin, t, r);
    assert(forall|i: int|
        0 <= i < 3 ==> turned_back(#[trigger] origin.0[i], inward(origin).0[i], n.0[i], t, r));
    assert(h.front_face);
    assert(h.normal == n);
    assert forall|i: int| 0 <= i < 3 implies {
        &&& (#[trigger] h.normal.0[i]).finite()
        &&& h.normal.0[i].zero() == origin.0[i].zero()
        &&& !origin.0[i].zero() ==> h.normal.0[i].negative() == origin.0[i].negative()
        &&& near(size(h.normal.0[i]) * size(r), (pow2(149) - size(t)) * size(origin.0[i]), 24)
    } by {
        assert(turned_back(origin.0[i], inward(origin).0[i], n.0[i], t, r));
    }
}

} // verus!
