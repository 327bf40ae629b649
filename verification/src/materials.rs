//! How surfaces answer light: diffuse, mirror-like and refracting materials.

use vstd::prelude::*;
use core::ops::Neg;
use crate::bodies::HitRecord;
use crate::geom::{dot, dot_spec, unit_spec, unit_vector, Vec3};
use crate::ray::Ray;
use crate::scalar::{one, two, zero, Scalar, ONE_BITS, TWO_BITS, ZERO_BITS};

verus! {

/// The random draws that one scattering event may use: a point inside the
/// unit sphere and a number from zero up to, not including, one.
#[derive(Clone, Copy, Debug)]
pub struct Sample {
    pub point: Vec3,
    pub draw: Scalar,
}

/// White: no attenuation.
pub open spec fn white() -> Vec3 {
    Vec3::of(one(), one(), one())
}

/// What a surface does with an incoming ray: an outgoing ray and the colour
/// it is attenuated by, or nothing where the ray is absorbed.
pub trait Material {
    spec fn scatter_spec(&self, ray: &Ray, record: &HitRecord, sample: &Sample) -> Option<
        (Ray, Vec3),
    >;

    fn scatter(&self, ray: &Ray, record: &HitRecord, sample: &Sample) -> (r: Option<(Ray, Vec3)>)
        ensures
            r == self.scatter_spec(ray, record, sample),
    ;
}

/// A diffuse surface.
#[derive(Clone, Copy, Debug)]
pub struct Lambert {
    pub albedo: Vec3,
}

impl Material for Lambert {
    /// Scatters along the normal plus a random unit vector, attenuated by the
    /// albedo; never absorbs.
    open spec fn scatter_spec(&self, ray: &Ray, record: &HitRecord, sample: &Sample) -> Option<
        (Ray, Vec3),
    > {
        Some(
            (
                Ray { orig: record.point, dir: record.normal.plus(unit_spec(sample.point)) },
                self.albedo,
            ),
        )
    }

    fn scatter(&self, ray: &Ray, record: &HitRecord, sample: &Sample) -> (r: Option<(Ray, Vec3)>)
        ensures
            r matches Some(out) && out.1 == self.albedo && out.0.orig == record.point,
    {
        let dir: Vec3 = record.normal + unit_vector(sample.point);
        let scattered = Ray { orig: record.point, dir };
        Some((scattered, self.albedo))
    }
}

/// A reflecting surface, matt to the degree `fuzz`.
#[derive(Clone, Copy, Debug)]
pub struct Metal {
    albedo: Vec3,
    fuzz: Scalar,
}

/// `fuzz` brought into the range from zero to one; NaN stays NaN.
pub open spec fn clamp_fuzz(fuzz: Scalar) -> Scalar {
    if fuzz.lt_spec(zero()) {
        zero()
    } else if one().lt_spec(fuzz) {
        one()
    } else {
        fuzz
    }
}

impl Metal {
    /// The colour that the metal attenuates by.
    pub closed spec fn albedo(self) -> Vec3 {
        self.albedo
    }

    /// How matt the metal is.
    pub closed spec fn fuzz(self) -> Scalar {
        self.fuzz
    }

    /// The metal with the given albedo and fuzz.
    pub closed spec fn of(albedo: Vec3, fuzz: Scalar) -> Metal {
        Metal { albedo, fuzz }
    }

    /// The fuzz lies from zero to one, unless it is NaN.
    pub open spec fn well_formed(self) -> bool {
        self.fuzz().nan() || (zero().le_spec(self.fuzz()) && self.fuzz().le_spec(one()))
    }

    /// A perfect mirror.
    pub fn with_albedo(albedo: Vec3) -> (r: Metal)
        ensures
            r == Metal::of(albedo, zero()),
            r.albedo() == albedo,
            r.fuzz() == zero(),
            r.well_formed(),
    {
        Metal { albedo, fuzz: Scalar::from_bits(ZERO_BITS) }
    }

    /// A matt mirror; `fuzz` is clamped to the range from zero to one.
    pub fn with_albedo_fuzz(albedo: Vec3, fuzz: Scalar) -> (r: Metal)
        ensures
            r == Metal::of(albedo, clamp_fuzz(fuzz)),
            r.albedo() == albedo,
            r.fuzz() == clamp_fuzz(fuzz),
            r.well_formed(),
    {
        let f: Scalar = if fuzz.lt(Scalar::from_bits(ZERO_BITS)) {
            Scalar::from_bits(ZERO_BITS)
        } else if fuzz.gt(Scalar::from_bits(ONE_BITS)) {
            Scalar::from_bits(ONE_BITS)
        } else {
            fuzz
        };
        proof {
            crate::scalar::lemma_units_order(zero(), one());
        }
        Metal { albedo, fuzz: f }
    }

    /// The colour that the metal attenuates by.
    pub fn get_albedo(&self) -> (r: Vec3)
        ensures
            r == self.albedo(),
    {
        self.albedo
    }

    /// How matt the metal is.
    pub fn get_fuzz(&self) -> (r: Scalar)
        ensures
            r == self.fuzz(),
    {
        self.fuzz
    }
}

impl Material for Metal {
    /// Reflects the unit incoming direction about the normal and adds `fuzz`
    /// times the random point; the ray is absorbed unless the outcome points
    /// away from the surface.
    open spec fn scatter_spec(&self, ray: &Ray, record: &HitRecord, sample: &Sample) -> Option<
        (Ray, Vec3),
    > {
        let reflected = reflect_spec(unit_spec(ray.dir), record.normal);
        let dir = reflected.plus(sample.point.scaled(self.fuzz()));
        if zero().lt_spec(dot_spec(dir, record.normal)) {
            Some((Ray { orig: record.point, dir }, self.albedo()))
        } else {
            None
        }
    }

    fn scatter(&self, ray: &Ray, record: &HitRecord, sample: &Sample) -> (r: Option<(Ray, Vec3)>)
        ensures
            r matches Some(out) ==> out.1 == self.albedo() && out.0.orig == record.point
                && zero().lt_spec(dot_spec(out.0.dir, record.normal)),
    {
        let reflected: Vec3 = reflect(unit_vector(ray.direction()), record.normal);
        let scattered = Ray { orig: record.point, dir: reflected + self.fuzz * sample.point };
        if dot(scattered.direction(), record.normal).gt(Scalar::from_bits(ZERO_BITS)) {
            Some((scattered, self.albedo))
        } else {
            None
        }
    }
}

/// A transparent surface with refractive index `ir`.
#[derive(Clone, Copy, Debug)]
pub struct Dielectric {
    pub ir: Scalar,
}

impl Dielectric {
    /// The ratio of refractive indices met by a ray that enters
    /// (`front_face`) or leaves the medium.
    pub open spec fn ratio(self, front_face: bool) -> Scalar {
        if front_face {
            one().div_spec(self.ir)
        } else {
            self.ir
        }
    }

    /// The ray is reflected: refraction is impossible at this angle, or the
    /// draw fell below the reflectance.
    pub open spec fn reflects(self, unit: Vec3, record: &HitRecord, draw: Scalar) -> bool {
        let cos_theta = dot_spec(unit.negated(), record.normal).min_spec(one());
        let sin_theta = one().sub_spec(cos_theta.mul_spec(cos_theta)).sqrt_spec();
        one().lt_spec(self.ratio(record.front_face).mul_spec(sin_theta)) || draw.lt_spec(
            schlick_spec(cos_theta, self.ir),
        )
    }
}

impl Material for Dielectric {
    /// Reflects or refracts, never absorbs, never tints.
    open spec fn scatter_spec(&self, ray: &Ray, record: &HitRecord, sample: &Sample) -> Option<
        (Ray, Vec3),
    > {
        let unit = unit_spec(ray.dir);
        let dir = if self.reflects(unit, record, sample.draw) {
            reflect_spec(unit, record.normal)
        } else {
            refract_spec(unit, record.normal, self.ratio(record.front_face))
        };
        Some((Ray { orig: record.point, dir }, white()))
    }

    fn scatter(&self, ray: &Ray, record: &HitRecord, sample: &Sample) -> (r: Option<(Ray, Vec3)>)
        ensures
            r matches Some(out) && out.1 == white() && out.0.orig == record.point,
    {
        let unit_one: Scalar = Scalar::from_bits(ONE_BITS);
        let attenuation: Vec3 = Vec3::new(unit_one, unit_one, unit_one);
        let refraction_ratio: Scalar = if record.front_face {
            unit_one.div(self.ir)
        } else {
            self.ir
        };
        let unit_direction: Vec3 = unit_vector(ray.direction());
        let cos_theta: Scalar = dot(unit_direction.neg(), record.normal).min(unit_one);
        let sin_theta: Scalar = unit_one.sub(cos_theta.mul(cos_theta)).sqrt();
        let cannot_refract: bool = refraction_ratio.mul(sin_theta).gt(unit_one);
        let direction: Vec3 = if cannot_refract || schlick(cos_theta, self.ir).gt(sample.draw) {
            reflect(unit_direction, record.normal)
        } else {
            refract(unit_direction, record.normal, refraction_ratio)
        };
        Some((Ray { orig: record.point, dir: direction }, attenuation))
    }
}

/// Any of the materials a surface can have.
#[derive(Clone, Copy, Debug)]
pub enum Substance {
    Lambert(Lambert),
    Metal(Metal),
    Dielectric(Dielectric),
}

impl Material for Substance {
    open spec fn scatter_spec(&self, ray: &Ray, record: &HitRecord, sample: &Sample) -> Option<
        (Ray, Vec3),
    > {
        match *self {
            Substance::Lambert(m) => m.scatter_spec(ray, record, sample),
            Substance::Metal(m) => m.scatter_spec(ray, record, sample),
            Substance::Dielectric(m) => m.scatter_spec(ray, record, sample),
        }
    }

    fn scatter(&self, ray: &Ray, record: &HitRecord, sample: &Sample) -> (r: Option<(Ray, Vec3)>) {
        match self {
            Substance::Lambert(m) => m.scatter(ray, record, sample),
            Substance::Metal(m) => m.scatter(ray, record, sample),
            Substance::Dielectric(m) => m.scatter(ray, record, sample),
        }
    }
}

/// The mirror law: `v - 2 (v . n) n`.
pub open spec fn reflect_spec(v: Vec3, n: Vec3) -> Vec3 {
    v.minus(n.scaled(two().mul_spec(dot_spec(v, n))))
}

/// The direction `v` mirrored about the normal `n`.
pub fn reflect(v: Vec3, n: Vec3) -> (r: Vec3)
    ensures
        r == reflect_spec(v, n),
{
    v - Scalar::from_bits(TWO_BITS).mul(dot(v, n)) * n
}

/// Snell's law for unit vectors: the part of the refracted direction across
/// the normal is `ratio (uv + cos n)`, and the part along it is
/// `-sqrt(|1 - |across|^2|) n`.
pub open spec fn refract_spec(uv: Vec3, n: Vec3, ratio: Scalar) -> Vec3 {
    let cos_theta = dot_spec(uv.negated(), n).min_spec(one());
    let across = uv.plus(n.scaled(cos_theta)).scaled(ratio);
    let along = n.scaled(
        one().sub_spec(across.length_squared_spec()).abs_spec().sqrt_spec().neg_spec(),
    );
    across.plus(along)
}

/// The unit direction `uv` refracted at the normal `n`.
pub fn refract(uv: Vec3, n: Vec3, etai_over_etat: Scalar) -> (r: Vec3)
    ensures
        r == refract_spec(uv, n, etai_over_etat),
{
    let unit_one: Scalar = Scalar::from_bits(ONE_BITS);
    let cos_theta: Scalar = dot(uv.neg(), n).min(unit_one);
    let r_out_perp: Vec3 = etai_over_etat * (uv + cos_theta * n);
    let r_out_parallel: Vec3 = unit_one.sub(r_out_perp.length_squared()).abs().sqrt().neg() * n;
    r_out_perp + r_out_parallel
}

/// The fifth power, by squaring twice and multiplying once.
pub open spec fn pow5_spec(x: Scalar) -> Scalar {
    x.mul_spec(x.mul_spec(x).mul_spec(x.mul_spec(x)))
}

/// Schlick's approximation of the reflectance at a boundary:
/// `r0 + (1 - r0) (1 - cosine)^5` with `r0 = ((1 - index) / (1 + index))^2`.
pub open spec fn schlick_spec(cosine: Scalar, ref_index: Scalar) -> Scalar {
    let ratio = one().sub_spec(ref_index).div_spec(one().add_spec(ref_index));
    let r0 = ratio.mul_spec(ratio);
    r0.add_spec(one().sub_spec(r0).mul_spec(pow5_spec(one().sub_spec(cosine))))
}

/// The reflectance at a boundary, by Schlick's approximation.
pub fn schlick(cosine: Scalar, ref_index: Scalar) -> (r: Scalar)
    ensures
        r == schlick_spec(cosine, ref_index),
{
    let unit_one: Scalar = Scalar::from_bits(ONE_BITS);
    let r0: Scalar = unit_one.sub(ref_index).div(unit_one.add(ref_index));
    let r0: Scalar = r0.mul(r0);
    let x: Scalar = unit_one.sub(cosine);
    let square: Scalar = x.mul(x);
    r0.add(unit_one.sub(r0).mul(x.mul(square.mul(square))))
}

/// Adding zero times a finite point leaves a direction as it is, component
/// by component as numbers.
proof fn lemma_no_jitter(direction: Vec3, point: Vec3)
    requires
        point.0[0].finite(),
        point.0[1].finite(),
        point.0[2].finite(),
    ensures
        forall|i: int|
            0 <= i < 3 ==> crate::arith::alike(
                #[trigger] direction.plus(point.scaled(zero())).0[i],
                direction.0[i],
            ),
{
    let jitter = point.scaled(zero());
    crate::arith::lemma_mul_zero(point.0[0], zero());
    crate::arith::lemma_mul_zero(point.0[1], zero());
    crate::arith::lemma_mul_zero(point.0[2], zero());
    crate::arith::lemma_add_zero(direction.0[0], jitter.0[0]);
    crate::arith::lemma_add_zero(direction.0[1], jitter.0[1]);
    crate::arith::lemma_add_zero(direction.0[2], jitter.0[2]);
}

/// A metal without fuzz obeys the mirror law: whatever finite point is
/// drawn, the direction of the scattered ray is the incoming unit direction
/// reflected about the normal, component by component as numbers, and the
/// attenuation is the albedo.
pub proof fn law_mirror_reflects(metal: Metal, ray: &Ray, record: &HitRecord, sample: &Sample)
    requires
        metal.fuzz() == zero(),
        sample.point.0[0].finite(),
        sample.point.0[1].finite(),
        sample.point.0[2].finite(),
    ensures
        metal.scatter_spec(ray, record, sample) matches Some(out) ==> {
            &&& out.1 == metal.albedo()
            &&& out.0.orig == record.point
            &&& forall|i: int|
                0 <= i < 3 ==> crate::arith::alike(
                    #[trigger] out.0.dir.0[i],
                    reflect_spec(unit_spec(ray.dir), record.normal).0[i],
                )
        },
{
    lemma_no_jitter(reflect_spec(unit_spec(ray.dir), record.normal), sample.point);
}

} // verus!
