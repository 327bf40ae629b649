//! The scene: an ordered collection of spheres, hit as one surface.

use vstd::prelude::*;
use crate::bodies::{HitRecord, Hittable, Sphere};
use crate::geom::Vec3;
use crate::materials::{clamp_fuzz, Dielectric, Lambert, Metal, Substance};
use crate::ray::Ray;
use crate::scalar::{half, one, zero, Scalar, HALF_BITS, ONE_BITS, ZERO_BITS};

verus! {

/// The surfaces of a scene, in the order in which they are tested.
pub struct World(pub Vec<Sphere>);

impl World {
    /// The state after testing the first `n` surfaces: the closest hit found
    /// so far and the upper bound that the next surface is tested under. The
    /// bound starts at `t_max` and drops to the parameter of each hit found,
    /// so that a later surface replaces the hit only by a strictly closer one.
    pub open spec fn sweep(
        surfaces: Seq<Sphere>,
        ray: &Ray,
        t_min: Scalar,
        t_max: Scalar,
        n: nat,
    ) -> (Option<HitRecord>, Scalar)
        decreases n,
    {
        if n == 0 {
            (None, t_max)
        } else {
            let before = World::sweep(surfaces, ray, t_min, t_max, (n - 1) as nat);
            match surfaces[n - 1].hit_spec(ray, t_min, before.1) {
                Some(h) => (Some(h), h.t),
                None => before,
            }
        }
    }

    /// The scene of the given surfaces.
    pub fn new(surfaces: Vec<Sphere>) -> (r: World)
        ensures
            r.0 == surfaces,
    {
        World(surfaces)
    }
}

impl Hittable for World {
    open spec fn hit_spec(&self, ray: &Ray, t_min: Scalar, t_max: Scalar) -> Option<HitRecord> {
        World::sweep(self.0@, ray, t_min, t_max, self.0@.len()).0
    }

    fn hit(&self, ray: &Ray, t_min: Scalar, t_max: Scalar) -> (r: Option<HitRecord>) {
        let mut rec: Option<HitRecord> = None;
        let mut closest_so_far: Scalar = t_max;
        let mut i: usize = 0;
        while i < self.0.len()
            invariant
                i <= self.0.len(),
                (rec, closest_so_far) == World::sweep(self.0@, ray, t_min, t_max, i as nat),
                rec matches Some(h) ==> t_min.lt_spec(h.t) && h.t.lt_spec(t_max) && closest_so_far
                    == h.t,
                rec is None ==> closest_so_far == t_max,
            decreases self.0.len() - i,
        {
            if let Some(obj) = self.0[i].hit(ray, t_min, closest_so_far) {
                closest_so_far = obj.t;
                rec = Some(obj);
            }
            i += 1;
        }
        rec
    }
}

/// What holds after the first `n` surfaces are tested.
proof fn lemma_sweep(surfaces: Seq<Sphere>, ray: &Ray, t_min: Scalar, t_max: Scalar, n: nat)
    requires
        n <= surfaces.len(),
    ensures
        ({
            let state = World::sweep(surfaces, ray, t_min, t_max, n);
            &&& state.0 is None ==> state.1 == t_max
            &&& state.0 matches Some(h) ==> {
                &&& state.1 == h.t
                &&& t_min.lt_spec(h.t)
                &&& h.t.lt_spec(t_max)
                &&& exists|j: int| 0 <= j < n && h == (#[trigger] surfaces[j]).record_at(ray, h.t)
            }
            &&& forall|i: int|
                0 <= i < n ==> (#[trigger] surfaces[i]).hit_spec(ray, t_min, state.1) is None
        }),
    decreases n,
{
    if n > 0 {
        let before = World::sweep(surfaces, ray, t_min, t_max, (n - 1) as nat);
        lemma_sweep(surfaces, ray, t_min, t_max, (n - 1) as nat);
        let last = surfaces[n - 1];
        crate::bodies::law_sphere_hit_is_closest(last, ray, t_min, before.1);
        match last.hit_spec(ray, t_min, before.1) {
            Some(h) => {
                assert(h == surfaces[n - 1].record_at(ray, h.t));
                assert forall|i: int| 0 <= i < n implies (#[trigger] surfaces[i]).hit_spec(
                    ray,
                    t_min,
                    h.t,
                ) is None by {
                    if i < n - 1 {
                        crate::bodies::law_miss_below_lower_bound(
                            surfaces[i],
                            ray,
                            t_min,
                            before.1,
                            h.t,
                        );
                    }
                }
            },
            None => {},
        }
    }
}

/// The scene returns the closest hit among its surfaces. Where it returns a
/// hit, the parameter lies strictly between the bounds, the record is that
/// of one of the surfaces at that parameter, and no surface is hit below that
/// parameter. Where it returns none, no surface is hit between the bounds.
pub proof fn law_world_hit_is_closest(world: &World, ray: &Ray, t_min: Scalar, t_max: Scalar)
    ensures
        match world.hit_spec(ray, t_min, t_max) {
            Some(h) => {
                &&& t_min.lt_spec(h.t)
                &&& h.t.lt_spec(t_max)
                &&& exists|j: int|
                    0 <= j < world.0@.len() && h == (#[trigger] world.0@[j]).record_at(ray, h.t)
                &&& forall|i: int|
                    0 <= i < world.0@.len() ==> (#[trigger] world.0@[i]).hit_spec(ray, t_min, h.t)
                        is None
            },
            None => forall|i: int|
                0 <= i < world.0@.len() ==> (#[trigger] world.0@[i]).hit_spec(ray, t_min, t_max)
                    is None,
        },
{
    lemma_sweep(world.0@, ray, t_min, t_max, world.0@.len());
}

/// The pattern of 0.2, the radius of a small sphere and the height of its
/// centre.
pub const SMALL_RADIUS_BITS: u32 = 0x3e4c_cccd;

/// The pattern of 0.9: how far a small sphere may lie from its grid point,
/// and how far it must stay from the point (4, 0.2, 0).
pub const SPREAD_BITS: u32 = 0x3f66_6666;

/// The pattern of 4.
pub const FOUR_BITS: u32 = 0x4080_0000;

/// The pattern of 0.8: below this rate a small sphere is diffuse.
pub const DIFFUSE_RATE_BITS: u32 = 0x3f4c_cccd;

/// The pattern of 0.95: from the diffuse rate up to this one a small sphere
/// is metal, and glass from here on.
pub const METAL_RATE_BITS: u32 = 0x3f73_3333;

/// The pattern of 1.5, the refractive index of glass.
pub const GLASS_INDEX_BITS: u32 = 0x3fc0_0000;

/// The centre of the small sphere at the grid point `(a, b)`, moved by the
/// draws `x` and `z`.
pub open spec fn small_center_spec(a: int, b: int, x: Scalar, z: Scalar) -> Vec3 {
    Vec3::of(
        Scalar::from_int_spec(a).add_spec((Scalar { bits: SPREAD_BITS }).mul_spec(x)),
        (Scalar { bits: SMALL_RADIUS_BITS }),
        Scalar::from_int_spec(b).add_spec((Scalar { bits: SPREAD_BITS }).mul_spec(z)),
    )
}

/// The centre lies more than 0.9 from the point (4, 0.2, 0), where a large
/// sphere stands.
pub open spec fn clear_of_landmark(center: Vec3) -> bool {
    (Scalar { bits: SPREAD_BITS }).lt_spec(
        center.minus(
            Vec3::of(
                (Scalar { bits: FOUR_BITS }),
                (Scalar { bits: SMALL_RADIUS_BITS }),
                zero(),
            ),
        ).length_spec(),
    )
}

/// The centre of the small sphere at the grid point `(a, b)`, or nothing
/// where it would come too near the large sphere at (4, 0.2, 0).
pub fn small_sphere_center(a: i32, b: i32, x: Scalar, z: Scalar) -> (r: Option<Vec3>)
    ensures
        r == if clear_of_landmark(small_center_spec(a as int, b as int, x, z)) {
            Some(small_center_spec(a as int, b as int, x, z))
        } else {
            None
        },
{
    let spread: Scalar = Scalar::from_bits(SPREAD_BITS);
    let height: Scalar = Scalar::from_bits(SMALL_RADIUS_BITS);
    let center: Vec3 = Vec3::new(
        Scalar::from_i32(a).add(spread.mul(x)),
        height,
        Scalar::from_i32(b).add(spread.mul(z)),
    );
    let landmark: Vec3 = Vec3::new(
        Scalar::from_bits(FOUR_BITS),
        height,
        Scalar::from_bits(ZERO_BITS),
    );
    if (center - landmark).length().gt(spread) {
        Some(center)
    } else {
        None
    }
}

/// The material of a small sphere: diffuse with albedo `(x^2, y^2, z^2)`
/// where `rate` is below 0.8, metal with albedo `((1 + x) / 2, (1 + y) / 2,
/// (1 + z) / 2)` and the given fuzz where it is below 0.95, glass otherwise.
pub open spec fn small_material_spec(
    rate: Scalar,
    x: Scalar,
    y: Scalar,
    z: Scalar,
    fuzz: Scalar,
) -> Substance {
    if rate.lt_spec(Scalar { bits: DIFFUSE_RATE_BITS }) {
        Substance::Lambert(
            Lambert { albedo: Vec3::of(x.mul_spec(x), y.mul_spec(y), z.mul_spec(z)) },
        )
    } else if rate.lt_spec(Scalar { bits: METAL_RATE_BITS }) {
        Substance::Metal(
            Metal::of(
                Vec3::of(
                    half().mul_spec(one().add_spec(x)),
                    half().mul_spec(one().add_spec(y)),
                    half().mul_spec(one().add_spec(z)),
                ),
                clamp_fuzz(fuzz),
            ),
        )
    } else {
        Substance::Dielectric(Dielectric { ir: (Scalar { bits: GLASS_INDEX_BITS }) })
    }
}

/// The small sphere at `center`, its material chosen by `rate`.
pub fn small_sphere(center: Vec3, rate: Scalar, x: Scalar, y: Scalar, z: Scalar, fuzz: Scalar) -> (r:
    Sphere)
    ensures
        r == (Sphere {
            center,
            radius: (Scalar { bits: SMALL_RADIUS_BITS }),
            material: small_material_spec(rate, x, y, z, fuzz),
        }),
{
    let unit_one: Scalar = Scalar::from_bits(ONE_BITS);
    let mid: Scalar = Scalar::from_bits(HALF_BITS);
    let material: Substance = if rate.lt(Scalar::from_bits(DIFFUSE_RATE_BITS)) {
        Substance::Lambert(Lambert { albedo: Vec3::new(x.mul(x), y.mul(y), z.mul(z)) })
    } else if rate.lt(Scalar::from_bits(METAL_RATE_BITS)) {
        Substance::Metal(
            Metal::with_albedo_fuzz(
                Vec3::new(
                    mid.mul(unit_one.add(x)),
                    mid.mul(unit_one.add(y)),
                    mid.mul(unit_one.add(z)),
                ),
                fuzz,
            ),
        )
    } else {
        Substance::Dielectric(Dielectric { ir: Scalar::from_bits(GLASS_INDEX_BITS) })
    };
    Sphere { center, radius: Scalar::from_bits(SMALL_RADIUS_BITS), material }
}

} // verus!
