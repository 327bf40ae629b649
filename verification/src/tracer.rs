//! The integrator: the colour that arrives along a ray.

use vstd::prelude::*;
use crate::bodies::Hittable;
use crate::geom::{unit_spec, unit_vector, Vec3};
use crate::materials::{white, Material, Sample};
use crate::ray::Ray;
use crate::scalar::{half, one, zero, Scalar, HALF_BITS, MAX_BITS, ONE_BITS, ZERO_BITS};
use crate::utils::{lerp, lerp_spec};

verus! {

/// The pattern of 0.7, rounded to binary32.
pub const SEVEN_TENTHS_BITS: u32 = 0x3f33_3333;

/// The pattern of 0.001, rounded to binary32: hits closer than this are not
/// counted, so that a scattered ray does not hit the surface it leaves.
pub const NEAR_LIMIT_BITS: u32 = 0x3a83_126f;

/// Black: no light.
pub open spec fn black() -> Vec3 {
    Vec3::of(zero(), zero(), zero())
}

/// The colour of the sky at the zenith.
pub open spec fn light_blue() -> Vec3 {
    Vec3::of(half(), (Scalar { bits: SEVEN_TENTHS_BITS }), one())
}

/// The sky: white straight down, light blue straight up, mixed by the height
/// of the ray's unit direction brought from [-1, 1] to [0, 1].
pub open spec fn background_spec(ray: &Ray) -> Vec3 {
    let t = half().mul_spec(unit_spec(ray.dir).0[1].add_spec(one()));
    lerp_spec(white(), light_blue(), t)
}

/// The colour of the sky along `ray`.
pub fn background(ray: &Ray) -> (r: Vec3)
    ensures
        r == background_spec(ray),
{
    let unit_one: Scalar = Scalar::from_bits(ONE_BITS);
    let unit_direction: Vec3 = unit_vector(ray.direction());
    let t: Scalar = Scalar::from_bits(HALF_BITS).mul(unit_direction.0[1].add(unit_one));
    let horizon: Vec3 = Vec3::new(unit_one, unit_one, unit_one);
    let zenith: Vec3 = Vec3::new(
        Scalar::from_bits(HALF_BITS),
        Scalar::from_bits(SEVEN_TENTHS_BITS),
        unit_one,
    );
    lerp(horizon, zenith, t)
}

/// The colour along `ray` with `depth` bounces left. With none left it is
/// black. Otherwise the ray is tested against the world from the near limit
/// on: a miss shows the sky; a hit asks the material, which absorbs the ray,
/// leaving black, or scatters it, leaving the colour along the scattered ray
/// with one bounce less, attenuated. The bounce with `d` left uses
/// `samples[d - 1]`.
pub open spec fn ray_color_spec<T: Hittable>(
    ray: &Ray,
    world: &T,
    depth: nat,
    samples: Seq<Sample>,
) -> Vec3
    decreases depth,
{
    if depth == 0 {
        black()
    } else {
        match world.hit_spec(ray, (Scalar { bits: NEAR_LIMIT_BITS }), (Scalar { bits: MAX_BITS })) {
            Some(hit) => match hit.material.scatter_spec(ray, &hit, &samples[depth - 1]) {
                Some(out) => out.1.times(
                    ray_color_spec(&out.0, world, (depth - 1) as nat, samples),
                ),
                None => black(),
            },
            None => background_spec(ray),
        }
    }
}

/// The colour along `ray` with `depth` bounces left; the bounce with `d`
/// left uses `samples[d - 1]`.
pub fn ray_color<T: Hittable>(ray: &Ray, world: &T, depth: u32, samples: &Vec<Sample>) -> (r: Vec3)
    requires
        depth <= samples.len(),
    ensures
        r == ray_color_spec(ray, world, depth as nat, samples@),
        depth == 0 ==> r == black(),
    decreases depth,
{
    let dark: Scalar = Scalar::from_bits(ZERO_BITS);
    if depth == 0 {
        return Vec3::new(dark, dark, dark);
    }
    let record = world.hit(ray, Scalar::from_bits(NEAR_LIMIT_BITS), Scalar::from_bits(MAX_BITS));
    match record {
        Some(hit) => match hit.material.scatter(ray, &hit, &samples[(depth - 1) as usize]) {
            Some((scattered, attenuation)) => attenuation * ray_color(
                &scattered,
                world,
                depth - 1,
                samples,
            ),
            None => Vec3::new(dark, dark, dark),
        },
        None => background(ray),
    }
}

/// With no bounce left the colour is black, whatever the ray and the world.
pub proof fn law_exhausted_path_is_black<T: Hittable>(ray: &Ray, world: &T, samples: Seq<Sample>)
    ensures
        ray_color_spec(ray, world, 0, samples) == black(),
{
}

/// In a world without surfaces every ray with a bounce left shows the sky.
pub proof fn law_empty_world_shows_sky(
    ray: &Ray,
    world: &crate::scene::World,
    depth: nat,
    samples: Seq<Sample>,
)
    requires
        world.0@.len() == 0,
        depth > 0,
    ensures
        ray_color_spec(ray, world, depth, samples) == background_spec(ray),
{
}

} // verus!
