use pathtracer::bodies::{HitRecord, Hittable, Sphere};
use pathtracer::geom::{cross, dot, unit_vector, Color, Point, Vec3};
use pathtracer::materials::{
    reflect, refract, schlick, Dielectric, Lambert, Material, Metal, Sample, Substance,
};
use pathtracer::ppm::color_bytes;
use pathtracer::ray::Ray;
use pathtracer::scalar::Scalar;
use pathtracer::scene::{small_sphere, small_sphere_center, World};
use pathtracer::tracer::{background, ray_color};
use pathtracer::utils::{
    deg_to_rad, lerp, random_in_hemisphere, random_in_unit_disk, random_in_unit_sphere,
    random_unit_vector,
};

fn s(x: f32) -> Scalar {
    Scalar::from_bits(x.to_bits())
}

fn f(x: Scalar) -> f32 {
    f32::from_bits(x.to_bits())
}

fn v(x: f32, y: f32, z: f32) -> Vec3 {
    Vec3::new(s(x), s(y), s(z))
}

fn parts(a: Vec3) -> [f32; 3] {
    [f(a.0[0]), f(a.0[1]), f(a.0[2])]
}

fn bits(a: Vec3) -> [u32; 3] {
    [a.0[0].to_bits(), a.0[1].to_bits(), a.0[2].to_bits()]
}

fn grey() -> Substance {
    Substance::Lambert(Lambert { albedo: v(0.5, 0.5, 0.5) })
}

fn no_draw() -> Sample {
    Sample { point: v(0.0, 0.0, 0.0), draw: s(0.0) }
}

struct Lcg(u64);

impl Lcg {
    fn unit(&mut self) -> f32 {
        self.0 = self.0.wrapping_mul(6364136223846793005).wrapping_add(1442695040888963407);
        ((self.0 >> 40) as u32) as f32 / 16777216.0
    }

    fn range(&mut self, low: f32, high: f32) -> f32 {
        low + (high - low) * self.unit()
    }
}

#[test]
fn unit_vectors_have_length_one() {
    let mut g = Lcg(21);
    for a in [v(3.0, 4.0, 0.0), v(1.0, 1.0, 1.0), v(-2.5, 0.001, 7.0), v(1e-10, 0.0, 0.0), v(0.0, 1e15, 1e15)] {
        assert!((f(unit_vector(a).length()) - 1.0).abs() < 1e-6);
    }
    for _ in 0..20000 {
        let a = v(g.range(-100.0, 100.0), g.range(-100.0, 100.0), g.range(-100.0, 100.0));
        assert!((f(unit_vector(a).length()) - 1.0).abs() < 1e-6);
    }
    assert_eq!(parts(unit_vector(v(3.0, 0.0, 0.0))), [1.0, 0.0, 0.0]);
}

#[test]
fn make_unit_vector_scales_in_place() {
    let mut a = v(0.0, -8.0, 0.0);
    a.make_unit_vector();
    assert_eq!(parts(a), [0.0, -1.0, 0.0]);
    let mut b = v(1.0, 2.0, 3.0);
    b.make_unit_vector();
    assert_eq!(bits(b), bits(unit_vector(v(1.0, 2.0, 3.0))));
}

#[test]
fn dot_does_not_depend_on_the_order() {
    let mut g = Lcg(22);
    for _ in 0..20000 {
        let a = v(g.range(-9.0, 9.0), g.range(-9.0, 9.0), g.range(-9.0, 9.0));
        let b = v(g.range(-9.0, 9.0), g.range(-9.0, 9.0), g.range(-9.0, 9.0));
        assert_eq!(dot(a, b).to_bits(), dot(b, a).to_bits());
    }
    assert_eq!(f(dot(v(1.0, 2.0, 3.0), v(4.0, -5.0, 6.0))), 12.0);
}

#[test]
fn cross_changes_sign_with_the_order() {
    let mut g = Lcg(23);
    for _ in 0..20000 {
        let a = v(g.range(-9.0, 9.0), g.range(-9.0, 9.0), g.range(-9.0, 9.0));
        let b = v(g.range(-9.0, 9.0), g.range(-9.0, 9.0), g.range(-9.0, 9.0));
        assert!(cross(a, b) == -cross(b, a));
    }
    assert_eq!(parts(cross(v(1.0, 0.0, 0.0), v(0.0, 1.0, 0.0))), [0.0, 0.0, 1.0]);
    assert_eq!(parts(cross(v(1.0, 2.0, 3.0), v(4.0, 5.0, 6.0))), [-3.0, 6.0, -3.0]);
    assert!(cross(v(2.0, 2.0, 2.0), v(1.0, 1.0, 1.0)) == -cross(v(1.0, 1.0, 1.0), v(2.0, 2.0, 2.0)));
}

#[test]
fn vectors_with_nan_are_not_equal() {
    let a = v(f32::NAN, 0.0, 0.0);
    assert!(!(a == a));
    assert!(v(0.0, 1.0, 2.0) == v(-0.0, 1.0, 2.0));
    assert!(v(0.0, 1.0, 2.0) != v(0.0, 1.0, 2.5));
}

#[test]
fn components_and_operators() {
    let mut a = v(1.0, 2.0, 3.0);
    assert_eq!(f(a[0]), 1.0);
    assert_eq!(f(a[2]), 3.0);
    a.set(1, s(5.0));
    assert_eq!(parts(a), [1.0, 5.0, 3.0]);
    assert_eq!(f(a.x()), 1.0);
    assert_eq!(f(a.y()), 5.0);
    assert_eq!(f(a.z()), 3.0);
    assert_eq!(f(a.r()), 1.0);
    assert_eq!(f(a.g()), 5.0);
    assert_eq!(f(a.b()), 3.0);
    assert_eq!(parts(Vec3::default()), [0.0, 0.0, 0.0]);
    assert_eq!(parts(Vec3::from([s(7.0), s(8.0), s(9.0)])), [7.0, 8.0, 9.0]);
    assert_eq!(f(v(1.0, 2.0, 2.0).length_squared()), 9.0);
    assert_eq!(f(v(1.0, 2.0, 2.0).length()), 3.0);
    let mut b = v(1.0, 2.0, 3.0);
    b += v(1.0, 1.0, 1.0);
    assert_eq!(parts(b), [2.0, 3.0, 4.0]);
    b -= v(2.0, 2.0, 2.0);
    assert_eq!(parts(b), [0.0, 1.0, 2.0]);
    b *= v(3.0, 4.0, 5.0);
    assert_eq!(parts(b), [0.0, 4.0, 10.0]);
    b /= v(1.0, 2.0, 4.0);
    assert_eq!(parts(b), [0.0, 2.0, 2.5]);
    b *= s(2.0);
    assert_eq!(parts(b), [0.0, 4.0, 5.0]);
    b /= s(4.0);
    assert_eq!(parts(b), [0.0, 1.0, 1.25]);
    assert_eq!(parts(v(1.0, 2.0, 3.0) / s(0.0)), [f32::INFINITY, f32::INFINITY, f32::INFINITY]);
}

#[test]
fn ray_points() {
    let ray = Ray::new(v(1.0, 2.0, 3.0), v(0.0, 0.0, -2.0));
    assert_eq!(parts(ray.origin()), [1.0, 2.0, 3.0]);
    assert_eq!(parts(ray.direction()), [0.0, 0.0, -2.0]);
    assert_eq!(parts(ray.at(s(0.0))), [1.0, 2.0, 3.0]);
    assert_eq!(parts(ray.at(s(1.5))), [1.0, 2.0, 0.0]);
    assert_eq!(parts(ray.at(s(-1.0))), [1.0, 2.0, 5.0]);
}

#[test]
fn ray_aimed_at_the_centre_hits_at_distance_less_radius() {
    let sphere = Sphere { center: v(0.0, 0.0, 0.0), radius: s(1.0), material: grey() };
    let ray = Ray::new(v(0.0, 0.0, 5.0), v(0.0, 0.0, -1.0));
    let hit = sphere.hit(&ray, s(0.001), s(f32::MAX)).unwrap();
    assert_eq!(f(hit.t), 4.0);
    assert_eq!(parts(hit.point), [0.0, 0.0, 1.0]);
    assert_eq!(parts(hit.normal), [0.0, 0.0, 1.0]);
    assert!(hit.front_face);

    let sphere = Sphere { center: v(0.0, 0.0, 0.0), radius: s(2.0), material: grey() };
    let ray = Ray::new(v(3.0, 4.0, 0.0), v(-0.6, -0.8, 0.0));
    let hit = sphere.hit(&ray, s(0.001), s(f32::MAX)).unwrap();
    assert!((f(hit.t) - 3.0).abs() < 1e-5);
    let n = parts(hit.normal);
    assert!((n[0] - 0.6).abs() < 1e-5 && (n[1] - 0.8).abs() < 1e-5 && n[2] == 0.0);
}

#[test]
fn ray_from_inside_hits_the_far_side_with_the_normal_turned() {
    let sphere = Sphere { center: v(0.0, 0.0, 0.0), radius: s(1.0), material: grey() };
    let ray = Ray::new(v(0.0, 0.0, 0.0), v(0.0, 1.0, 0.0));
    let hit = sphere.hit(&ray, s(0.001), s(f32::MAX)).unwrap();
    assert_eq!(f(hit.t), 1.0);
    assert_eq!(parts(hit.normal), [0.0, -1.0, 0.0]);
    assert!(!hit.front_face);
}

#[test]
fn ray_that_misses_returns_no_hit() {
    let sphere = Sphere { center: v(0.0, 0.0, 0.0), radius: s(1.0), material: grey() };
    // passes beside the sphere: discriminant below zero
    assert!(sphere.hit(&Ray::new(v(0.0, 2.0, 5.0), v(0.0, 0.0, -1.0)), s(0.001), s(f32::MAX)).is_none());
    // grazes the sphere: discriminant zero
    assert!(sphere.hit(&Ray::new(v(0.0, 1.0, 5.0), v(0.0, 0.0, -1.0)), s(0.001), s(f32::MAX)).is_none());
    // points away: both roots below the range
    assert!(sphere.hit(&Ray::new(v(0.0, 0.0, 5.0), v(0.0, 0.0, 1.0)), s(0.001), s(f32::MAX)).is_none());
    // stops short: both roots above the range
    assert!(sphere.hit(&Ray::new(v(0.0, 0.0, 5.0), v(0.0, 0.0, -1.0)), s(0.001), s(3.5)).is_none());
    // the bounds are not part of the range
    assert!(sphere.hit(&Ray::new(v(0.0, 0.0, 5.0), v(0.0, 0.0, -1.0)), s(4.0), s(6.0)).is_none());
    assert!(sphere.hit(&Ray::new(v(0.0, 0.0, 5.0), v(0.0, 0.0, -1.0)), s(0.0), s(4.0)).is_none());
    // a direction of length zero
    assert!(sphere.hit(&Ray::new(v(0.0, 0.0, 5.0), v(0.0, 0.0, 0.0)), s(0.001), s(f32::MAX)).is_none());
}

#[test]
fn front_face_follows_the_direction() {
    let ray = Ray::new(v(0.0, 0.0, 0.0), v(0.0, 0.0, -1.0));
    let out = HitRecord::with_front_face(s(1.0), v(0.0, 0.0, -1.0), grey(), v(0.0, 0.0, 1.0), &ray);
    assert!(out.front_face);
    assert_eq!(parts(out.normal), [0.0, 0.0, 1.0]);
    let inside = HitRecord::with_front_face(s(1.0), v(0.0, 0.0, -1.0), grey(), v(0.0, 0.0, -1.0), &ray);
    assert!(!inside.front_face);
    assert_eq!(parts(inside.normal), [0.0, 0.0, 1.0]);
    let level = HitRecord::with_front_face(s(1.0), v(0.0, 0.0, -1.0), grey(), v(0.0, 1.0, 0.0), &ray);
    assert!(!level.front_face);
    assert_eq!(f(level.t), 1.0);
}

fn albedo_of(m: Substance) -> [f32; 3] {
    match m {
        Substance::Lambert(l) => parts(l.albedo),
        Substance::Metal(m) => parts(m.get_albedo()),
        Substance::Dielectric(_) => [1.0, 1.0, 1.0],
    }
}

#[test]
fn scene_returns_the_nearer_of_two_overlapping_spheres() {
    let far = Sphere {
        center: v(0.0, 0.0, -2.0),
        radius: s(1.0),
        material: Substance::Lambert(Lambert { albedo: v(0.1, 0.2, 0.3) }),
    };
    let near = Sphere {
        center: v(0.0, 0.0, -1.5),
        radius: s(1.0),
        material: Substance::Metal(Metal::with_albedo(v(0.9, 0.8, 0.7))),
    };
    let ray = Ray::new(v(0.0, 0.0, 1.0), v(0.0, 0.0, -1.0));
    for world in [World::new(vec![far, near]), World::new(vec![near, far])] {
        let hit = world.hit(&ray, s(0.001), s(f32::MAX)).unwrap();
        assert_eq!(f(hit.t), 1.5);
        assert_eq!(albedo_of(hit.material), [0.9, 0.8, 0.7]);
        assert!(matches!(hit.material, Substance::Metal(_)));
    }
    let only_far = World::new(vec![far]);
    assert_eq!(f(only_far.hit(&ray, s(0.001), s(f32::MAX)).unwrap().t), 2.0);
    assert!(only_far.hit(&ray, s(0.001), s(2.0)).is_none());
    assert!(World::new(vec![]).hit(&ray, s(0.001), s(f32::MAX)).is_none());
}

#[test]
fn scene_keeps_the_first_of_two_equal_hits() {
    let first = Sphere {
        center: v(0.0, 0.0, -2.0),
        radius: s(1.0),
        material: Substance::Lambert(Lambert { albedo: v(0.1, 0.2, 0.3) }),
    };
    let second = Sphere {
        center: v(0.0, 0.0, -2.0),
        radius: s(1.0),
        material: Substance::Dielectric(Dielectric { ir: s(1.5) }),
    };
    let ray = Ray::new(v(0.0, 0.0, 1.0), v(0.0, 0.0, -1.0));
    let hit = World::new(vec![first, second]).hit(&ray, s(0.001), s(f32::MAX)).unwrap();
    assert!(matches!(hit.material, Substance::Lambert(_)));
}

fn flat_hit(normal: Vec3, front_face: bool, material: Substance) -> HitRecord {
    HitRecord { t: s(1.0), point: v(0.0, 0.0, 0.0), normal, material, front_face }
}

#[test]
fn mirror_reflects_by_the_mirror_law() {
    let metal = Metal::with_albedo_fuzz(v(0.8, 0.6, 0.2), s(0.0));
    let record = flat_hit(v(0.0, 1.0, 0.0), true, Substance::Metal(metal));
    let ray = Ray::new(v(-1.0, 1.0, 0.0), v(1.0, -1.0, 0.0));
    let sample = Sample { point: v(0.3, -0.2, 0.1), draw: s(0.5) };
    let (out, attenuation) = metal.scatter(&ray, &record, &sample).unwrap();
    assert_eq!(bits(out.direction()), bits(unit_vector(v(1.0, 1.0, 0.0))));
    let d = parts(out.direction());
    assert!((d[0] - 0.70710677).abs() < 1e-6 && (d[1] - 0.70710677).abs() < 1e-6 && d[2] == 0.0);
    assert_eq!(parts(out.origin()), [0.0, 0.0, 0.0]);
    assert_eq!(parts(attenuation), [0.8, 0.6, 0.2]);
    let (again, _) = Substance::Metal(metal).scatter(&ray, &record, &sample).unwrap();
    assert_eq!(bits(again.direction()), bits(out.direction()));
}

#[test]
fn metal_absorbs_what_would_go_below_the_surface() {
    let metal = Metal::with_albedo_fuzz(v(0.8, 0.6, 0.2), s(1.0));
    let record = flat_hit(v(0.0, 1.0, 0.0), true, Substance::Metal(metal));
    let ray = Ray::new(v(-1.0, 0.1, 0.0), v(1.0, -0.1, 0.0));
    let down = Sample { point: v(0.0, -0.9, 0.0), draw: s(0.5) };
    assert!(metal.scatter(&ray, &record, &down).is_none());
    let up = Sample { point: v(0.0, 0.9, 0.0), draw: s(0.5) };
    assert!(metal.scatter(&ray, &record, &up).is_some());
    let level = Ray::new(v(-1.0, 0.0, 0.0), v(1.0, 0.0, 0.0));
    assert!(Metal::with_albedo(v(1.0, 1.0, 1.0)).scatter(&level, &record, &no_draw()).is_none());
}

#[test]
fn fuzz_is_clamped() {
    let a = v(0.5, 0.5, 0.5);
    assert_eq!(f(Metal::with_albedo(a).get_fuzz()), 0.0);
    assert_eq!(f(Metal::with_albedo_fuzz(a, s(0.3)).get_fuzz()), 0.3);
    assert_eq!(f(Metal::with_albedo_fuzz(a, s(-0.3)).get_fuzz()), 0.0);
    assert_eq!(f(Metal::with_albedo_fuzz(a, s(1.3)).get_fuzz()), 1.0);
    assert_eq!(f(Metal::with_albedo_fuzz(a, s(1.0)).get_fuzz()), 1.0);
    assert_eq!(f(Metal::with_albedo_fuzz(a, s(f32::INFINITY)).get_fuzz()), 1.0);
    assert!(f(Metal::with_albedo_fuzz(a, s(f32::NAN)).get_fuzz()).is_nan());
    assert_eq!(parts(Metal::with_albedo_fuzz(a, s(0.3)).get_albedo()), [0.5, 0.5, 0.5]);
}

#[test]
fn diffuse_surface_scatters_about_the_normal() {
    let lambert = Lambert { albedo: v(0.1, 0.2, 0.3) };
    let record = flat_hit(v(0.0, 1.0, 0.0), true, Substance::Lambert(lambert));
    let ray = Ray::new(v(0.0, 1.0, 0.0), v(0.0, -1.0, 0.0));
    let sample = Sample { point: v(0.5, 0.0, 0.0), draw: s(0.5) };
    let (out, attenuation) = lambert.scatter(&ray, &record, &sample).unwrap();
    assert_eq!(parts(out.direction()), [1.0, 1.0, 0.0]);
    assert_eq!(parts(out.origin()), [0.0, 0.0, 0.0]);
    assert_eq!(parts(attenuation), [0.1, 0.2, 0.3]);
}

#[test]
fn glass_refracts_at_normal_incidence() {
    let glass = Dielectric { ir: s(1.5) };
    let record = flat_hit(v(0.0, 1.0, 0.0), true, Substance::Dielectric(glass));
    let ray = Ray::new(v(0.0, 1.0, 0.0), v(0.0, -1.0, 0.0));
    // the reflectance here is 0.04: a draw above it refracts
    let sample = Sample { point: v(0.0, 0.0, 0.0), draw: s(0.5) };
    let (out, attenuation) = glass.scatter(&ray, &record, &sample).unwrap();
    assert_eq!(parts(attenuation), [1.0, 1.0, 1.0]);
    assert_eq!(parts(out.direction()), [0.0, -1.0, 0.0]);
    assert!((f(out.direction().length_squared()) - 1.0).abs() < 1e-6);
    // a draw below it reflects
    let low = Sample { point: v(0.0, 0.0, 0.0), draw: s(0.01) };
    let (back, _) = glass.scatter(&ray, &record, &low).unwrap();
    assert_eq!(parts(back.direction()), [0.0, 1.0, 0.0]);
}

#[test]
fn glass_reflects_all_at_a_shallow_angle_from_inside() {
    let glass = Dielectric { ir: s(1.5) };
    let record = flat_hit(v(0.0, 1.0, 0.0), false, Substance::Dielectric(glass));
    let ray = Ray::new(v(-1.0, 0.2, 0.0), v(1.0, -0.2, 0.0));
    let sample = Sample { point: v(0.0, 0.0, 0.0), draw: s(0.999) };
    let (out, _) = glass.scatter(&ray, &record, &sample).unwrap();
    let unit = unit_vector(v(1.0, -0.2, 0.0));
    assert_eq!(bits(out.direction()), bits(reflect(unit, v(0.0, 1.0, 0.0))));
    assert!(f(out.direction().0[1]) > 0.0);
}

#[test]
fn optics_formulas() {
    assert_eq!(parts(reflect(v(1.0, -1.0, 0.0), v(0.0, 1.0, 0.0))), [1.0, 1.0, 0.0]);
    assert_eq!(parts(refract(v(0.0, -1.0, 0.0), v(0.0, 1.0, 0.0), s(1.0))), [0.0, -1.0, 0.0]);
    let r = parts(refract(v(0.6, -0.8, 0.0), v(0.0, 1.0, 0.0), s(0.5)));
    assert!((r[0] - 0.3).abs() < 1e-6 && (r[1] + (1.0f32 - 0.09).sqrt()).abs() < 1e-6);
    let r0 = (1.0f32 - 1.5) / (1.0 + 1.5);
    assert_eq!(f(schlick(s(1.0), s(1.5))), r0 * r0);
    assert_eq!(f(schlick(s(0.0), s(1.5))), r0 * r0 + (1.0 - r0 * r0));
    assert_eq!(f(schlick(s(0.5), s(1.0))), 0.03125);
}

#[test]
fn no_bounce_left_is_black() {
    let world = World::new(vec![Sphere { center: v(0.0, 0.0, -1.0), radius: s(0.5), material: grey() }]);
    for ray in [
        Ray::new(v(0.0, 0.0, 0.0), v(0.0, 0.0, -1.0)),
        Ray::new(v(0.0, 0.0, 0.0), v(0.0, 1.0, 0.0)),
        Ray::new(v(f32::NAN, 0.0, 0.0), v(0.0, 0.0, 0.0)),
    ] {
        assert_eq!(bits(ray_color(&ray, &world, 0, &vec![])), [0, 0, 0]);
        assert_eq!(bits(ray_color(&ray, &World::new(vec![]), 0, &vec![no_draw()])), [0, 0, 0]);
    }
}

#[test]
fn empty_scene_shows_the_sky() {
    let world = World::new(vec![]);
    let samples = vec![no_draw(), no_draw()];
    let up = Ray::new(v(0.0, 0.0, 0.0), v(0.0, 1.0, 0.0));
    assert_eq!(parts(ray_color(&up, &world, 1, &samples)), [0.5, 0.7, 1.0]);
    assert_eq!(parts(ray_color(&up, &world, 2, &samples)), [0.5, 0.7, 1.0]);
    let down = Ray::new(v(0.0, 0.0, 0.0), v(0.0, -1.0, 0.0));
    assert_eq!(parts(ray_color(&down, &world, 1, &samples)), [1.0, 1.0, 1.0]);
    let level = Ray::new(v(0.0, 0.0, 0.0), v(2.0, 0.0, 0.0));
    assert_eq!(parts(ray_color(&level, &world, 1, &samples)), [0.75, 0.85, 1.0]);
    assert_eq!(bits(ray_color(&level, &world, 1, &samples)), bits(background(&level)));
    let tall = Ray::new(v(3.0, -2.0, 1.0), v(0.0, 7.5, 0.0));
    assert_eq!(parts(background(&tall)), [0.5, 0.7, 1.0]);
}

#[test]
fn a_path_multiplies_the_attenuations() {
    // a mirror floor under an empty sky: one bounce, then the sky
    let floor = Sphere {
        center: v(0.0, -100.0, 0.0),
        radius: s(100.0),
        material: Substance::Metal(Metal::with_albedo(v(0.5, 0.25, 1.0))),
    };
    let world = World::new(vec![floor]);
    let ray = Ray::new(v(0.0, 1.0, 0.0), v(0.0, -1.0, 0.0));
    let samples = vec![no_draw(), no_draw(), no_draw()];
    assert_eq!(parts(ray_color(&ray, &world, 3, &samples)), [0.25, 0.175, 1.0]);
    assert_eq!(parts(ray_color(&ray, &world, 2, &samples)), [0.25, 0.175, 1.0]);
    // with one bounce only, the scattered ray finds no bounce left
    assert_eq!(parts(ray_color(&ray, &world, 1, &samples)), [0.0, 0.0, 0.0]);
}

#[test]
fn an_absorbed_path_is_black() {
    let floor = Sphere {
        center: v(0.0, -100.0, 0.0),
        radius: s(100.0),
        material: Substance::Metal(Metal::with_albedo_fuzz(v(0.5, 0.25, 1.0), s(1.0))),
    };
    let world = World::new(vec![floor]);
    let ray = Ray::new(v(-10.0, 1.0, 0.0), v(10.0, -1.0, 0.0));
    let down = Sample { point: v(0.0, -0.9, 0.0), draw: s(0.5) };
    assert_eq!(parts(ray_color(&ray, &world, 2, &vec![down, down])), [0.0, 0.0, 0.0]);
}

#[test]
fn the_bounce_with_d_left_uses_sample_d_less_one() {
    let floor = Sphere { center: v(0.0, -100.0, 0.0), radius: s(100.0), material: grey() };
    let world = World::new(vec![floor]);
    let ray = Ray::new(v(0.0, 1.0, 0.0), v(0.0, -1.0, 0.0));
    let up = Sample { point: v(0.0, 0.5, 0.0), draw: s(0.5) };
    let aside = Sample { point: v(0.5, 0.0, 0.0), draw: s(0.5) };
    let first = ray_color(&ray, &world, 2, &vec![aside, up]);
    let second = ray_color(&ray, &world, 2, &vec![up, up]);
    assert_eq!(bits(first), bits(second));
    // scattered straight up: half of the zenith colour
    assert_eq!(parts(first), [0.25, 0.35, 0.5]);
    let third = ray_color(&ray, &world, 2, &vec![up, aside]);
    assert!(bits(third) != bits(first));
}

#[test]
fn interpolation() {
    assert_eq!(parts(lerp(v(1.0, 1.0, 1.0), v(0.5, 0.7, 1.0), s(0.0))), [1.0, 1.0, 1.0]);
    assert_eq!(parts(lerp(v(1.0, 1.0, 1.0), v(0.5, 0.7, 1.0), s(1.0))), [0.5, 0.7, 1.0]);
    assert_eq!(parts(lerp(v(0.0, 2.0, 4.0), v(4.0, 2.0, 0.0), s(0.25))), [1.0, 2.0, 3.0]);
}

#[test]
fn rejection_tests() {
    assert_eq!(random_in_unit_sphere(s(0.5), s(0.5), s(0.5)).map(parts), Some([0.5, 0.5, 0.5]));
    assert_eq!(random_in_unit_sphere(s(1.0), s(0.0), s(0.0)).map(parts), Some([1.0, 0.0, 0.0]));
    assert!(random_in_unit_sphere(s(0.9), s(0.9), s(0.0)).is_none());
    assert!(random_in_unit_sphere(s(f32::NAN), s(0.0), s(0.0)).is_none());
    assert_eq!(random_in_unit_disk(s(0.5), s(-0.5)).map(parts), Some([0.5, -0.5, 0.0]));
    assert!(random_in_unit_disk(s(1.0), s(0.0)).is_none());
    assert!(random_in_unit_disk(s(0.8), s(0.8)).is_none());
    assert_eq!(parts(random_unit_vector(v(0.0, 0.0, 0.25))), [0.0, 0.0, 1.0]);
    assert_eq!(parts(random_in_hemisphere(v(0.0, 1.0, 0.0), v(0.1, 0.2, 0.3))), [0.1, 0.2, 0.3]);
    assert_eq!(parts(random_in_hemisphere(v(0.0, 1.0, 0.0), v(0.1, -0.2, 0.3))), [-0.1, 0.2, -0.3]);
    assert_eq!(parts(random_in_hemisphere(v(0.0, 1.0, 0.0), v(0.1, 0.0, 0.3))), [-0.1, -0.0, -0.3]);
}

#[test]
fn degrees_to_radians() {
    assert_eq!(f(deg_to_rad(s(180.0))), std::f32::consts::PI);
    assert_eq!(f(deg_to_rad(s(0.0))), 0.0);
    assert_eq!(f(deg_to_rad(s(20.0))), 20.0f32 * std::f32::consts::PI / 180.0);
    assert_eq!(f(deg_to_rad(s(-90.0))), -90.0f32 * std::f32::consts::PI / 180.0);
}

#[test]
fn pixels_to_bytes() {
    assert_eq!(color_bytes(v(4.0, 1.0, 0.0), 4), (255, 127, 0));
    assert_eq!(color_bytes(v(1.0, 0.25, 0.5), 1), (255, 127, 180));
    assert_eq!(color_bytes(v(500.0, 125.0, 2000.0), 500), (255, 127, 255));
    assert_eq!(color_bytes(v(-1.0, f32::NAN, 0.0), 10), (0, 0, 0));
    for (pixel, samples) in [([0.3f32, 7.7, 120.5], 33), ([12.0, 0.001, 499.0], 500)] {
        let k = 1.0 / samples as f32;
        let want = pixel.map(|c| ((255.0 * (c * k).sqrt()).max(0.0).min(255.0)) as u8);
        assert_eq!(color_bytes(v(pixel[0], pixel[1], pixel[2]), samples), (want[0], want[1], want[2]));
    }
}

#[test]
fn small_spheres_keep_clear_of_the_large_one() {
    let c = small_sphere_center(-11, 3, s(0.5), s(0.25)).unwrap();
    assert_eq!(parts(c), [-11.0 + 0.9 * 0.5, 0.2, 3.0 + 0.9 * 0.25]);
    assert!(small_sphere_center(4, 0, s(0.0), s(0.0)).is_none());
    assert!(small_sphere_center(4, 0, s(0.5), s(0.5)).is_none());
    assert!(small_sphere_center(4, 0, s(0.99), s(0.99)).is_some());
    assert!(small_sphere_center(3, -1, s(0.99), s(0.99)).is_none());
    for a in -11..11 {
        for b in -11..11 {
            let center = [a as f32 + 0.9 * 0.3, 0.2, b as f32 + 0.9 * 0.7];
            let d = [center[0] - 4.0, center[1] - 0.2, center[2] - 0.0];
            let far = (d[0] * d[0] + d[1] * d[1] + d[2] * d[2]).sqrt() > 0.9;
            assert_eq!(small_sphere_center(a, b, s(0.3), s(0.7)).map(parts), if far { Some(center) } else { None });
        }
    }
}

#[test]
fn small_spheres_take_their_material_by_the_rate() {
    let c = v(1.0, 0.2, 1.0);
    let diffuse = small_sphere(c, s(0.79), s(0.5), s(0.25), s(1.0), s(0.3));
    assert_eq!(f(diffuse.radius), 0.2);
    assert_eq!(parts(diffuse.center), [1.0, 0.2, 1.0]);
    match diffuse.material {
        Substance::Lambert(l) => assert_eq!(parts(l.albedo), [0.25, 0.0625, 1.0]),
        _ => panic!("diffuse expected"),
    }
    for rate in [0.8f32, 0.9, 0.94] {
        match small_sphere(c, s(rate), s(0.5), s(0.25), s(1.0), s(0.3)).material {
            Substance::Metal(m) => {
                assert_eq!(parts(m.get_albedo()), [0.75, 0.625, 1.0]);
                assert_eq!(f(m.get_fuzz()), 0.3);
            }
            _ => panic!("metal expected"),
        }
    }
    for rate in [0.95f32, 0.99] {
        match small_sphere(c, s(rate), s(0.5), s(0.25), s(1.0), s(0.3)).material {
            Substance::Dielectric(d) => assert_eq!(f(d.ir), 1.5),
            _ => panic!("glass expected"),
        }
    }
}

#[test]
fn unit_vectors_stay_within_the_proved_bound() {
    let mut g = Lcg(24);
    let bound = 28.0 / 16777216.0;
    for _ in 0..20000 {
        // magnitudes spread over forty-eight binary places, anywhere from 2^-63 to 2^51
        let base = (g.range(-63.0, 3.0)).floor() as i32;
        let mut parts = [0.0f32; 3];
        for p in parts.iter_mut() {
            let m = g.range(1.0, 2.0) * 2.0f32.powi(base + (g.range(0.0, 47.0)) as i32);
            *p = match (g.unit() * 5.0) as u32 {
                0 => 0.0,
                1 | 2 => -m,
                _ => m,
            };
        }
        if parts == [0.0, 0.0, 0.0] {
            continue;
        }
        let len = f(unit_vector(v(parts[0], parts[1], parts[2])).length());
        assert!((len - 1.0).abs() <= bound, "{:?}: {}", parts, len);
    }
}

#[test]
fn unit_vector_of_a_huge_vector_is_not_a_unit_vector() {
    // the squares overflow, the length is infinite and its reciprocal zero
    let a = unit_vector(v(1e30, 0.0, 0.0));
    assert_eq!(f(a.length()), 0.0);
}

#[test]
fn ray_aimed_at_the_centre_stops_a_radius_short() {
    let mut g = Lcg(25);
    let bound = 1140.0 / 16777216.0;
    let mut seen = 0;
    for _ in 0..20000 {
        let center = [g.range(-50.0, 50.0), g.range(-50.0, 50.0), g.range(-50.0, 50.0)];
        let origin = [g.range(-50.0, 50.0), g.range(-50.0, 50.0), g.range(-50.0, 50.0)];
        let sphere = Sphere {
            center: v(center[0], center[1], center[2]),
            radius: s(g.range(0.05, 20.0)),
            material: grey(),
        };
        let o = v(origin[0], origin[1], origin[2]);
        let ray = Ray::new(o, sphere.center - o);
        let a = f(ray.direction().length_squared()) as f64;
        let r = f(sphere.radius) as f64;
        if 16.0 * r * r > a || a > 256.0 * r * r {
            continue;
        }
        seen += 1;
        let hit = sphere.hit(&ray, s(0.001), s(f32::MAX)).unwrap();
        let t = f(hit.t) as f64;
        assert!(0.5 <= t && t <= 1.0);
        let left = (1.0 - t) * (1.0 - t) * a;
        assert!((left - r * r).abs() <= bound * r * r, "{} against {}", left, r * r);
        assert!(hit.front_face);
        // the normal points back along the ray
        assert!(f(dot(ray.direction(), hit.normal)) < 0.0);
        let back = parts(unit_vector(-ray.direction()));
        let n = parts(hit.normal);
        for i in 0..3 {
            assert!((back[i] - n[i]).abs() < 1e-3, "{:?} against {:?}", back, n);
        }
    }
    assert!(seen > 1000);
}

#[test]
fn a_single_sphere_can_be_the_world() {
    let ball = Sphere {
        center: v(0.0, 0.0, -3.0),
        radius: s(1.0),
        material: Substance::Metal(Metal::with_albedo(v(1.0, 0.5, 0.25))),
    };
    let ray = Ray::new(v(0.0, 0.0, 0.0), v(0.0, 0.0, -1.0));
    // reflected straight back, level with the horizon: a mix of white and blue in equal parts
    assert_eq!(parts(ray_color(&ray, &ball, 2, &vec![no_draw(), no_draw()])), [0.75, 0.425, 0.25]);
    let beside = Ray::new(v(0.0, 0.0, 0.0), v(0.0, 1.0, 0.0));
    assert_eq!(parts(ray_color(&beside, &ball, 2, &vec![no_draw(), no_draw()])), [0.5, 0.7, 1.0]);
}

#[test]
fn normal_of_an_aimed_ray_points_back_at_its_origin() {
    let mut g = Lcg(26);
    let bound = 24.0 / 16777216.0;
    let mut seen = 0;
    for _ in 0..20000 {
        let mut origin = [g.range(-50.0, 50.0), g.range(-50.0, 50.0), g.range(-50.0, 50.0)];
        if g.unit() < 0.2 {
            origin[(g.unit() * 3.0) as usize % 3] = 0.0;
        }
        let sphere = Sphere { center: v(0.0, 0.0, 0.0), radius: s(g.range(0.05, 20.0)), material: grey() };
        let o = v(origin[0], origin[1], origin[2]);
        let ray = Ray::new(o, sphere.center - o);
        let a = f(ray.direction().length_squared()) as f64;
        let r = f(sphere.radius) as f64;
        if 16.0 * r * r > a || a > 256.0 * r * r {
            continue;
        }
        seen += 1;
        let hit = sphere.hit(&ray, s(0.001), s(f32::MAX)).unwrap();
        assert!(hit.front_face);
        let t = f(hit.t) as f64;
        let n = parts(hit.normal);
        for i in 0..3 {
            let want = (1.0 - t) * origin[i] as f64;
            let got = n[i] as f64 * r;
            assert!((got - want).abs() <= bound * want.abs(), "{} against {}", got, want);
            assert_eq!(n[i] == 0.0, origin[i] == 0.0);
            if origin[i] != 0.0 {
                assert_eq!(n[i] < 0.0, origin[i] < 0.0);
            }
        }
    }
    assert!(seen > 1000);
}

#[test]
fn zero_vector_has_no_direction() {
    let a = parts(unit_vector(v(0.0, 0.0, 0.0)));
    assert!(a[0].is_nan() && a[1].is_nan() && a[2].is_nan());
    let b = parts(v(1.0, -2.0, 0.0) / s(0.0));
    assert_eq!(b[0], f32::INFINITY);
    assert_eq!(b[1], f32::NEG_INFINITY);
    assert!(b[2].is_nan());
}
