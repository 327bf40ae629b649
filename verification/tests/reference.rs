// The kernel against the same formulas worked in the machine's own binary32
// arithmetic: every result must agree bit for bit (NaN with NaN).

use pathtracer::bodies::{HitRecord, Hittable, Sphere};
use pathtracer::geom::{cross, dot, unit_vector, Vec3};
use pathtracer::materials::{
    reflect, refract, schlick, Dielectric, Lambert, Material, Metal, Sample, Substance,
};
use pathtracer::ray::Ray;
use pathtracer::scalar::Scalar;
use pathtracer::scene::World;
use pathtracer::tracer::ray_color;
use pathtracer::utils::lerp;

type V = [f32; 3];

fn s(x: f32) -> Scalar {
    Scalar::from_bits(x.to_bits())
}

fn v(a: V) -> Vec3 {
    Vec3::new(s(a[0]), s(a[1]), s(a[2]))
}

fn same(got: Scalar, want: f32) -> bool {
    if want.is_nan() {
        got.is_nan()
    } else {
        got.to_bits() == want.to_bits()
    }
}

fn same3(got: Vec3, want: V) -> bool {
    same(got.0[0], want[0]) && same(got.0[1], want[1]) && same(got.0[2], want[2])
}

struct Lcg(u64);

impl Lcg {
    fn next(&mut self) -> u32 {
        self.0 = self.0.wrapping_mul(6364136223846793005).wrapping_add(1442695040888963407);
        (self.0 >> 32) as u32
    }

    fn unit(&mut self) -> f32 {
        (self.next() >> 8) as f32 / 16777216.0
    }

    fn range(&mut self, low: f32, high: f32) -> f32 {
        low + (high - low) * self.unit()
    }

    fn vector(&mut self, low: f32, high: f32) -> V {
        [self.range(low, high), self.range(low, high), self.range(low, high)]
    }
}

fn add(a: V, b: V) -> V {
    [a[0] + b[0], a[1] + b[1], a[2] + b[2]]
}

fn sub(a: V, b: V) -> V {
    [a[0] - b[0], a[1] - b[1], a[2] - b[2]]
}

fn mul(a: V, b: V) -> V {
    [a[0] * b[0], a[1] * b[1], a[2] * b[2]]
}

fn scale(a: V, k: f32) -> V {
    [a[0] * k, a[1] * k, a[2] * k]
}

fn divide(a: V, k: f32) -> V {
    scale(a, 1.0 / k)
}

fn neg(a: V) -> V {
    [-a[0], -a[1], -a[2]]
}

fn rdot(a: V, b: V) -> f32 {
    a[0] * b[0] + a[1] * b[1] + a[2] * b[2]
}

fn rcross(a: V, b: V) -> V {
    [a[1] * b[2] - a[2] * b[1], a[2] * b[0] - a[0] * b[2], a[0] * b[1] - a[1] * b[0]]
}

fn length_squared(a: V) -> f32 {
    a[0] * a[0] + a[1] * a[1] + a[2] * a[2]
}

fn runit(a: V) -> V {
    divide(a, length_squared(a).sqrt())
}

fn rreflect(a: V, n: V) -> V {
    sub(a, scale(n, 2.0 * rdot(a, n)))
}

fn rrefract(uv: V, n: V, ratio: f32) -> V {
    let cos_theta = rdot(neg(uv), n).min(1.0);
    let perp = scale(add(uv, scale(n, cos_theta)), ratio);
    let parallel = scale(n, -(1.0 - length_squared(perp)).abs().sqrt());
    add(perp, parallel)
}

fn rschlick(cosine: f32, index: f32) -> f32 {
    let r0 = (1.0 - index) / (1.0 + index);
    let r0 = r0 * r0;
    let x = 1.0 - cosine;
    let square = x * x;
    r0 + (1.0 - r0) * (x * (square * square))
}

#[derive(Clone, Copy)]
enum RMaterial {
    Lambert(V),
    Metal(V, f32),
    Dielectric(f32),
}

#[derive(Clone, Copy)]
struct RSphere {
    center: V,
    radius: f32,
    material: RMaterial,
}

#[derive(Clone, Copy)]
struct RHit {
    t: f32,
    point: V,
    normal: V,
    material: RMaterial,
    front_face: bool,
}

fn rhit(sp: &RSphere, orig: V, dir: V, t_min: f32, t_max: f32) -> Option<RHit> {
    let oc = sub(orig, sp.center);
    let a = length_squared(dir);
    let half_b = rdot(oc, dir);
    let c = length_squared(oc) - sp.radius * sp.radius;
    let discriminant = half_b * half_b - a * c;
    if discriminant > 0.0 {
        for t in [(-half_b - discriminant.sqrt()) / a, (-half_b + discriminant.sqrt()) / a] {
            if t_min < t && t < t_max {
                let point = add(orig, scale(dir, t));
                let outward = divide(sub(point, sp.center), sp.radius);
                let front_face = rdot(dir, outward) < 0.0;
                let normal = if front_face { outward } else { neg(outward) };
                return Some(RHit { t, point, normal, material: sp.material, front_face });
            }
        }
    }
    None
}

fn rworld(world: &[RSphere], orig: V, dir: V, t_min: f32, t_max: f32) -> Option<RHit> {
    let mut rec = None;
    let mut closest = t_max;
    for sp in world {
        if let Some(h) = rhit(sp, orig, dir, t_min, closest) {
            closest = h.t;
            rec = Some(h);
        }
    }
    rec
}

fn rscatter(m: RMaterial, dir: V, hit: &RHit, point: V, draw: f32) -> Option<(V, V, V)> {
    match m {
        RMaterial::Lambert(albedo) => Some((hit.point, add(hit.normal, runit(point)), albedo)),
        RMaterial::Metal(albedo, fuzz) => {
            let out = add(rreflect(runit(dir), hit.normal), scale(point, fuzz));
            if rdot(out, hit.normal) > 0.0 {
                Some((hit.point, out, albedo))
            } else {
                None
            }
        }
        RMaterial::Dielectric(ir) => {
            let ratio = if hit.front_face { 1.0 / ir } else { ir };
            let unit = runit(dir);
            let cos_theta = rdot(neg(unit), hit.normal).min(1.0);
            let sin_theta = (1.0 - cos_theta * cos_theta).sqrt();
            let out = if ratio * sin_theta > 1.0 || rschlick(cos_theta, ir) > draw {
                rreflect(unit, hit.normal)
            } else {
                rrefract(unit, hit.normal, ratio)
            };
            Some((hit.point, out, [1.0, 1.0, 1.0]))
        }
    }
}

fn rcolor(world: &[RSphere], orig: V, dir: V, depth: u32, samples: &[(V, f32)]) -> V {
    if depth == 0 {
        return [0.0, 0.0, 0.0];
    }
    match rworld(world, orig, dir, 0.001, f32::MAX) {
        Some(hit) => {
            let (point, draw) = samples[(depth - 1) as usize];
            match rscatter(hit.material, dir, &hit, point, draw) {
                Some((o, d, attenuation)) => mul(attenuation, rcolor(world, o, d, depth - 1, samples)),
                None => [0.0, 0.0, 0.0],
            }
        }
        None => {
            let unit = runit(dir);
            let t = 0.5 * (unit[1] + 1.0);
            add(scale([1.0, 1.0, 1.0], 1.0 - t), scale([0.5, 0.7, 1.0], t))
        }
    }
}

fn substance(m: RMaterial) -> Substance {
    match m {
        RMaterial::Lambert(a) => Substance::Lambert(Lambert { albedo: v(a) }),
        RMaterial::Metal(a, f) => Substance::Metal(Metal::with_albedo_fuzz(v(a), s(f))),
        RMaterial::Dielectric(ir) => Substance::Dielectric(Dielectric { ir: s(ir) }),
    }
}

fn sphere(sp: &RSphere) -> Sphere {
    Sphere { center: v(sp.center), radius: s(sp.radius), material: substance(sp.material) }
}

fn same_hit(got: &Option<HitRecord>, want: &Option<RHit>) -> bool {
    match (got, want) {
        (None, None) => true,
        (Some(g), Some(w)) => {
            same(g.t, w.t)
                && same3(g.point, w.point)
                && same3(g.normal, w.normal)
                && g.front_face == w.front_face
        }
        _ => false,
    }
}

fn some_material(g: &mut Lcg) -> RMaterial {
    match g.next() % 3 {
        0 => RMaterial::Lambert(g.vector(0.0, 1.0)),
        1 => RMaterial::Metal(g.vector(0.0, 1.0), g.range(0.0, 1.0)),
        _ => RMaterial::Dielectric(1.5),
    }
}

fn some_scene(g: &mut Lcg, n: usize) -> Vec<RSphere> {
    let mut scene = vec![RSphere {
        center: [0.0, -1000.0, 0.0],
        radius: 1000.0,
        material: RMaterial::Lambert([0.5, 0.5, 0.5]),
    }];
    for _ in 0..n {
        scene.push(RSphere {
            center: g.vector(-4.0, 4.0),
            radius: g.range(0.2, 1.5),
            material: some_material(g),
        });
    }
    scene
}

#[test]
fn vector_algebra_matches_hardware() {
    let mut g = Lcg(11);
    for _ in 0..20000 {
        let a = g.vector(-10.0, 10.0);
        let b = g.vector(-10.0, 10.0);
        let k = g.range(-3.0, 3.0);
        assert!(same3(v(a) + v(b), add(a, b)));
        assert!(same3(v(a) - v(b), sub(a, b)));
        assert!(same3(v(a) * v(b), mul(a, b)));
        assert!(same3(v(a) * s(k), scale(a, k)));
        assert!(same3(s(k) * v(a), scale(a, k)));
        assert!(same3(v(a) / s(k), divide(a, k)));
        assert!(same3(v(a) / v(b), [a[0] / b[0], a[1] / b[1], a[2] / b[2]]));
        assert!(same3(v(a) + s(k), [a[0] + k, a[1] + k, a[2] + k]));
        assert!(same3(-v(a), neg(a)));
        assert!(same(dot(v(a), v(b)), rdot(a, b)));
        assert!(same3(cross(v(a), v(b)), rcross(a, b)));
        assert!(same(v(a).length_squared(), length_squared(a)));
        assert!(same(v(a).length(), length_squared(a).sqrt()));
        assert!(same3(unit_vector(v(a)), runit(a)));
        assert!(same3(lerp(v(a), v(b), s(k)), add(scale(a, 1.0 - k), scale(b, k))));
        assert!(same3(Ray::new(v(a), v(b)).at(s(k)), add(a, scale(b, k))));
    }
}

#[test]
fn optics_match_hardware() {
    let mut g = Lcg(12);
    for _ in 0..20000 {
        let a = runit(g.vector(-1.0, 1.0));
        let n = runit(g.vector(-1.0, 1.0));
        let ratio = g.range(0.3, 2.0);
        let cosine = g.range(0.0, 1.0);
        assert!(same3(reflect(v(a), v(n)), rreflect(a, n)));
        assert!(same3(refract(v(a), v(n), s(ratio)), rrefract(a, n, ratio)));
        assert!(same(schlick(s(cosine), s(ratio)), rschlick(cosine, ratio)));
    }
}

#[test]
fn sphere_hits_match_hardware() {
    let mut g = Lcg(13);
    let mut hits = 0;
    for _ in 0..20000 {
        let sp = RSphere {
            center: g.vector(-2.0, 2.0),
            radius: g.range(0.1, 2.0),
            material: RMaterial::Dielectric(1.5),
        };
        let orig = g.vector(-4.0, 4.0);
        let dir = add(sub(sp.center, orig), g.vector(-1.5, 1.5));
        let t_max = g.range(0.2, 3.0);
        let want = rhit(&sp, orig, dir, 0.001, t_max);
        let got = sphere(&sp).hit(&Ray::new(v(orig), v(dir)), s(0.001), s(t_max));
        assert!(same_hit(&got, &want));
        if want.is_some() {
            hits += 1;
        }
    }
    assert!(hits > 1000);
}

#[test]
fn scene_hits_match_hardware() {
    let mut g = Lcg(14);
    for _ in 0..300 {
        let scene = some_scene(&mut g, 12);
        let world = World::new(scene.iter().map(sphere).collect());
        for _ in 0..40 {
            let orig = g.vector(-6.0, 6.0);
            let dir = g.vector(-1.0, 1.0);
            let want = rworld(&scene, orig, dir, 0.001, f32::MAX);
            let got = world.hit(&Ray::new(v(orig), v(dir)), s(0.001), s(f32::MAX));
            assert!(same_hit(&got, &want));
        }
    }
}

#[test]
fn scattering_matches_hardware() {
    let mut g = Lcg(15);
    let mut absorbed = 0;
    for _ in 0..20000 {
        let sp = RSphere { center: g.vector(-1.0, 1.0), radius: 1.0, material: some_material(&mut g) };
        let orig = g.vector(-3.0, 3.0);
        let dir = sub(sp.center, orig);
        let dir = add(dir, g.vector(-0.6, 0.6));
        let point = scale(runit(g.vector(-1.0, 1.0)), g.unit());
        let draw = g.unit();
        if let Some(hit) = rhit(&sp, orig, dir, 0.001, f32::MAX) {
            let ray = Ray::new(v(orig), v(dir));
            let record = sphere(&sp).hit(&ray, s(0.001), s(f32::MAX)).unwrap();
            let sample = Sample { point: v(point), draw: s(draw) };
            let got = record.material.scatter(&ray, &record, &sample);
            match rscatter(hit.material, dir, &hit, point, draw) {
                Some((o, d, a)) => {
                    let (out, attenuation) = got.unwrap();
                    assert!(same3(out.origin(), o));
                    assert!(same3(out.direction(), d));
                    assert!(same3(attenuation, a));
                }
                None => {
                    assert!(got.is_none());
                    absorbed += 1;
                }
            }
        }
    }
    assert!(absorbed > 0);
}

#[test]
fn colours_match_hardware() {
    let mut g = Lcg(16);
    for _ in 0..60 {
        let scene = some_scene(&mut g, 8);
        let world = World::new(scene.iter().map(sphere).collect());
        for _ in 0..40 {
            let orig = [g.range(-6.0, 6.0), g.range(0.5, 4.0), g.range(-6.0, 6.0)];
            let dir = g.vector(-1.0, 1.0);
            let depth = 1 + g.next() % 8;
            let mut draws = Vec::new();
            let mut samples = Vec::new();
            for _ in 0..depth {
                let point = scale(runit(g.vector(-1.0, 1.0)), g.unit());
                let draw = g.unit();
                draws.push((point, draw));
                samples.push(Sample { point: v(point), draw: s(draw) });
            }
            let want = rcolor(&scene, orig, dir, depth, &draws);
            let got = ray_color(&Ray::new(v(orig), v(dir)), &world, depth, &samples);
            assert!(same3(got, want));
        }
    }
}
