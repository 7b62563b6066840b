use lufasu::camera::Camera;
use lufasu::color::Color;
use lufasu::fixed::{fx_mul, fx_sqrt, isqrt_u128, SCALE};
use lufasu::geometry::{HitRecord, Hittable, HittableEnum, HittableList, Ray, Sphere};
use lufasu::material::{reflect, refract, Dielectric, Lambertian, Material, MaterialEnum, Metal, ScatterSample};
use lufasu::render::{background_color, color};
use lufasu::sampler::{pack_rgb, render_pixel, render_rows, PixelSample, RenderParams};
use lufasu::scene::{construct_scene, random_sphere};
use lufasu::vector::Vec3;

const S: i64 = SCALE;

fn v(x: i64, y: i64, z: i64) -> Vec3 {
    Vec3::new(x, y, z)
}

fn grey() -> MaterialEnum {
    MaterialEnum::Lambertian(Lambertian { albedo: Color::new(S / 2, S / 2, S / 2) })
}

fn norm_sq(a: &Vec3) -> i128 {
    let (x, y, z) = (a.x as i128, a.y as i128, a.z as i128);
    x * x + y * y + z * z
}

fn unit_hit(normal: Vec3, material: MaterialEnum) -> HitRecord {
    HitRecord { t: S, pos: v(0, 0, 0), normal: Some(normal), material }
}

fn sample(in_sphere: Vec3, uniform: i64) -> ScatterSample {
    ScatterSample { in_sphere, uniform }
}

#[test]
fn fixed_point_products_round_down() {
    assert_eq!(fx_mul(3 * S / 2, 2 * S), 3 * S);
    assert_eq!(fx_mul(-1, 1), -1);
    assert_eq!(fx_mul(S, -5), -5);
    assert_eq!(isqrt_u128(15), 3);
    assert_eq!(isqrt_u128(16), 4);
    assert_eq!(isqrt_u128(0), 0);
    assert_eq!(fx_sqrt(4 * S), 2 * S);
    assert_eq!(fx_sqrt(S / 4), S / 2);
}

#[test]
fn ray_direction_is_normalized() {
    let r = Ray::new(v(1, 2, 3), v(3 * S, 4 * S, 0));
    assert_eq!(*r.direction(), v(39321, 52428, 0));
    assert_eq!(*r.origin(), v(1, 2, 3));
    let inputs = [v(1, 0, 0), v(1, 1, 0), v(-7, 3, 2), v(123456789, -987654, 1), v(0, 0, -S)];
    let ss = (S as i128) * (S as i128);
    for d in inputs.iter() {
        let r = Ray::new(v(0, 0, 0), *d);
        let n = norm_sq(r.direction());
        assert!(n <= ss + 2 * S as i128, "{:?}", d);
        assert!(n > ss - 6 * S as i128 - 3, "{:?}", d);
    }
    assert_eq!(*Ray::new(v(0, 0, 0), v(1, 1, 0)).direction(), v(46341, 46341, 0));
}

#[test]
fn ray_at_moves_along_direction() {
    let r = Ray::new(v(S, 0, 0), v(0, 0, -5));
    assert_eq!(r.at(3 * S), v(S, 0, -3 * S));
    assert_eq!(r.at(0), v(S, 0, 0));
}

#[test]
fn sphere_hit_from_outside_along_axis() {
    let s = Sphere { center: v(0, 0, 0), radius: S, material: grey() };
    let r = Ray::new(v(0, 0, 5 * S), v(0, 0, -S));
    let h = s.hits(&r, 66, i64::MAX).unwrap();
    assert_eq!(h.t, 4 * S);
    assert_eq!(h.pos, v(0, 0, S));
    assert_eq!(h.normal, Some(v(0, 0, S)));
    let r = Ray::new(v(-3 * S, 0, 0), v(S, 0, 0));
    let h = Sphere { center: v(0, 0, 0), radius: S / 2, material: grey() }.hits(&r, 66, i64::MAX).unwrap();
    assert_eq!(h.t, 3 * S - S / 2);
    assert_eq!(h.normal, Some(v(-S, 0, 0)));
}

#[test]
fn sphere_far_root_when_near_is_excluded() {
    let s = Sphere { center: v(0, 0, 0), radius: S, material: grey() };
    let r = Ray::new(v(0, 0, 5 * S), v(0, 0, -S));
    let h = s.hits(&r, 5 * S, i64::MAX).unwrap();
    assert_eq!(h.t, 6 * S);
    assert_eq!(h.normal, Some(v(0, 0, -S)));
    assert!(s.hits(&r, 66, 4 * S).is_none());
    assert!(s.hits(&r, 7 * S, i64::MAX).is_none());
}

#[test]
fn sphere_missed_by_ray_pointing_away() {
    let s = Sphere { center: v(0, 0, -S), radius: S / 2, material: grey() };
    let r = Ray::new(v(10 * S, 10 * S, 10 * S), v(S, S, S));
    assert!(s.hits(&r, 66, i64::MAX).is_none());
    let r = Ray::new(v(0, 3 * S, 0), v(S, 0, 0));
    assert!(s.hits(&r, 66, i64::MAX).is_none());
}

#[test]
fn list_reports_nearer_of_two_spheres() {
    let near = Sphere { center: v(0, 0, -2 * S), radius: S, material: grey() };
    let far = Sphere { center: v(0, 0, -3 * S), radius: S, material: grey() };
    let r = Ray::new(v(0, 0, 0), v(0, 0, -S));
    let list = HittableList { hittables: vec![HittableEnum::Sphere(far), HittableEnum::Sphere(near)] };
    let h = list.hits(&r, 66, i64::MAX).unwrap();
    let expect = near.hits(&r, 66, i64::MAX).unwrap();
    assert_eq!(h.t, expect.t);
    assert_eq!(h.t, S);
    assert_eq!(h.pos, expect.pos);
    let list = HittableList { hittables: vec![HittableEnum::Sphere(near), HittableEnum::Sphere(far)] };
    assert_eq!(list.hits(&r, 66, i64::MAX).unwrap().t, S);
    let empty = HittableList { hittables: vec![] };
    assert!(empty.hits(&r, 66, i64::MAX).is_none());
    assert!(HittableEnum::Sphere(near).hits(&r, 66, i64::MAX).is_some());
}

#[test]
fn lambertian_always_scatters() {
    let l = Lambertian { albedo: Color::new(S / 2, S / 4, S) };
    let r = Ray::new(v(0, 5 * S, 0), v(0, -S, 0));
    for smp in [v(0, 0, 0), v(0, -S, 0), v(S, 0, 0), v(-S / 2, S / 2, 0)].iter() {
        let sc = l.scatter(&r, &unit_hit(v(0, S, 0), grey()), &sample(*smp, 0)).unwrap();
        assert_eq!(sc.attenuation, Color::new(S / 2, S / 4, S));
        assert_eq!(*sc.scattered.origin(), v(0, 0, 0));
    }
    let sc = l.scatter(&r, &unit_hit(v(0, S, 0), grey()), &sample(v(0, -S, 0), 0)).unwrap();
    assert_eq!(*sc.scattered.direction(), v(0, S, 0));
    let sc = l.scatter(&r, &unit_hit(v(0, S, 0), grey()), &sample(v(S, 0, 0), 0)).unwrap();
    assert_eq!(*sc.scattered.direction(), v(46340, 46340, 0));
}

#[test]
fn metal_reflects_and_absorbs_grazing_fuzz() {
    let m = Metal { albedo: Color::new(S, S, S), fuzz: 0 };
    let r = Ray::new(v(-S, S, 0), v(S, -S, 0));
    let sc = m.scatter(&r, &unit_hit(v(0, S, 0), grey()), &sample(v(0, 0, 0), 0)).unwrap();
    let d = *sc.scattered.direction();
    assert!(d.x > 0 && d.y > 0);
    assert_eq!(d.x, d.y);
    let fuzzy = Metal { albedo: Color::new(S, S, S), fuzz: S };
    let grazing = Ray::new(v(-S, 0, 0), v(S, 0, 0));
    let out = fuzzy.scatter(&grazing, &unit_hit(v(0, S, 0), grey()), &sample(v(0, -S, 0), 0));
    assert!(out.is_none());
    assert_eq!(reflect(&v(S, -S, 0), &v(0, S, 0)), v(S, S, 0));
}

#[test]
fn dielectric_always_scatters() {
    let d = Dielectric { index: 98304 };
    let n = v(0, S, 0);
    let inside = Ray::new(v(0, 0, 0), v(S, S / 8, 0));
    let entering = Ray::new(v(0, S, 0), v(S / 4, -S, 0));
    for r in [inside, entering].iter() {
        for u in [0, S / 2, S - 1].iter() {
            let sc = d.scatter(r, &unit_hit(n, grey()), &sample(v(0, 0, 0), *u)).unwrap();
            assert_eq!(sc.attenuation, Color::new(S, S, S));
        }
    }
    assert!(d.scatter(&entering, &HitRecord { t: S, pos: v(0, 0, 0), normal: None, material: grey() }, &sample(v(0, 0, 0), 0)).is_none());
    assert_eq!(d.schlick(S), 2621);
    assert!(refract(&v(0, -S, 0), &n, S).is_some());
    assert!(refract(&v(S, 0, 0), &n, 2 * S).is_none());
}

#[test]
fn material_enum_dispatches() {
    let r = Ray::new(v(0, S, 0), v(0, -S, 0));
    let hit = unit_hit(v(0, S, 0), grey());
    let smp = sample(v(0, 0, 0), 0);
    assert!(grey().scatter(&r, &hit, &smp).is_some());
    let mirror = MaterialEnum::Metal(Metal { albedo: Color::new(S, 0, 0), fuzz: 0 });
    let sc = mirror.scatter(&r, &hit, &smp).unwrap();
    assert_eq!(*sc.scattered.direction(), v(0, S, 0));
    assert_eq!(sc.attenuation, Color::new(S, 0, 0));
}

#[test]
fn background_gradient_ends_and_middle() {
    let up = Ray::new(v(0, 0, 0), v(0, S, 0));
    let down = Ray::new(v(0, 0, 0), v(0, -S, 0));
    let level = Ray::new(v(0, 0, 0), v(S, 0, 0));
    assert_eq!(background_color(&up), Color::new(32768, 45875, 65536));
    assert_eq!(background_color(&down), Color::new(65536, 65536, 65536));
    assert_eq!(background_color(&level), Color::new(49152, 55705, 65536));
}

#[test]
fn color_of_empty_world_is_sky() {
    let world = HittableList { hittables: vec![] };
    let up = Ray::new(v(0, 0, 0), v(0, S, 0));
    assert_eq!(color(&up, &world, 5, &vec![sample(v(0, 0, 0), 0); 5]), Color::new(32768, 45875, 65536));
}

#[test]
fn color_absorbs_at_bounce_limit() {
    let s = Sphere { center: v(0, 0, 0), radius: S, material: grey() };
    let world = HittableList { hittables: vec![HittableEnum::Sphere(s)] };
    let r = Ray::new(v(0, 0, 5 * S), v(0, 0, -S));
    assert_eq!(color(&r, &world, 0, &vec![]), Color::new(0, 0, 0));
    let c = color(&r, &world, 1, &vec![sample(v(0, 0, 0), 0)]);
    assert_eq!(c, Color::new(24576, 27852, 32768));
}

#[test]
fn attenuation_never_amplifies() {
    let world = HittableList {
        hittables: vec![
            HittableEnum::Sphere(Sphere { center: v(0, -100 * S, 0), radius: 100 * S, material: grey() }),
            HittableEnum::Sphere(Sphere {
                center: v(0, S, 0),
                radius: S,
                material: MaterialEnum::Metal(Metal { albedo: Color::new(S, S, S), fuzz: S / 4 }),
            }),
        ],
    };
    let smps: Vec<ScatterSample> = (0..10).map(|i| sample(v((i * 7919) % S - S / 2, S / 3, -S / 5), (i * 4049) % S)).collect();
    for k in 0..20i64 {
        let r = Ray::new(v(k * S / 10 - S, 3 * S, 4 * S), v(0, -S, -S + k * 1000));
        let c = color(&r, &world, 10, &smps);
        assert!(c.r >= 0 && c.r <= S && c.g >= 0 && c.g <= S && c.b >= 0 && c.b <= S);
    }
    let mut acc = Color::new(S, S, S);
    for a in [Color::new(S, S / 2, 1), Color::new(S / 3, S, S), Color::new(0, S, S)].iter() {
        let next = acc.mul(a);
        assert!(next.r <= acc.r && next.g <= acc.g && next.b <= acc.b);
        acc = next;
    }
    assert_eq!(acc, Color::new(0, 32768, 1));
}

#[test]
fn camera_rejects_parallel_up_and_aims_at_target() {
    assert!(Camera::new(v(0, 0, 0), v(0, -S, 0), v(0, S, 0), S, S, 0, S).is_none());
    let cam = Camera::new(v(0, 0, 0), v(0, 0, -S), v(0, S, 0), S, S, 0, S).unwrap();
    let r = cam.ray(S / 2, S / 2, 0, 0);
    assert_eq!(*r.direction(), v(0, 0, -S));
    assert_eq!(*r.origin(), v(0, 0, 0));
    let corner = cam.ray(0, 0, 0, 0);
    let d = *corner.direction();
    assert!(d.x < 0 && d.y < 0 && d.z < 0);
    let lens = Camera::new(v(0, 0, 0), v(0, 0, -S), v(0, S, 0), S, S, 2 * S, S).unwrap();
    let r = lens.ray(S / 2, S / 2, S, 0);
    assert_eq!(*r.origin(), v(S, 0, 0));
    assert_eq!(*r.direction(), v(-46340, 0, -46340));
}

fn lcg(state: &mut u64) -> i64 {
    *state = state.wrapping_mul(6364136223846793005).wrapping_add(1442695040888963407);
    ((*state >> 33) % (S as u64)) as i64
}

fn pixel_samples(index: usize, count: usize, bounces: usize) -> Vec<PixelSample> {
    let mut st = index as u64 + 1;
    (0..count)
        .map(|_| PixelSample {
            jitter_x: lcg(&mut st),
            jitter_y: lcg(&mut st),
            lens_x: lcg(&mut st) - S / 2,
            lens_y: lcg(&mut st) - S / 2,
            bounces: (0..bounces)
                .map(|_| sample(v(lcg(&mut st) - S / 2, lcg(&mut st) - S / 2, lcg(&mut st) - S / 2), lcg(&mut st)))
                .collect(),
        })
        .collect()
}

fn small_scene() -> (HittableList, Camera, RenderParams) {
    let world = HittableList {
        hittables: vec![
            HittableEnum::Sphere(Sphere { center: v(0, -100 * S, -S), radius: 100 * S, material: grey() }),
            HittableEnum::Sphere(Sphere { center: v(0, 0, -S), radius: S / 2, material: grey() }),
        ],
    };
    let cam = Camera::new(v(0, 0, 0), v(0, 0, -S), v(0, S, 0), S, 2 * S, S / 10, S).unwrap();
    (world, cam, RenderParams { width: 8, height: 4, max_bounces: 5 })
}

#[test]
fn render_is_deterministic_and_partition_independent() {
    let (world, cam, p) = small_scene();
    let all: Vec<Vec<PixelSample>> = (0..32).map(|k| pixel_samples(k, 3, 5)).collect();
    let whole = render_rows(&world, &cam, &p, 0, 4, &all);
    let again = render_rows(&world, &cam, &p, 0, 4, &all);
    assert_eq!(whole, again);
    let mut parts = Vec::new();
    for row in 0..4 {
        let block: Vec<Vec<PixelSample>> = (row * 8..row * 8 + 8).map(|k| pixel_samples(k, 3, 5)).collect();
        parts.extend(render_rows(&world, &cam, &p, row, 1, &block));
    }
    assert_eq!(whole, parts);
    assert_eq!(whole.len(), 32);
    assert_eq!(whole[9], render_pixel(&world, &cam, &p, 1, 1, &all[9]));
    for c in whole.iter() {
        assert!(c.r >= 0 && c.r <= S && c.g >= 0 && c.g <= S && c.b >= 0 && c.b <= S);
    }
}

#[test]
fn pixel_mean_of_sky_samples() {
    let world = HittableList { hittables: vec![] };
    let cam = Camera::new(v(0, 0, 0), v(0, S, 0), v(0, 0, -S), S / 100, S, 0, S).unwrap();
    let p = RenderParams { width: 1, height: 1, max_bounces: 0 };
    let smps = vec![PixelSample { jitter_x: S / 2, jitter_y: S / 2, lens_x: 0, lens_y: 0, bounces: vec![] }; 2];
    let c = render_pixel(&world, &cam, &p, 0, 0, &smps);
    assert_eq!(c, Color::new(32768, 45875, 65536));
}

#[test]
fn packs_channels_into_word() {
    assert_eq!(pack_rgb(0x12, 0x34, 0x56), 0x123456);
    assert_eq!(pack_rgb(255, 255, 255), 0xffffff);
    assert_eq!(pack_rgb(0, 0, 0), 0);
}

#[test]
fn scene_cells_and_fixed_spheres() {
    let zeros = vec![0i64; 9];
    assert!(random_sphere(4, 0, &zeros).is_none());
    let s = random_sphere(-11, 3, &zeros).unwrap();
    assert_eq!(s.center, v(-11 * S, 13107, 3 * S));
    assert_eq!(s.radius, 13107);
    let mut metal = vec![S - 2; 9];
    metal[2] = 60000;
    let m = random_sphere(0, 0, &metal).unwrap();
    match m.material {
        MaterialEnum::Metal(mt) => {
            assert_eq!(mt.albedo, Color::new(S - 1, S - 1, S - 1));
            assert_eq!(mt.fuzz, S / 2 - 1);
        }
        _ => panic!("expected metal"),
    }
    let mut glass = vec![0i64; 9];
    glass[2] = S - 1;
    assert!(matches!(random_sphere(0, 0, &glass).unwrap().material, MaterialEnum::Dielectric(Dielectric { index: 98304 })));
    let scene = construct_scene(&vec![zeros; 484]);
    assert_eq!(scene.hittables.len(), 487);
    match scene.hittables[486] {
        HittableEnum::Sphere(s) => assert_eq!(s.center, v(4 * S, S, 0)),
    }
}

#[test]
fn axis_hits_at_distance_to_surface() {
    for (a, c) in [(2i64, 1i64), (5, 3), (100, 1), (30000, 29999)].iter() {
        let s = Sphere { center: v(0, 0, 0), radius: c * S, material: grey() };
        let r = Ray::new(v(0, 0, a * S), v(0, 0, -S));
        let h = s.hits(&r, 66, i64::MAX).unwrap();
        assert_eq!(h.t, (a - c) * S);
        assert_eq!(h.pos, v(0, 0, c * S));
        assert_eq!(h.normal, Some(v(0, 0, S)));
    }
    let s = Sphere { center: v(0, 0, 0), radius: 2 * S, material: grey() };
    let r = Ray::new(v(7 * S, 0, 0), v(-3, 0, 0));
    let h = s.hits(&r, 66, i64::MAX).unwrap();
    assert_eq!(h.t, 5 * S);
    assert_eq!(h.normal, Some(v(S, 0, 0)));
}

#[test]
fn color_works_on_a_single_primitive() {
    let s = HittableEnum::Sphere(Sphere {
        center: v(0, 0, -3 * S),
        radius: S,
        material: MaterialEnum::Dielectric(Dielectric { index: 98304 }),
    });
    let r = Ray::new(v(0, 0, 0), v(0, 0, -S));
    let smps = vec![sample(v(0, 0, 0), S - 1); 4];
    let through = color(&r, &s, 4, &smps);
    let list = HittableList { hittables: vec![s] };
    assert_eq!(through, color(&r, &list, 4, &smps));
    assert!(through.r > 0 && through.b <= S);
}

#[test]
fn refract_at_grazing_incidence_and_normalizes() {
    let n = v(0, S, 0);
    assert_eq!(refract(&v(S, 0, 0), &n, S), Some(v(S, 0, 0)));
    assert_eq!(refract(&v(0, -S / 2, 0), &n, S), Some(v(0, -S, 0)));
    assert_eq!(refract(&v(0, -7, 0), &n, S), Some(v(0, -S, 0)));
    assert!(refract(&v(S, -S / 10, 0), &n, 2 * S).is_none());
}

#[test]
fn metal_grazing_fuzz_into_surface_is_absorbed() {
    let fuzzy = Metal { albedo: Color::new(S, S, S), fuzz: S };
    let r = Ray::new(v(-S, S, 0), v(S, -S / 10, 0));
    let out = fuzzy.scatter(&r, &unit_hit(v(0, S, 0), grey()), &sample(v(0, -S, 0), 0));
    assert!(out.is_none());
    let kept = fuzzy.scatter(&r, &unit_hit(v(0, S, 0), grey()), &sample(v(0, S, 0), 0));
    assert!(kept.is_some());
}

#[test]
fn tiny_sphere_hit_keeps_a_normal() {
    let s = Sphere { center: v(0, 0, 0), radius: 1, material: grey() };
    let r = Ray::new(v(0, 0, 10), v(0, 0, -S));
    let h = s.hits(&r, 0, i64::MAX).unwrap();
    assert_eq!(h.pos, v(0, 0, 0));
    assert_eq!(h.normal, Some(v(0, 0, S)));
}

#[test]
fn camera_focuses_far_away() {
    let cam = Camera::new(v(0, 0, 0), v(0, 0, -S), v(0, S, 0), S, S, S, 500 * S).unwrap();
    let r = cam.ray(S / 2, S / 2, S, 0);
    let d = *r.direction();
    assert_eq!(*r.origin(), v(S / 2, 0, 0));
    assert!(d.x < 0 && d.z < -S + 10);
}
