//! Surface materials and how they scatter rays.
use vstd::prelude::*;
use crate::fixed::{SCALE, abs, fmul, fsqrt, fx_mul, fx_sqrt, floor_div, lemma_fmul_bound, lemma_floor_div, lemma_isqrt_le};
use crate::color::{Color, rgb};
use crate::vector::{Vec3, VEC_MAX, norm_sq, dot, vadd, vsub, vneg, vscale, normalized, is_unit, lemma_dot_bound, lemma_unit_nonzero};
use crate::geometry::{Ray, HitRecord, ray_spec};

verus! {

/// Largest refractive index, in raw units (16.0).
pub const INDEX_MAX: i64 = 0x10_0000;

/// Largest fuzz of a metal, in raw units (256.0).
pub const FUZZ_MAX: i64 = 0x100_0000;

/// Diffuse reflection.
#[derive(Clone, Copy, Debug)]
pub struct Lambertian {
    pub albedo: Color,
}

/// Specular reflection, roughened by `fuzz`.
#[derive(Clone, Copy, Debug)]
pub struct Metal {
    pub albedo: Color,
    pub fuzz: i64,
}

/// A transparent material that refracts or reflects.
#[derive(Clone, Copy, Debug)]
pub struct Dielectric {
    pub index: i64,
}

/// The materials a surface can have.
#[derive(Clone, Copy, Debug)]
pub enum MaterialEnum {
    Lambertian(Lambertian),
    Dielectric(Dielectric),
    Metal(Metal),
}

impl MaterialEnum {
    /// Albedos within `[0, 1]`, and parameters within the supported range.
    pub open spec fn wf(self) -> bool {
        match self {
            MaterialEnum::Lambertian(l) => l.albedo.within(SCALE as int),
            MaterialEnum::Metal(m) => m.albedo.within(SCALE as int) && 0 <= m.fuzz <= FUZZ_MAX,
            MaterialEnum::Dielectric(d) => 1 <= d.index <= INDEX_MAX,
        }
    }
}

/// The random values one scattering event consumes.
#[derive(Clone, Copy, Debug)]
pub struct ScatterSample {
    /// A point of the unit sphere.
    pub in_sphere: Vec3,
    /// A uniform value in `[0, SCALE)`.
    pub uniform: i64,
}

impl ScatterSample {
    /// The point lies in the unit sphere, up to the rounding of its
    /// components, and the uniform value in `[0, SCALE)`.
    pub open spec fn wf(self) -> bool {
        &&& self.in_sphere.bounded(SCALE as int)
        &&& norm_sq(self.in_sphere) <= SCALE * SCALE + 4 * SCALE
        &&& 0 <= self.uniform < SCALE
    }
}

/// The outcome of a scattering event.
#[derive(Clone, Copy, Debug)]
pub struct Scattering {
    /// The outgoing ray's colour is multiplied by this factor.
    pub attenuation: Color,
    /// The new traced ray.
    pub scattered: Ray,
}

/// Mirror reflection of `v` about the unit normal `n`: `v - 2 (v . n) n`.
pub open spec fn reflected(v: Vec3, n: Vec3) -> Vec3 {
    vsub(v, vscale(2 * dot(v, n), n))
}

/// Snell refraction of the direction `v`, normalized first, through a
/// surface with unit normal `n` and index ratio `ratio`; none on total
/// internal reflection, that is where the discriminant is negative.
pub open spec fn refracted(v: Vec3, n: Vec3, ratio: int) -> Option<Vec3> {
    let u = normalized(v);
    let cos = dot(u, n);
    let disc = SCALE - fmul(fmul(ratio, ratio), SCALE - fmul(cos, cos));
    if disc >= 0 {
        Some(vsub(vscale(ratio, vsub(u, vscale(cos, n))), vscale(fsqrt(disc), n)))
    } else {
        None
    }
}

/// Fixed-point reciprocal of a positive index.
pub open spec fn recip(index: int) -> int {
    SCALE * SCALE / index
}

pub open spec fn pow5(x: int) -> int {
    fmul(fmul(fmul(fmul(x, x), x), x), x)
}

/// Schlick's approximation of the reflectance at the given cosine.
pub open spec fn schlick(index: int, cosine: int) -> int {
    let q = (SCALE - index) * SCALE / (SCALE + index);
    let r0 = fmul(q, q);
    r0 + fmul(SCALE - r0, pow5(SCALE - cosine))
}

pub open spec fn lambertian_scatter(l: Lambertian, hit: HitRecord, smp: ScatterSample) -> Option<Scattering> {
    match hit.normal {
        None => None,
        Some(n) => {
            let d = vadd(n, smp.in_sphere);
            let dir = if d.is_zero() { n } else { d };
            Some(Scattering { attenuation: l.albedo, scattered: ray_spec(hit.pos, dir) })
        },
    }
}

pub open spec fn metal_scatter(m: Metal, ray: Ray, hit: HitRecord, smp: ScatterSample) -> Option<Scattering> {
    match hit.normal {
        None => None,
        Some(n) => {
            let d = vadd(reflected(ray.dir(), n), vscale(m.fuzz as int, smp.in_sphere));
            if d.is_zero() || dot(normalized(d), n) <= 0 {
                None
            } else {
                Some(Scattering { attenuation: m.albedo, scattered: ray_spec(hit.pos, d) })
            }
        },
    }
}

pub open spec fn dielectric_scatter(de: Dielectric, ray: Ray, hit: HitRecord, smp: ScatterSample) -> Option<Scattering> {
    match hit.normal {
        None => None,
        Some(n) => {
            let v = ray.dir();
            let dn = dot(v, n);
            let outward = if dn > 0 { vneg(n) } else { n };
            let ratio = if dn > 0 { de.index as int } else { recip(de.index as int) };
            let cosine = if dn > 0 { fmul(de.index as int, dn) } else { -dn };
            let d = match refracted(v, outward, ratio) {
                Some(rf) => if smp.uniform < schlick(de.index as int, cosine) { reflected(v, n) } else { rf },
                None => reflected(v, n),
            };
            let dir = if d.is_zero() { n } else { d };
            Some(Scattering { attenuation: rgb(SCALE as int, SCALE as int, SCALE as int), scattered: ray_spec(hit.pos, dir) })
        },
    }
}

pub open spec fn scatter_spec(m: MaterialEnum, ray: Ray, hit: HitRecord, smp: ScatterSample) -> Option<Scattering> {
    match m {
        MaterialEnum::Lambertian(l) => lambertian_scatter(l, hit, smp),
        MaterialEnum::Metal(mt) => metal_scatter(mt, ray, hit, smp),
        MaterialEnum::Dielectric(de) => dielectric_scatter(de, ray, hit, smp),
    }
}

/// Mirror reflection of the unit vector `v` about the unit normal `n`.
pub fn reflect(v: &Vec3, n: &Vec3) -> (r: Vec3)
    requires
        v.bounded(SCALE as int),
        n.bounded(SCALE as int),
    ensures
        r == reflected(*v, *n),
        r.bounded(9 * SCALE),
{
    proof {
        lemma_dot_bound(*v, *n, SCALE as int, SCALE as int);
        let k = 2 * dot(*v, *n);
        lemma_fmul_bound(k, n.x as int, 7 * SCALE, SCALE as int);
        lemma_fmul_bound(k, n.y as int, 7 * SCALE, SCALE as int);
        lemma_fmul_bound(k, n.z as int, 7 * SCALE, SCALE as int);
    }
    let k = 2 * v.dot(n);
    v.sub(&n.scale(k))
}

/// Refraction of the direction `v`, normalized first, through the unit
/// normal `n`, or none on total internal reflection.
pub fn refract(v: &Vec3, n: &Vec3, ratio: i64) -> (r: Option<Vec3>)
    requires
        !v.is_zero(),
        v.bounded(VEC_MAX as int),
        n.bounded(SCALE as int),
        0 <= ratio <= 0x1_0000_0000,
    ensures
        r == refracted(*v, *n, ratio as int),
        r matches Some(d) ==> d.bounded(VEC_MAX as int),
{
    let u = v.normalize();
    proof {
        lemma_dot_bound(u, *n, SCALE as int, SCALE as int);
        let c = dot(u, *n);
        lemma_fmul_bound(c, c, 4 * SCALE, 4 * SCALE);
        lemma_fmul_bound(ratio as int, ratio as int, 0x1_0000_0000, 0x1_0000_0000);
        let rr = fmul(ratio as int, ratio as int);
        lemma_fmul_bound(rr, SCALE - fmul(c, c), 0x1_0000_0000_0001, 0x20_0000);
        lemma_fmul_bound(c, n.x as int, 4 * SCALE, SCALE as int);
        lemma_fmul_bound(c, n.y as int, 4 * SCALE, SCALE as int);
        lemma_fmul_bound(c, n.z as int, 4 * SCALE, SCALE as int);
    }
    let cos = u.dot(n);
    let disc = SCALE - fx_mul(fx_mul(ratio, ratio), SCALE - fx_mul(cos, cos));
    if disc >= 0 {
        let sq = fx_sqrt(disc);
        let w = u.sub(&n.scale(cos));
        proof {
            lemma_isqrt_le(disc * SCALE, sq as int, 0x8_0000_0000);
            lemma_fmul_bound(ratio as int, w.x as int, 0x1_0000_0000, 0x8_0000);
            lemma_fmul_bound(ratio as int, w.y as int, 0x1_0000_0000, 0x8_0000);
            lemma_fmul_bound(ratio as int, w.z as int, 0x1_0000_0000, 0x8_0000);
            lemma_fmul_bound(sq as int, n.x as int, 0x8_0000_0000, SCALE as int);
            lemma_fmul_bound(sq as int, n.y as int, 0x8_0000_0000, SCALE as int);
            lemma_fmul_bound(sq as int, n.z as int, 0x8_0000_0000, SCALE as int);
        }
        Some(w.scale(ratio).sub(&n.scale(sq)))
    } else {
        None
    }
}

/// The bounded quotient in Schlick's `r0`.
proof fn lemma_schlick_q(index: int)
    requires
        1 <= index <= INDEX_MAX,
    ensures
        abs((SCALE - index) * SCALE / (SCALE + index)) <= SCALE + 1,
{
    let d = SCALE + index;
    let p = (SCALE - index) * SCALE;
    let q = p / d;
    lemma_floor_div(p, d);
    if q > SCALE + 1 {
        assert(d * q >= d * (SCALE + 1)) by (nonlinear_arith)
            requires q > SCALE + 1, d > 0;
    }
    if q < -SCALE - 1 {
        assert(d * q + d <= d * (-SCALE)) by (nonlinear_arith)
            requires q < -SCALE - 1, d > 0;
    }
}

proof fn lemma_recip_bound(index: int)
    requires
        1 <= index,
    ensures
        0 <= recip(index) <= SCALE * SCALE,
{
    let q = recip(index);
    lemma_floor_div(SCALE * SCALE, index);
    if q < 0 {
        assert(index * q + index <= 0) by (nonlinear_arith)
            requires q < 0, index > 0;
    }
    if q > SCALE * SCALE {
        assert(index * q > SCALE * SCALE) by (nonlinear_arith)
            requires q > SCALE * SCALE, index >= 1;
    }
}

/// The ray leaves from the hit point in the non-zero direction `dir`.
fn outgoing(hit: &HitRecord, dir: Vec3, fallback: Vec3) -> (r: Ray)
    requires
        hit.wf(),
        dir.bounded(VEC_MAX as int),
        is_unit(fallback),
    ensures
        r == ray_spec(hit.pos, if dir.is_zero() { fallback } else { dir }),
        r.wf(),
{
    if dir.x == 0 && dir.y == 0 && dir.z == 0 {
        Ray::new(hit.pos, fallback)
    } else {
        Ray::new(hit.pos, dir)
    }
}

/// A surface that scatters the rays that hit it.
pub trait Material {
    /// The parameters are within the supported range.
    spec fn material_wf(&self) -> bool;

    /// What `scatter` returns.
    spec fn scattering(&self, ray: Ray, hit: HitRecord, smp: ScatterSample) -> Option<Scattering>;

    /// Scatters `ray` at `hit`, or none where the ray is absorbed.
    fn scatter(&self, ray: &Ray, hit: &HitRecord, smp: &ScatterSample) -> (r: Option<Scattering>)
        requires
            self.material_wf(),
            ray.wf(),
            hit.wf(),
            smp.wf(),
        ensures
            r == self.scattering(*ray, *hit, *smp),
            r matches Some(sc) ==> sc.scattered.wf() && sc.attenuation.within(SCALE as int);
}

impl Material for Lambertian {
    open spec fn material_wf(&self) -> bool {
        self.albedo.within(SCALE as int)
    }

    open spec fn scattering(&self, ray: Ray, hit: HitRecord, smp: ScatterSample) -> Option<Scattering> {
        lambertian_scatter(*self, hit, smp)
    }

    /// Diffuse scattering along the normal plus a point of the unit sphere;
    /// where those cancel, along the normal alone.
    fn scatter(&self, _ray: &Ray, hit: &HitRecord, smp: &ScatterSample) -> (r: Option<Scattering>) {
        match hit.normal {
            None => None,
            Some(n) => {
                let d = n.add(&smp.in_sphere);
                Some(Scattering { attenuation: self.albedo, scattered: outgoing(hit, d, n) })
            },
        }
    }
}

impl Material for Metal {
    open spec fn material_wf(&self) -> bool {
        self.albedo.within(SCALE as int) && 0 <= self.fuzz <= FUZZ_MAX
    }

    open spec fn scattering(&self, ray: Ray, hit: HitRecord, smp: ScatterSample) -> Option<Scattering> {
        metal_scatter(*self, ray, hit, smp)
    }

    /// Mirror reflection perturbed by `fuzz` times a point of the unit
    /// sphere; absorbed where the result does not leave the surface.
    fn scatter(&self, ray: &Ray, hit: &HitRecord, smp: &ScatterSample) -> (r: Option<Scattering>) {
        match hit.normal {
            None => None,
            Some(n) => {
                let refl = reflect(ray.direction(), &n);
                proof {
                    lemma_fmul_bound(self.fuzz as int, smp.in_sphere.x as int, FUZZ_MAX as int, SCALE as int);
                    lemma_fmul_bound(self.fuzz as int, smp.in_sphere.y as int, FUZZ_MAX as int, SCALE as int);
                    lemma_fmul_bound(self.fuzz as int, smp.in_sphere.z as int, FUZZ_MAX as int, SCALE as int);
                }
                let d = refl.add(&smp.in_sphere.scale(self.fuzz));
                if d.x == 0 && d.y == 0 && d.z == 0 {
                    return None;
                }
                let scattered = Ray::new(hit.pos, d);
                if scattered.direction().dot(&n) > 0 {
                    Some(Scattering { attenuation: self.albedo, scattered })
                } else {
                    None
                }
            },
        }
    }
}

impl Material for Dielectric {
    open spec fn material_wf(&self) -> bool {
        1 <= self.index <= INDEX_MAX
    }

    open spec fn scattering(&self, ray: Ray, hit: HitRecord, smp: ScatterSample) -> Option<Scattering> {
        dielectric_scatter(*self, ray, hit, smp)
    }

    /// Refraction or reflection, chosen by Schlick's reflectance against the
    /// uniform sample; always scatters, with neutral attenuation.
    fn scatter(&self, ray: &Ray, hit: &HitRecord, smp: &ScatterSample) -> (r: Option<Scattering>) {
        match hit.normal {
            None => None,
            Some(n) => {
                let v = ray.direction();
                let dn = v.dot(&n);
                proof {
                    lemma_dot_bound(*v, n, SCALE as int, SCALE as int);
                    lemma_fmul_bound(self.index as int, dn as int, INDEX_MAX as int, 4 * SCALE);
                    lemma_recip_bound(self.index as int);
                    lemma_unit_nonzero(*v);
                }
                let (outward, ratio, cosine) = if dn > 0 {
                    (n.neg(), self.index, fx_mul(self.index, dn))
                } else {
                    let rc = floor_div((SCALE as i128) * (SCALE as i128), self.index as i128) as i64;
                    (n, rc, -dn)
                };
                let d = match refract(v, &outward, ratio) {
                    Some(rf) => {
                        if smp.uniform < self.schlick(cosine) {
                            reflect(v, &n)
                        } else {
                            rf
                        }
                    },
                    None => reflect(v, &n),
                };
                Some(Scattering { attenuation: Color { r: SCALE, g: SCALE, b: SCALE }, scattered: outgoing(hit, d, n) })
            },
        }
    }
}

impl Dielectric {
    /// Schlick's approximation of the reflectance at the given cosine.
    pub fn schlick(&self, cosine: i64) -> (r: i64)
        requires
            1 <= self.index <= INDEX_MAX,
            abs(cosine as int) <= 0x80_0000,
        ensures
            r == schlick(self.index as int, cosine as int),
    {
        proof {
            lemma_schlick_q(self.index as int);
            let q = (SCALE - self.index) * SCALE / (SCALE + self.index);
            lemma_fmul_bound(q, q, SCALE + 1, SCALE + 1);
            let x = SCALE - cosine;
            lemma_fmul_bound(x, x, 0x100_0000, 0x100_0000);
            lemma_fmul_bound(fmul(x, x), x, 0x1_0000_0001, 0x100_0000);
            lemma_fmul_bound(fmul(fmul(x, x), x), x, 0x101_0000_0000, 0x100_0000);
            lemma_fmul_bound(fmul(fmul(fmul(x, x), x), x), x, 0x2_0000_0000_0000, 0x100_0000);
            let r0 = fmul(q, q);
            assert(q * q >= 0) by (nonlinear_arith);
            lemma_fmul_bound(SCALE - r0, pow5(x), SCALE + 8, 0x400_0000_0000_0000);
        }
        let q = floor_div(((SCALE - self.index) as i128) * (SCALE as i128), (SCALE + self.index) as i128) as i64;
        let r0 = fx_mul(q, q);
        let x = SCALE - cosine;
        let x5 = fx_mul(fx_mul(fx_mul(fx_mul(x, x), x), x), x);
        r0 + fx_mul(SCALE - r0, x5)
    }
}

impl Material for MaterialEnum {
    open spec fn material_wf(&self) -> bool {
        self.wf()
    }

    open spec fn scattering(&self, ray: Ray, hit: HitRecord, smp: ScatterSample) -> Option<Scattering> {
        scatter_spec(*self, ray, hit, smp)
    }

    fn scatter(&self, ray: &Ray, hit: &HitRecord, smp: &ScatterSample) -> (r: Option<Scattering>) {
        match self {
            MaterialEnum::Lambertian(l) => l.scatter(ray, hit, smp),
            MaterialEnum::Metal(m) => m.scatter(ray, hit, smp),
            MaterialEnum::Dielectric(d) => d.scatter(ray, hit, smp),
        }
    }
}

/// Diffuse and transparent surfaces never absorb: wherever the hit has a
/// normal, Lambertian and dielectric materials return a scattering.
pub proof fn lemma_always_scatters(m: MaterialEnum, ray: Ray, hit: HitRecord, smp: ScatterSample)
    requires
        hit.normal is Some,
        m is Lambertian || m is Dielectric,
    ensures
        scatter_spec(m, ray, hit, smp) is Some,
{
}

/// A metal absorbs exactly when its perturbed reflection is zero or does not
/// point out of the surface.
pub proof fn lemma_metal_absorbs(m: Metal, ray: Ray, hit: HitRecord, smp: ScatterSample)
    requires
        hit.normal is Some,
    ensures
        ({
            let n = hit.normal.unwrap();
            let d = vadd(reflected(ray.dir(), n), vscale(m.fuzz as int, smp.in_sphere));
            metal_scatter(m, ray, hit, smp) is None <==> (d.is_zero() || dot(normalized(d), n) <= 0)
        }),
{
}

} // verus!
