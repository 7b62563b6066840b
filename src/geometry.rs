//! Rays, spheres and the nearest-hit query over a list of them.
use vstd::prelude::*;
use vstd::arithmetic::div_mod::lemma_fundamental_div_mod_converse;
use crate::fixed::{SCALE, abs, fmul, fsqrt, fx_mul, fx_sqrt, floor_div, is_isqrt, lemma_fmul_bound, lemma_isqrt_le, lemma_isqrt_unique};
use crate::vector::{Vec3, VEC_MAX, dot, vadd, vsub, vscale, v3, norm_sq, normalized, scaled_len, unit_part, is_unit, lemma_dot_bound, lemma_unit_nonzero, lemma_normalized_unit, vneg};
use crate::material::MaterialEnum;

verus! {

/// Bound on the raw components of points in the scene (32768 units).
pub const WORLD: i64 = 0x8000_0000;

/// Bound on the ray parameter that `Ray::at` accepts.
pub const T_LIMIT: i64 = 0x100_0000_0000;

/// A half-line from `origin` along the unit vector `direction`.
#[derive(Clone, Copy, Debug)]
pub struct Ray {
    origin: Vec3,
    direction: Vec3,
}

/// The point at parameter `t` along `r`.
pub open spec fn ray_at(r: Ray, t: int) -> Vec3 {
    vadd(r.orig(), vscale(t, r.dir()))
}

/// The ray from `origin` along the normalized `direction`.
pub closed spec fn ray_spec(origin: Vec3, direction: Vec3) -> Ray {
    Ray { origin, direction: normalized(direction) }
}

pub proof fn lemma_ray_spec(origin: Vec3, direction: Vec3)
    ensures
        ray_spec(origin, direction).orig() == origin,
        ray_spec(origin, direction).dir() == normalized(direction),
{
}

impl Ray {
    pub closed spec fn orig(self) -> Vec3 {
        self.origin
    }

    pub closed spec fn dir(self) -> Vec3 {
        self.direction
    }

    /// The origin lies in the scene and the direction has unit length.
    pub open spec fn wf(self) -> bool {
        self.orig().bounded(WORLD as int) && is_unit(self.dir())
    }

    /// A ray along the normalized `direction`, which must not be zero.
    pub fn new(origin: Vec3, direction: Vec3) -> (r: Ray)
        requires
            origin.bounded(WORLD as int),
            !direction.is_zero(),
            direction.bounded(VEC_MAX as int),
        ensures
            r == ray_spec(origin, direction),
            r.orig() == origin,
            r.dir() == normalized(direction),
            r.wf(),
    {
        Ray { origin, direction: direction.normalize() }
    }

    pub fn origin(&self) -> (r: &Vec3)
        ensures
            *r == self.orig(),
    {
        &self.origin
    }

    pub fn direction(&self) -> (r: &Vec3)
        ensures
            *r == self.dir(),
    {
        &self.direction
    }

    /// `origin + t * direction`.
    pub fn at(&self, t: i64) -> (p: Vec3)
        requires
            self.wf(),
            abs(t as int) <= T_LIMIT,
        ensures
            p == ray_at(*self, t as int),
            p.bounded(WORLD + T_LIMIT + 1),
    {
        proof {
            lemma_fmul_bound(t as int, self.direction.x as int, T_LIMIT as int, SCALE as int);
            lemma_fmul_bound(t as int, self.direction.y as int, T_LIMIT as int, SCALE as int);
            lemma_fmul_bound(t as int, self.direction.z as int, T_LIMIT as int, SCALE as int);
        }
        let d = self.direction.scale(t);
        self.origin.add(&d)
    }
}

/// Where a ray struck a primitive.
#[derive(Clone, Copy, Debug)]
pub struct HitRecord {
    /// The ray parameter of the hit; `t_min <= t < t_max` for the query.
    pub t: i64,
    /// The point that was hit.
    pub pos: Vec3,
    /// The outward unit normal there, where the surface has one.
    pub normal: Option<Vec3>,
    /// The material of the primitive that was hit.
    pub material: MaterialEnum,
}

impl HitRecord {
    pub open spec fn wf(self) -> bool {
        &&& self.pos.bounded(WORLD as int)
        &&& self.material.wf()
        &&& match self.normal {
            Some(n) => is_unit(n),
            None => true,
        }
    }
}

/// A sphere with its material.
#[derive(Clone, Copy, Debug)]
pub struct Sphere {
    pub center: Vec3,
    pub radius: i64,
    pub material: MaterialEnum,
}

impl Sphere {
    pub open spec fn wf(self) -> bool {
        self.center.bounded(WORLD as int) && 0 < self.radius <= WORLD && self.material.wf()
    }
}

/// Linear coefficient of the ray/sphere quadratic `t^2 + b t + c`.
pub open spec fn sphere_b(s: Sphere, r: Ray) -> int {
    2 * dot(vsub(r.orig(), s.center), r.dir())
}

/// Constant coefficient of the ray/sphere quadratic.
pub open spec fn sphere_c(s: Sphere, r: Ray) -> int {
    let oc = vsub(r.orig(), s.center);
    dot(oc, oc) - fmul(s.radius as int, s.radius as int)
}

pub open spec fn sphere_disc(s: Sphere, r: Ray) -> int {
    let b = sphere_b(s, r);
    fmul(b, b) - 4 * sphere_c(s, r)
}

/// The smaller (`sign == -1`) or larger (`sign == 1`) root.
pub open spec fn sphere_root(s: Sphere, r: Ray, sign: int) -> int {
    (-sphere_b(s, r) + sign * fsqrt(sphere_disc(s, r))) / 2
}

/// A root is taken when it lies in `[t_min, t_max)` and its point in the scene.
pub open spec fn accepts(r: Ray, t: int, t_min: int, t_max: int) -> bool {
    t_min <= t < t_max && ray_at(r, t).bounded(WORLD as int)
}

/// The record of a hit on `s` at parameter `t`. The normal runs from the
/// centre to the point; where rounding puts the point on the centre itself
/// (a sphere of a few raw units), it faces back along the ray.
pub open spec fn hit_at(s: Sphere, r: Ray, t: int) -> HitRecord {
    let pos = ray_at(r, t);
    let d = vsub(pos, s.center);
    HitRecord {
        t: t as i64,
        pos,
        normal: Some(if d.is_zero() { normalized(vneg(r.dir())) } else { normalized(d) }),
        material: s.material,
    }
}

/// The first accepted root of the quadratic, the smaller one first.
pub open spec fn sphere_hit(s: Sphere, r: Ray, t_min: int, t_max: int) -> Option<HitRecord> {
    if sphere_disc(s, r) < 0 {
        None
    } else if accepts(r, sphere_root(s, r, -1), t_min, t_max) {
        Some(hit_at(s, r, sphere_root(s, r, -1)))
    } else if accepts(r, sphere_root(s, r, 1), t_min, t_max) {
        Some(hit_at(s, r, sphere_root(s, r, 1)))
    } else {
        None
    }
}

/// The coefficients and roots of the quadratic stay far inside `i64`.
pub proof fn lemma_sphere_bounds(s: Sphere, r: Ray)
    requires
        s.wf(),
        r.wf(),
    ensures
        vsub(r.orig(), s.center).bounded(2 * WORLD),
        abs(sphere_b(s, r)) <= 0x8_0000_0000,
        abs(sphere_c(s, r)) <= 0x4_0000_0000_0000,
        abs(fmul(sphere_b(s, r), sphere_b(s, r))) <= 0x40_0000_0000_0001,
        sphere_disc(s, r) >= 0 ==> 0 <= fsqrt(sphere_disc(s, r)) <= 0x10_0000_0000,
        sphere_disc(s, r) >= 0 ==> abs(sphere_root(s, r, -1)) <= 0x10_0000_0000,
        sphere_disc(s, r) >= 0 ==> abs(sphere_root(s, r, 1)) <= 0x10_0000_0000,
{
    let oc = vsub(r.orig(), s.center);
    lemma_dot_bound(oc, r.dir(), 2 * WORLD, SCALE as int);
    lemma_dot_bound(oc, oc, 2 * WORLD, 2 * WORLD);
    lemma_fmul_bound(s.radius as int, s.radius as int, WORLD as int, WORLD as int);
    let b = sphere_b(s, r);
    lemma_fmul_bound(b, b, 0x8_0000_0000, 0x8_0000_0000);
    let disc = sphere_disc(s, r);
    if disc >= 0 {
        let q = disc * SCALE;
        let sq = fsqrt(disc);
        assert(is_isqrt(q, choose|x: int| is_isqrt(q, x))) by {
            crate::fixed::lemma_isqrt_exists(q);
        }
        lemma_isqrt_le(q, sq, 0x10_0000_0000);
    }
}

/// Halves a value, rounding toward negative infinity.
fn half(x: i64) -> (h: i64)
    ensures
        h == x / 2,
{
    floor_div(x as i128, 2) as i64
}

fn in_world(p: &Vec3) -> (b: bool)
    ensures
        b == p.bounded(WORLD as int),
{
    -WORLD <= p.x && p.x <= WORLD && -WORLD <= p.y && p.y <= WORLD && -WORLD <= p.z && p.z <= WORLD
}

/// Something a ray can hit.
pub trait Hittable {
    /// The primitive is well formed.
    spec fn hittable_wf(&self) -> bool;

    /// The hit that `hits` reports.
    spec fn hit_spec(&self, r: Ray, t_min: int, t_max: int) -> Option<HitRecord>;

    /// The hit of `ray` in `[t_min, t_max)`, if any. Only points within
    /// `WORLD` of the origin on each axis count: a root whose point lies
    /// outside that box is not reported.
    fn hits(&self, ray: &Ray, t_min: i64, t_max: i64) -> (res: Option<HitRecord>)
        requires
            self.hittable_wf(),
            ray.wf(),
        ensures
            res == self.hit_spec(*ray, t_min as int, t_max as int),
            res matches Some(h) ==> h.wf() && t_min <= h.t < t_max;
}

impl Sphere {
    /// The record at parameter `t` along `ray`.
    fn record(&self, ray: &Ray, t: i64) -> (h: HitRecord)
        requires
            self.wf(),
            ray.wf(),
            abs(t as int) <= T_LIMIT,
            ray_at(*ray, t as int).bounded(WORLD as int),
        ensures
            h == hit_at(*self, *ray, t as int),
            h.wf(),
    {
        let pos = ray.at(t);
        let d = pos.sub(&self.center);
        let normal = if d.x == 0 && d.y == 0 && d.z == 0 {
            proof {
                lemma_unit_nonzero(ray.dir());
            }
            Some(ray.direction().neg().normalize())
        } else {
            Some(d.normalize())
        };
        HitRecord { t, pos, normal, material: self.material }
    }
}

impl Hittable for Sphere {
    open spec fn hittable_wf(&self) -> bool {
        self.wf()
    }

    open spec fn hit_spec(&self, r: Ray, t_min: int, t_max: int) -> Option<HitRecord> {
        sphere_hit(*self, r, t_min, t_max)
    }

    /// The first intersection of `ray` with the sphere whose parameter lies
    /// in `[t_min, t_max)`.
    fn hits(&self, ray: &Ray, t_min: i64, t_max: i64) -> (res: Option<HitRecord>) {
        proof {
            lemma_sphere_bounds(*self, *ray);
            lemma_fmul_bound(self.radius as int, self.radius as int, WORLD as int, WORLD as int);
        }
        let oc = ray.origin().sub(&self.center);
        let b = 2 * oc.dot(ray.direction());
        let c = oc.dot(&oc) - fx_mul(self.radius, self.radius);
        let disc = fx_mul(b, b) - 4 * c;
        if disc < 0 {
            return None;
        }
        let sq = fx_sqrt(disc);
        let lo = half(-b - sq);
        if t_min <= lo && lo < t_max {
            let p = ray.at(lo);
            if in_world(&p) {
                return Some(self.record(ray, lo));
            }
        }
        let hi = half(-b + sq);
        if t_min <= hi && hi < t_max {
            let p = ray.at(hi);
            if in_world(&p) {
                return Some(self.record(ray, hi));
            }
        }
        None
    }
}

/// The primitives a scene is made of.
#[derive(Clone, Copy, Debug)]
pub enum HittableEnum {
    Sphere(Sphere),
}

pub open spec fn hittable_hit(h: HittableEnum, r: Ray, t_min: int, t_max: int) -> Option<HitRecord> {
    match h {
        HittableEnum::Sphere(s) => sphere_hit(s, r, t_min, t_max),
    }
}

impl HittableEnum {
    pub open spec fn wf(self) -> bool {
        match self {
            HittableEnum::Sphere(s) => s.wf(),
        }
    }
}

impl Hittable for HittableEnum {
    open spec fn hittable_wf(&self) -> bool {
        self.wf()
    }

    open spec fn hit_spec(&self, r: Ray, t_min: int, t_max: int) -> Option<HitRecord> {
        hittable_hit(*self, r, t_min, t_max)
    }

    fn hits(&self, ray: &Ray, t_min: i64, t_max: i64) -> (res: Option<HitRecord>) {
        match self {
            HittableEnum::Sphere(s) => s.hits(ray, t_min, t_max),
        }
    }
}

/// An ordered collection of primitives; a query reports the nearest hit.
#[derive(Clone, Debug)]
pub struct HittableList {
    pub hittables: Vec<HittableEnum>,
}

/// The nearest hit among `s`: each primitive is queried with the parameter
/// of the best hit so far as its upper bound, and replaces it only when
/// strictly nearer.
pub open spec fn list_hit(s: Seq<HittableEnum>, r: Ray, t_min: int, t_max: int) -> Option<HitRecord>
    decreases s.len(),
{
    if s.len() == 0 {
        None
    } else {
        let prev = list_hit(s.drop_last(), r, t_min, t_max);
        let bound = match prev {
            Some(h) => h.t as int,
            None => t_max,
        };
        match hittable_hit(s.last(), r, t_min, bound) {
            Some(h) => if (h.t as int) < bound { Some(h) } else { prev },
            None => prev,
        }
    }
}

pub open spec fn all_wf(s: Seq<HittableEnum>) -> bool {
    forall|i: int| 0 <= i < s.len() ==> (#[trigger] s[i]).wf()
}

impl HittableList {
    pub open spec fn wf(self) -> bool {
        all_wf(self.hittables@)
    }
}

impl Hittable for HittableList {
    open spec fn hittable_wf(&self) -> bool {
        self.wf()
    }

    open spec fn hit_spec(&self, r: Ray, t_min: int, t_max: int) -> Option<HitRecord> {
        list_hit(self.hittables@, r, t_min, t_max)
    }

    /// The nearest hit in `[t_min, t_max)` over all primitives.
    fn hits(&self, ray: &Ray, t_min: i64, t_max: i64) -> (res: Option<HitRecord>) {
        let mut best_rec: Option<HitRecord> = None;
        let mut best_t: i64 = t_max;
        let mut i: usize = 0;
        while i < self.hittables.len()
            invariant
                self.wf(),
                ray.wf(),
                i <= self.hittables@.len(),
                best_rec == list_hit(self.hittables@.take(i as int), *ray, t_min as int, t_max as int),
                best_t == (match best_rec {
                    Some(h) => h.t,
                    None => t_max,
                }),
                best_rec matches Some(h) ==> h.wf() && t_min <= h.t < t_max,
            decreases self.hittables@.len() - i,
        {
            proof {
                assert(self.hittables@.take(i + 1).drop_last() =~= self.hittables@.take(i as int));
            }
            if let Some(rec) = self.hittables[i].hits(ray, t_min, best_t) {
                if rec.t < best_t {
                    best_t = rec.t;
                    best_rec = Some(rec);
                }
            }
            i = i + 1;
        }
        proof {
            assert(self.hittables@.take(i as int) =~= self.hittables@);
        }
        best_rec
    }
}

/// The rounded product of two whole-unit values is exact.
proof fn lemma_scaled_products(a: int, c: int)
    ensures
        (a * SCALE) * (c * SCALE) / (SCALE as int) == a * c * SCALE,
{
    assert((a * SCALE) * (c * SCALE) == (a * c * SCALE) * SCALE) by (nonlinear_arith);
}

/// A ray from `a` units out on the z axis, aimed at the centre of a sphere
/// of `c` units radius at the origin, hits it `a - c` units along, at the
/// sphere's pole, where the normal points back along the axis.
pub proof fn lemma_axis_hit(a: int, c: int, m: MaterialEnum, t_min: int, t_max: int)
    requires
        1 <= c < a <= 32767,
        t_min <= (a - c) * SCALE < t_max,
    ensures
        sphere_hit(
            Sphere { center: v3(0, 0, 0), radius: (c * SCALE) as i64, material: m },
            ray_spec(v3(0, 0, a * SCALE), v3(0, 0, -SCALE)),
            t_min,
            t_max,
        ) == Some(HitRecord {
            t: ((a - c) * SCALE) as i64,
            pos: v3(0, 0, c * SCALE),
            normal: Some(v3(0, 0, SCALE as int)),
            material: m,
        }),
{
    let s = Sphere { center: v3(0, 0, 0), radius: (c * SCALE) as i64, material: m };
    let down = v3(0, 0, -SCALE);
    let r = ray_spec(v3(0, 0, a * SCALE), down);
    lemma_ray_spec(v3(0, 0, a * SCALE), down);
    // The direction is already of unit length.
    lemma_isqrt_unique(0x1_0000_0000_0000_0000, 0x1_0000_0000);
    assert(scaled_len(down) == 0x1_0000_0000);
    assert(normalized(down) == down);
    let oc = vsub(r.orig(), s.center);
    assert(oc == v3(0, 0, a * SCALE));
    lemma_scaled_products(a, -1);
    lemma_scaled_products(a, a);
    lemma_scaled_products(c, c);
    assert(sphere_b(s, r) == -2 * a * SCALE);
    assert(sphere_c(s, r) == (a * a - c * c) * SCALE);
    lemma_scaled_products(2 * a, 2 * a);
    assert(4 * (a * a) == (2 * a) * (2 * a)) by (nonlinear_arith);
    assert((-2 * a * SCALE) * (-2 * a * SCALE) == ((2 * a) * SCALE) * ((2 * a) * SCALE)) by (nonlinear_arith);
    assert(fmul(sphere_b(s, r), sphere_b(s, r)) == 4 * (a * a) * SCALE);
    let disc = sphere_disc(s, r);
    assert(disc == 4 * (c * c) * SCALE);
    let sq = 2 * c * SCALE;
    assert(is_isqrt(disc * SCALE, sq)) by (nonlinear_arith)
        requires disc == 4 * (c * c) * 65536, sq == 2 * c * 65536, c >= 1;
    lemma_isqrt_unique(disc * SCALE, sq);
    let t = (a - c) * SCALE;
    assert(sphere_root(s, r, -1) == t);
    lemma_scaled_products(a - c, -1);
    let pos = ray_at(r, t);
    assert(pos == v3(0, 0, c * SCALE));
    // The normal at the pole.
    let d = vsub(pos, s.center);
    assert(d == v3(0, 0, c * SCALE));
    let len = c * 0x1_0000_0000;
    assert(norm_sq(d) == (c * SCALE) * (c * SCALE));
    assert(is_isqrt(norm_sq(d) * SCALE * SCALE, len)) by (nonlinear_arith)
        requires norm_sq(d) == (c * 65536) * (c * 65536), len == c * 0x1_0000_0000, c >= 1;
    lemma_isqrt_unique(norm_sq(d) * SCALE * SCALE, len);
    assert(c * SCALE * SCALE * SCALE == SCALE * len) by (nonlinear_arith)
        requires len == c * 0x1_0000_0000;
    lemma_fundamental_div_mod_converse(c * SCALE * SCALE * SCALE, len, SCALE as int, 0);
    assert(unit_part(c * SCALE, len) == SCALE);
    assert(normalized(d) == v3(0, 0, SCALE as int));
}

/// Every hit on a sphere carries a unit normal.
pub proof fn lemma_sphere_normal(s: Sphere, r: Ray, t_min: int, t_max: int)
    requires
        s.wf(),
        r.wf(),
    ensures
        sphere_hit(s, r, t_min, t_max) matches Some(h) ==> h.normal matches Some(n) && is_unit(n),
{
    lemma_sphere_bounds(s, r);
    lemma_unit_nonzero(r.dir());
    let lo = sphere_root(s, r, -1);
    let hi = sphere_root(s, r, 1);
    if sphere_disc(s, r) >= 0 {
        lemma_hit_normal_unit(s, r, lo);
        lemma_hit_normal_unit(s, r, hi);
    }
}

proof fn lemma_hit_normal_unit(s: Sphere, r: Ray, t: int)
    requires
        s.wf(),
        r.wf(),
        abs(t) <= T_LIMIT,
    ensures
        ray_at(r, t).bounded(WORLD as int) ==> (hit_at(s, r, t).normal matches Some(n) && is_unit(n)),
{
    let pos = ray_at(r, t);
    if pos.bounded(WORLD as int) {
        let d = vsub(pos, s.center);
        if d.is_zero() {
            lemma_unit_nonzero(r.dir());
            lemma_normalized_unit(vneg(r.dir()));
        } else {
            lemma_normalized_unit(d);
        }
    }
}

/// Narrowing the upper bound keeps a sphere's hit that lies below it.
pub proof fn lemma_sphere_narrow(s: Sphere, r: Ray, t_min: int, t_max: int, bound: int)
    requires
        s.wf(),
        r.wf(),
        bound <= t_max,
        sphere_hit(s, r, t_min, t_max) matches Some(h) && (h.t as int) < bound,
    ensures
        sphere_hit(s, r, t_min, bound) == sphere_hit(s, r, t_min, t_max),
{
    lemma_sphere_bounds(s, r);
}

/// A hit of the list lies in `[t_min, t_max)`.
pub proof fn lemma_list_hit_range(s: Seq<HittableEnum>, r: Ray, t_min: int, t_max: int)
    requires
        all_wf(s),
        r.wf(),
    ensures
        list_hit(s, r, t_min, t_max) matches Some(h) ==> t_min <= h.t < t_max,
    decreases s.len(),
{
    if s.len() > 0 {
        assert(all_wf(s.drop_last()));
        lemma_list_hit_range(s.drop_last(), r, t_min, t_max);
        let prev = list_hit(s.drop_last(), r, t_min, t_max);
        let bound = match prev {
            Some(h) => h.t as int,
            None => t_max,
        };
        assert(s.last().wf());
        match s.last() {
            HittableEnum::Sphere(sp) => {
                lemma_sphere_bounds(sp, r);
            },
        }
    }
}

/// Nearest hit: where any primitive of the list is hit in `[t_min, t_max)`,
/// the list reports a hit, and none farther than that one.
pub proof fn lemma_nearest_hit(s: Seq<HittableEnum>, r: Ray, t_min: int, t_max: int, i: int)
    requires
        all_wf(s),
        r.wf(),
        0 <= i < s.len(),
        hittable_hit(s[i], r, t_min, t_max) is Some,
    ensures
        list_hit(s, r, t_min, t_max) matches Some(b)
            && b.t <= hittable_hit(s[i], r, t_min, t_max).unwrap().t,
    decreases s.len(),
{
    let prev = list_hit(s.drop_last(), r, t_min, t_max);
    let bound = match prev {
        Some(h) => h.t as int,
        None => t_max,
    };
    assert(all_wf(s.drop_last()));
    lemma_list_hit_range(s.drop_last(), r, t_min, t_max);
    assert(s.last().wf());
    let HittableEnum::Sphere(sp) = s.last();
    lemma_sphere_bounds(sp, r);
    if i < s.len() - 1 {
        assert(s.drop_last()[i] == s[i]);
        lemma_nearest_hit(s.drop_last(), r, t_min, t_max, i);
    } else {
        let h = hittable_hit(s[i], r, t_min, t_max).unwrap();
        if (h.t as int) < bound {
            lemma_sphere_narrow(sp, r, t_min, t_max, bound);
        }
    }
}

/// Widening the upper bound keeps a sphere's hit.
pub proof fn lemma_sphere_widen(s: Sphere, r: Ray, t_min: int, bound: int, t_max: int)
    requires
        s.wf(),
        r.wf(),
        bound <= t_max,
        sphere_hit(s, r, t_min, bound) is Some,
    ensures
        sphere_hit(s, r, t_min, t_max) == sphere_hit(s, r, t_min, bound),
{
    lemma_sphere_bounds(s, r);
}

/// A list misses exactly when each of its primitives misses.
pub proof fn lemma_list_miss(s: Seq<HittableEnum>, r: Ray, t_min: int, t_max: int)
    requires
        all_wf(s),
        r.wf(),
    ensures
        list_hit(s, r, t_min, t_max) is None
            <==> forall|i: int| 0 <= i < s.len() ==> (#[trigger] hittable_hit(s[i], r, t_min, t_max)) is None,
    decreases s.len(),
{
    if s.len() > 0 {
        let rest = s.drop_last();
        assert(all_wf(rest));
        lemma_list_miss(rest, r, t_min, t_max);
        assert(s.last().wf());
        let HittableEnum::Sphere(sp) = s.last();
        lemma_sphere_bounds(sp, r);
        assert(s.last() == s[s.len() - 1]);
        if forall|i: int| 0 <= i < s.len() ==> (#[trigger] hittable_hit(s[i], r, t_min, t_max)) is None {
            assert forall|i: int| 0 <= i < rest.len() implies (#[trigger] hittable_hit(rest[i], r, t_min, t_max)) is None by {
                assert(rest[i] == s[i]);
                assert(hittable_hit(s[i], r, t_min, t_max) is None);
            }
            assert(hittable_hit(s[s.len() - 1], r, t_min, t_max) is None);
        }
        if list_hit(s, r, t_min, t_max) is None {
            assert forall|i: int| 0 <= i < s.len() implies (#[trigger] hittable_hit(s[i], r, t_min, t_max)) is None by {
                if i < s.len() - 1 {
                    assert(rest[i] == s[i]);
                    assert(hittable_hit(rest[i], r, t_min, t_max) is None);
                }
            }
        }
    }
}

/// `h` is a miss, or a hit farther than `t`.
pub open spec fn farther_than(h: Option<HitRecord>, t: int) -> bool {
    match h {
        Some(x) => x.t > t,
        None => true,
    }
}

/// `h` is a miss, or a hit no nearer than `t`.
pub open spec fn no_nearer_than(h: Option<HitRecord>, t: int) -> bool {
    match h {
        Some(x) => x.t >= t,
        None => true,
    }
}

/// Nearest hit, exactly: a list's hit is the hit, over the whole range, of
/// the first primitive whose hit is nearest; every earlier primitive misses
/// or is hit farther, and no primitive is hit nearer.
pub proof fn lemma_nearest_first(s: Seq<HittableEnum>, r: Ray, t_min: int, t_max: int)
    requires
        all_wf(s),
        r.wf(),
        list_hit(s, r, t_min, t_max) is Some,
    ensures
        ({
            let b = list_hit(s, r, t_min, t_max).unwrap();
            exists|i: int| #![trigger s[i]] 0 <= i < s.len()
                && hittable_hit(s[i], r, t_min, t_max) == Some(b)
                && forall|j: int| 0 <= j < i ==> farther_than(#[trigger] hittable_hit(s[j], r, t_min, t_max), b.t as int)
        }),
        forall|j: int| 0 <= j < s.len() ==> no_nearer_than(#[trigger] hittable_hit(s[j], r, t_min, t_max),
            list_hit(s, r, t_min, t_max).unwrap().t as int),
    decreases s.len(),
{
    let b = list_hit(s, r, t_min, t_max).unwrap();
    assert forall|j: int| 0 <= j < s.len() implies no_nearer_than(#[trigger] hittable_hit(s[j], r, t_min, t_max), b.t as int) by {
        if hittable_hit(s[j], r, t_min, t_max) is Some {
            lemma_nearest_hit(s, r, t_min, t_max, j);
        }
    }
    let rest = s.drop_last();
    assert(all_wf(rest));
    lemma_list_hit_range(rest, r, t_min, t_max);
    lemma_list_miss(rest, r, t_min, t_max);
    let prev = list_hit(rest, r, t_min, t_max);
    let bound = match prev {
        Some(h) => h.t as int,
        None => t_max,
    };
    assert(s.last().wf());
    assert(s.last() == s[s.len() - 1]);
    let HittableEnum::Sphere(sp) = s.last();
    lemma_sphere_bounds(sp, r);
    let k = s.len() - 1;
    if hittable_hit(s.last(), r, t_min, bound) matches Some(h) && (h.t as int) < bound {
        lemma_sphere_widen(sp, r, t_min, bound, t_max);
        assert forall|j: int| 0 <= j < k implies farther_than(#[trigger] hittable_hit(s[j], r, t_min, t_max), b.t as int) by {
            assert(rest[j] == s[j]);
            if hittable_hit(s[j], r, t_min, t_max) is Some {
                assert(hittable_hit(rest[j], r, t_min, t_max) is Some);
                lemma_nearest_hit(rest, r, t_min, t_max, j);
            }
        }
        assert(hittable_hit(s[k], r, t_min, t_max) == Some(b));
    } else {
        lemma_nearest_first(rest, r, t_min, t_max);
        let i = choose|i: int| #![trigger rest[i]] 0 <= i < rest.len()
            && hittable_hit(rest[i], r, t_min, t_max) == Some(b)
            && forall|j: int| 0 <= j < i ==> farther_than(#[trigger] hittable_hit(rest[j], r, t_min, t_max), b.t as int);
        assert(rest[i] == s[i]);
        assert forall|j: int| 0 <= j < i implies farther_than(#[trigger] hittable_hit(s[j], r, t_min, t_max), b.t as int) by {
            assert(rest[j] == s[j]);
            assert(farther_than(hittable_hit(rest[j], r, t_min, t_max), b.t as int));
        }
    }
}

} // verus!
