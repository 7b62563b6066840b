//! Three-component fixed-point vectors.
use vstd::prelude::*;
use crate::fixed::{SCALE, abs, fmul, isqrt, is_isqrt, fx_mul, isqrt_u128, lemma_floor_div, lemma_fmul_bound};

verus! {

/// Bound on the raw components of the operands of products of vectors.
pub const VEC_MAX: i64 = 0x40_0000_0000;

/// A point or a direction; each component counts `1 / SCALE` units.
#[derive(Clone, Copy, Debug, PartialEq, Eq)]
pub struct Vec3 {
    pub x: i64,
    pub y: i64,
    pub z: i64,
}

/// Raw squared length: `SCALE * SCALE` for a vector of length one.
pub open spec fn norm_sq(v: Vec3) -> int {
    v.x * v.x + v.y * v.y + v.z * v.z
}

/// Fixed-point dot product, rounded once.
pub open spec fn dot(a: Vec3, b: Vec3) -> int {
    (a.x * b.x + a.y * b.y + a.z * b.z) / (SCALE as int)
}

pub open spec fn v3(x: int, y: int, z: int) -> Vec3 {
    Vec3 { x: x as i64, y: y as i64, z: z as i64 }
}

pub open spec fn vadd(a: Vec3, b: Vec3) -> Vec3 {
    v3(a.x + b.x, a.y + b.y, a.z + b.z)
}

pub open spec fn vsub(a: Vec3, b: Vec3) -> Vec3 {
    v3(a.x - b.x, a.y - b.y, a.z - b.z)
}

pub open spec fn vneg(a: Vec3) -> Vec3 {
    v3(-a.x, -a.y, -a.z)
}

/// `k * v` in fixed point.
pub open spec fn vscale(k: int, v: Vec3) -> Vec3 {
    v3(fmul(k, v.x as int), fmul(k, v.y as int), fmul(k, v.z as int))
}

pub open spec fn vcross(a: Vec3, b: Vec3) -> Vec3 {
    v3(
        (a.y * b.z - a.z * b.y) / (SCALE as int),
        (a.z * b.x - a.x * b.z) / (SCALE as int),
        (a.x * b.y - a.y * b.x) / (SCALE as int),
    )
}

/// The raw length of `v` times `SCALE`, as an integer square root.
pub open spec fn scaled_len(v: Vec3) -> int {
    isqrt(norm_sq(v) * SCALE * SCALE)
}

/// One component of the unit vector along a vector of scaled length `len`,
/// rounded toward zero.
pub open spec fn unit_part(c: int, len: int) -> int {
    if c < 0 {
        -((-c) * SCALE * SCALE / len)
    } else {
        c * SCALE * SCALE / len
    }
}

pub open spec fn normalized(v: Vec3) -> Vec3 {
    v3(
        unit_part(v.x as int, scaled_len(v)),
        unit_part(v.y as int, scaled_len(v)),
        unit_part(v.z as int, scaled_len(v)),
    )
}

/// A vector of unit length, within the rounding of fixed point.
pub open spec fn is_unit(v: Vec3) -> bool {
    &&& SCALE * SCALE - 6 * SCALE - 3 < norm_sq(v) <= SCALE * SCALE + 2 * SCALE
    &&& v.bounded(SCALE as int)
}

impl Vec3 {
    pub open spec fn bounded(self, m: int) -> bool {
        abs(self.x as int) <= m && abs(self.y as int) <= m && abs(self.z as int) <= m
    }

    pub open spec fn is_zero(self) -> bool {
        self.x == 0 && self.y == 0 && self.z == 0
    }

    pub fn new(x: i64, y: i64, z: i64) -> (r: Vec3)
        ensures
            r == v3(x as int, y as int, z as int),
    {
        Vec3 { x, y, z }
    }

    pub fn add(&self, o: &Vec3) -> (r: Vec3)
        requires
            self.bounded(0x2000_0000_0000_0000),
            o.bounded(0x2000_0000_0000_0000),
        ensures
            r == vadd(*self, *o),
    {
        Vec3 { x: self.x + o.x, y: self.y + o.y, z: self.z + o.z }
    }

    pub fn sub(&self, o: &Vec3) -> (r: Vec3)
        requires
            self.bounded(0x2000_0000_0000_0000),
            o.bounded(0x2000_0000_0000_0000),
        ensures
            r == vsub(*self, *o),
    {
        Vec3 { x: self.x - o.x, y: self.y - o.y, z: self.z - o.z }
    }

    pub fn neg(&self) -> (r: Vec3)
        requires
            self.bounded(0x2000_0000_0000_0000),
        ensures
            r == vneg(*self),
    {
        Vec3 { x: -self.x, y: -self.y, z: -self.z }
    }

    /// `k * self`; the bounds keep each product within 2^62 raw units.
    pub fn scale(&self, k: i64) -> (r: Vec3)
        requires
            abs(k as int) <= 0x100_0000_0000,
            self.bounded(VEC_MAX as int),
        ensures
            r == vscale(k as int, *self),
    {
        proof {
            lemma_fmul_bound(k as int, self.x as int, 0x100_0000_0000, VEC_MAX as int);
            lemma_fmul_bound(k as int, self.y as int, 0x100_0000_0000, VEC_MAX as int);
            lemma_fmul_bound(k as int, self.z as int, 0x100_0000_0000, VEC_MAX as int);
        }
        Vec3 { x: fx_mul(k, self.x), y: fx_mul(k, self.y), z: fx_mul(k, self.z) }
    }

    pub fn dot(&self, o: &Vec3) -> (r: i64)
        requires
            self.bounded(VEC_MAX as int),
            o.bounded(VEC_MAX as int),
        ensures
            r == dot(*self, *o),
    {
        let p: i128 = wide_mul(self.x, o.x) + wide_mul(self.y, o.y) + wide_mul(self.z, o.z);
        let q: i128 = crate::fixed::floor_div(p, SCALE as i128);
        q as i64
    }

    pub fn cross(&self, o: &Vec3) -> (r: Vec3)
        requires
            self.bounded(VEC_MAX as int),
            o.bounded(VEC_MAX as int),
        ensures
            r == vcross(*self, *o),
    {
        let s: i128 = SCALE as i128;
        let x: i128 = crate::fixed::floor_div(wide_mul(self.y, o.z) - wide_mul(self.z, o.y), s);
        let y: i128 = crate::fixed::floor_div(wide_mul(self.z, o.x) - wide_mul(self.x, o.z), s);
        let z: i128 = crate::fixed::floor_div(wide_mul(self.x, o.y) - wide_mul(self.y, o.x), s);
        Vec3 { x: x as i64, y: y as i64, z: z as i64 }
    }

    /// The unit vector along `self`, each component rounded toward zero.
    pub fn normalize(&self) -> (r: Vec3)
        requires
            !self.is_zero(),
            self.bounded(VEC_MAX as int),
        ensures
            r == normalized(*self),
            is_unit(r),
    {
        let ax: u128 = magnitude(self.x);
        let ay: u128 = magnitude(self.y);
        let az: u128 = magnitude(self.z);
        assert(ax * ax + ay * ay + az * az <= 3 * 0x40_0000_0000 * 0x40_0000_0000) by (nonlinear_arith)
            requires ax <= 0x40_0000_0000, ay <= 0x40_0000_0000, az <= 0x40_0000_0000;
        let q: u128 = ax * ax + ay * ay + az * az;
        let ss: u128 = 4294967296;
        let len: u128 = isqrt_u128(q * ss);
        proof {
            assert(norm_sq(*self) == q) by (nonlinear_arith)
                requires ax == abs(self.x as int), ay == abs(self.y as int), az == abs(self.z as int),
                    q == ax * ax + ay * ay + az * az,
                    abs(self.x as int) == (if self.x < 0 { -self.x } else { self.x as int }),
                    abs(self.y as int) == (if self.y < 0 { -self.y } else { self.y as int }),
                    abs(self.z as int) == (if self.z < 0 { -self.z } else { self.z as int });
            assert(q >= 1) by (nonlinear_arith)
                requires q == ax * ax + ay * ay + az * az, ax > 0 || ay > 0 || az > 0;
            lemma_unit_len(q as int, len as int);
            lemma_floor_div(ax * ss, len as int);
            lemma_floor_div(ay * ss, len as int);
            lemma_floor_div(az * ss, len as int);
            lemma_unit_parts(ax as int, ay as int, az as int, q as int, len as int,
                ax * ss / len as int, ay * ss / len as int, az * ss / len as int);
        }
        let nx: u128 = ax * ss / len;
        let ny: u128 = ay * ss / len;
        let nz: u128 = az * ss / len;
        let r = Vec3 { x: signed_like(self.x, nx), y: signed_like(self.y, ny), z: signed_like(self.z, nz) };
        proof {
            assert(norm_sq(r) == nx * nx + ny * ny + nz * nz) by (nonlinear_arith)
                requires r.x == nx || r.x == -nx, r.y == ny || r.y == -ny, r.z == nz || r.z == -nz;
            assert(scaled_len(*self) == len);
        }
        r
    }
}

/// Product of two `i64` values, without rounding.
fn wide_mul(a: i64, b: i64) -> (r: i128)
    requires
        abs(a as int) <= VEC_MAX,
        abs(b as int) <= VEC_MAX,
    ensures
        r == a * b,
        abs(r as int) <= VEC_MAX * VEC_MAX,
{
    proof {
        lemma_abs_mul(a as int, b as int, VEC_MAX as int);
    }
    (a as i128) * (b as i128)
}

/// Bound on the dot product of bounded vectors.
pub proof fn lemma_dot_bound(a: Vec3, b: Vec3, ma: int, mb: int)
    requires
        a.bounded(ma),
        b.bounded(mb),
    ensures
        abs(dot(a, b)) <= 3 * (ma * mb) / (SCALE as int) + 1,
{
    lemma_mul_abs_le(a.x as int, b.x as int, ma, mb);
    lemma_mul_abs_le(a.y as int, b.y as int, ma, mb);
    lemma_mul_abs_le(a.z as int, b.z as int, ma, mb);
}

/// Normalizing a non-zero vector gives a unit vector.
pub proof fn lemma_normalized_unit(v: Vec3)
    requires
        !v.is_zero(),
        v.bounded(VEC_MAX as int),
    ensures
        is_unit(normalized(v)),
{
    let ax = abs(v.x as int);
    let ay = abs(v.y as int);
    let az = abs(v.z as int);
    let q = norm_sq(v);
    assert(q == ax * ax + ay * ay + az * az) by (nonlinear_arith)
        requires ax == abs(v.x as int), ay == abs(v.y as int), az == abs(v.z as int),
            q == v.x * v.x + v.y * v.y + v.z * v.z,
            abs(v.x as int) == (if v.x < 0 { -v.x } else { v.x as int }),
            abs(v.y as int) == (if v.y < 0 { -v.y } else { v.y as int }),
            abs(v.z as int) == (if v.z < 0 { -v.z } else { v.z as int });
    assert(q >= 1) by (nonlinear_arith)
        requires q == ax * ax + ay * ay + az * az, ax > 0 || ay > 0 || az > 0, ax >= 0, ay >= 0, az >= 0;
    let ss: int = 4294967296;
    crate::fixed::lemma_isqrt_exists(q * ss);
    let len = scaled_len(v);
    assert(q * SCALE * SCALE == q * ss);
    lemma_unit_len(q, len);
    lemma_floor_div(ax * ss, len);
    lemma_floor_div(ay * ss, len);
    lemma_floor_div(az * ss, len);
    lemma_unit_parts(ax, ay, az, q, len, ax * ss / len, ay * ss / len, az * ss / len);
    let r = normalized(v);
    let (nx, ny, nz) = (ax * ss / len, ay * ss / len, az * ss / len);
    assert(r.x == nx || r.x == -nx);
    assert(r.y == ny || r.y == -ny);
    assert(r.z == nz || r.z == -nz);
    assert(norm_sq(r) == nx * nx + ny * ny + nz * nz) by (nonlinear_arith)
        requires r.x == nx || r.x == -nx, r.y == ny || r.y == -ny, r.z == nz || r.z == -nz;
}

/// A unit vector, and its opposite, are not zero.
pub proof fn lemma_unit_nonzero(v: Vec3)
    requires
        is_unit(v),
    ensures
        !v.is_zero(),
        !vneg(v).is_zero(),
{
    if v.is_zero() {
        assert(norm_sq(v) == 0);
    }
}

/// Bound on the cross product of bounded vectors.
pub proof fn lemma_cross_bound(a: Vec3, b: Vec3, ma: int, mb: int)
    requires
        a.bounded(ma),
        b.bounded(mb),
        a.bounded(VEC_MAX as int),
        b.bounded(VEC_MAX as int),
    ensures
        vcross(a, b).bounded(2 * (ma * mb) / (SCALE as int) + 1),
{
    lemma_mul_abs_le(a.x as int, b.y as int, ma, mb);
    lemma_mul_abs_le(a.x as int, b.z as int, ma, mb);
    lemma_mul_abs_le(a.y as int, b.x as int, ma, mb);
    lemma_mul_abs_le(a.y as int, b.z as int, ma, mb);
    lemma_mul_abs_le(a.z as int, b.x as int, ma, mb);
    lemma_mul_abs_le(a.z as int, b.y as int, ma, mb);
    lemma_abs_mul(a.x as int, b.y as int, VEC_MAX as int);
    lemma_abs_mul(a.x as int, b.z as int, VEC_MAX as int);
    lemma_abs_mul(a.y as int, b.x as int, VEC_MAX as int);
    lemma_abs_mul(a.y as int, b.z as int, VEC_MAX as int);
    lemma_abs_mul(a.z as int, b.x as int, VEC_MAX as int);
    lemma_abs_mul(a.z as int, b.y as int, VEC_MAX as int);
}

/// Bound on a product of bounded factors.
pub proof fn lemma_mul_abs_le(a: int, b: int, ma: int, mb: int)
    requires
        abs(a) <= ma,
        abs(b) <= mb,
    ensures
        abs(a * b) <= ma * mb,
{
    assert(abs(a * b) == abs(a) * abs(b)) by (nonlinear_arith)
        requires abs(a) == (if a < 0 { -a } else { a }), abs(b) == (if b < 0 { -b } else { b }),
            abs(a * b) == (if a * b < 0 { -(a * b) } else { a * b });
    assert(abs(a) * abs(b) <= ma * mb) by (nonlinear_arith)
        requires 0 <= abs(a) <= ma, 0 <= abs(b) <= mb;
}

proof fn lemma_abs_mul(a: int, b: int, m: int)
    requires
        abs(a) <= m,
        abs(b) <= m,
    ensures
        abs(a * b) <= m * m,
{
    assert(abs(a * b) == abs(a) * abs(b)) by (nonlinear_arith)
        requires abs(a) == (if a < 0 { -a } else { a }), abs(b) == (if b < 0 { -b } else { b }),
            abs(a * b) == (if a * b < 0 { -(a * b) } else { a * b });
    assert(abs(a) * abs(b) <= m * m) by (nonlinear_arith)
        requires 0 <= abs(a) <= m, 0 <= abs(b) <= m;
}

fn magnitude(c: i64) -> (r: u128)
    requires
        abs(c as int) <= VEC_MAX,
    ensures
        r == abs(c as int),
{
    if c < 0 {
        (-c) as u128
    } else {
        c as u128
    }
}

/// `n` with the sign of `c`.
fn signed_like(c: i64, n: u128) -> (r: i64)
    requires
        n <= SCALE,
    ensures
        r == (if c < 0 { -n } else { n as int }),
{
    if c < 0 {
        -(n as i64)
    } else {
        n as i64
    }
}

/// The scaled length of a non-zero vector is at least one.
proof fn lemma_unit_len(q: int, len: int)
    requires
        q >= 1,
        is_isqrt(q * SCALE * SCALE, len),
    ensures
        len >= SCALE,
{
    assert(len >= SCALE) by (nonlinear_arith)
        requires q >= 1, len >= 0, q * 65536 * 65536 < (len + 1) * (len + 1);
}

proof fn lemma_sq_le(a: int, b: int)
    requires
        0 <= a <= b,
    ensures
        a * a <= b * b,
{
    assert(a * a <= b * b) by (nonlinear_arith)
        requires 0 <= a <= b;
}

proof fn lemma_sq_lt(a: int, b: int)
    requires
        0 <= a < b,
    ensures
        a * a < b * b,
{
    assert(a * a < b * b) by (nonlinear_arith)
        requires 0 <= a < b;
}

proof fn lemma_sq_scaled(a: int, b: int)
    ensures
        a * b * (a * b) == (a * a) * (b * b),
{
    assert(a * b * (a * b) == (a * a) * (b * b)) by (nonlinear_arith);
}

/// Bounds on the parts of a vector divided by its scaled length.
proof fn lemma_unit_parts(ax: int, ay: int, az: int, q: int, len: int, nx: int, ny: int, nz: int)
    requires
        ax >= 0, ay >= 0, az >= 0,
        q == ax * ax + ay * ay + az * az,
        len >= 65536,
        len * len <= q * 4294967296 < (len + 1) * (len + 1),
        nx >= 0, ny >= 0, nz >= 0,
        len * nx <= ax * 4294967296 < len * nx + len,
        len * ny <= ay * 4294967296 < len * ny + len,
        len * nz <= az * 4294967296 < len * nz + len,
    ensures
        nx <= 65536, ny <= 65536, nz <= 65536,
        4294967296 - 6 * 65536 - 3 < nx * nx + ny * ny + nz * nz <= 4294967296 + 2 * 65536,
{
    let k: int = 4294967296;
    let (px, py, pz) = (len * nx, len * ny, len * nz);
    let (xx, xy, xz) = (ax * k, ay * k, az * k);
    lemma_sq_le(px, xx);
    lemma_sq_le(py, xy);
    lemma_sq_le(pz, xz);
    assert(xx * xx + xy * xy + xz * xz == k * (k * q)) by (nonlinear_arith)
        requires xx == ax * 4294967296, xy == ay * 4294967296, xz == az * 4294967296,
            q == ax * ax + ay * ay + az * az, k == 4294967296;
    let n2 = nx * nx + ny * ny + nz * nz;
    lemma_sq_scaled(len, nx);
    lemma_sq_scaled(len, ny);
    lemma_sq_scaled(len, nz);
    assert(px * px + py * py + pz * pz == (len * len) * n2) by (nonlinear_arith)
        requires px * px == (len * len) * (nx * nx), py * py == (len * len) * (ny * ny),
            pz * pz == (len * len) * (nz * nz), n2 == nx * nx + ny * ny + nz * nz;
    assert(k * (k * q) < k * ((len + 1) * (len + 1)));
    // Upper bound: a larger sum would need a shorter length.
    if n2 > 4294967296 + 2 * 65536 {
        assert(len * len * n2 >= len * len * (65537 * 65537)) by (nonlinear_arith)
            requires n2 >= 65537 * 65537;
        lemma_sq_le(65536 * (len + 1), len * 65537);
        assert(len * 65537 * (len * 65537) == len * len * (65537 * 65537)) by (nonlinear_arith);
        assert(65536 * (len + 1) * (65536 * (len + 1)) == k * ((len + 1) * (len + 1))) by (nonlinear_arith)
            requires k == 4294967296;
    }
    assert(nx * nx >= 0 && ny * ny >= 0 && nz * nz >= 0) by (nonlinear_arith);
    if nx > 65536 { lemma_sq_le(65537, nx); }
    if ny > 65536 { lemma_sq_le(65537, ny); }
    if nz > 65536 { lemma_sq_le(65537, nz); }
    // Lower bound: each part rounded down by less than one.
    assert(len * (nx + 1) == len * nx + len && len * (ny + 1) == len * ny + len
        && len * (nz + 1) == len * nz + len) by (nonlinear_arith);
    lemma_sq_lt(xx, len * (nx + 1));
    lemma_sq_lt(xy, len * (ny + 1));
    lemma_sq_lt(xz, len * (nz + 1));
    let m2 = (nx + 1) * (nx + 1) + (ny + 1) * (ny + 1) + (nz + 1) * (nz + 1);
    lemma_sq_scaled(len, nx + 1);
    lemma_sq_scaled(len, ny + 1);
    lemma_sq_scaled(len, nz + 1);
    assert(len * (nx + 1) * (len * (nx + 1)) + len * (ny + 1) * (len * (ny + 1))
        + len * (nz + 1) * (len * (nz + 1)) == (len * len) * m2) by (nonlinear_arith)
        requires m2 == (nx + 1) * (nx + 1) + (ny + 1) * (ny + 1) + (nz + 1) * (nz + 1),
            len * (nx + 1) * (len * (nx + 1)) == (len * len) * ((nx + 1) * (nx + 1)),
            len * (ny + 1) * (len * (ny + 1)) == (len * len) * ((ny + 1) * (ny + 1)),
            len * (nz + 1) * (len * (nz + 1)) == (len * len) * ((nz + 1) * (nz + 1));
    assert(k * (len * len) <= k * (k * q));
    assert(m2 == n2 + 2 * (nx + ny + nz) + 3) by (nonlinear_arith)
        requires m2 == (nx + 1) * (nx + 1) + (ny + 1) * (ny + 1) + (nz + 1) * (nz + 1),
            n2 == nx * nx + ny * ny + nz * nz;
    assert(len * len >= 0) by (nonlinear_arith);
    if m2 <= k {
        assert((len * len) * m2 <= (len * len) * k) by (nonlinear_arith)
            requires m2 <= k, len * len >= 0;
    }
}

} // verus!
