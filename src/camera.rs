//! A thin-lens camera: maps image-plane coordinates and a lens sample to a ray.
use vstd::prelude::*;
use crate::fixed::{SCALE, abs, fmul, fx_mul, lemma_fmul_bound};
use crate::vector::{Vec3, vadd, vsub, vneg, vscale, vcross, normalized, is_unit, lemma_cross_bound, lemma_unit_nonzero};
use crate::geometry::{Ray, ray_spec};

verus! {

/// Bound on the raw components of the camera's eye, target and up vector.
pub const EYE_MAX: i64 = 0x4000_0000;

/// Bound on the tangent of half the field of view and on the aspect ratio (16.0).
pub const SPAN_MAX: i64 = 0x10_0000;

/// Bound on the aperture and the focus distance (1024.0).
pub const LENS_MAX: i64 = 0x400_0000;

/// The camera: an image plane at the focus distance, and a lens disk.
#[derive(Clone, Copy, Debug)]
pub struct Camera {
    lower_left: Vec3,
    horizontal: Vec3,
    vertical: Vec3,
    origin: Vec3,
    u: Vec3,
    v: Vec3,
    w: Vec3,
    lens_radius: i64,
}

/// The point of the lens disk at `(lx, ly)`, relative to the eye.
pub open spec fn lens_offset(c: Camera, lx: int, ly: int) -> Vec3 {
    vscale(c.radius(), vadd(vscale(lx, c.right()), vscale(ly, c.up_axis())))
}

/// The ray through image-plane point `(s, t)` from lens point `(lx, ly)`.
/// It aims at the same point of the focal plane from every lens point;
/// should the two coincide, it runs along the view axis.
pub open spec fn camera_ray(c: Camera, s: int, t: int, lx: int, ly: int) -> Ray {
    let off = lens_offset(c, lx, ly);
    let target = vadd(vadd(c.corner(), vscale(s, c.span_h())), vscale(t, c.span_v()));
    let d = vsub(vsub(target, c.eye()), off);
    ray_spec(vadd(c.eye(), off), if d.is_zero() { vneg(c.back()) } else { d })
}

impl Camera {
    pub closed spec fn corner(self) -> Vec3 { self.lower_left }
    pub closed spec fn span_h(self) -> Vec3 { self.horizontal }
    pub closed spec fn span_v(self) -> Vec3 { self.vertical }
    pub closed spec fn eye(self) -> Vec3 { self.origin }
    pub closed spec fn right(self) -> Vec3 { self.u }
    pub closed spec fn up_axis(self) -> Vec3 { self.v }
    pub closed spec fn back(self) -> Vec3 { self.w }
    pub closed spec fn radius(self) -> int { self.lens_radius as int }

    pub closed spec fn wf(self) -> bool {
        &&& self.origin.bounded(EYE_MAX as int)
        &&& self.lower_left.bounded(0x10_0000_0000)
        &&& self.horizontal.bounded(0x10_0000_0000)
        &&& self.vertical.bounded(0x10_0000_0000)
        &&& self.u.bounded(SCALE as int)
        &&& self.v.bounded(3 * SCALE)
        &&& is_unit(self.w)
        &&& 0 <= self.lens_radius <= LENS_MAX
    }

    /// A camera at `origin` looking at `look_at`, with `up` giving the
    /// vertical, `half_height` the tangent of half the vertical field of
    /// view, and the image `aspect_ratio` times wider than high. None where
    /// `up` is parallel to the view direction, which leaves no basis.
    pub fn new(
        origin: Vec3,
        look_at: Vec3,
        up: Vec3,
        half_height: i64,
        aspect_ratio: i64,
        aperture: i64,
        focus_distance: i64,
    ) -> (r: Option<Camera>)
        requires
            origin.bounded(EYE_MAX as int),
            look_at.bounded(EYE_MAX as int),
            up.bounded(EYE_MAX as int),
            !vsub(origin, look_at).is_zero(),
            0 <= half_height <= SPAN_MAX,
            0 <= aspect_ratio <= SPAN_MAX,
            0 <= aperture <= LENS_MAX,
            0 <= focus_distance <= LENS_MAX,
        ensures
            r is None <==> vcross(up, normalized(vsub(origin, look_at))).is_zero(),
            r matches Some(c) ==> c.wf(),
            r matches Some(c) ==> c.radius() == aperture / 2,
            r matches Some(c) ==> c.eye() == origin
                && c.back() == normalized(vsub(origin, look_at))
                && c.right() == normalized(vcross(up, c.back()))
                && c.up_axis() == vcross(c.back(), c.right()),
            r matches Some(c) ==> ({
                let half_width = fmul(aspect_ratio as int, half_height as int);
                &&& c.corner() == vsub(origin, vscale(focus_distance as int,
                    vadd(vadd(vscale(half_width, c.right()), vscale(half_height as int, c.up_axis())), c.back())))
                &&& c.span_h() == vscale(fmul(2 * half_width, focus_distance as int), c.right())
                &&& c.span_v() == vscale(fmul(2 * half_height, focus_distance as int), c.up_axis())
            }),
    {
        proof {
            lemma_fmul_bound(aspect_ratio as int, half_height as int, SPAN_MAX as int, SPAN_MAX as int);
        }
        let half_width = fx_mul(aspect_ratio, half_height);
        let w = origin.sub(&look_at).normalize();
        let uc = up.cross(&w);
        proof {
            lemma_cross_bound(up, w, EYE_MAX as int, SCALE as int);
        }
        if uc.x == 0 && uc.y == 0 && uc.z == 0 {
            return None;
        }
        proof {
            lemma_fmul_bound(aspect_ratio as int, half_height as int, SPAN_MAX as int, SPAN_MAX as int);
        }
        let u = uc.normalize();
        let v = w.cross(&u);
        proof {
            lemma_cross_bound(w, u, SCALE as int, SCALE as int);
            lemma_scale_bounded(half_width as int, u, 0x100_0001, SCALE as int);
            lemma_scale_bounded(half_height as int, v, SPAN_MAX as int, 3 * SCALE);
        }
        let inner = u.scale(half_width).add(&v.scale(half_height)).add(&w);
        proof {
            lemma_scale_bounded(focus_distance as int, inner, LENS_MAX as int, 0x200_0000);
            lemma_fmul_bound(2 * half_width, focus_distance as int, 0x200_0002, LENS_MAX as int);
            lemma_fmul_bound(2 * half_height, focus_distance as int, 2 * SPAN_MAX, LENS_MAX as int);
        }
        let lower_left = origin.sub(&inner.scale(focus_distance));
        let hk = fx_mul(2 * half_width, focus_distance);
        let vk = fx_mul(2 * half_height, focus_distance);
        proof {
            lemma_scale_bounded(hk as int, u, 0x8_0001_0000, SCALE as int);
            lemma_scale_bounded(vk as int, v, 0x8000_0001, 3 * SCALE);
        }
        let horizontal = u.scale(hk);
        let vertical = v.scale(vk);
        Some(Camera {
            lower_left,
            horizontal,
            vertical,
            origin,
            u,
            v,
            w,
            lens_radius: aperture / 2,
        })
    }

    /// The ray for image-plane coordinates `s` (from the left edge) and `t`
    /// (from the bottom edge), each in `[0, SCALE]`, through the lens point
    /// `(lens_x, lens_y)` of the unit disk.
    pub fn ray(&self, s: i64, t: i64, lens_x: i64, lens_y: i64) -> (r: Ray)
        requires
            self.wf(),
            0 <= s <= SCALE,
            0 <= t <= SCALE,
            abs(lens_x as int) <= SCALE,
            abs(lens_y as int) <= SCALE,
        ensures
            r == camera_ray(*self, s as int, t as int, lens_x as int, lens_y as int),
            r.wf(),
    {
        proof {
            lemma_scale_bounded(lens_x as int, self.u, SCALE as int, SCALE as int);
            lemma_scale_bounded(lens_y as int, self.v, SCALE as int, 3 * SCALE);
        }
        let disk = self.u.scale(lens_x).add(&self.v.scale(lens_y));
        proof {
            lemma_scale_bounded(self.lens_radius as int, disk, LENS_MAX as int, 0x8_0000);
            lemma_scale_bounded(s as int, self.horizontal, SCALE as int, 0x10_0000_0000);
            lemma_scale_bounded(t as int, self.vertical, SCALE as int, 0x10_0000_0000);
        }
        let offset = disk.scale(self.lens_radius);
        let target = self.lower_left.add(&self.horizontal.scale(s)).add(&self.vertical.scale(t));
        let d = target.sub(&self.origin).sub(&offset);
        let from = self.origin.add(&offset);
        if d.x == 0 && d.y == 0 && d.z == 0 {
            proof {
                lemma_unit_nonzero(self.w);
            }
            Ray::new(from, self.w.neg())
        } else {
            Ray::new(from, d)
        }
    }
}

/// Bound on a vector scaled in fixed point.
pub proof fn lemma_scale_bounded(k: int, v: Vec3, mk: int, mv: int)
    requires
        abs(k) <= mk,
        v.bounded(mv),
    ensures
        vscale(k, v).bounded(mk * mv / (SCALE as int) + 1),
{
    lemma_fmul_bound(k, v.x as int, mk, mv);
    lemma_fmul_bound(k, v.y as int, mk, mv);
    lemma_fmul_bound(k, v.z as int, mk, mv);
}

} // verus!
