//! Linear RGB colours in fixed point.
use vstd::prelude::*;
use crate::fixed::{SCALE, fmul, fx_mul, lemma_fmul_bound};

verus! {

/// A linear RGB colour; `SCALE` in a channel is full intensity.
#[derive(Clone, Copy, Debug, PartialEq, Eq)]
pub struct Color {
    pub r: i64,
    pub g: i64,
    pub b: i64,
}

pub open spec fn rgb(r: int, g: int, b: int) -> Color {
    Color { r: r as i64, g: g as i64, b: b as i64 }
}

/// Channel-wise product.
pub open spec fn cmul(a: Color, b: Color) -> Color {
    rgb(fmul(a.r as int, b.r as int), fmul(a.g as int, b.g as int), fmul(a.b as int, b.b as int))
}

/// `a + (b - a) * t` in each channel.
pub open spec fn cmix(a: Color, b: Color, t: int) -> Color {
    rgb(
        a.r + fmul(b.r - a.r, t),
        a.g + fmul(b.g - a.g, t),
        a.b + fmul(b.b - a.b, t),
    )
}

impl Color {
    /// Every channel lies in `[0, m]`.
    pub open spec fn within(self, m: int) -> bool {
        0 <= self.r <= m && 0 <= self.g <= m && 0 <= self.b <= m
    }

    pub fn new(r: i64, g: i64, b: i64) -> (c: Color)
        ensures
            c == rgb(r as int, g as int, b as int),
    {
        Color { r, g, b }
    }

    /// Channel-wise product of two colours of at most full intensity.
    pub fn mul(&self, o: &Color) -> (c: Color)
        requires
            self.within(SCALE as int),
            o.within(SCALE as int),
        ensures
            c == cmul(*self, *o),
            c.within(SCALE as int),
            c.r <= self.r && c.g <= self.g && c.b <= self.b,
    {
        proof {
            lemma_fmul_unit(self.r as int, o.r as int);
            lemma_fmul_unit(self.g as int, o.g as int);
            lemma_fmul_unit(self.b as int, o.b as int);
        }
        Color { r: fx_mul(self.r, o.r), g: fx_mul(self.g, o.g), b: fx_mul(self.b, o.b) }
    }

    /// Blends from `self` (at `t == 0`) to `o` (at `t == SCALE`).
    pub fn mix(&self, o: &Color, t: i64) -> (c: Color)
        requires
            self.within(SCALE as int),
            o.within(SCALE as int),
            0 <= t <= SCALE,
        ensures
            c == cmix(*self, *o, t as int),
    {
        proof {
            lemma_fmul_bound(o.r - self.r, t as int, SCALE as int, SCALE as int);
            lemma_fmul_bound(o.g - self.g, t as int, SCALE as int, SCALE as int);
            lemma_fmul_bound(o.b - self.b, t as int, SCALE as int, SCALE as int);
        }
        Color {
            r: self.r + fx_mul(o.r - self.r, t),
            g: self.g + fx_mul(o.g - self.g, t),
            b: self.b + fx_mul(o.b - self.b, t),
        }
    }
}

/// A product of two fractions in `[0, 1]` stays in `[0, 1]` and does not
/// exceed either factor.
pub proof fn lemma_fmul_unit(a: int, b: int)
    requires
        0 <= a <= SCALE,
        0 <= b <= SCALE,
    ensures
        0 <= fmul(a, b) <= a,
        fmul(a, b) <= b,
{
    assert(0 <= a * b <= a * 65536) by (nonlinear_arith)
        requires 0 <= a <= 65536, 0 <= b <= 65536;
    assert(a * b <= b * 65536) by (nonlinear_arith)
        requires 0 <= a <= 65536, 0 <= b <= 65536;
}

} // verus!
