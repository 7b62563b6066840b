//! The integrator: background gradient, path tracing and its energy bound.
use vstd::prelude::*;
use crate::fixed::{SCALE, fmul, floor_div};
use crate::color::{Color, rgb, cmul, cmix, lemma_fmul_unit};
use crate::geometry::{Ray, Hittable};
use crate::material::{Material, ScatterSample, scatter_spec};

verus! {

/// Nearest parameter a hit may have: keeps a bounce from hitting the
/// surface it leaves (0.001).
pub const T_MIN: i64 = 66;

/// Upper bound of the parameter range of a query: no limit.
pub const T_INF: i64 = 0x7fff_ffff_ffff_ffff;

/// The sky colour straight up: (0.5, 0.7, 1.0).
pub open spec fn sky_top() -> Color {
    rgb(32768, 45875, 65536)
}

/// The sky colour straight down: white.
pub open spec fn sky_bottom() -> Color {
    rgb(65536, 65536, 65536)
}

/// Blend from `sky_bottom` to `sky_top` by the height of the direction.
pub open spec fn background(r: Ray) -> Color {
    cmix(sky_bottom(), sky_top(), (r.dir().y + SCALE) / 2)
}

/// The colour a path brings back: `acc` is the product of the attenuations
/// met so far, and `samples[depth]` feeds the next bounce.
pub open spec fn trace<T: Hittable>(
    world: T,
    ray: Ray,
    acc: Color,
    depth: nat,
    max_bounces: nat,
    samples: Seq<ScatterSample>,
) -> Color
    decreases max_bounces - depth,
{
    match world.hit_spec(ray, T_MIN as int, T_INF as int) {
        None => cmul(acc, background(ray)),
        Some(h) => {
            if depth >= max_bounces {
                rgb(0, 0, 0)
            } else {
                match scatter_spec(h.material, ray, h, samples[depth as int]) {
                    None => rgb(0, 0, 0),
                    Some(sc) => trace(world, sc.scattered, cmul(acc, sc.attenuation), depth + 1,
                        max_bounces, samples),
                }
            }
        },
    }
}

pub open spec fn all_samples_wf(s: Seq<ScatterSample>) -> bool {
    forall|i: int| 0 <= i < s.len() ==> (#[trigger] s[i]).wf()
}

/// A blend of colours in `[0, 1]` is a colour in `[0, 1]`.
proof fn lemma_mix_within(a: Color, b: Color, t: int)
    requires
        a.within(SCALE as int),
        b.within(SCALE as int),
        0 <= t <= SCALE,
    ensures
        cmix(a, b, t).within(SCALE as int),
{
    lemma_mix_channel(a.r as int, b.r as int, t);
    lemma_mix_channel(a.g as int, b.g as int, t);
    lemma_mix_channel(a.b as int, b.b as int, t);
}

proof fn lemma_mix_channel(a: int, b: int, t: int)
    requires
        0 <= a <= SCALE,
        0 <= b <= SCALE,
        0 <= t <= SCALE,
    ensures
        0 <= a + fmul(b - a, t) <= SCALE,
{
    if b >= a {
        assert(0 <= (b - a) * t <= (b - a) * 65536) by (nonlinear_arith)
            requires b - a >= 0, 0 <= t <= 65536;
    } else {
        assert((b - a) * 65536 <= (b - a) * t <= 0) by (nonlinear_arith)
            requires b - a < 0, 0 <= t <= 65536;
    }
}

/// The sky colour seen along `ray`.
pub fn background_color(ray: &Ray) -> (c: Color)
    requires
        ray.wf(),
    ensures
        c == background(*ray),
        c.within(SCALE as int),
        ray.dir().y == SCALE ==> c == sky_top(),
        ray.dir().y == -SCALE ==> c == sky_bottom(),
        ray.dir().y == 0 ==> c == rgb(
            (sky_bottom().r + sky_top().r) / 2,
            (sky_bottom().g + sky_top().g) / 2,
            (sky_bottom().b + sky_top().b) / 2,
        ),
{
    let t = floor_div((ray.direction().y as i128) + (SCALE as i128), 2) as i64;
    let white = Color { r: 65536, g: 65536, b: 65536 };
    let blue = Color { r: 32768, g: 45875, b: 65536 };
    proof {
        lemma_mix_within(white, blue, t as int);
    }
    white.mix(&blue, t)
}

/// The linear colour seen along `ray`: bounces through `world` until the
/// path leaves to the sky, is absorbed, or has bounced `max_bounces` times.
/// Bounce `i` draws on `samples[i]`.
pub fn color<T: Hittable>(ray: &Ray, world: &T, max_bounces: usize, samples: &Vec<ScatterSample>) -> (c: Color)
    requires
        world.hittable_wf(),
        ray.wf(),
        samples@.len() >= max_bounces,
        all_samples_wf(samples@),
    ensures
        c == trace(*world, *ray, rgb(SCALE as int, SCALE as int, SCALE as int), 0, max_bounces as nat, samples@),
        c.within(SCALE as int),
{
    let mut acc = Color { r: SCALE, g: SCALE, b: SCALE };
    let mut cur: Ray = *ray;
    let mut depth: usize = 0;
    loop
        invariant
            world.hittable_wf(),
            cur.wf(),
            samples@.len() >= max_bounces,
            all_samples_wf(samples@),
            depth <= max_bounces,
            acc.within(SCALE as int),
            trace(*world, cur, acc, depth as nat, max_bounces as nat, samples@)
                == trace(*world, *ray, rgb(SCALE as int, SCALE as int, SCALE as int), 0, max_bounces as nat, samples@),
        decreases max_bounces - depth,
    {
        match world.hits(&cur, T_MIN, T_INF) {
            None => {
                let bg = background_color(&cur);
                return acc.mul(&bg);
            },
            Some(hit) => {
                if depth >= max_bounces {
                    return Color { r: 0, g: 0, b: 0 };
                }
                match hit.material.scatter(&cur, &hit, &samples[depth]) {
                    None => {
                        return Color { r: 0, g: 0, b: 0 };
                    },
                    Some(sc) => {
                        acc = acc.mul(&sc.attenuation);
                        cur = sc.scattered;
                        depth = depth + 1;
                    },
                }
            },
        }
    }
}

/// The product of `acc` and the attenuations `atts`, in order.
pub open spec fn attenuated(acc: Color, atts: Seq<Color>) -> Color
    decreases atts.len(),
{
    if atts.len() == 0 {
        acc
    } else {
        cmul(attenuated(acc, atts.drop_last()), atts.last())
    }
}

/// Energy bound: a chain of attenuations in `[0, 1]` never amplifies. After
/// any number of bounces every channel stays in `[0, 1]`, and no channel
/// grows from one bounce to the next.
pub proof fn lemma_energy_bound(acc: Color, atts: Seq<Color>)
    requires
        acc.within(SCALE as int),
        forall|i: int| 0 <= i < atts.len() ==> (#[trigger] atts[i]).within(SCALE as int),
    ensures
        attenuated(acc, atts).within(SCALE as int),
        atts.len() > 0 ==> ({
            let prev = attenuated(acc, atts.drop_last());
            let next = attenuated(acc, atts);
            next.r <= prev.r && next.g <= prev.g && next.b <= prev.b
        }),
    decreases atts.len(),
{
    if atts.len() > 0 {
        let rest = atts.drop_last();
        assert forall|i: int| 0 <= i < rest.len() implies (#[trigger] rest[i]).within(SCALE as int) by {
            assert(rest[i] == atts[i]);
        }
        lemma_energy_bound(acc, rest);
        let prev = attenuated(acc, rest);
        let a = atts.last();
        assert(a == atts[atts.len() - 1]);
        lemma_fmul_unit(prev.r as int, a.r as int);
        lemma_fmul_unit(prev.g as int, a.g as int);
        lemma_fmul_unit(prev.b as int, a.b as int);
    }
}

} // verus!
