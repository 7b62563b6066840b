//! Per-pixel sampling: averages traced samples over a block of image rows.
use vstd::prelude::*;
use vstd::arithmetic::div_mod::{lemma_fundamental_div_mod, lemma_fundamental_div_mod_converse};
use crate::fixed::{SCALE, abs, floor_div, lemma_floor_div};
use crate::color::{Color, rgb};
use crate::camera::{Camera, camera_ray};
use crate::geometry::HittableList;
use crate::material::ScatterSample;
use crate::render::{trace, all_samples_wf, color};

verus! {

/// Bound on the width and height of an image.
pub const SIDE_MAX: usize = 0x10_0000;

/// Bound on the number of samples of one pixel.
pub const SAMPLES_MAX: usize = 0x1_0000;

/// Image size and bounce budget.
#[derive(Clone, Copy, Debug)]
pub struct RenderParams {
    pub width: usize,
    pub height: usize,
    pub max_bounces: usize,
}

impl RenderParams {
    pub open spec fn wf(self) -> bool {
        1 <= self.width <= SIDE_MAX && 1 <= self.height <= SIDE_MAX
    }
}

/// The random values one sample of a pixel consumes: a sub-pixel offset, a
/// point of the lens disk, and one set of values per bounce.
#[derive(Clone, Debug)]
pub struct PixelSample {
    pub jitter_x: i64,
    pub jitter_y: i64,
    pub lens_x: i64,
    pub lens_y: i64,
    pub bounces: Vec<ScatterSample>,
}

impl PixelSample {
    pub open spec fn wf(self, max_bounces: nat) -> bool {
        &&& 0 <= self.jitter_x < SCALE
        &&& 0 <= self.jitter_y < SCALE
        &&& abs(self.lens_x as int) <= SCALE
        &&& abs(self.lens_y as int) <= SCALE
        &&& self.bounces@.len() >= max_bounces
        &&& all_samples_wf(self.bounces@)
    }
}

/// Horizontal image-plane coordinate of a sample in column `col`.
pub open spec fn image_s(col: int, jitter: int, width: int) -> int {
    (col * SCALE + jitter) / width
}

/// Vertical image-plane coordinate of a sample in row `row`; rows count
/// from the top, the plane from the bottom.
pub open spec fn image_t(row: int, jitter: int, height: int) -> int {
    ((height - 1 - row) * SCALE + jitter) / height
}

pub open spec fn sample_color(world: HittableList, cam: Camera, p: RenderParams, row: int, col: int, smp: PixelSample) -> Color {
    trace(
        world,
        camera_ray(cam, image_s(col, smp.jitter_x as int, p.width as int),
            image_t(row, smp.jitter_y as int, p.height as int), smp.lens_x as int, smp.lens_y as int),
        rgb(SCALE as int, SCALE as int, SCALE as int),
        0,
        p.max_bounces as nat,
        smp.bounces@,
    )
}

/// Channel sums of the samples' colours.
pub open spec fn sample_sum(world: HittableList, cam: Camera, p: RenderParams, row: int, col: int, smps: Seq<PixelSample>) -> (int, int, int)
    decreases smps.len(),
{
    if smps.len() == 0 {
        (0, 0, 0)
    } else {
        let (r, g, b) = sample_sum(world, cam, p, row, col, smps.drop_last());
        let c = sample_color(world, cam, p, row, col, smps.last());
        (r + c.r, g + c.g, b + c.b)
    }
}

/// The mean colour of the samples, rounded down.
pub open spec fn pixel_color(world: HittableList, cam: Camera, p: RenderParams, row: int, col: int, smps: Seq<PixelSample>) -> Color {
    let (r, g, b) = sample_sum(world, cam, p, row, col, smps);
    rgb(r / smps.len() as int, g / smps.len() as int, b / smps.len() as int)
}

/// The pixels of `rows` rows from `first_row` on, row-major; pixel `k`
/// uses the samples `samples[k]`.
pub open spec fn rows_spec(world: HittableList, cam: Camera, p: RenderParams, first_row: int, rows: int, samples: Seq<Vec<PixelSample>>) -> Seq<Color> {
    Seq::new((rows * p.width) as nat, |k: int| pixel_color(world, cam, p, first_row + k / (p.width as int), k % (p.width as int), samples[k]@))
}

pub open spec fn pixel_samples_wf(smps: Seq<PixelSample>, max_bounces: nat) -> bool {
    &&& 1 <= smps.len() <= SAMPLES_MAX
    &&& forall|i: int| 0 <= i < smps.len() ==> (#[trigger] smps[i]).wf(max_bounces)
}

/// The image-plane coordinate of a sample lies in `[0, SCALE)`.
proof fn lemma_plane_coord(idx: int, jitter: int, side: int)
    requires
        0 <= idx < side,
        0 <= jitter < SCALE,
    ensures
        0 <= (idx * SCALE + jitter) / side < SCALE,
{
    let n = idx * SCALE + jitter;
    lemma_floor_div(n, side);
    let q = n / side;
    assert(n < side * SCALE) by (nonlinear_arith)
        requires idx + 1 <= side, n == idx * 65536 + jitter, jitter < 65536;
    assert(n >= 0) by (nonlinear_arith)
        requires idx >= 0, n == idx * 65536 + jitter, jitter >= 0;
    if q >= SCALE {
        assert(side * q >= side * SCALE) by (nonlinear_arith)
            requires q >= 65536, side > 0;
    }
    if q < 0 {
        assert(side * q + side <= 0) by (nonlinear_arith)
            requires q < 0, side > 0;
    }
}

/// The mean colour of one pixel's samples.
pub fn render_pixel(
    world: &HittableList,
    cam: &Camera,
    p: &RenderParams,
    row: usize,
    col: usize,
    smps: &Vec<PixelSample>,
) -> (c: Color)
    requires
        world.wf(),
        cam.wf(),
        p.wf(),
        row < p.height,
        col < p.width,
        pixel_samples_wf(smps@, p.max_bounces as nat),
    ensures
        c == pixel_color(*world, *cam, *p, row as int, col as int, smps@),
        c.within(SCALE as int),
{
    let mut r: i64 = 0;
    let mut g: i64 = 0;
    let mut b: i64 = 0;
    let mut i: usize = 0;
    while i < smps.len()
        invariant
            world.wf(),
            cam.wf(),
            p.wf(),
            row < p.height,
            col < p.width,
            pixel_samples_wf(smps@, p.max_bounces as nat),
            i <= smps@.len(),
            (r as int, g as int, b as int) == sample_sum(*world, *cam, *p, row as int, col as int, smps@.take(i as int)),
            0 <= r <= i * SCALE,
            0 <= g <= i * SCALE,
            0 <= b <= i * SCALE,
        decreases smps@.len() - i,
    {
        let smp = &smps[i];
        proof {
            assert(smps@.take(i + 1).drop_last() =~= smps@.take(i as int));
            assert(smps@[i as int].wf(p.max_bounces as nat));
            lemma_plane_coord(col as int, smp.jitter_x as int, p.width as int);
            lemma_plane_coord((p.height - 1 - row) as int, smp.jitter_y as int, p.height as int);
        }
        let s = floor_div((col as i128) * (SCALE as i128) + (smp.jitter_x as i128), p.width as i128) as i64;
        let t = floor_div(((p.height - 1 - row) as i128) * (SCALE as i128) + (smp.jitter_y as i128), p.height as i128) as i64;
        let ray = cam.ray(s, t, smp.lens_x, smp.lens_y);
        let c = color(&ray, world, p.max_bounces, &smp.bounces);
        r = r + c.r;
        g = g + c.g;
        b = b + c.b;
        i = i + 1;
    }
    proof {
        assert(smps@.take(i as int) =~= smps@);
    }
    let n = smps.len() as i128;
    proof {
        lemma_mean_within(r as int, n as int);
        lemma_mean_within(g as int, n as int);
        lemma_mean_within(b as int, n as int);
    }
    Color {
        r: floor_div(r as i128, n) as i64,
        g: floor_div(g as i128, n) as i64,
        b: floor_div(b as i128, n) as i64,
    }
}

/// A mean of `n` values in `[0, SCALE]` lies in `[0, SCALE]`.
proof fn lemma_mean_within(sum: int, n: int)
    requires
        n >= 1,
        0 <= sum <= n * SCALE,
    ensures
        0 <= sum / n <= SCALE,
{
    lemma_floor_div(sum, n);
    let q = sum / n;
    if q > SCALE {
        assert(n * q > n * SCALE) by (nonlinear_arith)
            requires q > 65536, n >= 1;
    }
    if q < 0 {
        assert(n * q + n <= 0) by (nonlinear_arith)
            requires q < 0, n >= 1;
    }
}

/// The pixels of `rows` rows from `first_row` on, row-major. Pixel `k`
/// draws on `samples[k]`, so a block computes the same pixels wherever it is
/// rendered.
pub fn render_rows(
    world: &HittableList,
    cam: &Camera,
    p: &RenderParams,
    first_row: usize,
    rows: usize,
    samples: &Vec<Vec<PixelSample>>,
) -> (out: Vec<Color>)
    requires
        world.wf(),
        cam.wf(),
        p.wf(),
        first_row + rows <= p.height,
        samples@.len() == rows * p.width,
        forall|k: int| 0 <= k < samples@.len() ==> pixel_samples_wf(#[trigger] samples@[k]@, p.max_bounces as nat),
    ensures
        out@ == rows_spec(*world, *cam, *p, first_row as int, rows as int, samples@),
{
    let mut out: Vec<Color> = Vec::new();
    let mut k: usize = 0;
    let n = samples.len();
    while k < n
        invariant
            world.wf(),
            cam.wf(),
            p.wf(),
            first_row + rows <= p.height,
            n == samples@.len() == rows * p.width,
            forall|j: int| 0 <= j < samples@.len() ==> pixel_samples_wf(#[trigger] samples@[j]@, p.max_bounces as nat),
            k <= n,
            out@.len() == k,
            forall|j: int| 0 <= j < k ==> out@[j] == #[trigger] rows_spec(*world, *cam, *p, first_row as int, rows as int, samples@)[j],
        decreases n - k,
    {
        proof {
            lemma_row_in_block(k as int, rows as int, p.width as int);
        }
        let row = first_row + k / p.width;
        let col = k % p.width;
        let c = render_pixel(world, cam, p, row, col, &samples[k]);
        out.push(c);
        k = k + 1;
    }
    proof {
        assert(out@ =~= rows_spec(*world, *cam, *p, first_row as int, rows as int, samples@));
    }
    out
}

proof fn lemma_row_in_block(k: int, rows: int, width: int)
    requires
        width >= 1,
        0 <= k < rows * width,
    ensures
        0 <= k / width < rows,
        0 <= k % width < width,
{
    lemma_floor_div(k, width);
    lemma_fundamental_div_mod(k, width);
    let q = k / width;
    if q >= rows {
        assert(width * q >= rows * width) by (nonlinear_arith)
            requires q >= rows, width >= 1;
    }
    if q < 0 {
        assert(width * q + width <= 0) by (nonlinear_arith)
            requires q < 0, width >= 1;
    }
}

/// Partitioning: rendering a block of rows in two parts, each with its own
/// pixels' samples, gives the pixels of rendering the block at once.
pub proof fn lemma_rows_split(
    world: HittableList,
    cam: Camera,
    p: RenderParams,
    first_row: int,
    top: int,
    bottom: int,
    samples: Seq<Vec<PixelSample>>,
)
    requires
        p.wf(),
        top >= 0,
        bottom >= 0,
        samples.len() == (top + bottom) * p.width,
    ensures
        rows_spec(world, cam, p, first_row, top + bottom, samples)
            == rows_spec(world, cam, p, first_row, top, samples.take(top * p.width))
                + rows_spec(world, cam, p, first_row + top, bottom, samples.skip(top * p.width)),
{
    let w = p.width as int;
    let whole = rows_spec(world, cam, p, first_row, top + bottom, samples);
    let a = rows_spec(world, cam, p, first_row, top, samples.take(top * w));
    let b = rows_spec(world, cam, p, first_row + top, bottom, samples.skip(top * w));
    assert((top + bottom) * w == top * w + bottom * w) by (nonlinear_arith);
    assert(top * w >= 0 && bottom * w >= 0) by (nonlinear_arith)
        requires top >= 0, bottom >= 0, w >= 1;
    assert forall|k: int| top * w <= k < (top + bottom) * w implies whole[k] == b[k - top * w] by {
        let j = k - top * w;
        lemma_fundamental_div_mod(j, w);
        lemma_floor_div(j, w);
        assert(k == (top + j / w) * w + j % w) by (nonlinear_arith)
            requires k == j + top * w, j == w * (j / w) + j % w;
        lemma_fundamental_div_mod_converse(k, w, top + j / w, j % w);
    }
    assert(whole =~= a + b);
}

/// Packs 8-bit channels into one word: red in bits 16..24, green in 8..16,
/// blue in 0..8.
pub fn pack_rgb(r: u8, g: u8, b: u8) -> (w: u32)
    ensures
        w == r * 65536 + g * 256 + b,
{
    (r as u32) * 65536 + (g as u32) * 256 + (b as u32)
}

} // verus!
