//! The demonstration scene: a grid of small random spheres around three
//! large ones, on a ground sphere.
use vstd::prelude::*;
use crate::fixed::{SCALE, fmul, fx_mul};
use crate::vector::{Vec3, v3, vsub, norm_sq};
use crate::color::{Color, rgb};
use crate::color::lemma_fmul_unit;
use crate::material::{MaterialEnum, Lambertian, Metal, Dielectric};
use crate::geometry::{Sphere, HittableEnum, HittableList};

verus! {

/// Cells per side of the grid of small spheres.
pub const GRID: usize = 22;

/// Uniform values one grid cell consumes.
pub const CELL_DRAWS: usize = 9;

/// Radius of the small spheres (0.2).
pub const SMALL_RADIUS: i64 = 13107;

/// Jitter of a small sphere within its cell (0.9).
pub const JITTER: i64 = 58982;

/// Refractive index of glass (1.5).
pub const GLASS: i64 = 98304;

/// `d` holds one cell's draws, each uniform in `[0, SCALE)`.
pub open spec fn draws_wf(d: Seq<i64>) -> bool {
    d.len() == CELL_DRAWS && forall|i: int| 0 <= i < d.len() ==> 0 <= #[trigger] d[i] < SCALE
}

/// The centre of the sphere of cell `(x, z)`.
pub open spec fn cell_center(x: int, z: int, d: Seq<i64>) -> Vec3 {
    v3(x * SCALE + fmul(d[0] as int, JITTER as int), SMALL_RADIUS as int, z * SCALE + fmul(d[1] as int, JITTER as int))
}

/// A cell keeps its sphere unless it is within 0.9 of the metal sphere's foot.
pub open spec fn cell_kept(c: Vec3) -> bool {
    norm_sq(vsub(c, v3(4 * SCALE, SMALL_RADIUS as int, 0))) > JITTER * JITTER
}

/// Diffuse with probability 0.8, metal with 0.15, glass otherwise.
pub open spec fn cell_material(d: Seq<i64>) -> MaterialEnum {
    if d[2] < 52429 {
        MaterialEnum::Lambertian(Lambertian {
            albedo: rgb(fmul(d[3] as int, d[4] as int), fmul(d[5] as int, d[6] as int), fmul(d[7] as int, d[8] as int)),
        })
    } else if d[2] < 62259 {
        MaterialEnum::Metal(Metal {
            albedo: rgb(SCALE / 2 + d[3] / 2, SCALE / 2 + d[4] / 2, SCALE / 2 + d[5] / 2),
            fuzz: (d[6] / 2) as i64,
        })
    } else {
        MaterialEnum::Dielectric(Dielectric { index: GLASS })
    }
}

pub open spec fn cell_sphere(x: int, z: int, d: Seq<i64>) -> Option<Sphere> {
    let c = cell_center(x, z, d);
    if cell_kept(c) {
        Some(Sphere { center: c, radius: SMALL_RADIUS, material: cell_material(d) })
    } else {
        None
    }
}

/// The spheres of the first `n` cells, in order; cell `k` is
/// `(k / GRID - 11, k % GRID - 11)`.
pub open spec fn grid_spheres(cells: Seq<Vec<i64>>, n: int) -> Seq<HittableEnum>
    decreases n,
{
    if n <= 0 {
        Seq::empty()
    } else {
        let prev = grid_spheres(cells, n - 1);
        match cell_sphere((n - 1) / GRID as int - 11, (n - 1) % GRID as int - 11, cells[n - 1]@) {
            Some(s) => prev.push(HittableEnum::Sphere(s)),
            None => prev,
        }
    }
}

pub open spec fn big_spheres() -> Seq<HittableEnum> {
    seq![
        HittableEnum::Sphere(Sphere {
            center: v3(0, -1000 * SCALE, 0),
            radius: (1000 * SCALE) as i64,
            material: MaterialEnum::Lambertian(Lambertian { albedo: rgb(32768, 32768, 32768) }),
        }),
        HittableEnum::Sphere(Sphere {
            center: v3(0, SCALE as int, 0),
            radius: SCALE,
            material: MaterialEnum::Dielectric(Dielectric { index: GLASS }),
        }),
        HittableEnum::Sphere(Sphere {
            center: v3(-4 * SCALE, SCALE as int, 0),
            radius: SCALE,
            material: MaterialEnum::Lambertian(Lambertian { albedo: rgb(26214, 13107, 6554) }),
        }),
        HittableEnum::Sphere(Sphere {
            center: v3(4 * SCALE, SCALE as int, 0),
            radius: SCALE,
            material: MaterialEnum::Metal(Metal { albedo: rgb(45875, 39322, 32768), fuzz: 0 }),
        }),
    ]
}

/// The sphere of cell `(x, z)`, if the cell keeps one.
pub fn random_sphere(x: i64, z: i64, d: &Vec<i64>) -> (r: Option<Sphere>)
    requires
        -11 <= x <= 10,
        -11 <= z <= 10,
        draws_wf(d@),
    ensures
        r == cell_sphere(x as int, z as int, d@),
        r matches Some(s) ==> s.wf(),
{
    proof {
        assert(0 <= d[0] < SCALE && 0 <= d[1] < SCALE);
        lemma_fmul_unit(d[0] as int, JITTER as int);
        lemma_fmul_unit(d[1] as int, JITTER as int);
    }
    let dx = fx_mul(d[0], JITTER);
    let dz = fx_mul(d[1], JITTER);
    let center = Vec3 { x: x * SCALE + dx, y: SMALL_RADIUS, z: z * SCALE + dz };
    let ex = center.x - 4 * SCALE;
    let ey = center.y - SMALL_RADIUS;
    let ez = center.z;
    assert(0 <= ex * ex <= 0x100_0000_0000 && 0 <= ez * ez <= 0x100_0000_0000) by (nonlinear_arith)
        requires -0x10_0000 <= ex <= 0x10_0000, -0x10_0000 <= ez <= 0x10_0000;
    if ex * ex + ey * ey + ez * ez <= JITTER * JITTER {
        return None;
    }
    proof {
        assert(0 <= d[2] < SCALE && 0 <= d[3] < SCALE && 0 <= d[4] < SCALE && 0 <= d[5] < SCALE);
        assert(0 <= d[6] < SCALE && 0 <= d[7] < SCALE && 0 <= d[8] < SCALE);
    }
    let choice = d[2];
    let material = if choice < 52429 {
        proof {
            lemma_fmul_unit(d[3] as int, d[4] as int);
            lemma_fmul_unit(d[5] as int, d[6] as int);
            lemma_fmul_unit(d[7] as int, d[8] as int);
        }
        MaterialEnum::Lambertian(Lambertian {
            albedo: Color { r: fx_mul(d[3], d[4]), g: fx_mul(d[5], d[6]), b: fx_mul(d[7], d[8]) },
        })
    } else if choice < 62259 {
        MaterialEnum::Metal(Metal {
            albedo: Color { r: SCALE / 2 + d[3] / 2, g: SCALE / 2 + d[4] / 2, b: SCALE / 2 + d[5] / 2 },
            fuzz: d[6] / 2,
        })
    } else {
        MaterialEnum::Dielectric(Dielectric { index: GLASS })
    };
    Some(Sphere { center, radius: SMALL_RADIUS, material })
}

/// The scene: the kept spheres of the `GRID` by `GRID` cells, cell `k`
/// drawing on `cells[k]`, then the ground and the three large spheres.
pub fn construct_scene(cells: &Vec<Vec<i64>>) -> (r: HittableList)
    requires
        cells@.len() == GRID * GRID,
        forall|k: int| 0 <= k < cells@.len() ==> draws_wf(#[trigger] cells@[k]@),
    ensures
        r.hittables@ == grid_spheres(cells@, (GRID * GRID) as int) + big_spheres(),
        r.wf(),
{
    let mut hittables: Vec<HittableEnum> = Vec::new();
    let mut k: usize = 0;
    while k < GRID * GRID
        invariant
            cells@.len() == GRID * GRID,
            forall|j: int| 0 <= j < cells@.len() ==> draws_wf(#[trigger] cells@[j]@),
            k <= GRID * GRID,
            hittables@ == grid_spheres(cells@, k as int),
            forall|i: int| 0 <= i < hittables@.len() ==> (#[trigger] hittables@[i]).wf(),
        decreases GRID * GRID - k,
    {
        let x = (k / GRID) as i64 - 11;
        let z = (k % GRID) as i64 - 11;
        if let Some(s) = random_sphere(x, z, &cells[k]) {
            hittables.push(HittableEnum::Sphere(s));
        }
        k = k + 1;
    }
    let grey = Color { r: 32768, g: 32768, b: 32768 };
    hittables.push(HittableEnum::Sphere(Sphere {
        center: Vec3 { x: 0, y: -1000 * SCALE, z: 0 },
        radius: 1000 * SCALE,
        material: MaterialEnum::Lambertian(Lambertian { albedo: grey }),
    }));
    hittables.push(HittableEnum::Sphere(Sphere {
        center: Vec3 { x: 0, y: SCALE, z: 0 },
        radius: SCALE,
        material: MaterialEnum::Dielectric(Dielectric { index: GLASS }),
    }));
    hittables.push(HittableEnum::Sphere(Sphere {
        center: Vec3 { x: -4 * SCALE, y: SCALE, z: 0 },
        radius: SCALE,
        material: MaterialEnum::Lambertian(Lambertian { albedo: Color { r: 26214, g: 13107, b: 6554 } }),
    }));
    hittables.push(HittableEnum::Sphere(Sphere {
        center: Vec3 { x: 4 * SCALE, y: SCALE, z: 0 },
        radius: SCALE,
        material: MaterialEnum::Metal(Metal { albedo: Color { r: 45875, g: 39322, b: 32768 }, fuzz: 0 }),
    }));
    proof {
        assert(hittables@ =~= grid_spheres(cells@, (GRID * GRID) as int) + big_spheres());
    }
    HittableList { hittables }
}

} // verus!
