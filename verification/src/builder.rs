//! Executable construction of the spatial index.
//!
//! [`build`] computes exactly the model [`crate::grid::spec_build`]: bounds
//! and resolution first, then per-cell candidate binning, then flattening
//! into headers and the shared index pool.

use vstd::prelude::*;

use crate::grid::Aabb;
use crate::grid::GridDims;
use crate::grid::GridParams;
use crate::grid::Sphere;
use crate::grid::SpatialIndex;
use crate::grid::Vec3i;
use crate::grid::cell_coord;
use crate::grid::cell_of_flat;
use crate::grid::child_coord;
use crate::grid::child_filter;
use crate::grid::child_of_flat;
use crate::grid::covers_child;
use crate::grid::covers_l0;
use crate::grid::flat_of_cell;
use crate::grid::grid_ext_x;
use crate::grid::grid_ext_y;
use crate::grid::grid_ext_z;
use crate::grid::grid_volume;
use crate::grid::l0_list;
use crate::grid::l0_list_upto;
use crate::grid::lemma_l0_list_elems;
use crate::grid::l0_header_model;
use crate::grid::l0_models;
use crate::grid::l1_header_model;
use crate::grid::l1_models;
use crate::grid::spec_build;
use crate::grid::spec_children;
use crate::grid::spec_flatten;
use crate::grid::L0Header;
use crate::grid::L0ModelHeader;
use crate::grid::L1Header;
use crate::grid::L1ModelHeader;
use crate::grid::lemma_cell_coord_monotone;
use crate::grid::lemma_child_coord_monotone;
use crate::grid::lemma_coords_flat;
use crate::grid::lemma_flat_coords;
use crate::grid::int_max;
use crate::grid::int_min;
use crate::grid::scene_box_upto;
use crate::grid::spec_cell_target;
use crate::grid::spec_dim_axis;
use crate::grid::spec_grid_params;
use crate::grid::spec_icbrt;
use crate::grid::spec_scene_box;
use crate::grid::wf_grid;
use crate::grid::wf_scene;
use crate::grid::wf_sphere;
use crate::grid::BOUNDS_MARGIN;
use crate::grid::CHILD_DIM;
use crate::grid::CHILD_TOTAL;
use crate::grid::COORD_LIMIT;
use crate::grid::MAX_LEAF;
use crate::grid::MAX_DIM;
use crate::grid::MIN_AXIS_EXTENT;
use crate::grid::UNIT_BOX_HALF;

verus! {

fn imax64(a: i64, b: i64) -> (r: i64)
    ensures
        r as int == int_max(a as int, b as int),
{
    if a > b {
        a
    } else {
        b
    }
}

fn imin64(a: i64, b: i64) -> (r: i64)
    ensures
        r as int == int_min(a as int, b as int),
{
    if a < b {
        a
    } else {
        b
    }
}

/// `spec_icbrt` is the floor of the cube root.
proof fn lemma_icbrt_bounds(n: int)
    requires
        n >= 0,
    ensures
        spec_icbrt(n) >= 0,
        spec_icbrt(n) * spec_icbrt(n) * spec_icbrt(n) <= n,
        n < (spec_icbrt(n) + 1) * (spec_icbrt(n) + 1) * (spec_icbrt(n) + 1),
    decreases n,
{
    if n == 0 {
    } else {
        lemma_icbrt_bounds(n - 1);
        let r = spec_icbrt(n - 1);
        if (r + 1) * (r + 1) * (r + 1) <= n {
            assert(spec_icbrt(n) == r + 1);
            assert(n - 1 < (r + 1) * (r + 1) * (r + 1));
            assert((r + 1) * (r + 1) * (r + 1) < (r + 2) * (r + 2) * (r + 2)) by (nonlinear_arith)
                requires
                    r >= 0,
            ;
            assert(n < (r + 2) * (r + 2) * (r + 2));
        } else {
            assert(spec_icbrt(n) == r);
            assert(n < (r + 1) * (r + 1) * (r + 1));
        }
    }
}

/// Any `r` bracketing `n` between consecutive cubes is the cube root.
proof fn lemma_icbrt_unique(n: int, r: int)
    requires
        n >= 0,
        r >= 0,
        r * r * r <= n,
        n < (r + 1) * (r + 1) * (r + 1),
    ensures
        r == spec_icbrt(n),
{
    lemma_icbrt_bounds(n);
    let s = spec_icbrt(n);
    if r < s {
        assert((r + 1) * (r + 1) * (r + 1) <= s * s * s) by (nonlinear_arith)
            requires
                0 <= r + 1 <= s,
        ;
    }
    if s < r {
        assert((s + 1) * (s + 1) * (s + 1) <= r * r * r) by (nonlinear_arith)
            requires
                0 <= s + 1 <= r,
        ;
    }
}

/// Floor of the integer cube root, by counting up.
fn icbrt(n: u64) -> (r: u64)
    requires
        n <= 300_000,
    ensures
        r as int == spec_icbrt(n as int),
{
    let mut r: u64 = 0;
    let mut cube: u64 = 1;
    while cube <= n
        invariant
            n <= 300_000,
            r <= 66,
            r * r * r <= n,
            cube == (r + 1) * (r + 1) * (r + 1),
        decreases n - r,
    {
        proof {
            assert(r + 1 <= 66) by (nonlinear_arith)
                requires
                    (r + 1) * (r + 1) * (r + 1) <= 300_000,
                    r >= 0,
            ;
            assert(r + 1 <= n) by (nonlinear_arith)
                requires
                    (r + 1) * (r + 1) * (r + 1) <= n,
                    r >= 0,
            ;
        }
        r = r + 1;
        proof {
            assert((r + 1) * (r + 1) <= 4489 && (r + 1) * (r + 1) * (r + 1) <= 300_763) by (nonlinear_arith)
                requires
                    0 <= r <= 66,
            ;
        }
        cube = (r + 1) * (r + 1) * (r + 1);
    }
    proof {
        assert(n < cube);
    }
    proof {
        lemma_icbrt_unique(n as int, r as int);
    }
    r
}

/// One axis of the resolution heuristic.
fn dim_axis(ext: i64, maxe: i64, base: u64) -> (d: u32)
    requires
        1 <= ext <= maxe,
        maxe <= 7_000_000_000,
        base <= 66,
    ensures
        d as int == spec_dim_axis(ext as int, maxe as int, base as int),
        1 <= d <= MAX_DIM,
{
    let e = ext as u64;
    let m = maxe as u64;
    proof {
        assert(0 <= e * base <= 7_000_000_000u64 * 66) by (nonlinear_arith)
            requires
                1 <= e <= 7_000_000_000u64,
                0 <= base <= 66,
        ;
    }
    let p = e * base;
    let t = (2 * p + m) / (2 * m);
    let c: u64 = if t < 1 {
        1
    } else if t > MAX_DIM as u64 {
        MAX_DIM as u64
    } else {
        t
    };
    c as u32
}

/// One axis of the grid coordinate of a point, clamped into the grid.
fn cell_coord_exec(p: i64, lo: i64, ext: i64, dim: u32) -> (c: u32)
    requires
        -2_100_000_000 <= p <= 2_100_000_000,
        -3_000_000_000 <= lo <= 3_000_000_000,
        1 <= ext <= 7_000_000_000,
        1 <= dim <= 64,
    ensures
        c as int == cell_coord(p as int, lo as int, ext as int, dim as int),
        c < dim,
{
    let rel: u64 = if p >= lo {
        (p - lo) as u64
    } else {
        0
    };
    proof {
        assert(rel * (dim as u64) <= 5_100_000_000u64 * 64) by (nonlinear_arith)
            requires
                rel <= 5_100_000_000u64,
                dim as u64 <= 64,
        ;
    }
    let q = rel * (dim as u64) / (ext as u64);
    let dm1 = (dim - 1) as u64;
    let c64 = if q > dm1 {
        dm1
    } else {
        q
    };
    c64 as u32
}

/// One axis of the child coordinate of a point within the parent cell `cell`.
fn child_coord_exec(p: i64, lo: i64, ext: i64, dim: u32, cell: u32) -> (c: u32)
    requires
        -2_100_000_000 <= p <= 2_100_000_000,
        -3_000_000_000 <= lo <= 3_000_000_000,
        1 <= ext <= 7_000_000_000,
        1 <= dim <= 64,
        cell < dim,
    ensures
        c as int == child_coord(p as int, lo as int, ext as int, dim as int, cell as int),
        c < CHILD_DIM,
{
    let rel: u64 = if p >= lo {
        (p - lo) as u64
    } else {
        0
    };
    proof {
        assert(rel * (dim as u64) <= 5_100_000_000u64 * 64) by (nonlinear_arith)
            requires
                rel <= 5_100_000_000u64,
                dim as u64 <= 64,
        ;
    }
    let rd = rel * (dim as u64);
    proof {
        assert(CHILD_DIM == 4);
    }
    let num = rd * (CHILD_DIM as u64);
    let q = num / (ext as u64);
    proof {
        vstd::arithmetic::div_mod::lemma_fundamental_div_mod(num as int, ext as int);
        vstd::arithmetic::div_mod::lemma_mod_bound(num as int, ext as int);
        assert(q as int <= num as int) by (nonlinear_arith)
            requires
                num as int == ext as int * (q as int) + (num as int % ext as int),
                0 <= num as int % ext as int,
                1 <= ext as int,
                0 <= q as int,
        ;
    }
    proof {
        assert((CHILD_DIM as i64) * (cell as i64) <= 4 * 63) by (nonlinear_arith)
            requires
                (CHILD_DIM as i64) == 4,
                0 <= cell as i64 <= 63,
        ;
        assert((CHILD_DIM as i64) * (cell as i64) >= 0) by (nonlinear_arith)
            requires
                (CHILD_DIM as i64) == 4,
                0 <= cell as i64,
        ;
    }
    let sh = q as i64 - (CHILD_DIM as i64) * (cell as i64);
    let c64: i64 = if sh < 0 {
        0
    } else if sh > CHILD_DIM as i64 - 1 {
        CHILD_DIM as i64 - 1
    } else {
        sh
    };
    c64 as u32
}

/// A mutable borrow of one element of a vector.
fn vec_index_mut<T>(v: &mut Vec<T>, i: usize) -> (element: &mut T)
    requires
        i < old(v).len(),
    ensures
        *element == old(v)@[i as int],
        final(v)@ == old(v)@.update(i as int, *final(element)),
{
    &mut v[i]
}

/// Append `sid` to every list of one contiguous row `base + x0 ..= base + x1`.
fn bin_row(lists: &mut Vec<Vec<u32>>, base: usize, x0: usize, x1: usize, sid: u32)
    requires
        x0 <= x1,
        base + x1 < old(lists).len(),
    ensures
        final(lists).len() == old(lists).len(),
        forall|f: int|
            0 <= f < old(lists).len() ==> final(lists)@[f]@ == (if base + x0 <= f <= base + x1 {
                old(lists)@[f]@.push(sid)
            } else {
                old(lists)@[f]@
            }),
{
    let mut x = x0;
    while x <= x1
        invariant
            x0 <= x <= x1 + 1,
            base + x1 < lists.len(),
            lists.len() == old(lists).len(),
            forall|f: int|
                0 <= f < lists.len() ==> lists@[f]@ == (if base + x0 <= f < base + x {
                    old(lists)@[f]@.push(sid)
                } else {
                    old(lists)@[f]@
                }),
        decreases x1 + 1 - x,
    {
        let e = vec_index_mut(lists, base + x);
        e.push(sid);
        x += 1;
    }
}

/// Whether the flat cell index `f` lies in the coordinate rectangle
/// `[x0, x1] x [y0, y1] x [z0, z1]` of a grid with resolution
/// `(dx, dy, dz)`.
spec fn in_rect(
    f: int,
    dx: int,
    dy: int,
    x0: int,
    x1: int,
    y0: int,
    y1: int,
    z0: int,
    z1: int,
) -> bool {
    &&& x0 <= f % dx <= x1
    &&& y0 <= (f / dx) % dy <= y1
    &&& z0 <= f / (dx * dy) <= z1
}

/// Append `sid` to every list whose cell lies in the given coordinate
/// rectangle.
#[verifier::rlimit(30)]
fn bin_box(
    lists: &mut Vec<Vec<u32>>,
    dx: usize,
    dy: usize,
    dz: usize,
    x0: usize,
    x1: usize,
    y0: usize,
    y1: usize,
    z0: usize,
    z1: usize,
    sid: u32,
)
    requires
        1 <= dx <= 64,
        1 <= dy <= 64,
        1 <= dz <= 64,
        old(lists).len() == dx * dy * dz,
        x0 <= x1 < dx,
        y0 <= y1 < dy,
        z0 <= z1 < dz,
    ensures
        final(lists).len() == old(lists).len(),
        forall|f: int|
            0 <= f < old(lists).len() ==> final(lists)@[f]@ == (if in_rect(
                f,
                dx as int,
                dy as int,
                x0 as int,
                x1 as int,
                y0 as int,
                y1 as int,
                z0 as int,
                z1 as int,
            ) {
                old(lists)@[f]@.push(sid)
            } else {
                old(lists)@[f]@
            }),
{
    let ghost dxi = dx as int;
    let ghost dyi = dy as int;
    let ghost dzi = dz as int;
    let mut z = z0;
    while z <= z1
        invariant
            1 <= dx <= 64,
            1 <= dy <= 64,
            1 <= dz <= 64,
            dxi == dx as int,
            dyi == dy as int,
            dzi == dz as int,
            x0 <= x1 < dx,
            y0 <= y1 < dy,
            z0 <= z <= z1 + 1,
            z1 < dz,
            lists.len() == old(lists).len(),
            old(lists).len() == dx * dy * dz,
            forall|f: int|
                0 <= f < lists.len() ==> lists@[f]@ == (if x0 <= f % dxi <= x1 && y0 <= (f / dxi)
                    % dyi <= y1 && z0 <= f / (dxi * dyi) < z {
                    old(lists)@[f]@.push(sid)
                } else {
                    old(lists)@[f]@
                }),
        decreases z1 + 1 - z,
    {
        let ghost plane_entry = lists@;
        let mut y = y0;
        while y <= y1
            invariant
                1 <= dx <= 64,
                1 <= dy <= 64,
                1 <= dz <= 64,
                dxi == dx as int,
                dyi == dy as int,
                dzi == dz as int,
                x0 <= x1 < dx,
                y0 <= y <= y1 + 1,
                y1 < dy,
                z0 <= z <= z1,
                z1 < dz,
                lists.len() == old(lists).len(),
                old(lists).len() == dx * dy * dz,
                forall|f: int|
                    0 <= f < lists.len() ==> lists@[f]@ == (if x0 <= f % dxi <= x1 && y0 <= (f
                        / dxi) % dyi <= y1 && z0 <= f / (dxi * dyi) < z {
                        old(lists)@[f]@.push(sid)
                    } else if x0 <= f % dxi <= x1 && y0 <= (f / dxi) % dyi < y && f / (dxi * dyi)
                        == z {
                        old(lists)@[f]@.push(sid)
                    } else {
                        old(lists)@[f]@
                    }),
            decreases y1 + 1 - y,
        {
            proof {
                assert(dy * z <= 64 * 63) by (nonlinear_arith)
                    requires
                        dy <= 64,
                        0 <= z < 64,
                ;
            }
            let row = y + dy * z;
            proof {
                assert(dx * row <= 64 * (63 + 64 * 63)) by (nonlinear_arith)
                    requires
                        dx <= 64,
                        0 <= row <= 63 + 64 * 63,
                ;
            }
            let base = dx * row;
            proof {
                lemma_flat_coords(dxi, dyi, dzi, x0 as int, y as int, z as int);
                lemma_flat_coords(dxi, dyi, dzi, x1 as int, y as int, z as int);
            }
            let ghost row_entry = lists@;
            bin_row(lists, base, x0, x1, sid);
            proof {
                assert forall|f: int| 0 <= f < lists.len() implies lists@[f]@ == (if x0 <= f % dxi
                    <= x1 && y0 <= (f / dxi) % dyi <= y1 && z0 <= f / (dxi * dyi) < z {
                    old(lists)@[f]@.push(sid)
                } else if x0 <= f % dxi <= x1 && y0 <= (f / dxi) % dyi < y + 1 && f / (dxi * dyi)
                    == z {
                    old(lists)@[f]@.push(sid)
                } else {
                    old(lists)@[f]@
                }) by {
                    let bi = base as int;
                    if bi + x0 <= f <= bi + x1 {
                        // inside the freshly pushed row: decompose f
                        assert(f == (f - bi) + dxi * (y as int + dyi * z as int));
                        lemma_flat_coords(dxi, dyi, dzi, f - bi, y as int, z as int);
                        assert(f % dxi == f - bi);
                        assert((f / dxi) % dyi == y as int);
                        assert(f / (dxi * dyi) == z as int);
                        assert(!(z0 <= f / (dxi * dyi) < z));
                    } else {
                        // untouched by the row: if its coordinates named this row,
                        // it would lie inside the row's flat range
                        if x0 <= f % dxi <= x1 && (f / dxi) % dyi == y as int && f / (dxi * dyi)
                            == z as int {
                            lemma_coords_flat(dxi, dyi, dzi, f);
                            assert(f == (f % dxi) + dxi * (y as int + dyi * z as int));
                            assert(bi + x0 <= f <= bi + x1);
                        }
                    }
                }
            }
            y += 1;
        }
        proof {
            assert forall|f: int| 0 <= f < lists.len() implies lists@[f]@ == (if x0 <= f % dxi
                <= x1 && y0 <= (f / dxi) % dyi <= y1 && z0 <= f / (dxi * dyi) < z + 1 {
                old(lists)@[f]@.push(sid)
            } else {
                old(lists)@[f]@
            }) by {
                if 0 <= f < lists.len() {
                    lemma_coords_flat(dxi, dyi, dzi, f);
                }
            }
        }
        z += 1;
    }
}

/// All candidate lists of the top-level grid: for every cell, the covering
/// non-ground spheres in ascending index order.
fn bin_spheres(spheres: &Vec<Sphere>, g: &GridParams) -> (lists: Vec<Vec<u32>>)
    requires
        wf_scene(spheres@),
        wf_grid(*g),
    ensures
        lists@.len() == grid_volume(*g),
        forall|cx: int, cy: int, cz: int|
            0 <= cx < g.dims.x && 0 <= cy < g.dims.y && 0 <= cz < g.dims.z ==> #[trigger] l0_list(
                spheres@,
                *g,
                cx,
                cy,
                cz,
            ) == lists@[flat_of_cell(*g, cx, cy, cz)]@,
{
    let ghost gs = spheres@;
    let dx = g.dims.x as usize;
    let dy = g.dims.y as usize;
    let dz = g.dims.z as usize;
    proof {
        assert(1 <= dx * dy <= 4096) by (nonlinear_arith)
            requires
                1 <= dx <= 64,
                1 <= dy <= 64,
        ;
        assert(1 <= dx * dy * dz <= 262_144) by (nonlinear_arith)
            requires
                1 <= dx * dy <= 4096,
                1 <= dz <= 64,
        ;
    }
    let vol = dx * dy * dz;
    let mut lists: Vec<Vec<u32>> = Vec::new();
    while lists.len() < vol
        invariant
            lists@.len() <= vol,
            forall|f: int| 0 <= f < lists@.len() ==> #[trigger] lists@[f]@ == Seq::<u32>::empty(),
        decreases vol - lists.len(),
    {
        lists.push(Vec::new());
    }
    let ex = imax64(g.bmax.x - g.bmin.x, MIN_AXIS_EXTENT);
    let ey = imax64(g.bmax.y - g.bmin.y, MIN_AXIS_EXTENT);
    let ez = imax64(g.bmax.z - g.bmin.z, MIN_AXIS_EXTENT);
    proof {
        assert forall|cx: int, cy: int, cz: int|
            0 <= cx < g.dims.x && 0 <= cy < g.dims.y && 0 <= cz
                < g.dims.z implies #[trigger] l0_list_upto(gs, *g, cx, cy, cz, 1)
            == lists@[flat_of_cell(*g, cx, cy, cz)]@ by {
            lemma_flat_coords(dx as int, dy as int, dz as int, cx, cy, cz);
        }
    }
    let n = spheres.len();
    let mut i: usize = 1;
    while i < n
        invariant
            wf_scene(gs),
            gs == spheres@,
            n == gs.len(),
            wf_grid(*g),
            1 <= i,
            n >= 2 ==> i <= n,
            n < 2 ==> i == 1,
            dx == g.dims.x as usize,
            dy == g.dims.y as usize,
            dz == g.dims.z as usize,
            vol == dx * dy * dz,
            vol == grid_volume(*g),
            ex as int == grid_ext_x(*g),
            ey as int == grid_ext_y(*g),
            ez as int == grid_ext_z(*g),
            lists@.len() == vol,
            forall|cx: int, cy: int, cz: int|
                0 <= cx < g.dims.x && 0 <= cy < g.dims.y && 0 <= cz < g.dims.z
                    ==> #[trigger] l0_list_upto(gs, *g, cx, cy, cz, i as int) == lists@[flat_of_cell(
                    *g,
                    cx,
                    cy,
                    cz,
                )]@,
        decreases n - i,
    {
        let s = spheres[i];
        proof {
            assert(wf_sphere(gs[i as int]));
        }
        let lox = s.center.x - s.radius;
        let loy = s.center.y - s.radius;
        let loz = s.center.z - s.radius;
        let hix = s.center.x + s.radius;
        let hiy = s.center.y + s.radius;
        let hiz = s.center.z + s.radius;
        let x0 = cell_coord_exec(lox, g.bmin.x, ex, g.dims.x);
        let x1 = cell_coord_exec(hix, g.bmin.x, ex, g.dims.x);
        let y0 = cell_coord_exec(loy, g.bmin.y, ey, g.dims.y);
        let y1 = cell_coord_exec(hiy, g.bmin.y, ey, g.dims.y);
        let z0 = cell_coord_exec(loz, g.bmin.z, ez, g.dims.z);
        let z1 = cell_coord_exec(hiz, g.bmin.z, ez, g.dims.z);
        proof {
            lemma_cell_coord_monotone(
                lox as int,
                hix as int,
                g.bmin.x as int,
                grid_ext_x(*g),
                g.dims.x as int,
            );
            lemma_cell_coord_monotone(
                loy as int,
                hiy as int,
                g.bmin.y as int,
                grid_ext_y(*g),
                g.dims.y as int,
            );
            lemma_cell_coord_monotone(
                loz as int,
                hiz as int,
                g.bmin.z as int,
                grid_ext_z(*g),
                g.dims.z as int,
            );
        }
        let ghost pre = lists@;
        bin_box(
            &mut lists,
            dx,
            dy,
            dz,
            x0 as usize,
            x1 as usize,
            y0 as usize,
            y1 as usize,
            z0 as usize,
            z1 as usize,
            i as u32,
        );
        proof {
            let dxi = dx as int;
            let dyi = dy as int;
            let dzi = dz as int;
            assert forall|cx: int, cy: int, cz: int|
                0 <= cx < g.dims.x && 0 <= cy < g.dims.y && 0 <= cz
                    < g.dims.z implies #[trigger] l0_list_upto(gs, *g, cx, cy, cz, i + 1)
                == lists@[flat_of_cell(*g, cx, cy, cz)]@ by {
                lemma_flat_coords(dxi, dyi, dzi, cx, cy, cz);
                let f = flat_of_cell(*g, cx, cy, cz);
                assert(f == cx + dxi * (cy + dyi * cz));
                assert(f % dxi == cx && (f / dxi) % dyi == cy && f / (dxi * dyi) == cz);
                assert(in_rect(
                    f,
                    dxi,
                    dyi,
                    x0 as int,
                    x1 as int,
                    y0 as int,
                    y1 as int,
                    z0 as int,
                    z1 as int,
                ) == covers_l0(gs, *g, i as int, cx, cy, cz));
                assert(pre[f]@ == l0_list_upto(gs, *g, cx, cy, cz, i as int));
            }
        }
        i += 1;
    }
    proof {
        assert forall|cx: int, cy: int, cz: int|
            0 <= cx < g.dims.x && 0 <= cy < g.dims.y && 0 <= cz < g.dims.z implies #[trigger] l0_list(
            gs,
            *g,
            cx,
            cy,
            cz,
        ) == lists@[flat_of_cell(*g, cx, cy, cz)]@ by {
            if n < 2 {
                assert(l0_list_upto(gs, *g, cx, cy, cz, n as int) == l0_list_upto(
                    gs,
                    *g,
                    cx,
                    cy,
                    cz,
                    i as int,
                ));
            }
        }
    }
    lists
}

/// Subdivide one dense cell: re-bin its candidates into the 64 children and
/// append each child's header and pool entries, exactly [`spec_children`].
fn subdivide_cell(
    spheres: &Vec<Sphere>,
    g: &GridParams,
    cx: u32,
    cy: u32,
    cz: u32,
    list: &Vec<u32>,
    l1: &mut Vec<L1Header>,
    pool: &mut Vec<u32>,
)
    requires
        wf_scene(spheres@),
        wf_grid(*g),
        cx < g.dims.x,
        cy < g.dims.y,
        cz < g.dims.z,
        list@ == l0_list(spheres@, *g, cx as int, cy as int, cz as int),
    ensures
        l1_models(final(l1)@) == l1_models(old(l1)@) + spec_children(
            spheres@,
            *g,
            cx as int,
            cy as int,
            cz as int,
            old(pool)@.len() as int,
            CHILD_TOTAL as int,
        ).0,
        final(pool)@ == old(pool)@ + spec_children(
            spheres@,
            *g,
            cx as int,
            cy as int,
            cz as int,
            old(pool)@.len() as int,
            CHILD_TOTAL as int,
        ).1,
{
    let ghost gs = spheres@;
    let ghost cxi = cx as int;
    let ghost cyi = cy as int;
    let ghost czi = cz as int;
    let ghost llist = l0_list(gs, *g, cxi, cyi, czi);
    proof {
        lemma_l0_list_elems(gs, *g, cxi, cyi, czi, gs.len() as int);
    }
    let mut ch: Vec<Vec<u32>> = Vec::new();
    while ch.len() < CHILD_TOTAL
        invariant
            ch@.len() <= CHILD_TOTAL,
            forall|f: int| 0 <= f < ch@.len() ==> #[trigger] ch@[f]@ == Seq::<u32>::empty(),
        decreases CHILD_TOTAL - ch.len(),
    {
        ch.push(Vec::new());
    }
    let ex = imax64(g.bmax.x - g.bmin.x, MIN_AXIS_EXTENT);
    let ey = imax64(g.bmax.y - g.bmin.y, MIN_AXIS_EXTENT);
    let ez = imax64(g.bmax.z - g.bmin.z, MIN_AXIS_EXTENT);
    proof {
        assert forall|ux: int, uy: int, uz: int|
            0 <= ux < 4 && 0 <= uy < 4 && 0 <= uz < 4 implies #[trigger] child_filter(
            gs,
            *g,
            cxi,
            cyi,
            czi,
            ux,
            uy,
            uz,
            llist.take(0),
        ) == ch@[ux + 4 * (uy + 4 * uz)]@ by {
            lemma_flat_coords(4, 4, 4, ux, uy, uz);
        }
    }
    let mut k: usize = 0;
    while k < list.len()
        invariant
            wf_scene(gs),
            gs == spheres@,
            wf_grid(*g),
            cx < g.dims.x,
            cy < g.dims.y,
            cz < g.dims.z,
            cxi == cx as int,
            cyi == cy as int,
            czi == cz as int,
            list@ == llist,
            llist == l0_list(gs, *g, cxi, cyi, czi),
            forall|j: int|
                0 <= j < llist.len() ==> 1 <= #[trigger] llist[j] < gs.len(),
            k <= list.len(),
            ch@.len() == CHILD_TOTAL,
            ex as int == grid_ext_x(*g),
            ey as int == grid_ext_y(*g),
            ez as int == grid_ext_z(*g),
            forall|ux: int, uy: int, uz: int|
                0 <= ux < 4 && 0 <= uy < 4 && 0 <= uz < 4 ==> #[trigger] child_filter(
                    gs,
                    *g,
                    cxi,
                    cyi,
                    czi,
                    ux,
                    uy,
                    uz,
                    llist.take(k as int),
                ) == ch@[ux + 4 * (uy + 4 * uz)]@,
        decreases list.len() - k,
    {
        let sid = list[k];
        proof {
            assert(1 <= llist[k as int] < gs.len());
        }
        let s = spheres[sid as usize];
        proof {
            assert(wf_sphere(gs[sid as int]));
        }
        let lox = s.center.x - s.radius;
        let loy = s.center.y - s.radius;
        let loz = s.center.z - s.radius;
        let hix = s.center.x + s.radius;
        let hiy = s.center.y + s.radius;
        let hiz = s.center.z + s.radius;
        let ux0 = child_coord_exec(lox, g.bmin.x, ex, g.dims.x, cx);
        let ux1 = child_coord_exec(hix, g.bmin.x, ex, g.dims.x, cx);
        let uy0 = child_coord_exec(loy, g.bmin.y, ey, g.dims.y, cy);
        let uy1 = child_coord_exec(hiy, g.bmin.y, ey, g.dims.y, cy);
        let uz0 = child_coord_exec(loz, g.bmin.z, ez, g.dims.z, cz);
        let uz1 = child_coord_exec(hiz, g.bmin.z, ez, g.dims.z, cz);
        proof {
            lemma_child_coord_monotone(
                lox as int,
                hix as int,
                g.bmin.x as int,
                grid_ext_x(*g),
                g.dims.x as int,
                cxi,
            );
            lemma_child_coord_monotone(
                loy as int,
                hiy as int,
                g.bmin.y as int,
                grid_ext_y(*g),
                g.dims.y as int,
                cyi,
            );
            lemma_child_coord_monotone(
                loz as int,
                hiz as int,
                g.bmin.z as int,
                grid_ext_z(*g),
                g.dims.z as int,
                czi,
            );
        }
        let ghost pre = ch@;
        bin_box(
            &mut ch,
            4,
            4,
            4,
            ux0 as usize,
            ux1 as usize,
            uy0 as usize,
            uy1 as usize,
            uz0 as usize,
            uz1 as usize,
            sid,
        );
        proof {
            assert forall|ux: int, uy: int, uz: int|
                0 <= ux < 4 && 0 <= uy < 4 && 0 <= uz < 4 implies #[trigger] child_filter(
                gs,
                *g,
                cxi,
                cyi,
                czi,
                ux,
                uy,
                uz,
                llist.take(k + 1),
            ) == ch@[ux + 4 * (uy + 4 * uz)]@ by {
                lemma_flat_coords(4, 4, 4, ux, uy, uz);
                let f = ux + 4 * (uy + 4 * uz);
                assert(f % 4 == ux && (f / 4) % 4 == uy && f / (4int * 4) == uz);
                assert(in_rect(
                    f,
                    4,
                    4,
                    ux0 as int,
                    ux1 as int,
                    uy0 as int,
                    uy1 as int,
                    uz0 as int,
                    uz1 as int,
                ) == covers_child(gs, *g, sid as int, cxi, cyi, czi, ux, uy, uz));
                assert(llist.take(k + 1).drop_last() =~= llist.take(k as int));
                assert(llist.take(k + 1).last() == llist[k as int]);
                assert(pre[f]@ == child_filter(
                    gs,
                    *g,
                    cxi,
                    cyi,
                    czi,
                    ux,
                    uy,
                    uz,
                    llist.take(k as int),
                ));
            }
        }
        k += 1;
    }
    proof {
        assert(llist.take(list.len() as int) =~= llist);
    }
    let ghost l1_entry = l1@;
    let ghost pool_entry = pool@;
    let mut u: usize = 0;
    while u < CHILD_TOTAL
        invariant
            u <= CHILD_TOTAL,
            ch@.len() == CHILD_TOTAL,
            gs == spheres@,
            cxi == cx as int,
            cyi == cy as int,
            czi == cz as int,
            llist == l0_list(gs, *g, cxi, cyi, czi),
            forall|ux: int, uy: int, uz: int|
                0 <= ux < 4 && 0 <= uy < 4 && 0 <= uz < 4 ==> #[trigger] child_filter(
                    gs,
                    *g,
                    cxi,
                    cyi,
                    czi,
                    ux,
                    uy,
                    uz,
                    llist,
                ) == ch@[ux + 4 * (uy + 4 * uz)]@,
            l1_models(l1@) == l1_models(l1_entry) + spec_children(
                gs,
                *g,
                cxi,
                cyi,
                czi,
                pool_entry.len() as int,
                u as int,
            ).0,
            pool@ == pool_entry + spec_children(
                gs,
                *g,
                cxi,
                cyi,
                czi,
                pool_entry.len() as int,
                u as int,
            ).1,
        decreases CHILD_TOTAL - u,
    {
        let ghost hs = spec_children(gs, *g, cxi, cyi, czi, pool_entry.len() as int, u as int).0;
        let ghost ps = spec_children(gs, *g, cxi, cyi, czi, pool_entry.len() as int, u as int).1;
        proof {
            lemma_coords_flat(4, 4, 4, u as int);
        }
        let cl = &ch[u];
        let ghost clv = cl@;
        let start = pool.len();
        let count = cl.len();
        let ghost l1_head = l1@;
        l1.push(L1Header { start, count });
        let ghost pool_mid = pool@;
        let mut k2: usize = 0;
        while k2 < count
            invariant
                k2 <= count,
                count == clv.len(),
                clv == cl@,
                cl@ == ch@[u as int]@,
                u < ch@.len(),
                pool@ == pool_mid + clv.take(k2 as int),
            decreases count - k2,
        {
            pool.push(cl[k2]);
            proof {
                assert(pool@ =~= pool_mid + clv.take(k2 + 1));
            }
            k2 += 1;
        }
        proof {
            let ghost uco = child_of_flat(u as int);
            assert(uco.0 == u as int % 4 && uco.1 == (u as int / 4) % 4 && uco.2 == u as int / 16);
            assert(u as int == uco.0 + 4 * (uco.1 + 4 * uco.2));
            assert(clv == child_filter(gs, *g, cxi, cyi, czi, uco.0, uco.1, uco.2, llist));
            assert(clv.take(count as int) =~= clv);
            assert(pool@ =~= pool_entry + (ps + clv));
            assert(start as int == pool_entry.len() + ps.len());
            let hdr = L1Header { start: start, count: count };
            assert(l1@ == l1_head.push(hdr));
            assert(l1_models(l1@) =~= l1_models(l1_head).push(l1_header_model(hdr)));
            assert(l1_models(l1_head) == l1_models(l1_entry) + hs);
            assert(l1_models(l1@) =~= l1_models(l1_entry) + hs.push(l1_header_model(hdr)));
            assert(l1_header_model(hdr) == (L1ModelHeader {
                start: (pool_entry.len() + ps.len()) as int,
                count: clv.len() as int,
            }));
        }
        u += 1;
    }
}

/// Bounds and resolution of a scene, exactly [`spec_grid_params`].
pub fn compute_grid_params(spheres: &Vec<Sphere>) -> (g: GridParams)
    requires
        wf_scene(spheres@),
    ensures
        g == spec_grid_params(spheres@),
        wf_grid(g),
{
    let ghost gs = spheres@;
    let n = spheres.len();

    let mut min_x: i64 = -UNIT_BOX_HALF;
    let mut min_y: i64 = -UNIT_BOX_HALF;
    let mut min_z: i64 = -UNIT_BOX_HALF;
    let mut max_x: i64 = UNIT_BOX_HALF;
    let mut max_y: i64 = UNIT_BOX_HALF;
    let mut max_z: i64 = UNIT_BOX_HALF;

    if n >= 2 {
        let s1 = spheres[1];
        min_x = s1.center.x - s1.radius;
        min_y = s1.center.y - s1.radius;
        min_z = s1.center.z - s1.radius;
        max_x = s1.center.x + s1.radius;
        max_y = s1.center.y + s1.radius;
        max_z = s1.center.z + s1.radius;
        let mut i: usize = 2;
        while i < n
            invariant
                wf_scene(gs),
                gs == spheres@,
                2 <= i <= n,
                n == gs.len(),
                (Aabb {
                    min_x: min_x as int,
                    min_y: min_y as int,
                    min_z: min_z as int,
                    max_x: max_x as int,
                    max_y: max_y as int,
                    max_z: max_z as int,
                }) == scene_box_upto(gs, i as int),
                -2 * COORD_LIMIT <= min_x <= 2 * COORD_LIMIT,
                -2 * COORD_LIMIT <= min_y <= 2 * COORD_LIMIT,
                -2 * COORD_LIMIT <= min_z <= 2 * COORD_LIMIT,
                -2 * COORD_LIMIT <= max_x <= 2 * COORD_LIMIT,
                -2 * COORD_LIMIT <= max_y <= 2 * COORD_LIMIT,
                -2 * COORD_LIMIT <= max_z <= 2 * COORD_LIMIT,
            decreases n - i,
        {
            let s = spheres[i];
            assert(wf_sphere(gs[i as int]));
            min_x = imin64(min_x, s.center.x - s.radius);
            min_y = imin64(min_y, s.center.y - s.radius);
            min_z = imin64(min_z, s.center.z - s.radius);
            max_x = imax64(max_x, s.center.x + s.radius);
            max_y = imax64(max_y, s.center.y + s.radius);
            max_z = imax64(max_z, s.center.z + s.radius);
            i += 1;
        }
        assert(scene_box_upto(gs, n as int) == spec_scene_box(gs));
    }

    let bmin_x = min_x - BOUNDS_MARGIN;
    let bmin_y = min_y - BOUNDS_MARGIN;
    let bmin_z = min_z - BOUNDS_MARGIN;
    let bmax_x = max_x + BOUNDS_MARGIN;
    let bmax_y = max_y + BOUNDS_MARGIN;
    let bmax_z = max_z + BOUNDS_MARGIN;

    let ex = imax64(bmax_x - bmin_x, MIN_AXIS_EXTENT);
    let ey = imax64(bmax_y - bmin_y, MIN_AXIS_EXTENT);
    let ez = imax64(bmax_z - bmin_z, MIN_AXIS_EXTENT);
    let maxe = imax64(ex, imax64(ey, ez));

    let non_ground = if n >= 2 {
        (n - 1) as u64
    } else {
        1u64
    };
    let target = if non_ground / 4 >= 1 {
        non_ground / 4
    } else {
        1u64
    };
    assert(target as int == spec_cell_target(gs.len() as int));
    let base = icbrt(target);
    proof {
        lemma_icbrt_bounds(target as int);
        if base > 66 {
            assert(67 * 67 * 67 <= base * base * base) by (nonlinear_arith)
                requires
                    67 <= base as int,
            ;
        }
    }

    let dims = GridDims {
        x: dim_axis(ex, maxe, base),
        y: dim_axis(ey, maxe, base),
        z: dim_axis(ez, maxe, base),
    };
    let g = GridParams {
        bmin: Vec3i { x: bmin_x, y: bmin_y, z: bmin_z },
        bmax: Vec3i { x: bmax_x, y: bmax_y, z: bmax_z },
        dims,
    };
    assert(g == spec_grid_params(gs));
    g
}

/// Build the complete spatial index of a scene.
///
/// The result is exactly [`spec_build`] of the sphere list, so two builds of
/// equal scenes yield equal indexes.
pub fn build(spheres: &Vec<Sphere>) -> (r: SpatialIndex)
    requires
        wf_scene(spheres@),
    ensures
        r@ == spec_build(spheres@),
        r.params == spec_grid_params(spheres@),
        wf_grid(r.params),
        r.l0.len() == grid_volume(r.params),
        r.l1.len() >= 1,
        r.pool.len() >= 1,
{
    let ghost gs = spheres@;
    let g = compute_grid_params(spheres);
    let lists = bin_spheres(spheres, &g);
    let dx = g.dims.x as usize;
    let dy = g.dims.y as usize;
    let dz = g.dims.z as usize;
    proof {
        assert(1 <= dx * dy <= 4096) by (nonlinear_arith)
            requires
                1 <= dx <= 64,
                1 <= dy <= 64,
        ;
    }
    let vol = lists.len();
    let mut l0: Vec<L0Header> = Vec::new();
    let mut l1: Vec<L1Header> = Vec::new();
    let mut pool: Vec<u32> = Vec::new();
    let mut idx: usize = 0;
    while idx < vol
        invariant
            wf_scene(gs),
            gs == spheres@,
            g == spec_grid_params(gs),
            wf_grid(g),
            dx == g.dims.x as usize,
            dy == g.dims.y as usize,
            dz == g.dims.z as usize,
            1 <= dx * dy <= 4096,
            lists@.len() == vol,
            vol == grid_volume(g),
            forall|cx: int, cy: int, cz: int|
                0 <= cx < g.dims.x && 0 <= cy < g.dims.y && 0 <= cz < g.dims.z
                    ==> #[trigger] l0_list(gs, g, cx, cy, cz) == lists@[flat_of_cell(
                    g,
                    cx,
                    cy,
                    cz,
                )]@,
            idx <= vol,
            l0@.len() == idx as int,
            l0_models(l0@) == spec_flatten(gs, g, idx as int).0,
            l1_models(l1@) == spec_flatten(gs, g, idx as int).1,
            pool@ == spec_flatten(gs, g, idx as int).2,
        decreases vol - idx,
    {
        proof {
            lemma_coords_flat(dx as int, dy as int, dz as int, idx as int);
        }
        let cxu = idx % dx;
        let cyu = (idx / dx) % dy;
        let czu = idx / (dx * dy);
        let cx = cxu as u32;
        let cy = cyu as u32;
        let cz = czu as u32;
        let ghost cxi = cx as int;
        let ghost cyi = cy as int;
        let ghost czi = cz as int;
        let list = &lists[idx];
        proof {
            assert(cell_of_flat(g, idx as int) == (cxi, cyi, czi));
            assert(flat_of_cell(g, cxi, cyi, czi) == idx as int);
            assert(list@ == l0_list(gs, g, cxi, cyi, czi));
        }
        if list.len() <= MAX_LEAF {
            let start = pool.len();
            let count = list.len();
            let ghost pool_mid = pool@;
            let mut k: usize = 0;
            while k < count
                invariant
                    k <= count,
                    count == list@.len(),
                    pool@ == pool_mid + list@.take(k as int),
                decreases count - k,
            {
                pool.push(list[k]);
                proof {
                    assert(pool@ =~= pool_mid + list@.take(k + 1));
                }
                k += 1;
            }
            l0.push(L0Header::Leaf { start, count });
            proof {
                assert(list@.take(count as int) =~= list@);
                let hdr = L0Header::Leaf { start, count };
                assert(l0_models(l0@) =~= spec_flatten(gs, g, idx as int).0.push(
                    l0_header_model(hdr),
                ));
                assert(l0_header_model(hdr) == (L0ModelHeader::Leaf {
                    start: pool_mid.len() as int,
                    count: list@.len() as int,
                }));
                assert(l0_models(l0@) == spec_flatten(gs, g, idx + 1).0);
                assert(l1_models(l1@) == spec_flatten(gs, g, idx + 1).1);
                assert(pool@ == spec_flatten(gs, g, idx + 1).2);
            }
        } else {
            let child_base = l1.len();
            let ghost l1_mid = l1@;
            let ghost pool_mid = pool@;
            subdivide_cell(spheres, &g, cx, cy, cz, list, &mut l1, &mut pool);
            l0.push(L0Header::Internal { child_base });
            proof {
                let hdr = L0Header::Internal { child_base };
                assert(l0_models(l0@) =~= spec_flatten(gs, g, idx as int).0.push(
                    l0_header_model(hdr),
                ));
                assert(l0_header_model(hdr) == (L0ModelHeader::Internal {
                    child_base: l1_mid.len() as int,
                }));
                assert(l1_models(l1_mid).len() == l1_mid.len());
                assert(l0_models(l0@) == spec_flatten(gs, g, idx + 1).0);
                assert(l1_models(l1@) == spec_flatten(gs, g, idx + 1).1);
                assert(pool@ == spec_flatten(gs, g, idx + 1).2);
            }
        }
        idx += 1;
    }
    proof {
        assert(l1_models(l1@).len() == l1@.len());
    }
    if l1.len() == 0 {
        l1.push(L1Header { start: 0, count: 0 });
        proof {
            assert(l1_models(l1@) =~= seq![L1ModelHeader { start: 0, count: 0 }]);
        }
    }
    if pool.len() == 0 {
        pool.push(0);
        proof {
            assert(pool@ =~= seq![0u32]);
        }
    }
    let r = SpatialIndex { params: g, l0, l1, pool };
    proof {
        assert(r@.l0 == spec_build(gs).l0);
        assert(r@.l1 == spec_build(gs).l1);
        assert(r@.pool == spec_build(gs).pool);
        assert(r@ == spec_build(gs));
    }
    r
}

} // verus!
