//! The two-level uniform spatial grid over a sphere scene.
//!
//! The grid indexes which spheres are reachable from which region of space so
//! that a ray query can restrict exact intersection tests to a few candidate
//! lists. Geometry is carried in fixed-point scene units (plain `i64`
//! coordinates); whoever fills a [`Sphere`] picks the unit scale.
//!
//! The whole index is the pure function [`spec_build`] of the sphere list;
//! [`crate::builder::build`] computes it. Cross-references inside the index
//! are `(start, count)` ranges and flat base offsets rather than pointers, so
//! the index can be handed to a separate execution context as opaque memory.

use vstd::prelude::*;

verus! {

/// A leaf keeps its candidate list inline; a cell with more candidates than
/// this is subdivided.
pub const MAX_LEAF: usize = 16;

/// Subdivided cells split into `4 x 4 x 4` children.
pub const CHILD_DIM: u32 = 4;

/// Total children of one subdivided cell.
pub const CHILD_TOTAL: usize = 64;

/// Per-axis upper clamp for the top-level grid resolution.
pub const MAX_DIM: u32 = 64;

/// Magnitude bound on sphere center coordinates and radii, in scene units.
pub const COORD_LIMIT: i64 = 1_000_000_000;

/// Upper bound on the size of a scene handed to the builder.
pub const MAX_SPHERES: usize = 1_048_576;

/// Padding added around the scene's bounding box, in scene units.
pub const BOUNDS_MARGIN: i64 = 500;

/// Smallest extent a grid axis is allowed to have, in scene units.
pub const MIN_AXIS_EXTENT: i64 = 100;

/// Half-width of the fallback bounding box used when the scene has no
/// non-ground sphere.
pub const UNIT_BOX_HALF: i64 = 1000;

/// A point or direction in fixed-point scene units.
#[derive(Clone, Copy, Debug, PartialEq, Eq, Structural)]
pub struct Vec3i {
    pub x: i64,
    pub y: i64,
    pub z: i64,
}

/// One sphere of the scene. Index 0 of a scene is reserved for the ground
/// sphere, whose huge radius would otherwise dominate the bounding box; it is
/// excluded from all spatial-bounds computation and from binning.
#[derive(Clone, Copy, Debug, PartialEq, Eq, Structural)]
pub struct Sphere {
    pub center: Vec3i,
    pub radius: i64,
    pub albedo: Vec3i,
}

/// Top-level grid resolution, per axis.
#[derive(Clone, Copy, Debug, PartialEq, Eq, Structural)]
pub struct GridDims {
    pub x: u32,
    pub y: u32,
    pub z: u32,
}

/// The fixed-layout record describing the grid to its consumers: padded
/// bounds and per-axis resolution. The per-axis cell size is
/// `grid_ext / dims`, with `grid_ext` as in [`grid_ext_x`].
#[derive(Clone, Copy, Debug, PartialEq, Eq, Structural)]
pub struct GridParams {
    pub bmin: Vec3i,
    pub bmax: Vec3i,
    pub dims: GridDims,
}

/// Header of one top-level grid cell.
#[derive(Clone, Copy, Debug, PartialEq, Eq, Structural)]
pub enum L0Header {
    /// The cell's candidates sit inline in the index pool.
    Leaf { start: usize, count: usize },
    /// The cell is subdivided; its 64 children are the contiguous run
    /// `child_base .. child_base + 64` of the L1 header array.
    Internal { child_base: usize },
}

/// Header of one child cell: always a leaf range into the index pool.
#[derive(Clone, Copy, Debug, PartialEq, Eq, Structural)]
pub struct L1Header {
    pub start: usize,
    pub count: usize,
}

/// The finished index: grid parameters plus three flat arrays.
pub struct SpatialIndex {
    pub params: GridParams,
    pub l0: Vec<L0Header>,
    pub l1: Vec<L1Header>,
    pub pool: Vec<u32>,
}

/// The mathematical value of one top-level header, over unbounded integers.
pub enum L0ModelHeader {
    Leaf { start: int, count: int },
    Internal { child_base: int },
}

/// The mathematical value of one child header.
pub struct L1ModelHeader {
    pub start: int,
    pub count: int,
}

pub open spec fn l0_header_model(h: L0Header) -> L0ModelHeader {
    match h {
        L0Header::Leaf { start, count } => L0ModelHeader::Leaf {
            start: start as int,
            count: count as int,
        },
        L0Header::Internal { child_base } => L0ModelHeader::Internal {
            child_base: child_base as int,
        },
    }
}

pub open spec fn l1_header_model(h: L1Header) -> L1ModelHeader {
    L1ModelHeader { start: h.start as int, count: h.count as int }
}

pub open spec fn l0_models(v: Seq<L0Header>) -> Seq<L0ModelHeader> {
    v.map_values(|h: L0Header| l0_header_model(h))
}

pub open spec fn l1_models(v: Seq<L1Header>) -> Seq<L1ModelHeader> {
    v.map_values(|h: L1Header| l1_header_model(h))
}

/// The mathematical value of a [`SpatialIndex`].
pub struct IndexModel {
    pub params: GridParams,
    pub l0: Seq<L0ModelHeader>,
    pub l1: Seq<L1ModelHeader>,
    pub pool: Seq<u32>,
}

impl View for SpatialIndex {
    type V = IndexModel;

    open spec fn view(&self) -> IndexModel {
        IndexModel {
            params: self.params,
            l0: l0_models(self.l0@),
            l1: l1_models(self.l1@),
            pool: self.pool@,
        }
    }
}

pub open spec fn int_max(a: int, b: int) -> int {
    if a > b {
        a
    } else {
        b
    }
}

pub open spec fn int_min(a: int, b: int) -> int {
    if a < b {
        a
    } else {
        b
    }
}

/// A sphere within the coordinate budget. The positive radius keeps every
/// sphere's bounding box non-degenerate.
pub open spec fn wf_sphere(s: Sphere) -> bool {
    &&& -COORD_LIMIT <= s.center.x <= COORD_LIMIT
    &&& -COORD_LIMIT <= s.center.y <= COORD_LIMIT
    &&& -COORD_LIMIT <= s.center.z <= COORD_LIMIT
    &&& 1 <= s.radius <= COORD_LIMIT
}

/// A scene the builder accepts: bounded size, every sphere within budget.
pub open spec fn wf_scene(spheres: Seq<Sphere>) -> bool {
    &&& spheres.len() <= MAX_SPHERES
    &&& forall|i: int| 0 <= i < spheres.len() ==> wf_sphere(#[trigger] spheres[i])
}

/// An axis-aligned box over mathematical integers.
pub struct Aabb {
    pub min_x: int,
    pub min_y: int,
    pub min_z: int,
    pub max_x: int,
    pub max_y: int,
    pub max_z: int,
}

/// The bounding box of one sphere: center plus or minus radius, per axis.
pub open spec fn sphere_box(s: Sphere) -> Aabb {
    Aabb {
        min_x: s.center.x - s.radius,
        min_y: s.center.y - s.radius,
        min_z: s.center.z - s.radius,
        max_x: s.center.x + s.radius,
        max_y: s.center.y + s.radius,
        max_z: s.center.z + s.radius,
    }
}

pub open spec fn box_union(a: Aabb, b: Aabb) -> Aabb {
    Aabb {
        min_x: int_min(a.min_x, b.min_x),
        min_y: int_min(a.min_y, b.min_y),
        min_z: int_min(a.min_z, b.min_z),
        max_x: int_max(a.max_x, b.max_x),
        max_y: int_max(a.max_y, b.max_y),
        max_z: int_max(a.max_z, b.max_z),
    }
}

/// Union of the bounding boxes of the non-ground spheres `1 .. k`.
pub open spec fn scene_box_upto(spheres: Seq<Sphere>, k: int) -> Aabb
    recommends
        2 <= k <= spheres.len(),
    decreases k,
{
    if k <= 2 {
        sphere_box(spheres[1])
    } else {
        box_union(scene_box_upto(spheres, k - 1), sphere_box(spheres[k - 1]))
    }
}

/// The raw scene bounds: the union over all non-ground spheres, or the
/// fallback unit box when fewer than two spheres exist.
pub open spec fn spec_scene_box(spheres: Seq<Sphere>) -> Aabb {
    if spheres.len() < 2 {
        Aabb {
            min_x: -UNIT_BOX_HALF as int,
            min_y: -UNIT_BOX_HALF as int,
            min_z: -UNIT_BOX_HALF as int,
            max_x: UNIT_BOX_HALF as int,
            max_y: UNIT_BOX_HALF as int,
            max_z: UNIT_BOX_HALF as int,
        }
    } else {
        scene_box_upto(spheres, spheres.len() as int)
    }
}

/// The raw bounds padded by the fixed margin on every side.
pub open spec fn spec_padded_box(spheres: Seq<Sphere>) -> Aabb {
    let b = spec_scene_box(spheres);
    Aabb {
        min_x: b.min_x - BOUNDS_MARGIN,
        min_y: b.min_y - BOUNDS_MARGIN,
        min_z: b.min_z - BOUNDS_MARGIN,
        max_x: b.max_x + BOUNDS_MARGIN,
        max_y: b.max_y + BOUNDS_MARGIN,
        max_z: b.max_z + BOUNDS_MARGIN,
    }
}

/// An axis extent, held away from zero so cells never collapse.
pub open spec fn axis_ext(lo: int, hi: int) -> int {
    int_max(hi - lo, MIN_AXIS_EXTENT as int)
}

pub open spec fn grid_ext_x(g: GridParams) -> int {
    axis_ext(g.bmin.x as int, g.bmax.x as int)
}

pub open spec fn grid_ext_y(g: GridParams) -> int {
    axis_ext(g.bmin.y as int, g.bmax.y as int)
}

pub open spec fn grid_ext_z(g: GridParams) -> int {
    axis_ext(g.bmin.z as int, g.bmax.z as int)
}

/// Floor of the integer cube root: the largest `r` with `r^3 <= n`.
pub open spec fn spec_icbrt(n: int) -> int
    decreases n,
{
    if n <= 0 {
        0
    } else {
        let r = spec_icbrt(n - 1);
        if (r + 1) * (r + 1) * (r + 1) <= n {
            r + 1
        } else {
            r
        }
    }
}

/// `a / b` rounded to the nearest integer, halves up.
pub open spec fn round_div(a: int, b: int) -> int
    recommends
        a >= 0,
        b >= 1,
{
    (2 * a + b) / (2 * b)
}

pub open spec fn clamp_dim(t: int) -> int {
    if t < 1 {
        1
    } else if t > MAX_DIM as int {
        MAX_DIM as int
    } else {
        t
    }
}

/// The targeted total number of cells: one cell per four non-ground spheres,
/// at least one.
pub open spec fn spec_cell_target(n_spheres: int) -> int {
    int_max(int_max(n_spheres - 1, 1) / 4, 1)
}

/// One axis of the grid resolution: the per-cell budget's cube root,
/// distributed proportionally to this axis' share of the largest extent,
/// rounded, clamped into `[1, MAX_DIM]`.
pub open spec fn spec_dim_axis(ext: int, maxe: int, base: int) -> int
    recommends
        1 <= ext <= maxe,
        base >= 1,
{
    clamp_dim(round_div(ext * base, maxe))
}

/// The grid parameters derived from a scene: padded bounds and the
/// cube-root-heuristic resolution.
pub open spec fn spec_grid_params(spheres: Seq<Sphere>) -> GridParams {
    let b = spec_padded_box(spheres);
    let ex = axis_ext(b.min_x, b.max_x);
    let ey = axis_ext(b.min_y, b.max_y);
    let ez = axis_ext(b.min_z, b.max_z);
    let maxe = int_max(ex, int_max(ey, ez));
    let base = spec_icbrt(spec_cell_target(spheres.len() as int));
    GridParams {
        bmin: Vec3i { x: b.min_x as i64, y: b.min_y as i64, z: b.min_z as i64 },
        bmax: Vec3i { x: b.max_x as i64, y: b.max_y as i64, z: b.max_z as i64 },
        dims: GridDims {
            x: spec_dim_axis(ex, maxe, base) as u32,
            y: spec_dim_axis(ey, maxe, base) as u32,
            z: spec_dim_axis(ez, maxe, base) as u32,
        },
    }
}

/// The facts about a grid that all later stages rely on: resolution within
/// `[1, MAX_DIM]`, bounds within budget, extents away from zero.
pub open spec fn wf_grid(g: GridParams) -> bool {
    &&& 1 <= g.dims.x <= MAX_DIM
    &&& 1 <= g.dims.y <= MAX_DIM
    &&& 1 <= g.dims.z <= MAX_DIM
    &&& -3_000_000_000 <= g.bmin.x <= 3_000_000_000
    &&& -3_000_000_000 <= g.bmin.y <= 3_000_000_000
    &&& -3_000_000_000 <= g.bmin.z <= 3_000_000_000
    &&& -3_000_000_000 <= g.bmax.x <= 3_000_000_000
    &&& -3_000_000_000 <= g.bmax.y <= 3_000_000_000
    &&& -3_000_000_000 <= g.bmax.z <= 3_000_000_000
    &&& MIN_AXIS_EXTENT <= grid_ext_x(g) <= 7_000_000_000
    &&& MIN_AXIS_EXTENT <= grid_ext_y(g) <= 7_000_000_000
    &&& MIN_AXIS_EXTENT <= grid_ext_z(g) <= 7_000_000_000
}

/// Total number of top-level cells.
pub open spec fn grid_volume(g: GridParams) -> int {
    g.dims.x as int * g.dims.y as int * g.dims.z as int
}

/// The grid coordinate, along one axis, of the point `p`: the cell whose
/// half-open slab contains `p`, with points outside the grid clamped into the
/// border cells. The slab of coordinate `c` is
/// `[lo + c * ext / dim, lo + (c + 1) * ext / dim)` over the rationals.
pub open spec fn cell_coord(p: int, lo: int, ext: int, dim: int) -> int
    recommends
        ext >= 1,
        dim >= 1,
{
    let rel = int_max(p - lo, 0);
    int_min(rel * dim / ext, dim - 1)
}

/// Whether the clamped cell-coordinate box of sphere `i` includes the cell
/// `(cx, cy, cz)`; such a sphere is a candidate of that cell.
pub open spec fn covers_l0(
    spheres: Seq<Sphere>,
    g: GridParams,
    i: int,
    cx: int,
    cy: int,
    cz: int,
) -> bool {
    let b = sphere_box(spheres[i]);
    &&& cell_coord(b.min_x, g.bmin.x as int, grid_ext_x(g), g.dims.x as int) <= cx <= cell_coord(
        b.max_x,
        g.bmin.x as int,
        grid_ext_x(g),
        g.dims.x as int,
    )
    &&& cell_coord(b.min_y, g.bmin.y as int, grid_ext_y(g), g.dims.y as int) <= cy <= cell_coord(
        b.max_y,
        g.bmin.y as int,
        grid_ext_y(g),
        g.dims.y as int,
    )
    &&& cell_coord(b.min_z, g.bmin.z as int, grid_ext_z(g), g.dims.z as int) <= cz <= cell_coord(
        b.max_z,
        g.bmin.z as int,
        grid_ext_z(g),
        g.dims.z as int,
    )
}

/// The candidate list of cell `(cx, cy, cz)` restricted to spheres `1 .. k`:
/// every covering non-ground sphere's index, in ascending order.
pub open spec fn l0_list_upto(
    spheres: Seq<Sphere>,
    g: GridParams,
    cx: int,
    cy: int,
    cz: int,
    k: int,
) -> Seq<u32>
    decreases k,
{
    if k <= 1 {
        Seq::empty()
    } else {
        let pre = l0_list_upto(spheres, g, cx, cy, cz, k - 1);
        if covers_l0(spheres, g, k - 1, cx, cy, cz) {
            pre.push((k - 1) as u32)
        } else {
            pre
        }
    }
}

/// The full candidate list of cell `(cx, cy, cz)`.
pub open spec fn l0_list(spheres: Seq<Sphere>, g: GridParams, cx: int, cy: int, cz: int) -> Seq<
    u32,
> {
    l0_list_upto(spheres, g, cx, cy, cz, spheres.len() as int)
}

/// The child-grid coordinate, along one axis, of the point `p` within parent
/// cell `cell`: the parent's slab is split into `CHILD_DIM` equal slabs, and
/// points outside are clamped into the border children.
pub open spec fn child_coord(p: int, lo: int, ext: int, dim: int, cell: int) -> int
    recommends
        ext >= 1,
        dim >= 1,
        0 <= cell < dim,
{
    let rel = int_max(p - lo, 0);
    let q = rel * dim * (CHILD_DIM as int) / ext - (CHILD_DIM as int) * cell;
    if q < 0 {
        0
    } else if q > CHILD_DIM as int - 1 {
        CHILD_DIM as int - 1
    } else {
        q
    }
}

/// Whether, within parent cell `(cx, cy, cz)`, the clamped child-coordinate
/// box of sphere `i` includes the child `(ux, uy, uz)`.
pub open spec fn covers_child(
    spheres: Seq<Sphere>,
    g: GridParams,
    i: int,
    cx: int,
    cy: int,
    cz: int,
    ux: int,
    uy: int,
    uz: int,
) -> bool {
    let b = sphere_box(spheres[i]);
    &&& child_coord(b.min_x, g.bmin.x as int, grid_ext_x(g), g.dims.x as int, cx) <= ux
        <= child_coord(b.max_x, g.bmin.x as int, grid_ext_x(g), g.dims.x as int, cx)
    &&& child_coord(b.min_y, g.bmin.y as int, grid_ext_y(g), g.dims.y as int, cy) <= uy
        <= child_coord(b.max_y, g.bmin.y as int, grid_ext_y(g), g.dims.y as int, cy)
    &&& child_coord(b.min_z, g.bmin.z as int, grid_ext_z(g), g.dims.z as int, cz) <= uz
        <= child_coord(b.max_z, g.bmin.z as int, grid_ext_z(g), g.dims.z as int, cz)
}

/// The members of `list` that cover child `(ux, uy, uz)` of parent cell
/// `(cx, cy, cz)`, in their order in `list`.
pub open spec fn child_filter(
    spheres: Seq<Sphere>,
    g: GridParams,
    cx: int,
    cy: int,
    cz: int,
    ux: int,
    uy: int,
    uz: int,
    list: Seq<u32>,
) -> Seq<u32>
    decreases list.len(),
{
    if list.len() == 0 {
        Seq::empty()
    } else {
        let pre = child_filter(spheres, g, cx, cy, cz, ux, uy, uz, list.drop_last());
        if covers_child(spheres, g, list.last() as int, cx, cy, cz, ux, uy, uz) {
            pre.push(list.last())
        } else {
            pre
        }
    }
}

/// Child coordinates of the flat child offset `u` (x fastest, z slowest).
pub open spec fn child_of_flat(u: int) -> (int, int, int) {
    let d = CHILD_DIM as int;
    (u % d, (u / d) % d, u / (d * d))
}

/// Cell coordinates of the flat cell index `idx` (x fastest, z slowest).
pub open spec fn cell_of_flat(g: GridParams, idx: int) -> (int, int, int) {
    let dx = g.dims.x as int;
    let dy = g.dims.y as int;
    (idx % dx, (idx / dx) % dy, idx / (dx * dy))
}

/// Flat cell index of cell coordinates.
pub open spec fn flat_of_cell(g: GridParams, cx: int, cy: int, cz: int) -> int {
    cx + g.dims.x as int * (cy + g.dims.y as int * cz)
}

/// The L1 headers and pool entries contributed by the first `u` children of
/// the subdivided cell `(cx, cy, cz)`, given that the pool already holds
/// `pool_len` entries when the cell's run begins.
pub open spec fn spec_children(
    spheres: Seq<Sphere>,
    g: GridParams,
    cx: int,
    cy: int,
    cz: int,
    pool_len: int,
    u: int,
) -> (Seq<L1ModelHeader>, Seq<u32>)
    decreases u,
{
    if u <= 0 {
        (Seq::empty(), Seq::empty())
    } else {
        let (hs, ps) = spec_children(spheres, g, cx, cy, cz, pool_len, u - 1);
        let (ux, uy, uz) = child_of_flat(u - 1);
        let clist = child_filter(
            spheres,
            g,
            cx,
            cy,
            cz,
            ux,
            uy,
            uz,
            l0_list(spheres, g, cx, cy, cz),
        );
        (
            hs.push(L1ModelHeader { start: pool_len + ps.len(), count: clist.len() as int }),
            ps + clist,
        )
    }
}

/// The headers and pool after flattening the first `idx` cells, in flat cell
/// order: a cell with at most [`MAX_LEAF`] candidates becomes a leaf holding
/// its list inline; a denser cell becomes internal and appends its 64
/// children to the L1 array.
pub open spec fn spec_flatten(spheres: Seq<Sphere>, g: GridParams, idx: int) -> (
    Seq<L0ModelHeader>,
    Seq<L1ModelHeader>,
    Seq<u32>,
)
    decreases idx,
{
    if idx <= 0 {
        (Seq::empty(), Seq::empty(), Seq::empty())
    } else {
        let (h, l1, pool) = spec_flatten(spheres, g, idx - 1);
        let (cx, cy, cz) = cell_of_flat(g, idx - 1);
        let list = l0_list(spheres, g, cx, cy, cz);
        if list.len() <= MAX_LEAF {
            (
                h.push(
                    L0ModelHeader::Leaf { start: pool.len() as int, count: list.len() as int },
                ),
                l1,
                pool + list,
            )
        } else {
            let (chs, cps) = spec_children(
                spheres,
                g,
                cx,
                cy,
                cz,
                pool.len() as int,
                CHILD_TOTAL as int,
            );
            (
                h.push(L0ModelHeader::Internal { child_base: l1.len() as int }),
                l1 + chs,
                pool + cps,
            )
        }
    }
}

/// A cell coordinate is always inside the grid.
pub proof fn lemma_cell_coord_range(p: int, lo: int, ext: int, dim: int)
    requires
        ext >= 1,
        dim >= 1,
    ensures
        0 <= cell_coord(p, lo, ext, dim) <= dim - 1,
{
    let rel = int_max(p - lo, 0);
    assert(rel * dim >= 0) by (nonlinear_arith)
        requires
            rel >= 0,
            dim >= 0,
    ;
    vstd::arithmetic::div_mod::lemma_div_pos_is_pos(rel * dim, ext);
}

/// The cell coordinate grows with the point.
pub proof fn lemma_cell_coord_monotone(p1: int, p2: int, lo: int, ext: int, dim: int)
    requires
        p1 <= p2,
        ext >= 1,
        dim >= 1,
    ensures
        cell_coord(p1, lo, ext, dim) <= cell_coord(p2, lo, ext, dim),
{
    let r1 = int_max(p1 - lo, 0);
    let r2 = int_max(p2 - lo, 0);
    vstd::arithmetic::mul::lemma_mul_inequality(r1, r2, dim);
    vstd::arithmetic::div_mod::lemma_div_is_ordered(r1 * dim, r2 * dim, ext);
}

/// The child coordinate grows with the point.
pub proof fn lemma_child_coord_monotone(p1: int, p2: int, lo: int, ext: int, dim: int, cell: int)
    requires
        p1 <= p2,
        ext >= 1,
        dim >= 1,
    ensures
        child_coord(p1, lo, ext, dim, cell) <= child_coord(p2, lo, ext, dim, cell),
{
    let r1 = int_max(p1 - lo, 0);
    let r2 = int_max(p2 - lo, 0);
    vstd::arithmetic::mul::lemma_mul_inequality(r1, r2, dim);
    vstd::arithmetic::mul::lemma_mul_inequality(r1 * dim, r2 * dim, CHILD_DIM as int);
    vstd::arithmetic::div_mod::lemma_div_is_ordered(
        r1 * dim * (CHILD_DIM as int),
        r2 * dim * (CHILD_DIM as int),
        ext,
    );
}

/// Valid cell coordinates flatten into the valid index range, and the flat
/// index decomposes back into them.
pub proof fn lemma_flat_coords(dx: int, dy: int, dz: int, cx: int, cy: int, cz: int)
    requires
        1 <= dx,
        1 <= dy,
        1 <= dz,
        0 <= cx < dx,
        0 <= cy < dy,
        0 <= cz < dz,
    ensures
        0 <= cx + dx * (cy + dy * cz) < dx * dy * dz,
        (cx + dx * (cy + dy * cz)) % dx == cx,
        ((cx + dx * (cy + dy * cz)) / dx) % dy == cy,
        (cx + dx * (cy + dy * cz)) / (dx * dy) == cz,
{
    let f = cx + dx * (cy + dy * cz);
    let s = cy + dy * cz;
    assert(s >= 0) by (nonlinear_arith)
        requires
            s == cy + dy * cz,
            cy >= 0,
            dy >= 1,
            cz >= 0,
    ;
    assert(dx * s >= 0) by (nonlinear_arith)
        requires
            dx >= 1,
            s >= 0,
    ;
    assert(cx + dx * s == s * dx + cx) by (nonlinear_arith);
    vstd::arithmetic::div_mod::lemma_fundamental_div_mod_converse(f, dx, s, cx);
    assert(s == cz * dy + cy) by (nonlinear_arith)
        requires
            s == cy + dy * cz,
    ;
    vstd::arithmetic::div_mod::lemma_fundamental_div_mod_converse(s, dy, cz, cy);
    assert(f >= 0);
    vstd::arithmetic::div_mod::lemma_div_denominator(f, dx, dy);
    assert(f <= (dx - 1) + dx * ((dy - 1) + dy * (dz - 1))) by (nonlinear_arith)
        requires
            f == cx + dx * (cy + dy * cz),
            cx <= dx - 1,
            cy <= dy - 1,
            cz <= dz - 1,
            dx >= 1,
            dy >= 1,
            dz >= 1,
    ;
    assert((dx - 1) + dx * ((dy - 1) + dy * (dz - 1)) == dx * dy * dz - 1) by (nonlinear_arith);
}

/// Every flat index in range decomposes into valid cell coordinates that
/// flatten back to it.
pub proof fn lemma_coords_flat(dx: int, dy: int, dz: int, f: int)
    requires
        1 <= dx,
        1 <= dy,
        1 <= dz,
        0 <= f < dx * dy * dz,
    ensures
        0 <= f % dx < dx,
        0 <= (f / dx) % dy < dy,
        0 <= f / (dx * dy) < dz,
        f == (f % dx) + dx * ((f / dx) % dy + dy * (f / (dx * dy))),
{
    vstd::arithmetic::div_mod::lemma_fundamental_div_mod(f, dx);
    vstd::arithmetic::div_mod::lemma_mod_bound(f, dx);
    vstd::arithmetic::div_mod::lemma_div_pos_is_pos(f, dx);
    vstd::arithmetic::div_mod::lemma_fundamental_div_mod(f / dx, dy);
    vstd::arithmetic::div_mod::lemma_mod_bound(f / dx, dy);
    vstd::arithmetic::div_mod::lemma_div_pos_is_pos(f / dx, dy);
    vstd::arithmetic::div_mod::lemma_div_denominator(f, dx, dy);
    assert(f / (dx * dy) < dz) by {
        if f / (dx * dy) >= dz {
            assert(dx * dy >= 1) by (nonlinear_arith)
                requires
                    dx >= 1,
                    dy >= 1,
            ;
            vstd::arithmetic::div_mod::lemma_fundamental_div_mod(f, dx * dy);
            vstd::arithmetic::div_mod::lemma_mod_bound(f, dx * dy);
            vstd::arithmetic::mul::lemma_mul_inequality(dz, f / (dx * dy), dx * dy);
            assert(dz * (dx * dy) == dx * dy * dz) by (nonlinear_arith);
        }
    }
    assert(f == (f % dx) + dx * ((f / dx) % dy + dy * (f / (dx * dy)))) by (nonlinear_arith)
        requires
            f == dx * (f / dx) + f % dx,
            f / dx == dy * ((f / dx) / dy) + (f / dx) % dy,
            (f / dx) / dy == f / (dx * dy),
    ;
}

/// Every entry of a candidate list is the index of a covering non-ground
/// sphere.
pub proof fn lemma_l0_list_elems(
    spheres: Seq<Sphere>,
    g: GridParams,
    cx: int,
    cy: int,
    cz: int,
    k: int,
)
    requires
        k <= 0x1_0000_0000,
    ensures
        forall|j: int|
            0 <= j < l0_list_upto(spheres, g, cx, cy, cz, k).len() ==> {
                &&& 1 <= #[trigger] l0_list_upto(spheres, g, cx, cy, cz, k)[j] < k
                &&& covers_l0(
                    spheres,
                    g,
                    l0_list_upto(spheres, g, cx, cy, cz, k)[j] as int,
                    cx,
                    cy,
                    cz,
                )
            },
    decreases k,
{
    if k > 1 {
        lemma_l0_list_elems(spheres, g, cx, cy, cz, k - 1);
        let pre = l0_list_upto(spheres, g, cx, cy, cz, k - 1);
        let cur = l0_list_upto(spheres, g, cx, cy, cz, k);
        assert forall|j: int| 0 <= j < cur.len() implies {
            &&& 1 <= #[trigger] cur[j] < k
            &&& covers_l0(spheres, g, cur[j] as int, cx, cy, cz)
        } by {
            if covers_l0(spheres, g, k - 1, cx, cy, cz) {
                assert(cur == pre.push((k - 1) as u32));
                if j < pre.len() {
                    assert(cur[j] == pre[j]);
                } else {
                    assert(cur[j] == (k - 1) as u32);
                }
            } else {
                assert(cur == pre);
            }
        }
    }
}

/// The complete index of a scene: flattened headers and pool, with a
/// placeholder entry keeping the L1 array and the pool non-empty so that
/// consumers never see a zero-length buffer.
pub open spec fn spec_build(spheres: Seq<Sphere>) -> IndexModel {
    let g = spec_grid_params(spheres);
    let (h, l1, pool) = spec_flatten(spheres, g, grid_volume(g));
    IndexModel {
        params: g,
        l0: h,
        l1: if l1.len() == 0 {
            seq![L1ModelHeader { start: 0, count: 0 }]
        } else {
            l1
        },
        pool: if pool.len() == 0 {
            seq![0u32]
        } else {
            pool
        },
    }
}

/// The candidate-list length of the flat cell `j`.
pub open spec fn cell_load(spheres: Seq<Sphere>, g: GridParams, j: int) -> int {
    let c = cell_of_flat(g, j);
    l0_list(spheres, g, c.0, c.1, c.2).len() as int
}

/// Number of subdivided cells among the first `idx` flat cells.
pub open spec fn count_internal(spheres: Seq<Sphere>, g: GridParams, idx: int) -> int
    decreases idx,
{
    if idx <= 0 {
        0
    } else {
        count_internal(spheres, g, idx - 1) + if cell_load(spheres, g, idx - 1) > MAX_LEAF {
            1int
        } else {
            0int
        }
    }
}

/// What the flattening guarantees for one already-flattened cell `j`: a leaf
/// header holds exactly the cell's candidate list as a pool range; an internal
/// header points at its run of children.
pub open spec fn flat_cell_ok(spheres: Seq<Sphere>, g: GridParams, idx: int, j: int) -> bool {
    let fl = spec_flatten(spheres, g, idx);
    let c = cell_of_flat(g, j);
    let list = l0_list(spheres, g, c.0, c.1, c.2);
    if list.len() <= MAX_LEAF {
        match fl.0[j] {
            L0ModelHeader::Leaf { start, count } => {
                &&& count == list.len()
                &&& 0 <= start
                &&& start + count <= fl.2.len()
                &&& fl.2.subrange(start, start + count) == list
            },
            L0ModelHeader::Internal { .. } => false,
        }
    } else {
        match fl.0[j] {
            L0ModelHeader::Leaf { .. } => false,
            L0ModelHeader::Internal { child_base } => {
                &&& child_base == CHILD_TOTAL * count_internal(spheres, g, j)
                &&& 0 <= child_base
                &&& child_base + CHILD_TOTAL <= fl.1.len()
                &&& forall|u: int| 0 <= u < CHILD_TOTAL ==> #[trigger] child_ok(spheres, g, idx, j, u)
            },
        }
    }
}

/// What the flattening guarantees for child `u` of the subdivided cell `j`.
pub open spec fn child_ok(spheres: Seq<Sphere>, g: GridParams, idx: int, j: int, u: int) -> bool {
    let fl = spec_flatten(spheres, g, idx);
    let c = cell_of_flat(g, j);
    let list = l0_list(spheres, g, c.0, c.1, c.2);
    match fl.0[j] {
        L0ModelHeader::Leaf { .. } => false,
        L0ModelHeader::Internal { child_base } => {
            let uco = child_of_flat(u);
            let clist = child_filter(spheres, g, c.0, c.1, c.2, uco.0, uco.1, uco.2, list);
            &&& 0 <= child_base + u < fl.1.len()
            &&& fl.1[child_base + u].count == clist.len()
            &&& 0 <= fl.1[child_base + u].start
            &&& fl.1[child_base + u].start + clist.len() <= fl.2.len()
            &&& fl.2.subrange(
                fl.1[child_base + u].start,
                fl.1[child_base + u].start + clist.len(),
            ) == clist
        },
    }
}

/// Shape of one subdivided cell's run of children, relative to the pool
/// length at which the run begins.
proof fn lemma_children_inv(
    spheres: Seq<Sphere>,
    g: GridParams,
    cx: int,
    cy: int,
    cz: int,
    pool_len: int,
    u: int,
)
    requires
        u >= 0,
    ensures
        spec_children(spheres, g, cx, cy, cz, pool_len, u).0.len() == u,
        spec_children(spheres, g, cx, cy, cz, pool_len, u).1.len() >= 0,
        forall|v: int|
            #![trigger spec_children(spheres, g, cx, cy, cz, pool_len, u).0[v]]
            0 <= v < u ==> {
                let hs = spec_children(spheres, g, cx, cy, cz, pool_len, u).0;
                let ps = spec_children(spheres, g, cx, cy, cz, pool_len, u).1;
                let uco = child_of_flat(v);
                let clist = child_filter(
                    spheres,
                    g,
                    cx,
                    cy,
                    cz,
                    uco.0,
                    uco.1,
                    uco.2,
                    l0_list(spheres, g, cx, cy, cz),
                );
                &&& hs[v].count == clist.len()
                &&& pool_len <= hs[v].start
                &&& hs[v].start - pool_len + clist.len() <= ps.len()
                &&& ps.subrange(hs[v].start - pool_len, hs[v].start - pool_len + clist.len())
                    == clist
            },
    decreases u,
{
    if u > 0 {
        lemma_children_inv(spheres, g, cx, cy, cz, pool_len, u - 1);
        let hs0 = spec_children(spheres, g, cx, cy, cz, pool_len, u - 1).0;
        let ps0 = spec_children(spheres, g, cx, cy, cz, pool_len, u - 1).1;
        let hs = spec_children(spheres, g, cx, cy, cz, pool_len, u).0;
        let ps = spec_children(spheres, g, cx, cy, cz, pool_len, u).1;
        let uco = child_of_flat(u - 1);
        let clast = child_filter(
            spheres,
            g,
            cx,
            cy,
            cz,
            uco.0,
            uco.1,
            uco.2,
            l0_list(spheres, g, cx, cy, cz),
        );
        assert(hs == hs0.push(
            L1ModelHeader { start: pool_len + ps0.len(), count: clast.len() as int },
        ));
        assert(ps == ps0 + clast);
        assert forall|v: int| 0 <= v < u implies {
            let uco2 = child_of_flat(v);
            let clist = child_filter(
                spheres,
                g,
                cx,
                cy,
                cz,
                uco2.0,
                uco2.1,
                uco2.2,
                l0_list(spheres, g, cx, cy, cz),
            );
            &&& (#[trigger] hs[v]).count == clist.len()
            &&& pool_len <= hs[v].start
            &&& hs[v].start - pool_len + clist.len() <= ps.len()
            &&& ps.subrange(hs[v].start - pool_len, hs[v].start - pool_len + clist.len()) == clist
        } by {
            let uco2 = child_of_flat(v);
            let clist = child_filter(
                spheres,
                g,
                cx,
                cy,
                cz,
                uco2.0,
                uco2.1,
                uco2.2,
                l0_list(spheres, g, cx, cy, cz),
            );
            if v < u - 1 {
                assert(hs[v] == hs0[v]);
                assert(hs0[v].start - pool_len + clist.len() <= ps0.len());
                assert(ps.subrange(hs[v].start - pool_len, hs[v].start - pool_len + clist.len())
                    =~= ps0.subrange(hs0[v].start - pool_len, hs0[v].start - pool_len
                    + clist.len()));
            } else {
                assert(hs[v].start == pool_len + ps0.len());
                assert(hs[v].count == clast.len());
                assert(ps.subrange(ps0.len() as int, (ps0.len() + clast.len()) as int) =~= clast);
            }
        }
    }
}

/// What the flattening of the first `idx` cells guarantees: one header per
/// cell, children packed 64 to an internal cell, and every header's range
/// holding exactly its cell's candidates.
pub proof fn lemma_flatten_inv(spheres: Seq<Sphere>, g: GridParams, idx: int)
    requires
        idx >= 0,
    ensures
        spec_flatten(spheres, g, idx).0.len() == idx,
        spec_flatten(spheres, g, idx).1.len() == CHILD_TOTAL * count_internal(spheres, g, idx),
        forall|j: int| 0 <= j < idx ==> #[trigger] flat_cell_ok(spheres, g, idx, j),
    decreases idx,
{
    if idx > 0 {
        lemma_flatten_inv(spheres, g, idx - 1);
        let prev = spec_flatten(spheres, g, idx - 1);
        let cur = spec_flatten(spheres, g, idx);
        let c = cell_of_flat(g, idx - 1);
        let list = l0_list(spheres, g, c.0, c.1, c.2);
        let cnt0 = count_internal(spheres, g, idx - 1);
        if list.len() <= MAX_LEAF {
            assert(count_internal(spheres, g, idx) == cnt0);
        } else {
            lemma_children_inv(spheres, g, c.0, c.1, c.2, prev.2.len() as int, CHILD_TOTAL as int);
            assert(count_internal(spheres, g, idx) == cnt0 + 1);
            assert(CHILD_TOTAL * (cnt0 + 1) == CHILD_TOTAL * cnt0 + CHILD_TOTAL)
                by (nonlinear_arith);
        }
        assert forall|j: int| 0 <= j < idx implies #[trigger] flat_cell_ok(spheres, g, idx, j) by {
            if j < idx - 1 {
                assert(flat_cell_ok(spheres, g, idx - 1, j));
                let cj = cell_of_flat(g, j);
                let lj = l0_list(spheres, g, cj.0, cj.1, cj.2);
                assert(cur.0[j] == prev.0[j]);
                if lj.len() <= MAX_LEAF {
                    match prev.0[j] {
                        L0ModelHeader::Leaf { start, count } => {
                            assert(cur.2.subrange(start, start + count) =~= prev.2.subrange(
                                start,
                                start + count,
                            ));
                        },
                        L0ModelHeader::Internal { .. } => {},
                    }
                } else {
                    match prev.0[j] {
                        L0ModelHeader::Leaf { .. } => {},
                        L0ModelHeader::Internal { child_base } => {
                            assert forall|u: int| 0 <= u < CHILD_TOTAL implies #[trigger] child_ok(
                                spheres,
                                g,
                                idx,
                                j,
                                u,
                            ) by {
                                assert(child_ok(spheres, g, idx - 1, j, u));
                                let uco = child_of_flat(u);
                                let clist = child_filter(
                                    spheres,
                                    g,
                                    cj.0,
                                    cj.1,
                                    cj.2,
                                    uco.0,
                                    uco.1,
                                    uco.2,
                                    lj,
                                );
                                assert(cur.1[child_base + u] == prev.1[child_base + u]);
                                let st = prev.1[child_base + u].start;
                                assert(cur.2.subrange(st, st + clist.len()) =~= prev.2.subrange(
                                    st,
                                    st + clist.len(),
                                ));
                            }
                        },
                    }
                }
            } else {
                // the cell flattened in this step
                if list.len() <= MAX_LEAF {
                    assert(cur.0[j] == (L0ModelHeader::Leaf {
                        start: prev.2.len() as int,
                        count: list.len() as int,
                    }));
                    assert(cur.2.subrange(prev.2.len() as int, (prev.2.len() + list.len()) as int)
                        =~= list);
                } else {
                    let chs = spec_children(
                        spheres,
                        g,
                        c.0,
                        c.1,
                        c.2,
                        prev.2.len() as int,
                        CHILD_TOTAL as int,
                    ).0;
                    let cps = spec_children(
                        spheres,
                        g,
                        c.0,
                        c.1,
                        c.2,
                        prev.2.len() as int,
                        CHILD_TOTAL as int,
                    ).1;
                    lemma_children_inv(
                        spheres,
                        g,
                        c.0,
                        c.1,
                        c.2,
                        prev.2.len() as int,
                        CHILD_TOTAL as int,
                    );
                    assert(cur.0[j] == (L0ModelHeader::Internal {
                        child_base: prev.1.len() as int,
                    }));
                    assert(prev.1.len() == CHILD_TOTAL * cnt0);
                    assert forall|u: int| 0 <= u < CHILD_TOTAL implies #[trigger] child_ok(
                        spheres,
                        g,
                        idx,
                        j,
                        u,
                    ) by {
                        let uco = child_of_flat(u);
                        let clist = child_filter(
                            spheres,
                            g,
                            c.0,
                            c.1,
                            c.2,
                            uco.0,
                            uco.1,
                            uco.2,
                            list,
                        );
                        assert(cur.1[prev.1.len() + u] == chs[u]);
                        assert(chs[u].count == clist.len());
                        let st = chs[u].start;
                        assert(cps.subrange(st - prev.2.len(), st - prev.2.len() + clist.len())
                            == clist);
                        assert(cur.2.subrange(st, st + clist.len()) =~= cps.subrange(
                            st - prev.2.len(),
                            st - prev.2.len() + clist.len(),
                        ));
                    }
                }
            }
        }
    }
}

/// A later prefix has flattened at least as many internal cells; strictly
/// more once an internal cell lies in between.
proof fn lemma_count_internal_monotone(spheres: Seq<Sphere>, g: GridParams, j1: int, j2: int)
    requires
        0 <= j1 <= j2,
    ensures
        count_internal(spheres, g, j1) <= count_internal(spheres, g, j2),
        cell_load(spheres, g, j1) > MAX_LEAF && j1 < j2 ==> count_internal(spheres, g, j1) + 1
            <= count_internal(spheres, g, j2),
    decreases j2 - j1,
{
    if j1 < j2 {
        lemma_count_internal_monotone(spheres, g, j1 + 1, j2);
    }
}

/// Partition validity: in the finished index, every internal cell's children
/// form a run of exactly [`CHILD_TOTAL`] headers inside the L1 array, and the
/// runs of two internal cells never overlap — each run is a previously
/// unused region.
pub proof fn lemma_partition_validity(spheres: Seq<Sphere>)
    ensures
        forall|j: int|
            0 <= j < spec_build(spheres).l0.len() && spec_build(spheres).l0[j] is Internal
                ==> (#[trigger] spec_build(spheres).l0[j])->child_base + CHILD_TOTAL <= spec_build(
                spheres,
            ).l1.len() && spec_build(spheres).l0[j]->child_base >= 0,
        forall|j1: int, j2: int|
            0 <= j1 < j2 < spec_build(spheres).l0.len() && (#[trigger] spec_build(
                spheres,
            ).l0[j1]) is Internal && (#[trigger] spec_build(spheres).l0[j2]) is Internal
                ==> spec_build(spheres).l0[j1]->child_base + CHILD_TOTAL <= spec_build(
                spheres,
            ).l0[j2]->child_base,
{
    let g = spec_grid_params(spheres);
    let vol = grid_volume(g);
    let m = spec_build(spheres);
    lemma_flatten_inv(spheres, g, vol);
    assert forall|j: int|
        0 <= j < m.l0.len() && m.l0[j] is Internal implies (#[trigger] m.l0[j])->child_base
        + CHILD_TOTAL <= m.l1.len() && m.l0[j]->child_base >= 0 by {
        assert(flat_cell_ok(spheres, g, vol, j));
        let cj = cell_of_flat(g, j);
        if l0_list(spheres, g, cj.0, cj.1, cj.2).len() <= MAX_LEAF {
        } else {
            assert(spec_flatten(spheres, g, vol).1.len() >= 1);
        }
    }
    assert forall|j1: int, j2: int|
        0 <= j1 < j2 < m.l0.len() && (#[trigger] m.l0[j1]) is Internal && (#[trigger] m.l0[j2]) is Internal implies m.l0[j1]->child_base
        + CHILD_TOTAL <= m.l0[j2]->child_base by {
        assert(flat_cell_ok(spheres, g, vol, j1));
        assert(flat_cell_ok(spheres, g, vol, j2));
        lemma_count_internal_monotone(spheres, g, j1, j2);
        assert(CHILD_TOTAL * count_internal(spheres, g, j1) + CHILD_TOTAL <= CHILD_TOTAL
            * count_internal(spheres, g, j2)) by (nonlinear_arith)
            requires
                count_internal(spheres, g, j1) + 1 <= count_internal(spheres, g, j2),
        ;
    }
}

/// Non-degeneracy: the grid resolution is clamped into `[1, MAX_DIM]` on
/// every axis, and neither the L1 array nor the index pool is ever empty.
pub proof fn lemma_non_degenerate(spheres: Seq<Sphere>)
    ensures
        1 <= spec_build(spheres).params.dims.x <= MAX_DIM,
        1 <= spec_build(spheres).params.dims.y <= MAX_DIM,
        1 <= spec_build(spheres).params.dims.z <= MAX_DIM,
        spec_build(spheres).l1.len() >= 1,
        spec_build(spheres).pool.len() >= 1,
{
}

/// Whether, along one axis, the slab of cell coordinate `c` meets the
/// interval `[p_lo, p_hi]`. Over the rationals, the slab of `c` is
/// `[lo + c * ext / dim, lo + (c + 1) * ext / dim)`, half-open, with the two
/// border cells extended to infinity (points outside the grid are clamped
/// into them); the inequalities below are that condition multiplied by `dim`.
pub open spec fn slab_intersects(
    p_lo: int,
    p_hi: int,
    lo: int,
    ext: int,
    dim: int,
    c: int,
) -> bool {
    &&& (c == 0 || c * ext <= (p_hi - lo) * dim)
    &&& (c == dim - 1 || (p_lo - lo) * dim < (c + 1) * ext)
}

/// Whether the box of cell `(cx, cy, cz)` intersects the bounding box of the
/// sphere `s`, slab by slab.
pub open spec fn cell_box_intersects_sphere(
    g: GridParams,
    cx: int,
    cy: int,
    cz: int,
    s: Sphere,
) -> bool {
    let b = sphere_box(s);
    &&& slab_intersects(b.min_x, b.max_x, g.bmin.x as int, grid_ext_x(g), g.dims.x as int, cx)
    &&& slab_intersects(b.min_y, b.max_y, g.bmin.y as int, grid_ext_y(g), g.dims.y as int, cy)
    &&& slab_intersects(b.min_z, b.max_z, g.bmin.z as int, grid_ext_z(g), g.dims.z as int, cz)
}

/// A cell whose slab meets an interval lies in the interval's clamped
/// coordinate range.
proof fn lemma_slab_to_coords(p_lo: int, p_hi: int, lo: int, ext: int, dim: int, c: int)
    requires
        ext >= 1,
        dim >= 1,
        0 <= c < dim,
        p_lo <= p_hi,
        slab_intersects(p_lo, p_hi, lo, ext, dim, c),
    ensures
        cell_coord(p_lo, lo, ext, dim) <= c <= cell_coord(p_hi, lo, ext, dim),
{
    lemma_cell_coord_range(p_lo, lo, ext, dim);
    lemma_cell_coord_range(p_hi, lo, ext, dim);
    if c > 0 {
        // c * ext <= (p_hi - lo) * dim <= rel_hi * dim, so c <= rel_hi * dim / ext
        let rel = int_max(p_hi - lo, 0);
        vstd::arithmetic::mul::lemma_mul_inequality(p_hi - lo, rel, dim);
        let q = rel * dim / ext;
        vstd::arithmetic::div_mod::lemma_fundamental_div_mod(rel * dim, ext);
        vstd::arithmetic::div_mod::lemma_mod_bound(rel * dim, ext);
        if q < c {
            vstd::arithmetic::mul::lemma_mul_inequality(q + 1, c, ext);
            assert((q + 1) * ext == ext * q + ext) by (nonlinear_arith);
            assert(c * ext == ext * c) by (nonlinear_arith);
            assert(false);
        }
        assert(cell_coord(p_hi, lo, ext, dim) == int_min(q, dim - 1));
    }
    if c < dim - 1 {
        // (p_lo - lo) * dim < (c + 1) * ext, so rel_lo * dim / ext <= c
        let rel = int_max(p_lo - lo, 0);
        let q = rel * dim / ext;
        if p_lo - lo <= 0 {
            assert(rel == 0);
            assert(rel * dim == 0) by (nonlinear_arith)
                requires
                    rel == 0,
            ;
            vstd::arithmetic::div_mod::lemma_fundamental_div_mod_converse(0, ext, 0, 0);
        } else {
            assert(rel * dim < (c + 1) * ext);
            vstd::arithmetic::div_mod::lemma_fundamental_div_mod(rel * dim, ext);
            vstd::arithmetic::div_mod::lemma_mod_bound(rel * dim, ext);
            if q > c {
                vstd::arithmetic::mul::lemma_mul_inequality(c + 1, q, ext);
                assert((c + 1) * ext == ext * (c + 1)) by (nonlinear_arith);
                assert(q * ext == ext * q) by (nonlinear_arith);
                assert(false);
            }
        }
    }
}

/// A covering sphere's index stands in the cell's candidate list.
proof fn lemma_l0_list_contains(
    spheres: Seq<Sphere>,
    g: GridParams,
    cx: int,
    cy: int,
    cz: int,
    k: int,
    i: int,
)
    requires
        1 <= i < k,
        k <= 0x1_0000_0000,
        covers_l0(spheres, g, i, cx, cy, cz),
    ensures
        l0_list_upto(spheres, g, cx, cy, cz, k).contains(i as u32),
    decreases k,
{
    let pre = l0_list_upto(spheres, g, cx, cy, cz, k - 1);
    let cur = l0_list_upto(spheres, g, cx, cy, cz, k);
    if i == k - 1 {
        assert(cur == pre.push(i as u32));
        assert(cur[pre.len() as int] == i as u32);
    } else {
        lemma_l0_list_contains(spheres, g, cx, cy, cz, k - 1, i);
        let j = choose|j: int| 0 <= j < pre.len() && pre[j] == i as u32;
        if covers_l0(spheres, g, k - 1, cx, cy, cz) {
            assert(cur == pre.push((k - 1) as u32));
            assert(cur[j] == i as u32);
        } else {
            assert(cur == pre);
        }
    }
}

/// A member of the parent list that covers a child stands in that child's
/// filtered list.
proof fn lemma_child_filter_contains(
    spheres: Seq<Sphere>,
    g: GridParams,
    cx: int,
    cy: int,
    cz: int,
    ux: int,
    uy: int,
    uz: int,
    list: Seq<u32>,
    sid: u32,
)
    requires
        list.contains(sid),
        covers_child(spheres, g, sid as int, cx, cy, cz, ux, uy, uz),
    ensures
        child_filter(spheres, g, cx, cy, cz, ux, uy, uz, list).contains(sid),
    decreases list.len(),
{
    let pre = child_filter(spheres, g, cx, cy, cz, ux, uy, uz, list.drop_last());
    let cur = child_filter(spheres, g, cx, cy, cz, ux, uy, uz, list);
    if list.last() == sid {
        assert(cur == pre.push(sid));
        assert(cur[pre.len() as int] == sid);
    } else {
        let j = choose|j: int| 0 <= j < list.len() && list[j] == sid;
        assert(list.drop_last()[j] == sid);
        lemma_child_filter_contains(spheres, g, cx, cy, cz, ux, uy, uz, list.drop_last(), sid);
        let w = choose|w: int| 0 <= w < pre.len() && pre[w] == sid;
        if covers_child(spheres, g, list.last() as int, cx, cy, cz, ux, uy, uz) {
            assert(cur == pre.push(list.last()));
            assert(cur[w] == sid);
        } else {
            assert(cur == pre);
        }
    }
}

/// Whether sphere `i` appears in the part of the index pool reachable from
/// cell `(cx, cy, cz)`: directly through a leaf header, or through one of the
/// cell's children.
pub open spec fn sphere_reachable(m: IndexModel, cx: int, cy: int, cz: int, i: int) -> bool {
    let f = flat_of_cell(m.params, cx, cy, cz);
    &&& 0 <= f < m.l0.len()
    &&& match m.l0[f] {
        L0ModelHeader::Leaf { start, count } => exists|j: int|
            start <= j < start + count && 0 <= j < m.pool.len() && (#[trigger] m.pool[j]) as int
                == i,
        L0ModelHeader::Internal { child_base } => exists|u: int, j: int|
            {
                &&& 0 <= u < CHILD_TOTAL
                &&& 0 <= child_base + u < m.l1.len()
                &&& (#[trigger] m.l1[child_base + u]).start <= j < m.l1[child_base + u].start
                    + m.l1[child_base + u].count
                &&& 0 <= j < m.pool.len()
                &&& (#[trigger] m.pool[j]) as int == i
            },
    }
}

/// Coverage: every non-ground sphere is reachable from every cell whose box
/// intersects the sphere's bounding box — directly if the cell is a leaf, or
/// through one of its children if it is subdivided.
pub proof fn lemma_coverage(spheres: Seq<Sphere>, cx: int, cy: int, cz: int, i: int)
    requires
        wf_scene(spheres),
        1 <= i < spheres.len(),
        0 <= cx < spec_grid_params(spheres).dims.x,
        0 <= cy < spec_grid_params(spheres).dims.y,
        0 <= cz < spec_grid_params(spheres).dims.z,
        cell_box_intersects_sphere(spec_grid_params(spheres), cx, cy, cz, spheres[i]),
    ensures
        sphere_reachable(spec_build(spheres), cx, cy, cz, i),
{
    let g = spec_grid_params(spheres);
    let m = spec_build(spheres);
    let b = sphere_box(spheres[i]);
    let dxi = g.dims.x as int;
    let dyi = g.dims.y as int;
    let dzi = g.dims.z as int;
    let ex = grid_ext_x(g);
    let ey = grid_ext_y(g);
    let ez = grid_ext_z(g);
    assert(wf_sphere(spheres[i]));
    assert(b.min_x <= b.max_x && b.min_y <= b.max_y && b.min_z <= b.max_z);
    assert(1 <= dxi <= 64 && 1 <= dyi <= 64 && 1 <= dzi <= 64);
    assert(ex >= 1 && ey >= 1 && ez >= 1);
    lemma_slab_to_coords(b.min_x, b.max_x, g.bmin.x as int, ex, dxi, cx);
    lemma_slab_to_coords(b.min_y, b.max_y, g.bmin.y as int, ey, dyi, cy);
    lemma_slab_to_coords(b.min_z, b.max_z, g.bmin.z as int, ez, dzi, cz);
    assert(covers_l0(spheres, g, i, cx, cy, cz));
    lemma_l0_list_contains(spheres, g, cx, cy, cz, spheres.len() as int, i);
    let list = l0_list(spheres, g, cx, cy, cz);
    let vol = grid_volume(g);
    lemma_flatten_inv(spheres, g, vol);
    lemma_flat_coords(dxi, dyi, dzi, cx, cy, cz);
    let f = flat_of_cell(g, cx, cy, cz);
    assert(cell_of_flat(g, f) == (cx, cy, cz));
    assert(flat_cell_ok(spheres, g, vol, f));
    let fl = spec_flatten(spheres, g, vol);
    if list.len() <= MAX_LEAF {
        match fl.0[f] {
            L0ModelHeader::Leaf { start, count } => {
                let j0 = choose|j0: int| 0 <= j0 < list.len() && list[j0] == i as u32;
                assert(fl.2.subrange(start, start + count)[j0] == i as u32);
                assert(fl.2[start + j0] as int == i);
                assert(m.pool == fl.2);
                assert(m.l0[f] == fl.0[f]);
                assert(start <= start + j0 < start + count && 0 <= start + j0 < m.pool.len()
                    && m.pool[start + j0] as int == i);
            },
            L0ModelHeader::Internal { .. } => {
                assert(false);
            },
        }
    } else {
        match fl.0[f] {
            L0ModelHeader::Leaf { .. } => {
                assert(false);
            },
            L0ModelHeader::Internal { child_base } => {
                let ux = child_coord(b.min_x, g.bmin.x as int, ex, dxi, cx);
                let uy = child_coord(b.min_y, g.bmin.y as int, ey, dyi, cy);
                let uz = child_coord(b.min_z, g.bmin.z as int, ez, dzi, cz);
                lemma_child_coord_monotone(b.min_x, b.max_x, g.bmin.x as int, ex, dxi, cx);
                lemma_child_coord_monotone(b.min_y, b.max_y, g.bmin.y as int, ey, dyi, cy);
                lemma_child_coord_monotone(b.min_z, b.max_z, g.bmin.z as int, ez, dzi, cz);
                assert(covers_child(spheres, g, i, cx, cy, cz, ux, uy, uz));
                assert(0 <= ux < 4 && 0 <= uy < 4 && 0 <= uz < 4);
                lemma_flat_coords(4, 4, 4, ux, uy, uz);
                let u = ux + 4 * (uy + 4 * uz);
                assert(child_of_flat(u) == (ux, uy, uz));
                lemma_child_filter_contains(spheres, g, cx, cy, cz, ux, uy, uz, list, i as u32);
                assert(child_ok(spheres, g, vol, f, u));
                let clist = child_filter(spheres, g, cx, cy, cz, ux, uy, uz, list);
                let j0 = choose|j0: int| 0 <= j0 < clist.len() && clist[j0] == i as u32;
                let st = fl.1[child_base + u].start;
                assert(fl.2.subrange(st, st + clist.len())[j0] == i as u32);
                assert(fl.2[st + j0] as int == i);
                assert(m.pool == fl.2);
                assert(m.l1 == fl.1);
                assert(m.l0[f] == fl.0[f]);
                assert({
                    &&& 0 <= u < CHILD_TOTAL
                    &&& 0 <= child_base + u < m.l1.len()
                    &&& m.l1[child_base + u].start <= st + j0 < m.l1[child_base + u].start
                        + m.l1[child_base + u].count
                    &&& 0 <= st + j0 < m.pool.len()
                    &&& m.pool[st + j0] as int == i
                });
            },
        }
    }
}

/// Determinism: the index is a pure function of the sphere list — any two
/// indexes whose models arose from the same list are equal, so repeated
/// builds are byte-identical.
pub proof fn lemma_build_deterministic(a: IndexModel, b: IndexModel, spheres: Seq<Sphere>)
    requires
        a == spec_build(spheres),
        b == spec_build(spheres),
    ensures
        a == b,
{
}

} // verus!
