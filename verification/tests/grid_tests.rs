use callandor::builder::build;
use callandor::grid::GridDims;
use callandor::grid::L0Header;
use callandor::grid::L1Header;
use callandor::grid::Sphere;
use callandor::grid::Vec3i;

fn sph(x: i64, y: i64, z: i64, r: i64) -> Sphere {
    Sphere {
        center: Vec3i { x, y, z },
        radius: r,
        albedo: Vec3i { x: 500, y: 500, z: 500 },
    }
}

/// The ground sphere: large, excluded from bounds and binning.
fn ground() -> Sphere {
    sph(0, -1_000_000, 0, 999_000)
}

#[test]
fn empty_scene_uses_fallback_bounds_and_placeholders() {
    let idx = build(&vec![]);
    assert_eq!(idx.params.bmin, Vec3i { x: -1500, y: -1500, z: -1500 });
    assert_eq!(idx.params.bmax, Vec3i { x: 1500, y: 1500, z: 1500 });
    assert_eq!(idx.params.dims, GridDims { x: 1, y: 1, z: 1 });
    assert_eq!(idx.l0, vec![L0Header::Leaf { start: 0, count: 0 }]);
    assert_eq!(idx.l1, vec![L1Header { start: 0, count: 0 }]);
    assert_eq!(idx.pool, vec![0]);
}

#[test]
fn ground_only_scene_matches_empty_layout() {
    let idx = build(&vec![ground()]);
    assert_eq!(idx.params.bmin, Vec3i { x: -1500, y: -1500, z: -1500 });
    assert_eq!(idx.params.bmax, Vec3i { x: 1500, y: 1500, z: 1500 });
    assert_eq!(idx.params.dims, GridDims { x: 1, y: 1, z: 1 });
    assert_eq!(idx.l0, vec![L0Header::Leaf { start: 0, count: 0 }]);
    assert_eq!(idx.pool, vec![0]);
}

#[test]
fn single_sphere_lands_in_single_cell() {
    let idx = build(&vec![ground(), sph(0, 1000, 0, 1000)]);
    assert_eq!(idx.params.bmin, Vec3i { x: -1500, y: -500, z: -1500 });
    assert_eq!(idx.params.bmax, Vec3i { x: 1500, y: 2500, z: 1500 });
    assert_eq!(idx.params.dims, GridDims { x: 1, y: 1, z: 1 });
    assert_eq!(idx.l0, vec![L0Header::Leaf { start: 0, count: 1 }]);
    assert_eq!(idx.pool, vec![1]);
    assert_eq!(idx.l1, vec![L1Header { start: 0, count: 0 }]);
}

#[test]
fn cell_with_exactly_the_leaf_limit_stays_a_leaf() {
    // 16 candidates is the limit itself: only a strict excess subdivides
    let mut spheres = vec![ground()];
    for j in 1..=16i64 {
        spheres.push(sph(10 * j, 0, 0, 1));
    }
    let idx = build(&spheres);
    assert_eq!(idx.params.dims, GridDims { x: 1, y: 1, z: 1 });
    assert_eq!(idx.l0, vec![L0Header::Leaf { start: 0, count: 16 }]);
    assert_eq!(idx.pool, (1..=16u32).collect::<Vec<_>>());
    assert_eq!(idx.l1, vec![L1Header { start: 0, count: 0 }]);
}

#[test]
fn dense_cell_is_subdivided_into_64_children() {
    // 17 clustered spheres in one cell exceed the leaf limit of 16
    let mut spheres = vec![ground()];
    for j in 1..=17i64 {
        spheres.push(sph(10 * j, 0, 0, 1));
    }
    let idx = build(&spheres);
    assert_eq!(idx.params.dims, GridDims { x: 1, y: 1, z: 1 });
    assert_eq!(idx.l0.len(), 1);
    match idx.l0[0] {
        L0Header::Internal { child_base } => assert_eq!(child_base, 0),
        L0Header::Leaf { .. } => panic!("dense cell must be subdivided"),
    }
    assert_eq!(idx.l1.len(), 64);
    // every child range lies inside the pool
    for h in &idx.l1 {
        assert!(h.start + h.count <= idx.pool.len());
    }
    // every non-ground sphere is reachable through some child
    for j in 1..=17u32 {
        assert!(idx.pool.contains(&j), "sphere {j} missing from the pool");
    }
    // the ground sphere is never binned
    assert!(idx.pool.iter().all(|&s| s >= 1));
}

#[test]
fn two_dense_cells_get_disjoint_child_runs() {
    // 33 spheres along the x axis split into two cells of 17 candidates each
    // (the straddling sphere is duplicated into both)
    let mut spheres = vec![ground()];
    for j in 1..=33i64 {
        spheres.push(sph(100 * j, 0, 0, 10));
    }
    let idx = build(&spheres);
    assert_eq!(idx.params.dims, GridDims { x: 2, y: 1, z: 1 });
    assert_eq!(idx.l0.len(), 2);
    match (idx.l0[0], idx.l0[1]) {
        (
            L0Header::Internal { child_base: cb0 },
            L0Header::Internal { child_base: cb1 },
        ) => {
            assert_eq!(cb0, 0);
            assert_eq!(cb1, 64);
        }
        _ => panic!("both cells must be subdivided"),
    }
    assert_eq!(idx.l1.len(), 128);
    for j in 1..=33u32 {
        assert!(idx.pool.contains(&j), "sphere {j} missing from the pool");
    }
    // the sphere straddling the cell boundary appears in both cells' children
    let in_run = |cb: usize, j: u32| {
        idx.l1[cb..cb + 64]
            .iter()
            .any(|h| idx.pool[h.start..h.start + h.count].contains(&j))
    };
    assert!(in_run(0, 17));
    assert!(in_run(64, 17));
}

#[test]
fn grid_resolution_stays_within_limits() {
    let scenes: Vec<Vec<Sphere>> = vec![
        vec![],
        vec![ground()],
        vec![ground(), sph(0, 0, 0, 1)],
        {
            let mut s = vec![ground()];
            for j in 1..=100i64 {
                s.push(sph(1000 * j, 37 * j, -500 * j, 300));
            }
            s
        },
    ];
    for spheres in &scenes {
        let idx = build(spheres);
        let d = idx.params.dims;
        assert!((1..=64).contains(&d.x));
        assert!((1..=64).contains(&d.y));
        assert!((1..=64).contains(&d.z));
        assert!(!idx.l1.is_empty());
        assert!(!idx.pool.is_empty());
        assert_eq!(idx.l0.len(), (d.x * d.y * d.z) as usize);
    }
}

#[test]
fn rebuilding_the_same_scene_is_byte_identical() {
    let mut spheres = vec![ground()];
    for j in 1..=50i64 {
        spheres.push(sph(997 * j, 13 * j * j % 5000, -71 * j, 250));
    }
    let a = build(&spheres);
    let b = build(&spheres);
    assert_eq!(a.params.bmin, b.params.bmin);
    assert_eq!(a.params.bmax, b.params.bmax);
    assert_eq!(a.params.dims, b.params.dims);
    assert_eq!(a.l0, b.l0);
    assert_eq!(a.l1, b.l1);
    assert_eq!(a.pool, b.pool);
}

#[test]
fn every_sphere_is_reachable_from_its_center_cell() {
    let mut spheres = vec![ground()];
    for j in 1..=40i64 {
        spheres.push(sph(317 * j, (j * j) % 2000, 41 * j, 120));
    }
    let idx = build(&spheres);
    let g = &idx.params;
    let dims = [g.dims.x as i64, g.dims.y as i64, g.dims.z as i64];
    let lo = [g.bmin.x, g.bmin.y, g.bmin.z];
    let ext = [
        (g.bmax.x - g.bmin.x).max(100),
        (g.bmax.y - g.bmin.y).max(100),
        (g.bmax.z - g.bmin.z).max(100),
    ];
    let coord = |p: i64, a: usize| -> i64 {
        let rel = (p - lo[a]).max(0);
        (rel * dims[a] / ext[a]).min(dims[a] - 1)
    };
    for (i, s) in spheres.iter().enumerate().skip(1) {
        let c = [
            coord(s.center.x, 0),
            coord(s.center.y, 1),
            coord(s.center.z, 2),
        ];
        let f = (c[0] + dims[0] * (c[1] + dims[1] * c[2])) as usize;
        let found = match idx.l0[f] {
            L0Header::Leaf { start, count } => {
                idx.pool[start..start + count].contains(&(i as u32))
            }
            L0Header::Internal { child_base } => idx.l1[child_base..child_base + 64]
                .iter()
                .any(|h| idx.pool[h.start..h.start + h.count].contains(&(i as u32))),
        };
        assert!(found, "sphere {i} not reachable from its center cell");
    }
}
