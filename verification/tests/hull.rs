use caliper::model::hull::{build_faces, convex_hull, subsample, MAX_HULL_INPUT};
use caliper::scalar::{Scalar, Vec3};

fn s(x: f64) -> Scalar {
    Scalar { bits: x.to_bits() }
}

fn f(x: Scalar) -> f64 {
    f64::from_bits(x.bits)
}

type P = [f64; 3];

fn pt(p: &P) -> Vec3 {
    Vec3::new(s(p[0]), s(p[1]), s(p[2]))
}

fn cloud(p: &[P]) -> Vec<Vec3> {
    p.iter().map(pt).collect()
}

fn plain(v: &[Vec3]) -> Vec<P> {
    v.iter().map(|p| [f(p.x), f(p.y), f(p.z)]).collect()
}

fn dot(a: &P, b: &P) -> f64 {
    a[0] * b[0] + a[1] * b[1] + a[2] * b[2]
}

fn far(a: &P, b: &P) -> f64 {
    let d = [a[0] - b[0], a[1] - b[1], a[2] - b[2]];
    dot(&d, &d).sqrt()
}

fn support(p: &[P], d: &P) -> f64 {
    p.iter().map(|x| dot(x, d)).fold(f64::MIN, f64::max)
}

fn hull(p: &[P]) -> Vec<P> {
    plain(&convex_hull(&cloud(p)))
}

fn cube_corners(h: f64) -> Vec<P> {
    let mut v = Vec::new();
    for sx in [-1.0, 1.0] {
        for sy in [-1.0, 1.0] {
            for sz in [-1.0, 1.0] {
                v.push([sx * h, sy * h, sz * h]);
            }
        }
    }
    v
}

#[test]
fn cube_hull_is_collision_correct() {
    let corners = cube_corners(0.5);
    let mut pts = corners.clone();
    pts.push([0.0, 0.0, 0.0]); // interior
    pts.push([0.2, -0.1, 0.3]); // interior
    pts.push([0.5, 0.0, 0.0]); // on a face
    let h = hull(&pts);
    // (1) subset of input
    for p in &h {
        assert!(pts.iter().any(|q| far(q, p) < 1e-12), "hull pt not in input");
    }
    // (2) every true corner (extreme point) is retained
    for c in &corners {
        assert!(h.iter().any(|p| far(p, c) < 1e-12), "hull dropped a corner {c:?}");
    }
    // (3) support equality vs the input cloud in many directions
    for d in [[1.0, 0.0, 0.0], [-0.3, 0.7, 0.2], [0.5, -0.5, 0.5], [-1.0, -1.0, -1.0]] {
        assert!((support(&pts, &d) - support(&h, &d)).abs() < 1e-12, "along {d:?}");
    }
}

#[test]
fn tetra_hull_is_four_vertices() {
    let pts = vec![
        [0.0, 0.0, 0.0],
        [1.0, 0.0, 0.0],
        [0.0, 1.0, 0.0],
        [0.0, 0.0, 1.0],
        [0.1, 0.1, 0.1], // interior
    ];
    assert_eq!(hull(&pts).len(), 4);
}

#[test]
fn coplanar_falls_back_to_full_cloud() {
    // a flat square (z=0) has no volume
    let pts = vec![[0.0, 0.0, 0.0], [1.0, 0.0, 0.0], [1.0, 1.0, 0.0], [0.0, 1.0, 0.0]];
    assert_eq!(hull(&pts).len(), 4);
}

/// Deterministic numbers in [-1, 1].
fn splitmix(seed: u64) -> impl FnMut() -> f64 {
    let mut x = seed;
    move || {
        x = x.wrapping_add(0x9E37_79B9_7F4A_7C15);
        let mut z = x;
        z = (z ^ (z >> 30)).wrapping_mul(0xBF58_476D_1CE4_E5B9);
        z = (z ^ (z >> 27)).wrapping_mul(0x94D0_49BB_1331_11EB);
        ((z ^ (z >> 31)) as f64) / (u64::MAX as f64) * 2.0 - 1.0
    }
}

#[test]
fn every_input_point_inside_random_hull() {
    let mut next = splitmix(0x1234_5678_9abc_def0);
    let pts: Vec<P> = (0..200).map(|_| [next(), next(), next()]).collect();
    let h = convex_hull(&cloud(&pts));
    assert!(h.len() >= 4 && h.len() <= pts.len());
    // rebuild faces and confirm containment of all inputs
    let faces = build_faces(&h).expect("non-degenerate random cloud");
    for p in &pts {
        for face in &faces {
            let n = [f(face.n.x), f(face.n.y), f(face.n.z)];
            let q = [p[0] - f(face.p0.x), p[1] - f(face.p0.y), p[2] - f(face.p0.z)];
            assert!(dot(&n, &q) <= 1e-6, "input point {p:?} fell outside the computed hull");
        }
    }
}

#[test]
fn huge_cloud_is_bounded_and_keeps_axis_extremes() {
    let mut next = splitmix(0xDEAD_BEEF_1234_5678);
    let pts: Vec<P> = (0..60_000).map(|_| [next(), next(), next()]).collect();
    let c = cloud(&pts);
    let t = std::time::Instant::now();
    let h = plain(&convex_hull(&c));
    let dt = t.elapsed();
    assert!(dt.as_secs_f64() < 3.0, "hull build too slow: {dt:?}");
    assert!(h.len() <= MAX_HULL_INPUT, "hull not bounded: {}", h.len());
    assert!(h.len() >= 4);
    // subset of the input
    for p in &h {
        assert!(pts.iter().any(|q| far(q, p) < 1e-12), "hull pt not in input");
    }
    // axis support must match the full cloud
    for d in [
        [1.0, 0.0, 0.0],
        [-1.0, 0.0, 0.0],
        [0.0, 1.0, 0.0],
        [0.0, -1.0, 0.0],
        [0.0, 0.0, 1.0],
        [0.0, 0.0, -1.0],
    ] {
        let (a, b) = (support(&pts, &d), support(&h, &d));
        assert!((a - b).abs() < 1e-9, "axis support mismatch along {d:?}: {a} vs {b}");
    }
}

#[test]
fn huge_degenerate_cloud_falls_back_without_hanging() {
    let mut next = splitmix(0x00C0_FFEE_D00D_1010);
    let pts: Vec<P> = (0..60_000)
        .map(|_| {
            // map [-1,1] -> integer grid [0,10], z pinned to the plane
            let gx = ((next() + 1.0) * 5.0).round();
            let gy = ((next() + 1.0) * 5.0).round();
            [gx, gy, 0.0]
        })
        .collect();
    let c = cloud(&pts);
    let t = std::time::Instant::now();
    let h = plain(&convex_hull(&c));
    let dt = t.elapsed();
    assert!(dt.as_secs_f64() < 1.0, "degenerate hull too slow: {dt:?}");
    assert!(h.len() <= MAX_HULL_INPUT && !h.is_empty(), "unexpected size: {}", h.len());
    for d in [[1.0, 0.0, 0.0], [-1.0, 0.0, 0.0], [0.0, 1.0, 0.0], [0.0, -1.0, 0.0]] {
        assert!((support(&pts, &d) - support(&h, &d)).abs() < 1e-9, "along {d:?}");
    }
}

#[test]
fn small_cloud_unaffected_by_cap() {
    // Under the cap, thinning changes nothing, not even the order.
    assert!(cube_corners(0.5).len() <= MAX_HULL_INPUT);
    let pts = vec![
        [0.0, 0.0, 0.0],
        [1.0, 0.0, 0.0],
        [0.0, 1.0, 0.0],
        [0.0, 0.0, 1.0],
        [0.1, 0.1, 0.1],
    ];
    assert_eq!(plain(&subsample(&cloud(&pts), MAX_HULL_INPUT)), pts);
    assert_eq!(hull(&pts).len(), 4);
}
