//! End-to-end solves: the floating-point kernel (rotations from region
//! centers, per-pair angular residuals) drives the verified search engine.

use glam::{Mat3A, Vec3, Vec3A};
use rgpnp_rs::block::Block;
use rgpnp_rs::consensus::{alpha_cube, alpha_polar, count_bounds, ANGLE_ONE};
use rgpnp_rs::pairs::pair_indices;
use rgpnp_rs::search::Search;

const PI: f32 = std::f32::consts::PI;

#[derive(Clone, Copy, PartialEq)]
enum Mode {
    Cube,
    Polar,
}

/// The center of the slice `[idx, idx+1] / 2^depth` of `[lo, lo + len]`.
fn axis_center(lo: f32, len: f32, idx: u64, depth: u32) -> f32 {
    lo + len * ((idx as f32 + 0.5) / (1u64 << depth) as f32)
}

/// The center rotation of a region under the chosen parameterization.
fn rotation_of(mode: Mode, b: &Block) -> Mat3A {
    match mode {
        Mode::Cube => {
            let v = Vec3A::new(
                axis_center(-PI, 2.0 * PI, b.ix, b.depth),
                axis_center(-PI, 2.0 * PI, b.iy, b.depth),
                axis_center(-PI, 2.0 * PI, b.iz, b.depth),
            );
            match v.try_normalize() {
                Some(axis) => Mat3A::from_axis_angle(axis.into(), v.length()),
                None => Mat3A::IDENTITY,
            }
        }
        Mode::Polar => {
            let theta = axis_center(-PI, 2.0 * PI, b.ix, b.depth);
            let phi = axis_center(-PI / 2.0, PI, b.iy, b.depth);
            let angle = axis_center(-PI, 2.0 * PI, b.iz, b.depth);
            let axis = Vec3::new(
                theta.sin() * phi.cos(),
                theta.sin() * phi.sin(),
                theta.cos(),
            );
            Mat3A::from_axis_angle(axis, angle)
        }
    }
}

/// The (world difference, camera cross) of each consecutive pair of
/// (bearing, world) correspondences.
fn make_uv(corr: &[(Vec3A, Vec3A)]) -> Vec<(Vec3A, Vec3A)> {
    pair_indices(corr.len())
        .into_iter()
        .map(|(i, j)| (corr[i].1 - corr[j].1, corr[i].0.cross(corr[j].0)))
        .collect()
}

/// Fixed-point residuals of every pair at the rotation: |angle(v, R*u) - pi/2|
/// in units of 1/ANGLE_ONE radians; a degenerate pair becomes u64::MAX.
fn residuals_for(rot: &Mat3A, uv: &[(Vec3A, Vec3A)]) -> Vec<u64> {
    uv.iter()
        .map(|(u, v)| {
            let err = (v.angle_between(*rot * *u) - std::f32::consts::FRAC_PI_2).abs();
            if err.is_finite() {
                (err * ANGLE_ONE as f32) as u64
            } else {
                u64::MAX
            }
        })
        .collect()
}

/// Run the branch-and-bound to completion (or to the step cap) and return
/// the incumbent rotation and its guaranteed inlier count.
fn solve(
    mode: Mode,
    corr: &[(Vec3A, Vec3A)],
    tau_rad: f32,
    max_depth: u32,
    max_steps: usize,
) -> (Mat3A, u32, Block) {
    let uv = make_uv(corr);
    let n_pairs = uv.len() as u32;
    let tau = (tau_rad * ANGLE_ONE as f32) as u64;
    let mut s = Search::new(n_pairs, max_depth);
    let mut steps = 0;
    while steps < max_steps && !s.finished() {
        let children = s.step_begin();
        let mut bounds: Vec<(u32, u32)> = Vec::with_capacity(children.len());
        for c in &children {
            let alpha = match mode {
                Mode::Cube => alpha_cube(c.depth),
                Mode::Polar => alpha_polar(c.depth),
            };
            let rot = rotation_of(mode, c);
            let res = residuals_for(&rot, &uv);
            bounds.push(count_bounds(&res, tau, alpha));
        }
        s.step_finish(&bounds);
        steps += 1;
    }
    (rotation_of(mode, &s.best_block()), s.best_lower(), s.best_block())
}

/// Pinhole camera of the scenarios.
fn camera_k() -> (f32, f32, f32, f32) {
    (718.856, 718.856, 607.1928, 185.2157)
}

/// Eight world points on a 1-meter cube in front of the camera, ordered so
/// that the pairing of consecutive correspondences yields a body diagonal,
/// an edge and two different face diagonals as world differences: four
/// directions with no common symmetry, which pins the rotation down.
fn cube_points() -> Vec<Vec3A> {
    vec![
        Vec3A::new(-0.5, -0.5, 4.0),
        Vec3A::new(0.5, 0.5, 5.0),
        Vec3A::new(0.5, -0.5, 4.0),
        Vec3A::new(-0.5, -0.5, 5.0),
        Vec3A::new(-0.5, 0.5, 4.0),
        Vec3A::new(0.5, 0.5, 4.0),
        Vec3A::new(0.5, -0.5, 5.0),
        Vec3A::new(-0.5, 0.5, 5.0),
    ]
}

/// Project world points through rotation `r` (translation zero) onto integer
/// pixels, then back-project the pixels into bearings, as a caller feeding
/// the solver would.
fn correspondences(points: &[Vec3A], r: Mat3A) -> Vec<(Vec3A, Vec3A)> {
    let (fx, fy, cx, cy) = camera_k();
    points
        .iter()
        .map(|&p| {
            let c = r * p;
            let u = (fx * c.x / c.z + cx).round();
            let v = (fy * c.y / c.z + cy).round();
            let bearing = Vec3A::new((u - cx) / fx, (v - cy) / fy, 1.0);
            (bearing, p)
        })
        .collect()
}

fn angle_between_images(a: Mat3A, b: Mat3A, d: Vec3A) -> f32 {
    (a * d).angle_between(b * d)
}

#[test]
fn identity_recovery() {
    let corr = correspondences(&cube_points(), Mat3A::IDENTITY);
    let (rot, best, _) = solve(Mode::Cube, &corr, 0.01, 10, 100000);
    assert_eq!(best, 4);
    assert!(angle_between_images(rot, Mat3A::IDENTITY, Vec3A::X) < 0.05);
}

#[test]
fn z_quarter_turn_recovery() {
    let r_true = Mat3A::from_axis_angle(Vec3::Z, PI / 2.0);
    let corr = correspondences(&cube_points(), r_true);
    let (rot, best, _) = solve(Mode::Cube, &corr, 0.01, 10, 100000);
    assert_eq!(best, 4);
    assert!((rot * Vec3A::X).angle_between(Vec3A::Y) < 0.05);
}

#[test]
fn empty_input_returns_identity() {
    let corr: Vec<(Vec3A, Vec3A)> = vec![];
    let (rot, best, block) = solve(Mode::Cube, &corr, 0.2, 8, 50000);
    assert_eq!(best, 0);
    assert_eq!(block, Block { depth: 0, ix: 0, iy: 0, iz: 0 });
    assert!(angle_between_images(rot, Mat3A::IDENTITY, Vec3A::X) < 1e-6);
    assert!(angle_between_images(rot, Mat3A::IDENTITY, Vec3A::Y) < 1e-6);
}

#[test]
fn single_correspondence_returns_identity() {
    // One correspondence forms no pair: the search is over immediately.
    let corr = correspondences(&cube_points()[..1], Mat3A::IDENTITY);
    let (rot, best, block) = solve(Mode::Cube, &corr, 0.2, 8, 50000);
    assert_eq!(best, 0);
    assert_eq!(block, Block { depth: 0, ix: 0, iy: 0, iz: 0 });
    assert!(angle_between_images(rot, Mat3A::IDENTITY, Vec3A::X) < 1e-6);
}

#[test]
fn repeated_solves_agree() {
    let corr = correspondences(&cube_points(), Mat3A::IDENTITY);
    let (_, best1, block1) = solve(Mode::Cube, &corr, 0.2, 8, 50000);
    let (_, best2, block2) = solve(Mode::Cube, &corr, 0.2, 8, 50000);
    assert_eq!(best1, best2);
    assert_eq!(block1, block2);
}

#[test]
fn polar_identity_recovery() {
    let corr = correspondences(&cube_points(), Mat3A::IDENTITY);
    let (rot, best, _) = solve(Mode::Polar, &corr, 0.01, 10, 100000);
    assert_eq!(best, 4);
    assert!(angle_between_images(rot, Mat3A::IDENTITY, Vec3A::X) < 0.05);
}

#[test]
fn parameterizations_agree() {
    // The axis-angle and the polar search converge to the same rotation.
    let r_true = Mat3A::from_axis_angle(Vec3::Z, PI / 2.0);
    let corr = correspondences(&cube_points(), r_true);
    let (rot_a, best_a, _) = solve(Mode::Cube, &corr, 0.01, 10, 100000);
    let (rot_p, best_p, _) = solve(Mode::Polar, &corr, 0.01, 10, 100000);
    assert_eq!(best_a, 4);
    assert_eq!(best_p, 4);
    assert!((rot_a * Vec3A::X).angle_between(rot_p * Vec3A::X) < 0.1);
}

#[test]
fn noisy_recovery() {
    // Pixel noise of about one pixel, applied deterministically.
    let r_true = Mat3A::from_axis_angle(Vec3::new(0.0, 1.0, 0.0), 0.3);
    let offsets = [
        (1.0f32, -1.0f32),
        (-1.0, 0.0),
        (0.0, 1.0),
        (1.0, 1.0),
        (-1.0, -1.0),
        (0.0, -1.0),
        (1.0, 0.0),
        (-1.0, 1.0),
    ];
    let (fx, fy, cx, cy) = camera_k();
    let corr: Vec<(Vec3A, Vec3A)> = cube_points()
        .iter()
        .zip(offsets.iter())
        .map(|(&p, &(du, dv))| {
            let c = r_true * p;
            let u = (fx * c.x / c.z + cx + du).round();
            let v = (fy * c.y / c.z + cy + dv).round();
            (Vec3A::new((u - cx) / fx, (v - cy) / fy, 1.0), p)
        })
        .collect();
    let (rot, best, _) = solve(Mode::Cube, &corr, 0.01, 10, 100000);
    assert_eq!(best, 4);
    let err = angle_between_images(rot, r_true, Vec3A::X);
    assert!(err < 0.1, "err={}", err);
}

#[test]
fn incumbent_beats_rotation_grid() {
    // Brute force over a coarse rotation grid: the branch-and-bound's
    // guaranteed inlier count is at least the best the grid achieves.
    let r_true = Mat3A::from_axis_angle(Vec3::new(0.0, 1.0, 0.0), 0.4);
    let corr = correspondences(&cube_points(), r_true);
    let uv = make_uv(&corr);
    let tau_rad = 0.2f32;
    let tau = (tau_rad * ANGLE_ONE as f32) as u64;
    let depth = 3u32;
    let mut grid_best = 0u32;
    for ix in 0..(1u64 << depth) {
        for iy in 0..(1u64 << depth) {
            for iz in 0..(1u64 << depth) {
                let b = Block { depth, ix, iy, iz };
                let res = residuals_for(&rotation_of(Mode::Cube, &b), &uv);
                let (l, _) = count_bounds(&res, tau, 0);
                grid_best = grid_best.max(l);
            }
        }
    }
    let (_, best, _) = solve(Mode::Cube, &corr, tau_rad, 8, 50000);
    assert!(best >= grid_best);
}
