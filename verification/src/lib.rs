//! Core of a globally optimal rotation estimator for the Perspective-n-Point
//! problem.
//!
//! Given 2D-3D correspondences seen by a calibrated pinhole camera, the solver
//! searches the whole rotation group by best-first branch-and-bound over a
//! hierarchy of parameter regions, scoring each region by how many
//! correspondence pairs it can make consistent under an angular threshold.
//!
//! This crate holds the exact combinatorial heart of that solver: the dyadic
//! region hierarchy and its subdivision, the fixed-point consensus counting,
//! and the branch-and-bound engine with its ordering, incumbent and pruning
//! discipline. The floating-point kernel (building a rotation matrix from a
//! region's center and measuring per-pair angular residuals) is inherently
//! approximate and lives with the callers; they feed residuals back to the
//! engine, which is verified for every value they might hand in.

pub mod block;
pub mod consensus;
pub mod pairs;
pub mod search;

use vstd::prelude::*;

verus! {

/// Which parameterization of the rotation group the search runs over:
/// an axis-angle cube or a polar-axis-by-angle box.
#[derive(Clone, Copy, Debug, PartialEq, Eq, Structural)]
pub enum RotationBound {
    AngleAxis,
    PolarCoordinate,
}

} // verus!
