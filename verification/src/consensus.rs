//! Consensus scoring of a region.
//!
//! A rotation is scored against the correspondence pairs through an angular
//! residual: a pair is an inlier when its residual is strictly below the
//! threshold. A region is scored at its center rotation twice, once at the
//! bare threshold (a lower bound on the inlier count achievable inside the
//! region) and once at the threshold widened by the region's angular radius
//! `alpha` (an upper bound).
//!
//! Angles here are fixed-point: radians scaled by [`ANGLE_ONE`] and rounded.
//! The residuals themselves come from the caller's floating-point kernel; a
//! degenerate pair (undefined residual) is handed in as `u64::MAX`, which no
//! threshold can exceed, so it is never counted — degenerate pairs are
//! "not inliers". The `alpha` radii are computed here by ceiling division
//! from seed constants that round the exact real values up, so the computed
//! radius never falls below the real one and the upper bound stays valid.

use crate::block::MAX_DEPTH;
use vstd::arithmetic::power2::{
    lemma2_to64, lemma2_to64_rest, lemma_pow2_strictly_increases, lemma_pow2_unfold, pow2,
};
use vstd::prelude::*;

verus! {

/// Fixed-point unit: one radian is this many residual units (`2^20`).
pub const ANGLE_ONE: u64 = 1048576;

/// `sqrt(3) * pi` in fixed point, rounded up: the angular radius of the seed
/// axis-angle cube, whose half-diagonal is `sqrt(3) * (2*pi / 2)`.
pub const CUBE_ALPHA_SEED: u64 = 5705720;

/// `4*pi` in fixed point, rounded up: the angular radius of the seed polar
/// box. A region's center can be off by half of each interval: half the
/// rotation angle interval (`pi`), plus the axis tilt (half of `2*pi` plus
/// half of `pi`), which moves an image by at most twice the tilt — together
/// `pi + 2 * (3*pi/2) = 4*pi`, halved at each subdivision.
pub const POLAR_ALPHA_SEED: u64 = 13176795;

/// Ceiling division of `a` by `b`.
pub open spec fn ceil_div(a: nat, b: nat) -> int
    recommends
        b > 0,
{
    (a + b - 1) / (b as int)
}

/// How many entries of `s` are strictly below the threshold `t`.
pub open spec fn count_below(s: Seq<u64>, t: int) -> nat
    decreases s.len(),
{
    if s.len() == 0 {
        0
    } else {
        (if s[0] < t {
            1nat
        } else {
            0nat
        }) + count_below(s.drop_first(), t)
    }
}

/// `2^e` for the supported depth range.
fn pow2_exec(e: u32) -> (r: u64)
    requires
        e <= 48,
    ensures
        r == pow2(e as nat),
{
    let mut r: u64 = 1;
    let mut i: u32 = 0;
    proof {
        lemma2_to64();
    }
    while i < e
        invariant
            i <= e <= 48,
            r == pow2(i as nat),
        decreases e - i,
    {
        proof {
            lemma2_to64();
            lemma2_to64_rest();
            lemma_pow2_strictly_increases(i as nat, 48);
            lemma_pow2_unfold(i as nat + 1);
        }
        r = r * 2;
        i = i + 1;
    }
    r
}

/// The angular radius of an axis-angle cube region at the given depth:
/// `sqrt(3) * (edge / 2)` with `edge = 2*pi / 2^depth`, that is
/// `sqrt(3) * pi / 2^depth`, in fixed point and rounded up.
pub fn alpha_cube(depth: u32) -> (r: u64)
    requires
        depth <= MAX_DEPTH,
    ensures
        r == ceil_div(CUBE_ALPHA_SEED as nat, pow2(depth as nat)),
        1 <= r <= CUBE_ALPHA_SEED,
{
    let d = pow2_exec(depth);
    proof {
        lemma2_to64();
        lemma2_to64_rest();
        if (depth as nat) < 48 {
            lemma_pow2_strictly_increases(depth as nat, 48);
        }
        assert(pow2(48) == 0x1000000000000);
        assert((CUBE_ALPHA_SEED + d - 1) / (d as int) >= 1) by (nonlinear_arith)
            requires
                1 <= d,
                CUBE_ALPHA_SEED >= 1,
        ;
        assert((CUBE_ALPHA_SEED + d - 1) / (d as int) <= CUBE_ALPHA_SEED) by (nonlinear_arith)
            requires
                1 <= d,
                CUBE_ALPHA_SEED >= 1,
        ;
    }
    (CUBE_ALPHA_SEED + (d - 1)) / d
}

/// The angular radius of a polar box region at the given depth: a scalar
/// proportional to the region's extent, `4*pi / 2^depth` (see
/// [`POLAR_ALPHA_SEED`]), in fixed point and rounded up.
pub fn alpha_polar(depth: u32) -> (r: u64)
    requires
        depth <= MAX_DEPTH,
    ensures
        r == ceil_div(POLAR_ALPHA_SEED as nat, pow2(depth as nat)),
        1 <= r <= POLAR_ALPHA_SEED,
{
    let d = pow2_exec(depth);
    proof {
        lemma2_to64();
        lemma2_to64_rest();
        if (depth as nat) < 48 {
            lemma_pow2_strictly_increases(depth as nat, 48);
        }
        assert(pow2(48) == 0x1000000000000);
        assert((POLAR_ALPHA_SEED + d - 1) / (d as int) >= 1) by (nonlinear_arith)
            requires
                1 <= d,
                POLAR_ALPHA_SEED >= 1,
        ;
        assert((POLAR_ALPHA_SEED + d - 1) / (d as int) <= POLAR_ALPHA_SEED) by (nonlinear_arith)
            requires
                1 <= d,
                POLAR_ALPHA_SEED >= 1,
        ;
    }
    (POLAR_ALPHA_SEED + (d - 1)) / d
}

/// Score a region center against the pair residuals: how many pairs are
/// inliers at the bare threshold `tau` (the region's lower bound) and at the
/// widened threshold `tau + alpha` (the region's upper bound).
pub fn count_bounds(residuals: &Vec<u64>, tau: u64, alpha: u64) -> (r: (u32, u32))
    requires
        residuals@.len() <= u32::MAX,
        tau + alpha <= u64::MAX,
    ensures
        r.0 == count_below(residuals@, tau as int),
        r.1 == count_below(residuals@, tau + alpha),
        r.0 <= r.1 <= residuals@.len(),
{
    let wide: u64 = tau + alpha;
    let n: usize = residuals.len();
    let mut l: u32 = 0;
    let mut u: u32 = 0;
    let mut i: usize = 0;
    proof {
        assert(residuals@.skip(0) =~= residuals@);
    }
    while i < n
        invariant
            i <= n == residuals@.len() <= u32::MAX,
            wide == tau + alpha,
            l <= u <= i,
            count_below(residuals@, tau as int) == l + count_below(
                residuals@.skip(i as int),
                tau as int,
            ),
            count_below(residuals@, tau + alpha) == u + count_below(
                residuals@.skip(i as int),
                tau + alpha,
            ),
        decreases n - i,
    {
        proof {
            assert(residuals@.skip(i as int).drop_first() =~= residuals@.skip(i as int + 1));
            assert(residuals@.skip(i as int)[0] == residuals@[i as int]);
        }
        let x = residuals[i];
        if x < tau {
            l = l + 1;
        }
        if x < wide {
            u = u + 1;
        }
        i = i + 1;
    }
    proof {
        assert(residuals@.skip(n as int) =~= Seq::<u64>::empty());
    }
    (l, u)
}

} // verus!
