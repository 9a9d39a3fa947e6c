//! Rotation-region hierarchy.
//!
//! A region of the rotation-parameter space is an axis-aligned box obtained by
//! repeatedly halving a seed box along all three axes. Both parameterizations
//! the solver offers (axis-angle cube, polar-axis-by-angle box) subdivide this
//! way, so one exact representation serves both: a [`Block`] stores the
//! subdivision depth and, per axis, which of the `2^depth` slices of the seed
//! interval the region occupies. Callers map a block to concrete angular
//! intervals by scaling the seed interval of their parameterization; the
//! combinatorics of subdivision, containment and tiling live here, exactly.
//!
//! Containment is expressed over [`Point`], a rational point of the unit cube
//! with dyadic coordinates `x / 2^scale`. The tiling lemmas state that the
//! eight children of a block cover exactly the parent region, which is what
//! the branch-and-bound search needs in order never to lose a rotation.

use vstd::arithmetic::power2::{
    lemma2_to64, lemma2_to64_rest, lemma_pow2_pos, lemma_pow2_strictly_increases,
    lemma_pow2_unfold, pow2,
};
use vstd::prelude::*;

verus! {

/// Deepest subdivision level the hierarchy supports. Slice indices at depth
/// `d` lie below `2^d`, so with this cap every index and every child index
/// fits comfortably in a `u64`.
pub const MAX_DEPTH: u32 = 48;

/// One region of the subdivision hierarchy: the box
/// `[ix, ix+1] x [iy, iy+1] x [iz, iz+1]` in units of `2^-depth` of the seed
/// box. The seed region itself is depth 0 with all indices 0.
#[derive(Clone, Copy, Debug, PartialEq, Eq, Structural)]
pub struct Block {
    pub depth: u32,
    pub ix: u64,
    pub iy: u64,
    pub iz: u64,
}

/// A point of the unit cube with dyadic rational coordinates: the coordinates
/// are `x / 2^scale`, `y / 2^scale`, `z / 2^scale`.
pub struct Point {
    pub x: int,
    pub y: int,
    pub z: int,
    pub scale: nat,
}

/// Whether the slice `[idx, idx+1] / 2^depth` of the unit interval contains
/// the rational `num / 2^scale`: cross-multiplied,
/// `idx * 2^scale <= num * 2^depth <= (idx+1) * 2^scale`.
pub open spec fn axis_contains(depth: nat, idx: nat, num: int, scale: nat) -> bool {
    idx * pow2(scale) <= num * pow2(depth) <= (idx + 1) * pow2(scale)
}

impl Block {
    /// A block is well formed when its depth is within the supported range and
    /// each axis index addresses one of the `2^depth` slices of that depth.
    pub open spec fn wf(self) -> bool {
        &&& self.depth <= MAX_DEPTH
        &&& (self.ix as nat) < pow2(self.depth as nat)
        &&& (self.iy as nat) < pow2(self.depth as nat)
        &&& (self.iz as nat) < pow2(self.depth as nat)
    }

    /// The seed region: the whole parameter box.
    pub open spec fn seed() -> Block {
        Block { depth: 0, ix: 0, iy: 0, iz: 0 }
    }

    /// Whether this block's region contains the point `p` of the unit cube.
    pub open spec fn contains(self, p: Point) -> bool {
        &&& axis_contains(self.depth as nat, self.ix as nat, p.x, p.scale)
        &&& axis_contains(self.depth as nat, self.iy as nat, p.y, p.scale)
        &&& axis_contains(self.depth as nat, self.iz as nat, p.z, p.scale)
    }

    /// The child of this block selected by one halving choice per axis
    /// (0 = lower half, 1 = upper half).
    pub open spec fn child(self, bx: int, by: int, bz: int) -> Block {
        Block {
            depth: (self.depth + 1) as u32,
            ix: (2 * self.ix + bx) as u64,
            iy: (2 * self.iy + by) as u64,
            iz: (2 * self.iz + bz) as u64,
        }
    }

    /// The eight children of this block, in a fixed order: the x choice is the
    /// highest bit of the position, the z choice the lowest.
    pub open spec fn children(self) -> Seq<Block> {
        seq![
            self.child(0, 0, 0),
            self.child(0, 0, 1),
            self.child(0, 1, 0),
            self.child(0, 1, 1),
            self.child(1, 0, 0),
            self.child(1, 0, 1),
            self.child(1, 1, 0),
            self.child(1, 1, 1),
        ]
    }
}

/// Whether a dyadic point lies in the unit cube, that is, in the seed region.
pub open spec fn in_seed(p: Point) -> bool {
    &&& 0 <= p.x <= pow2(p.scale)
    &&& 0 <= p.y <= pow2(p.scale)
    &&& 0 <= p.z <= pow2(p.scale)
}

/// The whole seed interval contains exactly the rationals of the unit
/// interval.
proof fn lemma_axis_seed(num: int, scale: nat)
    ensures
        axis_contains(0, 0, num, scale) <==> (0 <= num <= pow2(scale)),
{
    lemma2_to64();
    assert(num * pow2(0) == num) by (nonlinear_arith)
        requires
            pow2(0) == 1,
    ;
    assert(0 * pow2(scale) == 0) by (nonlinear_arith);
    assert((0 + 1) * pow2(scale) == pow2(scale)) by (nonlinear_arith);
}

/// The seed region contains exactly the points of the unit cube.
pub proof fn lemma_seed_contains(p: Point)
    ensures
        Block::seed().contains(p) <==> in_seed(p),
{
    lemma_axis_seed(p.x, p.scale);
    lemma_axis_seed(p.y, p.scale);
    lemma_axis_seed(p.z, p.scale);
}

/// Splitting one axis slice in half keeps every point of the slice in one of
/// the two halves.
proof fn lemma_axis_tile(depth: nat, idx: nat, num: int, scale: nat)
    requires
        axis_contains(depth, idx, num, scale),
    ensures
        axis_contains(depth + 1, 2 * idx, num, scale) || axis_contains(
            depth + 1,
            2 * idx + 1,
            num,
            scale,
        ),
{
    lemma_pow2_unfold(depth + 1);
    let pd = pow2(depth) as int;
    let ps = pow2(scale) as int;
    assert(num * pow2(depth + 1) == 2 * (num * pd)) by (nonlinear_arith)
        requires
            pow2(depth + 1) == 2 * pd,
    ;
    assert((2 * idx) * ps == 2 * (idx * ps)) by (nonlinear_arith);
    assert((2 * idx + 1) * ps == 2 * (idx * ps) + ps) by (nonlinear_arith);
    assert((2 * idx + 2) * ps == 2 * ((idx + 1) * ps)) by (nonlinear_arith);
}

/// Each half of an axis slice lies inside the slice it was split from.
proof fn lemma_axis_child_in_parent(depth: nat, idx: nat, b: int, num: int, scale: nat)
    requires
        0 <= b <= 1,
        axis_contains(depth + 1, (2 * idx + b) as nat, num, scale),
    ensures
        axis_contains(depth, idx, num, scale),
{
    lemma_pow2_unfold(depth + 1);
    let pd = pow2(depth) as int;
    let ps = pow2(scale) as int;
    assert(num * pow2(depth + 1) == 2 * (num * pd)) by (nonlinear_arith)
        requires
            pow2(depth + 1) == 2 * pd,
    ;
    assert((2 * idx + b) * ps == 2 * (idx * ps) + b * ps) by (nonlinear_arith);
    assert((2 * idx + b + 1) * ps == 2 * (idx * ps) + (b + 1) * ps) by (nonlinear_arith);
    assert(b * ps >= 0) by (nonlinear_arith)
        requires
            b >= 0,
            ps >= 0,
    ;
    assert((b + 1) * ps <= 2 * ps) by (nonlinear_arith)
        requires
            b <= 1,
            ps >= 0,
    ;
    assert((idx + 1) * ps == idx * ps + ps) by (nonlinear_arith);
}

/// The child indices of a well-formed block fit their machine type, so the
/// spec-level child construction truncates nothing.
proof fn lemma_child_index_fits(b: Block)
    requires
        b.wf(),
        b.depth < MAX_DEPTH,
    ensures
        2 * (b.ix as nat) + 1 <= u64::MAX,
        2 * (b.iy as nat) + 1 <= u64::MAX,
        2 * (b.iz as nat) + 1 <= u64::MAX,
{
    lemma2_to64();
    lemma2_to64_rest();
    lemma_pow2_strictly_increases(b.depth as nat, 48);
    assert(pow2(48) == 0x1000000000000);
}

/// Subdivision tiles the parent: every point of a block's region lies in at
/// least one of its eight children.
pub proof fn lemma_subdivide_tiles(b: Block, p: Point)
    requires
        b.wf(),
        b.depth < MAX_DEPTH,
        b.contains(p),
    ensures
        exists|k: int| 0 <= k < 8 && (#[trigger] b.children()[k]).contains(p),
{
    let d = b.depth as nat;
    let s = p.scale;
    lemma_axis_tile(d, b.ix as nat, p.x, s);
    lemma_axis_tile(d, b.iy as nat, p.y, s);
    lemma_axis_tile(d, b.iz as nat, p.z, s);
    let cx: int = if axis_contains(d + 1, 2 * (b.ix as nat), p.x, s) {
        0
    } else {
        1
    };
    let cy: int = if axis_contains(d + 1, 2 * (b.iy as nat), p.y, s) {
        0
    } else {
        1
    };
    let cz: int = if axis_contains(d + 1, 2 * (b.iz as nat), p.z, s) {
        0
    } else {
        1
    };
    let k = 4 * cx + 2 * cy + cz;
    lemma_child_index_fits(b);
    assert(b.children()[k] == b.child(cx, cy, cz));
    assert(b.child(cx, cy, cz).contains(p));
}

/// Each child region lies inside its parent: subdivision never grows the
/// region.
pub proof fn lemma_child_in_parent(b: Block, k: int, p: Point)
    requires
        b.wf(),
        b.depth < MAX_DEPTH,
        0 <= k < 8,
        b.children()[k].contains(p),
    ensures
        b.contains(p),
{
    let d = b.depth as nat;
    let s = p.scale;
    let cx = k / 4;
    let cy = (k / 2) % 2;
    let cz = k % 2;
    lemma_child_index_fits(b);
    assert(b.children()[k] == b.child(cx, cy, cz));
    lemma_axis_child_in_parent(d, b.ix as nat, cx, p.x, s);
    lemma_axis_child_in_parent(d, b.iy as nat, cy, p.y, s);
    lemma_axis_child_in_parent(d, b.iz as nat, cz, p.z, s);
}

/// A slice of the unit interval only contains rationals of the unit
/// interval.
proof fn lemma_axis_in_unit(depth: nat, idx: nat, num: int, scale: nat)
    requires
        idx < pow2(depth),
        axis_contains(depth, idx, num, scale),
    ensures
        0 <= num <= pow2(scale),
{
    lemma_pow2_pos(depth);
    let pd = pow2(depth) as int;
    let ps = pow2(scale) as int;
    assert(idx * ps >= 0) by (nonlinear_arith)
        requires
            idx >= 0,
            ps >= 0,
    ;
    assert(num >= 0) by (nonlinear_arith)
        requires
            num * pd >= 0,
            pd > 0,
    ;
    assert((idx + 1) * ps <= pd * ps) by (nonlinear_arith)
        requires
            idx + 1 <= pd,
            ps >= 0,
    ;
    assert(num <= ps) by (nonlinear_arith)
        requires
            num * pd <= pd * ps,
            pd > 0,
    ;
}

/// A well-formed block's region lies inside the seed region: every point it
/// contains is a point of the unit cube.
pub proof fn lemma_wf_contains_in_seed(b: Block, p: Point)
    requires
        b.wf(),
        b.contains(p),
    ensures
        in_seed(p),
{
    lemma_axis_in_unit(b.depth as nat, b.ix as nat, p.x, p.scale);
    lemma_axis_in_unit(b.depth as nat, b.iy as nat, p.y, p.scale);
    lemma_axis_in_unit(b.depth as nat, b.iz as nat, p.z, p.scale);
}

/// The eight children of a well-formed block, in the order of
/// [`Block::children`].
pub fn subdivide(b: &Block) -> (r: Vec<Block>)
    requires
        b.wf(),
        b.depth < MAX_DEPTH,
    ensures
        r@ == b.children(),
        forall|k: int| 0 <= k < 8 ==> (#[trigger] r@[k]).wf(),
{
    proof {
        lemma2_to64();
        lemma2_to64_rest();
        if (b.depth as nat) < 47 {
            lemma_pow2_strictly_increases(b.depth as nat, 47);
        }
        assert(pow2(47) == 0x800000000000);
        lemma_pow2_unfold(b.depth as nat + 1);
    }
    let d: u32 = b.depth + 1;
    let x0: u64 = 2 * b.ix;
    let y0: u64 = 2 * b.iy;
    let z0: u64 = 2 * b.iz;
    let mut r: Vec<Block> = Vec::new();
    r.push(Block { depth: d, ix: x0, iy: y0, iz: z0 });
    r.push(Block { depth: d, ix: x0, iy: y0, iz: z0 + 1 });
    r.push(Block { depth: d, ix: x0, iy: y0 + 1, iz: z0 });
    r.push(Block { depth: d, ix: x0, iy: y0 + 1, iz: z0 + 1 });
    r.push(Block { depth: d, ix: x0 + 1, iy: y0, iz: z0 });
    r.push(Block { depth: d, ix: x0 + 1, iy: y0, iz: z0 + 1 });
    r.push(Block { depth: d, ix: x0 + 1, iy: y0 + 1, iz: z0 });
    r.push(Block { depth: d, ix: x0 + 1, iy: y0 + 1, iz: z0 + 1 });
    proof {
        assert(r@ =~= b.children());
    }
    r
}

} // verus!
