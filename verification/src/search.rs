//! Best-first branch-and-bound over rotation regions.
//!
//! The search keeps a frontier of scored regions and an incumbent (the best
//! lower bound seen, together with the region that realized it). One step
//! pops the most promising region, subdivides it, has the caller score the
//! children at their center rotations, pushes them back, raises the incumbent
//! from the frontier, prunes every region whose upper bound cannot beat the
//! incumbent, and stops when the frontier is empty or its top cannot improve
//! on the incumbent.
//!
//! Scoring a region needs the floating-point residual kernel, which the
//! library does not hold, so a step runs in two phases: [`Search::step_begin`]
//! pops and subdivides, handing out the child regions, and
//! [`Search::step_finish`] takes the caller's scores back. Every phase is
//! specified as a mathematical transition on [`SearchModel`], the engine's
//! view; each exec method's result equals the transition applied to its
//! input, so a whole run is a function of the scores handed in — the search
//! is reproducible, whatever the caller's kernel does.

use crate::block::{
    in_seed, lemma_child_in_parent, lemma_seed_contains, lemma_subdivide_tiles,
    lemma_wf_contains_in_seed, subdivide, Block, Point, MAX_DEPTH,
};
use vstd::prelude::*;

verus! {

/// A frontier entry: a region together with its computed inlier bounds,
/// `lower <= upper`.
#[derive(Clone, Copy, Debug, PartialEq, Eq, Structural)]
pub struct Region {
    pub block: Block,
    pub lower: u32,
    pub upper: u32,
}

/// The strict priority order of the frontier: a region pops earlier when its
/// upper bound is larger; ties fall to the larger extent (smaller depth),
/// then the larger lower bound, then the axis indices. Two regions compare
/// equal only when they are the same region with the same bounds, so the
/// order is total and the search deterministic.
pub open spec fn takes_priority(a: Region, b: Region) -> bool {
    ||| a.upper > b.upper
    ||| (a.upper == b.upper && a.block.depth < b.block.depth)
    ||| (a.upper == b.upper && a.block.depth == b.block.depth && a.lower > b.lower)
    ||| (a.upper == b.upper && a.block.depth == b.block.depth && a.lower == b.lower
        && a.block.ix < b.block.ix)
    ||| (a.upper == b.upper && a.block.depth == b.block.depth && a.lower == b.lower
        && a.block.ix == b.block.ix && a.block.iy < b.block.iy)
    ||| (a.upper == b.upper && a.block.depth == b.block.depth && a.lower == b.lower
        && a.block.ix == b.block.ix && a.block.iy == b.block.iy && a.block.iz < b.block.iz)
}

/// The priority order is transitive.
pub proof fn lemma_priority_trans(a: Region, b: Region, c: Region)
    requires
        takes_priority(a, b),
        takes_priority(b, c),
    ensures
        takes_priority(a, c),
{
}

/// A region that is not outranked by `b` outranks everything `b` outranks.
pub proof fn lemma_priority_geq_trans(a: Region, b: Region, c: Region)
    requires
        !takes_priority(b, a),
        takes_priority(b, c),
    ensures
        takes_priority(a, c),
{
}

/// Whether `a` pops before `b`.
pub fn takes_priority_exec(a: &Region, b: &Region) -> (r: bool)
    ensures
        r == takes_priority(*a, *b),
{
    if a.upper != b.upper {
        a.upper > b.upper
    } else if a.block.depth != b.block.depth {
        a.block.depth < b.block.depth
    } else if a.lower != b.lower {
        a.lower > b.lower
    } else if a.block.ix != b.block.ix {
        a.block.ix < b.block.ix
    } else if a.block.iy != b.block.iy {
        a.block.iy < b.block.iy
    } else {
        a.block.iz < b.block.iz
    }
}

/// The index, from position `i` on and seeded with candidate `cur`, of the
/// first region of `s` that no later region outranks.
pub open spec fn top_from(s: Seq<Region>, i: int, cur: int) -> int
    decreases s.len() - i,
{
    if i < 0 || i >= s.len() {
        cur
    } else {
        top_from(
            s,
            i + 1,
            if takes_priority(s[i], s[cur]) {
                i
            } else {
                cur
            },
        )
    }
}

/// The index of the region of `s` that pops first: the first region that no
/// other outranks.
pub open spec fn top_index(s: Seq<Region>) -> int {
    top_from(s, 1, 0)
}

proof fn lemma_top_from(s: Seq<Region>, i: int, cur: int)
    requires
        0 <= cur < s.len(),
        0 <= i,
    ensures
        ({
            let t = top_from(s, i, cur);
            &&& 0 <= t < s.len()
            &&& t == cur || i <= t
            &&& !takes_priority(s[cur], s[t])
            &&& forall|j: int| i <= j < s.len() ==> !takes_priority(#[trigger] s[j], s[t])
        }),
    decreases s.len() - i,
{
    if i < s.len() {
        let cur2: int = if takes_priority(s[i], s[cur]) {
            i
        } else {
            cur
        };
        lemma_top_from(s, i + 1, cur2);
        let t = top_from(s, i + 1, cur2);
        assert(!takes_priority(s[cur], s[t])) by {
            if cur2 == i && takes_priority(s[cur], s[t]) {
                lemma_priority_trans(s[i], s[cur], s[t]);
            }
        }
        assert forall|j: int| i <= j < s.len() implies !takes_priority(#[trigger] s[j], s[t]) by {
            if j == i && cur2 == cur && takes_priority(s[i], s[t]) {
                lemma_priority_geq_trans(s[cur], s[i], s[t]);
            }
        }
    }
}

/// The popping region is outranked by no region of the frontier.
pub proof fn lemma_top_index(s: Seq<Region>)
    requires
        s.len() > 0,
    ensures
        0 <= top_index(s) < s.len(),
        forall|j: int| 0 <= j < s.len() ==> !takes_priority(#[trigger] s[j], s[top_index(s)]),
{
    lemma_top_from(s, 1, 0);
}

/// The scored children: each pending block paired with the bounds the caller
/// computed for it.
pub open spec fn zip_regions(blocks: Seq<Block>, bounds: Seq<(u32, u32)>) -> Seq<Region> {
    Seq::new(
        blocks.len(),
        |i: int|
            Region { block: blocks[i], lower: bounds[i].0, upper: bounds[i].1 },
    )
}

/// One pass of the incumbent update over the frontier from position `i` on:
/// every region whose lower bound strictly beats the incumbent replaces it,
/// in frontier order.
pub open spec fn scan_incumbent(s: Seq<Region>, i: int, best_l: u32, best_b: Block) -> (
    u32,
    Block,
)
    decreases s.len() - i,
{
    if i < 0 || i >= s.len() {
        (best_l, best_b)
    } else if s[i].lower > best_l {
        scan_incumbent(s, i + 1, s[i].lower, s[i].block)
    } else {
        scan_incumbent(s, i + 1, best_l, best_b)
    }
}

proof fn lemma_scan_incumbent(s: Seq<Region>, i: int, best_l: u32, best_b: Block)
    requires
        0 <= i,
    ensures
        ({
            let r = scan_incumbent(s, i, best_l, best_b);
            &&& r.0 >= best_l
            &&& (r.0 == best_l && r.1 == best_b) || (exists|j: int|
                i <= j < s.len() && #[trigger] s[j].lower == r.0 && s[j].block == r.1)
            &&& forall|j: int| i <= j < s.len() ==> (#[trigger] s[j]).lower <= r.0
        }),
    decreases s.len() - i,
{
    if 0 <= i < s.len() {
        if s[i].lower > best_l {
            lemma_scan_incumbent(s, i + 1, s[i].lower, s[i].block);
        } else {
            lemma_scan_incumbent(s, i + 1, best_l, best_b);
        }
    }
}

/// The frontier regions that survive a prune at incumbent `l`: those whose
/// upper bound is at least `l`, kept in order.
pub open spec fn keep_at_least(s: Seq<Region>, l: u32) -> Seq<Region>
    decreases s.len(),
{
    if s.len() == 0 {
        Seq::empty()
    } else if s[0].upper >= l {
        seq![s[0]] + keep_at_least(s.drop_first(), l)
    } else {
        keep_at_least(s.drop_first(), l)
    }
}

proof fn lemma_keep_at_least(s: Seq<Region>, l: u32)
    ensures
        ({
            let k = keep_at_least(s, l);
            &&& forall|i: int|
                0 <= i < k.len() ==> (#[trigger] k[i]).upper >= l && (exists|j: int|
                    0 <= j < s.len() && s[j] == k[i])
            &&& forall|j: int|
                0 <= j < s.len() && (#[trigger] s[j]).upper >= l ==> (exists|i: int|
                    0 <= i < k.len() && k[i] == s[j])
        }),
    decreases s.len(),
{
    if s.len() > 0 {
        lemma_keep_at_least(s.drop_first(), l);
        let k = keep_at_least(s, l);
        let kd = keep_at_least(s.drop_first(), l);
        assert forall|j: int| 0 <= j < s.len() && (#[trigger] s[j]).upper >= l implies (exists|
            i: int,
        |
            0 <= i < k.len() && k[i] == s[j]) by {
            if j == 0 {
                assert(k[0] == s[0]);
            } else {
                assert(s.drop_first()[j - 1] == s[j]);
                let i0 = choose|i0: int| 0 <= i0 < kd.len() && kd[i0] == s.drop_first()[j - 1];
                if s[0].upper >= l {
                    assert(k[i0 + 1] == kd[i0]);
                } else {
                    assert(k[i0] == kd[i0]);
                }
            }
        }
        assert forall|i: int| 0 <= i < k.len() implies (#[trigger] k[i]).upper >= l && (exists|
            j: int,
        |
            0 <= j < s.len() && s[j] == k[i]) by {
            if s[0].upper >= l {
                if i == 0 {
                    assert(s[0] == k[0]);
                } else {
                    assert(k[i] == kd[i - 1]);
                    let j0 = choose|j0: int|
                        0 <= j0 < s.drop_first().len() && s.drop_first()[j0] == kd[i - 1];
                    assert(s[j0 + 1] == s.drop_first()[j0]);
                }
            } else {
                assert(k[i] == kd[i]);
                let j0 = choose|j0: int|
                    0 <= j0 < s.drop_first().len() && s.drop_first()[j0] == kd[i];
                assert(s[j0 + 1] == s.drop_first()[j0]);
            }
        }
    }
}

/// Mathematical state of the search: the scored frontier, the incumbent
/// (best lower bound and the region that realized it), the pair count, the
/// subdivision depth floor, and the children handed out for scoring.
#[verifier::ext_equal]
pub struct SearchModel {
    pub frontier: Seq<Region>,
    pub best_lower: u32,
    pub best_block: Block,
    pub n_pairs: u32,
    pub max_depth: u32,
    pub pending: Seq<Block>,
    pub awaiting: bool,
}

impl SearchModel {
    /// Well-formedness, kept by every transition: all regions are well formed
    /// and within the depth floor, all bounds are ordered and within the pair
    /// count, no frontier region's upper bound falls below the incumbent
    /// (else it would have been pruned), no frontier region's lower bound
    /// exceeds the incumbent (else the incumbent would have taken it), and
    /// children are pending exactly between the two phases of a step.
    pub open spec fn wf(self) -> bool {
        &&& self.max_depth <= MAX_DEPTH
        &&& self.best_lower <= self.n_pairs
        &&& self.best_block.wf()
        &&& forall|i: int|
            0 <= i < self.frontier.len() ==> (#[trigger] self.frontier[i]).block.wf()
        &&& forall|i: int|
            0 <= i < self.frontier.len() ==> (#[trigger] self.frontier[i]).block.depth
                <= self.max_depth
        &&& forall|i: int|
            0 <= i < self.frontier.len() ==> (#[trigger] self.frontier[i]).lower
                <= self.frontier[i].upper <= self.n_pairs
        &&& forall|i: int|
            0 <= i < self.frontier.len() ==> (#[trigger] self.frontier[i]).upper
                >= self.best_lower
        &&& forall|i: int|
            0 <= i < self.frontier.len() ==> (#[trigger] self.frontier[i]).lower
                <= self.best_lower
        &&& forall|i: int| 0 <= i < self.pending.len() ==> (#[trigger] self.pending[i]).wf()
        &&& forall|i: int|
            0 <= i < self.pending.len() ==> (#[trigger] self.pending[i]).depth <= self.max_depth
        &&& (!self.awaiting ==> self.pending.len() == 0)
    }
}

/// The starting state: the frontier holds the seed region alone, scored with
/// the trivial bounds (0 inliers guaranteed, every pair possible), and the
/// incumbent is 0 at the seed — whose center is the identity rotation under
/// both parameterizations.
pub open spec fn init_model(n_pairs: u32, max_depth: u32) -> SearchModel {
    SearchModel {
        frontier: seq![Region { block: Block::seed(), lower: 0, upper: n_pairs }],
        best_lower: 0,
        best_block: Block::seed(),
        n_pairs: n_pairs,
        max_depth: max_depth,
        pending: Seq::empty(),
        awaiting: false,
    }
}

/// First phase of a step: pop the top region and stage its children for
/// scoring — no children when the region already sits at the depth floor.
pub open spec fn begin_step(m: SearchModel) -> SearchModel
    recommends
        m.frontier.len() > 0,
        !m.awaiting,
{
    let t = top_index(m.frontier);
    let popped = m.frontier[t];
    SearchModel {
        frontier: m.frontier.remove(t),
        pending: if popped.block.depth < m.max_depth {
            popped.block.children()
        } else {
            Seq::empty()
        },
        awaiting: true,
        ..m
    }
}

/// Second phase of a step, given the caller's bounds for the staged
/// children: push the scored children, raise the incumbent from every
/// frontier region whose lower bound strictly beats it, and prune every
/// region whose upper bound fell below the raised incumbent.
pub open spec fn finish_step(m: SearchModel, bounds: Seq<(u32, u32)>) -> SearchModel
    recommends
        m.awaiting,
        bounds.len() == m.pending.len(),
{
    let pushed = m.frontier + zip_regions(m.pending, bounds);
    let scanned = scan_incumbent(pushed, 0, m.best_lower, m.best_block);
    SearchModel {
        frontier: keep_at_least(pushed, scanned.0),
        best_lower: scanned.0,
        best_block: scanned.1,
        pending: Seq::empty(),
        awaiting: false,
        ..m
    }
}

/// Whether the search is over: the frontier is exhausted, or its top region
/// cannot strictly improve on the incumbent.
pub open spec fn is_finished(m: SearchModel) -> bool {
    m.frontier.len() == 0 || m.frontier[top_index(m.frontier)].upper == m.best_lower
}

/// The search state. See the module documentation for the driving protocol.
pub struct Search {
    frontier: Vec<Region>,
    best_lower: u32,
    best_block: Block,
    n_pairs: u32,
    max_depth: u32,
    pending: Vec<Block>,
    awaiting: bool,
}

impl View for Search {
    type V = SearchModel;

    closed spec fn view(&self) -> SearchModel {
        SearchModel {
            frontier: self.frontier@,
            best_lower: self.best_lower,
            best_block: self.best_block,
            n_pairs: self.n_pairs,
            max_depth: self.max_depth,
            pending: self.pending@,
            awaiting: self.awaiting,
        }
    }
}

/// The position of the frontier region that pops first.
fn top_pos(frontier: &Vec<Region>) -> (t: usize)
    requires
        frontier@.len() > 0,
    ensures
        t == top_index(frontier@),
{
    let n = frontier.len();
    let mut cur: usize = 0;
    let mut i: usize = 1;
    while i < n
        invariant
            1 <= i <= n == frontier@.len(),
            0 <= cur < i,
            top_index(frontier@) == top_from(frontier@, i as int, cur as int),
        decreases n - i,
    {
        if takes_priority_exec(&frontier[i], &frontier[cur]) {
            cur = i;
        }
        i = i + 1;
    }
    cur
}

impl Search {
    /// A fresh search over `n_pairs` correspondence pairs that will subdivide
    /// no region beyond `max_depth`. The first step pops the seed region.
    pub fn new(n_pairs: u32, max_depth: u32) -> (s: Search)
        requires
            max_depth <= MAX_DEPTH,
        ensures
            s@ == init_model(n_pairs, max_depth),
            s@.wf(),
    {
        let seed = Block { depth: 0, ix: 0, iy: 0, iz: 0 };
        let mut frontier: Vec<Region> = Vec::new();
        frontier.push(Region { block: seed, lower: 0, upper: n_pairs });
        let s = Search {
            frontier,
            best_lower: 0,
            best_block: seed,
            n_pairs,
            max_depth,
            pending: Vec::new(),
            awaiting: false,
        };
        proof {
            vstd::arithmetic::power2::lemma2_to64();
            assert(s@ =~= init_model(n_pairs, max_depth));
        }
        s
    }

    /// First phase of a step: pop the top region and hand out its children
    /// for scoring, in the order of [`Block::children`]. An empty result
    /// means the popped region already sat at the depth floor and is simply
    /// retired; the step is still finished with an empty score list.
    pub fn step_begin(&mut self) -> (children: Vec<Block>)
        requires
            old(self)@.wf(),
            !old(self)@.awaiting,
            old(self)@.frontier.len() > 0,
        ensures
            final(self)@ == begin_step(old(self)@),
            final(self)@.wf(),
            children@ == final(self)@.pending,
    {
        proof {
            lemma_top_index(self@.frontier);
        }
        let t = top_pos(&self.frontier);
        let ghost pre = self@;
        let popped = self.frontier.remove(t);
        let children: Vec<Block> = if popped.block.depth < self.max_depth {
            subdivide(&popped.block)
        } else {
            Vec::new()
        };
        self.pending = copy_blocks(&children);
        self.awaiting = true;
        proof {
            assert(self@ =~= begin_step(pre));
            pre.frontier.remove_ensures(t as int);
            assert forall|i: int| 0 <= i < self@.frontier.len() implies {
                &&& (#[trigger] self@.frontier[i]).block.wf()
                &&& self@.frontier[i].block.depth <= self@.max_depth
                &&& self@.frontier[i].lower <= self@.frontier[i].upper <= self@.n_pairs
                &&& self@.frontier[i].upper >= self@.best_lower
                &&& self@.frontier[i].lower <= self@.best_lower
            } by {
                if i < t {
                    assert(self@.frontier[i] == pre.frontier[i]);
                } else {
                    assert(self@.frontier[i] == pre.frontier[i + 1]);
                }
            }
        }
        children
    }

    /// Second phase of a step, with the caller's `(lower, upper)` scores for
    /// the children handed out by [`Search::step_begin`], in the same order.
    /// Pushes the scored children, raises the incumbent from every frontier
    /// region whose lower bound strictly beats it (in frontier order, so the
    /// update is deterministic), and prunes every region whose upper bound
    /// fell below the incumbent. The incumbent never decreases.
    pub fn step_finish(&mut self, bounds: &Vec<(u32, u32)>)
        requires
            old(self)@.wf(),
            old(self)@.awaiting,
            bounds@.len() == old(self)@.pending.len(),
            forall|i: int|
                0 <= i < bounds@.len() ==> (#[trigger] bounds@[i]).0 <= bounds@[i].1 <= old(
                    self,
                )@.n_pairs,
        ensures
            final(self)@ == finish_step(old(self)@, bounds@),
            final(self)@.wf(),
            final(self)@.best_lower >= old(self)@.best_lower,
    {
        let ghost pre = self@;
        push_scored(&mut self.frontier, &self.pending, bounds);
        let best = scan_best(&self.frontier, self.best_lower, self.best_block);
        self.best_lower = best.0;
        self.best_block = best.1;
        let pruned = prune(&self.frontier, self.best_lower);
        self.frontier = pruned;
        self.pending = Vec::new();
        self.awaiting = false;
        proof {
            assert(self@ =~= finish_step(pre, bounds@));
            lemma_finish_step_wf(pre, bounds@);
        }
    }


    /// Whether the search is over: the frontier is exhausted, or its top
    /// region's upper bound equals the incumbent, so that no surviving region
    /// can strictly improve on it.
    pub fn finished(&self) -> (r: bool)
        requires
            self@.wf(),
            !self@.awaiting,
        ensures
            r == is_finished(self@),
    {
        if self.frontier.len() == 0 {
            true
        } else {
            proof {
                lemma_top_index(self@.frontier);
            }
            let t = top_pos(&self.frontier);
            self.frontier[t].upper == self.best_lower
        }
    }

    /// The incumbent's region: the rotation the search returns is its center.
    pub fn best_block(&self) -> (r: Block)
        ensures
            r == self@.best_block,
    {
        self.best_block
    }

    /// The incumbent's inlier count: how many pairs the returned rotation is
    /// guaranteed to make inliers.
    pub fn best_lower(&self) -> (r: u32)
        ensures
            r == self@.best_lower,
    {
        self.best_lower
    }

    /// How many regions the frontier currently holds.
    pub fn frontier_len(&self) -> (r: usize)
        ensures
            r == self@.frontier.len(),
    {
        self.frontier.len()
    }
}

/// Append the scored children to the frontier: each pending block becomes a
/// region with the bounds the caller computed for it.
fn push_scored(frontier: &mut Vec<Region>, pending: &Vec<Block>, bounds: &Vec<(u32, u32)>)
    requires
        bounds@.len() == pending@.len(),
    ensures
        final(frontier)@ == old(frontier)@ + zip_regions(pending@, bounds@),
{
    let ghost pre = frontier@;
    let n = bounds.len();
    let mut i: usize = 0;
    while i < n
        invariant
            i <= n == bounds@.len() == pending@.len(),
            frontier@ == pre + zip_regions(pending@, bounds@).take(i as int),
        decreases n - i,
    {
        let r = Region { block: pending[i], lower: bounds[i].0, upper: bounds[i].1 };
        frontier.push(r);
        proof {
            assert(pre + zip_regions(pending@, bounds@).take(i + 1) =~= (pre + zip_regions(
                pending@,
                bounds@,
            ).take(i as int)).push(r));
        }
        i = i + 1;
    }
    proof {
        assert(pre + zip_regions(pending@, bounds@).take(n as int) =~= pre + zip_regions(
            pending@,
            bounds@,
        ));
    }
}

/// One pass of the incumbent update over the frontier, in order: every
/// region whose lower bound strictly beats the incumbent replaces it.
fn scan_best(frontier: &Vec<Region>, best_l: u32, best_b: Block) -> (r: (u32, Block))
    ensures
        r == scan_incumbent(frontier@, 0, best_l, best_b),
{
    let n = frontier.len();
    let mut l = best_l;
    let mut b = best_b;
    let mut j: usize = 0;
    while j < n
        invariant
            j <= n == frontier@.len(),
            scan_incumbent(frontier@, 0, best_l, best_b) == scan_incumbent(
                frontier@,
                j as int,
                l,
                b,
            ),
        decreases n - j,
    {
        let rj = frontier[j];
        if rj.lower > l {
            l = rj.lower;
            b = rj.block;
        }
        j = j + 1;
    }
    (l, b)
}

/// The frontier with every region the incumbent dominates removed.
fn prune(frontier: &Vec<Region>, l: u32) -> (r: Vec<Region>)
    ensures
        r@ == keep_at_least(frontier@, l),
{
    let n = frontier.len();
    let mut kept: Vec<Region> = Vec::new();
    let mut k: usize = 0;
    proof {
        assert(frontier@.skip(0) =~= frontier@);
    }
    while k < n
        invariant
            k <= n == frontier@.len(),
            kept@ + keep_at_least(frontier@.skip(k as int), l) == keep_at_least(frontier@, l),
        decreases n - k,
    {
        proof {
            assert(frontier@.skip(k as int).drop_first() =~= frontier@.skip(k as int + 1));
            assert(frontier@.skip(k as int)[0] == frontier@[k as int]);
        }
        let rk = frontier[k];
        if rk.upper >= l {
            kept.push(rk);
            proof {
                assert(kept@ + keep_at_least(frontier@.skip(k as int + 1), l) =~= kept@
                    .drop_last() + (seq![frontier@[k as int]] + keep_at_least(
                    frontier@.skip(k as int + 1),
                    l,
                )));
            }
        }
        k = k + 1;
    }
    proof {
        assert(frontier@.skip(n as int) =~= Seq::<Region>::empty());
        assert(kept@ + keep_at_least(frontier@.skip(n as int), l) =~= kept@);
    }
    kept
}

/// The second phase of a step keeps the state well formed, and never lowers
/// the incumbent.
proof fn lemma_finish_step_wf(m: SearchModel, bounds: Seq<(u32, u32)>)
    requires
        m.wf(),
        m.awaiting,
        bounds.len() == m.pending.len(),
        forall|i: int| 0 <= i < bounds.len() ==> (#[trigger] bounds[i]).0 <= bounds[i].1
            <= m.n_pairs,
    ensures
        finish_step(m, bounds).wf(),
        finish_step(m, bounds).best_lower >= m.best_lower,
{
    let pushed = m.frontier + zip_regions(m.pending, bounds);
    let scanned = scan_incumbent(pushed, 0, m.best_lower, m.best_block);
    let post = finish_step(m, bounds);
    lemma_scan_incumbent(pushed, 0, m.best_lower, m.best_block);
    lemma_keep_at_least(pushed, scanned.0);
    assert forall|y: int| 0 <= y < pushed.len() implies {
        &&& (#[trigger] pushed[y]).block.wf()
        &&& pushed[y].block.depth <= m.max_depth
        &&& pushed[y].lower <= pushed[y].upper <= m.n_pairs
    } by {
        if y < m.frontier.len() {
            assert(pushed[y] == m.frontier[y]);
        } else {
            assert(pushed[y] == zip_regions(m.pending, bounds)[y - m.frontier.len()]);
            assert(pushed[y].block == m.pending[y - m.frontier.len()]);
        }
    }
    assert(scanned.0 <= m.n_pairs);
    assert(post.best_block.wf()) by {
        if scanned.1 != m.best_block || scanned.0 != m.best_lower {
            let j = choose|j: int|
                0 <= j < pushed.len() && #[trigger] pushed[j].lower == scanned.0 && pushed[j].block
                    == scanned.1;
        }
    }
    assert forall|x: int| 0 <= x < post.frontier.len() implies {
        &&& (#[trigger] post.frontier[x]).block.wf()
        &&& post.frontier[x].block.depth <= post.max_depth
        &&& post.frontier[x].lower <= post.frontier[x].upper <= post.n_pairs
        &&& post.frontier[x].upper >= post.best_lower
        &&& post.frontier[x].lower <= post.best_lower
    } by {
        let y = choose|y: int| 0 <= y < pushed.len() && pushed[y] == post.frontier[x];
    }
}

/// A copy of a list of blocks.
fn copy_blocks(v: &Vec<Block>) -> (r: Vec<Block>)
    ensures
        r@ == v@,
{
    let mut r: Vec<Block> = Vec::new();
    let mut i: usize = 0;
    while i < v.len()
        invariant
            i <= v@.len(),
            r@ == v@.take(i as int),
        decreases v@.len() - i,
    {
        r.push(v[i]);
        proof {
            assert(v@.take(i + 1) =~= v@.take(i as int).push(v@[i as int]));
        }
        i = i + 1;
    }
    proof {
        assert(v@.take(v@.len() as int) =~= v@);
    }
    r
}

// What follows relates the search to an abstract objective: a function `f`
// from rotation-parameter points to inlier counts, about which nothing is
// assumed but what the caller's scores promise. Scores are admissible for
// `f` when each child's upper bound dominates `f` on the child and each
// child's lower bound is realized by some point of the child. Under
// admissible scores the search never discards a point that could beat the
// incumbent, the incumbent is always realizable, it never decreases, and at
// termination no point of the seed region beats it — conditional global
// optimality of the branch-and-bound discipline.

/// An upper score for a block is admissible for the objective `f` when it
/// dominates `f` everywhere on the block.
pub open spec fn admissible_upper(b: Block, bound: (u32, u32), f: spec_fn(Point) -> nat) -> bool {
    forall|p: Point| #[trigger] b.contains(p) ==> f(p) <= bound.1
}

/// A lower score for a block is admissible for the objective `f` when some
/// point of the block realizes at least that much (the score of the block's
/// center rotation does).
pub open spec fn admissible_lower(b: Block, bound: (u32, u32), f: spec_fn(Point) -> nat) -> bool {
    bound.0 == 0 || exists|p: Point| #[trigger] b.contains(p) && f(p) >= bound.0
}

/// Point `p` cannot beat the search state `m`: either the incumbent already
/// matches `f` at `p`, or some frontier region still contains `p` with an
/// upper bound that admits it.
pub open spec fn covers(m: SearchModel, f: spec_fn(Point) -> nat, p: Point) -> bool {
    ||| f(p) <= m.best_lower
    ||| exists|i: int|
        0 <= i < m.frontier.len() && (#[trigger] m.frontier[i]).block.contains(p) && f(p)
            <= m.frontier[i].upper
}

/// The search never loses the objective: every point of the seed region is
/// covered.
pub open spec fn sound_for(m: SearchModel, f: spec_fn(Point) -> nat) -> bool {
    forall|p: Point| in_seed(p) ==> #[trigger] covers(m, f, p)
}

/// The incumbent is realizable: some point of the seed region scores at
/// least the incumbent's count.
pub open spec fn reachable_for(m: SearchModel, f: spec_fn(Point) -> nat) -> bool {
    m.best_lower == 0 || exists|p: Point| #[trigger] in_seed(p) && f(p) >= m.best_lower
}

/// The starting state is sound for any objective the pair count caps: the
/// seed region covers every point with the trivial upper bound.
pub proof fn lemma_init_sound(n_pairs: u32, max_depth: u32, f: spec_fn(Point) -> nat)
    requires
        forall|p: Point| #[trigger] in_seed(p) ==> f(p) <= n_pairs,
    ensures
        sound_for(init_model(n_pairs, max_depth), f),
        reachable_for(init_model(n_pairs, max_depth), f),
{
    let m = init_model(n_pairs, max_depth);
    assert forall|p: Point| in_seed(p) implies #[trigger] covers(m, f, p) by {
        lemma_seed_contains(p);
        assert(m.frontier[0].block.contains(p) && f(p) <= m.frontier[0].upper);
    }
}

/// The incumbent never decreases across a step, and after the step it is the
/// maximum of the old incumbent and every scored region's lower bound, taken
/// by the region that realized it.
pub proof fn lemma_step_monotone(m: SearchModel, bounds: Seq<(u32, u32)>)
    ensures
        ({
            let pushed = m.frontier + zip_regions(m.pending, bounds);
            let post = finish_step(m, bounds);
            &&& post.best_lower >= m.best_lower
            &&& forall|j: int| 0 <= j < pushed.len() ==> (#[trigger] pushed[j]).lower
                <= post.best_lower
            &&& (post.best_lower == m.best_lower && post.best_block == m.best_block)
                || (exists|j: int|
                    0 <= j < pushed.len() && #[trigger] pushed[j].lower == post.best_lower
                    && pushed[j].block == post.best_block)
        }),
{
    let pushed = m.frontier + zip_regions(m.pending, bounds);
    lemma_scan_incumbent(pushed, 0, m.best_lower, m.best_block);
}

/// One full step under admissible upper scores keeps the search sound: no
/// point of the seed region that could still beat the incumbent is lost by
/// popping, scoring, or pruning. The popped region must be subdivided, that
/// is, it must lie above the depth floor.
pub proof fn lemma_step_preserves_soundness(
    m: SearchModel,
    bounds: Seq<(u32, u32)>,
    f: spec_fn(Point) -> nat,
)
    requires
        m.wf(),
        !m.awaiting,
        m.frontier.len() > 0,
        sound_for(m, f),
        m.frontier[top_index(m.frontier)].block.depth < m.max_depth,
        bounds.len() == begin_step(m).pending.len(),
        forall|k: int|
            0 <= k < bounds.len() ==> admissible_upper(
                begin_step(m).pending[k],
                #[trigger] bounds[k],
                f,
            ),
    ensures
        sound_for(finish_step(begin_step(m), bounds), f),
{
    let t = top_index(m.frontier);
    let popped = m.frontier[t];
    let mid = begin_step(m);
    let pushed = mid.frontier + zip_regions(mid.pending, bounds);
    let scanned = scan_incumbent(pushed, 0, m.best_lower, m.best_block);
    let post = finish_step(mid, bounds);
    lemma_top_index(m.frontier);
    lemma_scan_incumbent(pushed, 0, m.best_lower, m.best_block);
    lemma_keep_at_least(pushed, scanned.0);
    m.frontier.remove_ensures(t);
    assert forall|p: Point| in_seed(p) implies #[trigger] covers(post, f, p) by {
        assert(covers(m, f, p));
        if f(p) <= m.best_lower {
            assert(f(p) <= post.best_lower);
        } else {
            let i = choose|i: int|
                0 <= i < m.frontier.len() && (#[trigger] m.frontier[i]).block.contains(p) && f(p)
                    <= m.frontier[i].upper;
            let y: int = if i == t {
                // The popped region: `p` lands in one of its children, whose
                // admissible upper score still admits `f(p)`.
                lemma_subdivide_tiles(popped.block, p);
                let k = choose|k: int|
                    0 <= k < 8 && (#[trigger] popped.block.children()[k]).contains(p);
                assert(mid.pending[k].contains(p));
                assert(admissible_upper(mid.pending[k], bounds[k], f));
                assert(pushed[mid.frontier.len() + k] == zip_regions(mid.pending, bounds)[k]);
                mid.frontier.len() + k
            } else {
                // A surviving region: it moved to the frontier with the pop
                // taken out.
                let i2: int = if i < t {
                    i
                } else {
                    i - 1
                };
                assert(mid.frontier[i2] == m.frontier[i]);
                assert(pushed[i2] == mid.frontier[i2]);
                i2
            };
            assert(pushed[y].block.contains(p) && f(p) <= pushed[y].upper);
            if pushed[y].upper >= scanned.0 {
                let x = choose|x: int|
                    0 <= x < post.frontier.len() && #[trigger] post.frontier[x] == pushed[y];
                assert(post.frontier[x].block.contains(p) && f(p) <= post.frontier[x].upper);
            } else {
                assert(f(p) <= post.best_lower);
            }
        }
    }
}

/// One full step under admissible lower scores keeps the incumbent
/// realizable: whenever it rises, it rises to a scored lower bound that some
/// point of the scored region actually achieves.
pub proof fn lemma_step_preserves_reachability(
    m: SearchModel,
    bounds: Seq<(u32, u32)>,
    f: spec_fn(Point) -> nat,
)
    requires
        m.wf(),
        !m.awaiting,
        m.frontier.len() > 0,
        reachable_for(m, f),
        bounds.len() == begin_step(m).pending.len(),
        forall|k: int|
            0 <= k < bounds.len() ==> admissible_lower(
                begin_step(m).pending[k],
                #[trigger] bounds[k],
                f,
            ),
    ensures
        reachable_for(finish_step(begin_step(m), bounds), f),
{
    let t = top_index(m.frontier);
    let popped = m.frontier[t];
    let mid = begin_step(m);
    let pushed = mid.frontier + zip_regions(mid.pending, bounds);
    let scanned = scan_incumbent(pushed, 0, m.best_lower, m.best_block);
    let post = finish_step(mid, bounds);
    lemma_top_index(m.frontier);
    lemma_scan_incumbent(pushed, 0, m.best_lower, m.best_block);
    m.frontier.remove_ensures(t);
    if post.best_lower != 0 {
        if scanned.0 == m.best_lower {
            assert(reachable_for(m, f));
        } else {
            let j = choose|j: int|
                0 <= j < pushed.len() && #[trigger] pushed[j].lower == scanned.0
                    && pushed[j].block == scanned.1;
            // Old frontier regions were already scanned into the incumbent,
            // so a strictly larger lower bound must come from a child.
            assert(j >= mid.frontier.len()) by {
                if j < mid.frontier.len() {
                    let i0: int = if j < t {
                        j
                    } else {
                        j + 1
                    };
                    assert(mid.frontier[j] == m.frontier[i0]);
                }
            }
            let k = j - mid.frontier.len();
            assert(pushed[j] == zip_regions(mid.pending, bounds)[k]);
            assert(admissible_lower(mid.pending[k], bounds[k], f));
            let p = choose|p: Point| #[trigger] mid.pending[k].contains(p) && f(p) >= bounds[k].0;
            lemma_child_in_parent(popped.block, k, p);
            lemma_wf_contains_in_seed(popped.block, p);
            assert(in_seed(p) && f(p) >= post.best_lower);
        }
    }
}

/// When the search has finished without hitting the depth floor — soundness
/// held throughout — no point of the seed region scores better than the
/// incumbent: the returned rotation's inlier count is globally maximal over
/// the explored discretization. If the incumbent also stayed realizable, it
/// is exactly the maximum of the objective.
pub proof fn lemma_finished_optimal(m: SearchModel, f: spec_fn(Point) -> nat)
    requires
        sound_for(m, f),
        is_finished(m),
    ensures
        forall|p: Point| #[trigger] in_seed(p) ==> f(p) <= m.best_lower,
        reachable_for(m, f) ==> m.best_lower == 0 || exists|p: Point|
            #[trigger] in_seed(p) && f(p) == m.best_lower,
{
    lemma_finished_no_better(m, f);
    if reachable_for(m, f) && m.best_lower != 0 {
        let p = choose|p: Point| #[trigger] in_seed(p) && f(p) >= m.best_lower;
        assert(in_seed(p) && f(p) == m.best_lower);
    }
}

/// At a finished state every frontier upper bound is capped by the top's,
/// which equals the incumbent: nothing covered can exceed it.
proof fn lemma_finished_no_better(m: SearchModel, f: spec_fn(Point) -> nat)
    requires
        sound_for(m, f),
        is_finished(m),
    ensures
        forall|p: Point| #[trigger] in_seed(p) ==> f(p) <= m.best_lower,
{
    assert forall|p: Point| #[trigger] in_seed(p) implies f(p) <= m.best_lower by {
        assert(covers(m, f, p));
        if f(p) > m.best_lower {
            let i = choose|i: int|
                0 <= i < m.frontier.len() && (#[trigger] m.frontier[i]).block.contains(p) && f(p)
                    <= m.frontier[i].upper;
            lemma_top_index(m.frontier);
            let t = top_index(m.frontier);
            assert(!takes_priority(m.frontier[i], m.frontier[t]));
            assert(m.frontier[i].upper <= m.frontier[t].upper);
        }
    }
}

} // verus!
