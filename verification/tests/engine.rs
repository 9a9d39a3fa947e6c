use rgpnp_rs::block::{subdivide, Block, MAX_DEPTH};
use rgpnp_rs::consensus::{
    alpha_cube, alpha_polar, count_bounds, ANGLE_ONE, CUBE_ALPHA_SEED, POLAR_ALPHA_SEED,
};
use rgpnp_rs::pairs::pair_indices;
use rgpnp_rs::search::{takes_priority_exec, Region, Search};

fn region(upper: u32, lower: u32, depth: u32) -> Region {
    Region {
        block: Block {
            depth,
            ix: 0,
            iy: 0,
            iz: 0,
        },
        lower,
        upper,
    }
}

#[test]
fn pair_indices_pairs_consecutive() {
    assert_eq!(pair_indices(0), vec![]);
    assert_eq!(pair_indices(1), vec![]);
    assert_eq!(pair_indices(2), vec![(0, 1)]);
    assert_eq!(pair_indices(7), vec![(0, 1), (2, 3), (4, 5)]);
    assert_eq!(pair_indices(8), vec![(0, 1), (2, 3), (4, 5), (6, 7)]);
}

#[test]
fn pair_indices_discards_odd_trailing() {
    assert_eq!(pair_indices(9).len(), 4);
    assert_eq!(pair_indices(100).len(), 50);
}

#[test]
fn count_bounds_counts_strictly_below() {
    let residuals = vec![0, 100, 150, 200, 300];
    let (l, u) = count_bounds(&residuals, 150, 100);
    assert_eq!(l, 2); // 0, 100 are below 150; 150 itself is not
    assert_eq!(u, 4); // 0, 100, 150, 200 are below 250
}

#[test]
fn count_bounds_skips_degenerate_pairs() {
    // A degenerate pair reports u64::MAX, which no threshold admits.
    let residuals = vec![u64::MAX, 1];
    let (l, u) = count_bounds(&residuals, u64::MAX, 0);
    assert_eq!(l, 1);
    assert_eq!(u, 1);
}

#[test]
fn count_bounds_empty() {
    let residuals: Vec<u64> = vec![];
    assert_eq!(count_bounds(&residuals, 1000, 1000), (0, 0));
}

#[test]
fn alpha_cube_halves_with_depth() {
    assert_eq!(alpha_cube(0), CUBE_ALPHA_SEED);
    assert_eq!(alpha_cube(1), 2852860);
    assert_eq!(alpha_cube(2), 1426430);
    assert_eq!(alpha_cube(4), 356608); // ceiling of 5705720 / 16 = 356607.5
    assert_eq!(alpha_cube(MAX_DEPTH), 1);
}

#[test]
fn alpha_polar_halves_with_depth() {
    assert_eq!(alpha_polar(0), POLAR_ALPHA_SEED);
    assert_eq!(alpha_polar(1), 6588398); // ceiling of 13176795 / 2
    assert_eq!(alpha_polar(2), 3294199);
    assert_eq!(alpha_polar(MAX_DEPTH), 1);
}

#[test]
fn angle_scale_is_two_to_twenty() {
    assert_eq!(ANGLE_ONE, 1 << 20);
}

#[test]
fn subdivide_yields_eight_ordered_children() {
    let seed = Block {
        depth: 0,
        ix: 0,
        iy: 0,
        iz: 0,
    };
    let kids = subdivide(&seed);
    assert_eq!(kids.len(), 8);
    for (k, b) in kids.iter().enumerate() {
        assert_eq!(b.depth, 1);
        assert_eq!(b.ix, (k as u64 >> 2) & 1);
        assert_eq!(b.iy, (k as u64 >> 1) & 1);
        assert_eq!(b.iz, k as u64 & 1);
    }
    let corner = Block {
        depth: 1,
        ix: 1,
        iy: 0,
        iz: 1,
    };
    let kids2 = subdivide(&corner);
    assert_eq!(kids2[0], Block { depth: 2, ix: 2, iy: 0, iz: 2 });
    assert_eq!(kids2[7], Block { depth: 2, ix: 3, iy: 1, iz: 3 });
}

#[test]
fn priority_prefers_upper_then_extent_then_lower() {
    // Larger upper bound pops first.
    assert!(takes_priority_exec(&region(5, 0, 3), &region(4, 4, 0)));
    // Equal upper: larger extent (smaller depth) first.
    assert!(takes_priority_exec(&region(5, 0, 1), &region(5, 3, 2)));
    // Equal upper and depth: larger lower first.
    assert!(takes_priority_exec(&region(5, 3, 2), &region(5, 1, 2)));
    // A region never outranks itself.
    assert!(!takes_priority_exec(&region(5, 3, 2), &region(5, 3, 2)));
}

#[test]
fn search_no_pairs_finishes_at_identity_seed() {
    // No correspondence pairs: the search is over before any step, at the
    // seed region, whose center is the identity rotation.
    let s = Search::new(0, 10);
    assert!(s.finished());
    assert_eq!(s.best_lower(), 0);
    assert_eq!(s.best_block(), Block { depth: 0, ix: 0, iy: 0, iz: 0 });
}

#[test]
fn search_depth_floor_retires_regions() {
    // With the depth floor at 0 the seed cannot be subdivided: the step
    // retires it and the search ends on the empty frontier.
    let mut s = Search::new(3, 0);
    assert!(!s.finished());
    let children = s.step_begin();
    assert!(children.is_empty());
    let no_bounds: Vec<(u32, u32)> = Vec::new();
    s.step_finish(&no_bounds);
    assert!(s.finished());
    assert_eq!(s.frontier_len(), 0);
    assert_eq!(s.best_lower(), 0);
}

#[test]
fn search_incumbent_rises_and_prunes() {
    let mut s = Search::new(4, 10);
    assert!(!s.finished());

    // Step 1: pop the seed, hand back scores; one child promises 2 inliers
    // and admits 4, the rest admit only 1.
    let children = s.step_begin();
    assert_eq!(children.len(), 8);
    let mut bounds = vec![(0u32, 1u32); 8];
    bounds[3] = (2, 4);
    s.step_finish(&bounds);
    assert_eq!(s.best_lower(), 2);
    assert_eq!(s.best_block(), children[3]);
    // Every region whose upper bound fell below the incumbent is pruned.
    assert_eq!(s.frontier_len(), 1);
    assert!(!s.finished());

    // Step 2: one grandchild realizes 3 and admits no more than 3; the rest
    // are dominated.
    let grandchildren = s.step_begin();
    assert_eq!(grandchildren.len(), 8);
    let mut bounds2 = vec![(0u32, 2u32); 8];
    bounds2[5] = (3, 3);
    s.step_finish(&bounds2);
    // The incumbent never decreases, and rose to the new best lower bound.
    assert_eq!(s.best_lower(), 3);
    assert_eq!(s.best_block(), grandchildren[5]);
    // The top of the frontier admits exactly the incumbent: finished.
    assert!(s.finished());
}

#[test]
fn search_is_deterministic() {
    // Two identical runs make identical decisions (same pops, same
    // incumbent), whatever the tie structure of the scores.
    let run = || {
        let mut s = Search::new(2, 6);
        let mut popped = vec![];
        for _ in 0..5 {
            if s.finished() {
                break;
            }
            let children = s.step_begin();
            popped.push(children.clone());
            let bounds: Vec<(u32, u32)> = children
                .iter()
                .map(|b| (0u32, if b.ix == b.iy { 2u32 } else { 1u32 }))
                .collect();
            s.step_finish(&bounds);
        }
        (popped, s.best_block(), s.best_lower())
    };
    assert_eq!(run(), run());
}
