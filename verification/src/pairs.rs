//! Pairing of correspondences.
//!
//! The residual formulation works on pairs of correspondences: each pair
//! contributes a world difference and a camera cross product. Pairs are formed
//! from disjoint consecutive correspondences (index 0 with 1, 2 with 3, and so
//! on); an odd trailing correspondence is discarded, so a run over `n`
//! correspondences scores exactly `n / 2` pairs.

use vstd::prelude::*;

verus! {

/// Indices of the correspondences that form the pairs of a run over `n`
/// correspondences: `(0, 1), (2, 3), ...`, exactly `n / 2` of them.
pub fn pair_indices(n: usize) -> (r: Vec<(usize, usize)>)
    ensures
        r@.len() == n as int / 2,
        forall|i: int| 0 <= i < r@.len() ==> r@[i].0 == 2 * i && r@[i].1 == 2 * i + 1,
{
    let count: usize = n / 2;
    let mut r: Vec<(usize, usize)> = Vec::new();
    let mut i: usize = 0;
    while i < count
        invariant
            i <= count,
            count == n as int / 2,
            r@.len() == i,
            forall|j: int| 0 <= j < i ==> r@[j].0 == 2 * j && r@[j].1 == 2 * j + 1,
        decreases count - i,
    {
        assert(2 * i + 1 < n);
        r.push((2 * i, 2 * i + 1));
        i = i + 1;
    }
    r
}

} // verus!
