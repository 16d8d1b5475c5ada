//! Pairs of positions in a list, as `itertools` enumerates them.

use itertools::Itertools;
use vstd::prelude::*;

verus! {

/// Lexicographic order on pairs of positions.
pub open spec fn pair_before(p: (usize, usize), q: (usize, usize)) -> bool {
    p.0 < q.0 || (p.0 == q.0 && p.1 < q.1)
}

/// `Itertools::combinations(2)` over the positions `0..n`, each combination
/// as a pair. It yields every pair of positions `i < j` below `n`, nothing
/// else, in lexicographic order.
#[verifier::external_body]
pub(crate) fn position_pairs(n: usize) -> (r: Vec<(usize, usize)>)
    ensures
        forall|k: int| 0 <= k < r@.len() ==> (#[trigger] r@[k]).0 < r@[k].1 < n,
        forall|i: usize, j: usize| i < j < n ==> r@.contains((i, j)),
        forall|k: int, l: int| 0 <= k < l < r@.len() ==> pair_before(r@[k], r@[l]),
{
    (0..n).combinations(2).map(|c| (c[0], c[1])).collect()
}

} // verus!
