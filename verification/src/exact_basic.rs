//! The single-bound exact window solver over at most 64 points, with masks
//! held in a `u64`: the same branch and bound as [`crate::exact_cover`],
//! pruned by the disk-count bound alone, with the dominance prune always on.

use vstd::prelude::*;
use crate::bitset::first_n;
use crate::exact_cover::{opt_cost, valid_picks, strategy_cost, disk_cost, index_picks, solve_masks, tree_size, MAX_NODES};

verus! {

/// Largest window this solver accepts (one bit per point of a `u64`).
pub const MAX_EXACT_POINTS: usize = 64;

/// The masks as `u128`s.
pub open spec fn widen(masks: Seq<u64>) -> Seq<u128> {
    masks.map_values(|x: u64| x as u128)
}

/// Exact minimum-cost cover of the points `0..n` by the candidate masks
/// `masks`: each picked mask costs `m` (1 where `m` is 0), each point no
/// picked mask covers costs 1. Returns the optimal cost and the indices of
/// the picked masks (the first of equal masks) where the search finishes
/// within its node budget and beats `incumbent`; `None` for an empty or
/// oversized window, when no mask covers anything, when `incumbent` is not
/// beaten, and when the budget runs out. The budget cannot run out when
/// `tree_size` of the mask count and the window size is within the node
/// budget, as on small windows.
pub fn solve_window_exact(masks: &[u64], n: usize, m: usize, incumbent: usize) -> (r: Option<(usize, Vec<usize>)>)
    requires
        masks.len() <= u32::MAX,
        m < 0x1000_0000_0000,
        m * 1024 <= usize::MAX,
    ensures
        n == 0 || n > MAX_EXACT_POINTS ==> r is None,
        (forall|i: int| 0 <= i < masks.len() ==> masks@[i] == 0) ==> r is None,
        1 <= n <= MAX_EXACT_POINTS && opt_cost(widen(masks@), disk_cost(m), first_n(n as int)) >= incumbent ==> r is None,
        r is Some ==> {
            let (cost, picks) = r->0;
            &&& 1 <= n <= MAX_EXACT_POINTS
            &&& cost == opt_cost(widen(masks@), disk_cost(m), first_n(n as int))
            &&& cost < incumbent
            &&& valid_picks(widen(masks@), index_picks(picks@))
            &&& strategy_cost(widen(masks@), disk_cost(m), index_picks(picks@), first_n(n as int)) == cost
        },
        1 <= n <= MAX_EXACT_POINTS && (exists|i: int| 0 <= i < masks.len() && masks@[i] != 0) && opt_cost(
            widen(masks@),
            disk_cost(m),
            first_n(n as int),
        ) < incumbent && tree_size(masks.len() as nat, n as nat) <= MAX_NODES ==> r is Some,
{
    let mut wide: Vec<u128> = Vec::new();
    let mut i: usize = 0;
    while i < masks.len()
        invariant
            i <= masks.len(),
            wide@ == widen(masks@).subrange(0, i as int),
        decreases masks.len() - i,
    {
        wide.push(masks[i] as u128);
        i = i + 1;
        assert(wide@ =~= widen(masks@).subrange(0, i as int));
    }
    assert(wide@ =~= widen(masks@));
    proof {
        if exists|i: int| 0 <= i < masks.len() && masks@[i] != 0 {
            let i = choose|i: int| 0 <= i < masks.len() && masks@[i] != 0;
            assert(wide@[i] == masks@[i] as u128);
            assert(wide@[i] != 0);
        }
    }
    solve_masks(wide.as_slice(), n, m, incumbent, 0, false, usize::MAX, MAX_EXACT_POINTS)
}

} // verus!
