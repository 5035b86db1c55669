use koji_algorithms::center_cap::{internal_score, keep_most_covering};
use koji_algorithms::select::{polish_selection, select_max_coverage};

#[test]
fn marginal_gain_beats_absolute_coverage() {
    let candidates = vec![
        (0..10).collect::<Vec<u32>>(),
        (0..10).collect::<Vec<u32>>(),
        (10..15).collect::<Vec<u32>>(),
    ];
    let weights = vec![1; 15];
    assert_eq!(select_max_coverage(&candidates, &weights, 2), vec![0, 2]);
}

#[test]
fn weighted_items_drive_selection() {
    let candidates = vec![vec![0], vec![1, 2]];
    let weights = vec![10, 1, 1];
    assert_eq!(select_max_coverage(&candidates, &weights, 1), vec![0]);
}

#[test]
fn zero_marginal_gain_stops_selection() {
    let candidates = vec![vec![0], vec![0], vec![0]];
    let weights = vec![1];
    assert_eq!(select_max_coverage(&candidates, &weights, 2), vec![0]);
}

#[test]
fn greedy_is_approximate_not_optimal() {
    let candidates = vec![vec![0, 1, 2, 3], vec![0, 1, 4], vec![2, 3, 5]];
    let weights = vec![1; 6];
    assert_eq!(select_max_coverage(&candidates, &weights, 2), vec![0, 1]);
}

#[test]
fn ties_break_toward_lower_index_deterministically() {
    let candidates = vec![vec![0], vec![1], vec![2]];
    let weights = vec![1, 1, 1];
    assert_eq!(select_max_coverage(&candidates, &weights, 2), vec![0, 1]);
}

#[test]
fn under_cap_is_identity() {
    let candidates = vec![vec![0], vec![1]];
    let weights = vec![1, 1];
    assert_eq!(select_max_coverage(&candidates, &weights, 5), vec![0, 1]);
}

#[test]
fn stale_scores_are_rescored_before_picking() {
    // After picking 0 (weight 6), candidate 1's stored score (5) overstates
    // its gain (1); candidate 2 (gain 3) must win the second slot.
    let candidates = vec![vec![0, 1, 2], vec![1, 2, 3], vec![4, 5, 6]];
    let weights = vec![2, 2, 2, 1, 1, 1, 1];
    assert_eq!(select_max_coverage(&candidates, &weights, 2), vec![0, 2]);
}

#[test]
fn empty_candidates_over_cap_zero() {
    let candidates: Vec<Vec<u32>> = vec![vec![], vec![]];
    let weights: Vec<usize> = vec![];
    assert_eq!(select_max_coverage(&candidates, &weights, 1), Vec::<usize>::new());
    assert_eq!(select_max_coverage(&candidates, &weights, 0), Vec::<usize>::new());
}

use koji_algorithms::select::improve_by_swap;

#[test]
fn swap_replaces_dominated_pick() {
    let candidates = vec![vec![0, 1, 2], vec![0], vec![1, 2, 3]];
    let weights = vec![1; 4];
    assert_eq!(improve_by_swap(vec![1], &candidates, &weights), vec![2]);
}

#[test]
fn swap_leaves_optimal_selection_alone() {
    let candidates = vec![vec![0, 1], vec![0]];
    let weights = vec![1; 2];
    assert_eq!(improve_by_swap(vec![0], &candidates, &weights), vec![0]);
}

#[test]
fn swap_repairs_the_greedy_trap() {
    // Greedy keeps {0, 1} (weight 5); swapping 0 for 2 covers all 6.
    let candidates = vec![vec![0, 1, 2, 3], vec![0, 1, 4], vec![2, 3, 5]];
    let weights = vec![1; 6];
    let kept = improve_by_swap(vec![0, 1], &candidates, &weights);
    let mut sorted = kept.clone();
    sorted.sort();
    assert_eq!(sorted, vec![1, 2]);
}

#[test]
fn swap_keeps_size_and_never_loses_weight() {
    let candidates = vec![vec![0, 1], vec![2], vec![3, 4, 5], vec![1, 2], vec![6]];
    let weights = vec![1, 5, 1, 1, 1, 1, 2];
    let before = vec![1, 4];
    let after = improve_by_swap(before.clone(), &candidates, &weights);
    assert_eq!(after.len(), before.len());
    let covered = |kept: &Vec<usize>| {
        let mut seen = vec![false; weights.len()];
        for &k in kept {
            for &j in &candidates[k] {
                seen[j as usize] = true;
            }
        }
        (0..weights.len()).filter(|&j| seen[j]).map(|j| weights[j]).sum::<usize>()
    };
    assert!(covered(&after) >= covered(&before));
}

#[test]
fn swap_with_full_or_empty_selection_is_identity() {
    let candidates = vec![vec![0], vec![1]];
    let weights = vec![1, 1];
    assert_eq!(improve_by_swap(vec![], &candidates, &weights), Vec::<usize>::new());
    assert_eq!(improve_by_swap(vec![1, 0], &candidates, &weights), vec![1, 0]);
}

use koji_algorithms::select::relocate_capped;

#[test]
fn relocate_moves_a_center_to_a_better_neighbour() {
    let cover = vec![vec![0], vec![0, 1, 2], vec![3]];
    let weights = vec![1; 4];
    let mut kept = vec![0, 2];
    let near = vec![vec![1, 2], vec![0]];
    assert!(relocate_capped(&mut kept, &cover, &near, &weights));
    assert_eq!(kept, vec![1, 2]);
}

#[test]
fn relocate_keeps_centers_that_cannot_improve() {
    let cover = vec![vec![0, 1], vec![1]];
    let weights = vec![1; 2];
    let mut kept = vec![0];
    let near = vec![vec![1]];
    assert!(!relocate_capped(&mut kept, &cover, &near, &weights));
    assert_eq!(kept, vec![0]);
}

#[test]
fn relocate_prefers_highest_value_then_lowest_index() {
    // Candidates 1 and 2 both cover two fresh items; 1 wins the tie.
    let cover = vec![vec![0], vec![0, 1], vec![0, 2], vec![0]];
    let weights = vec![1; 3];
    let mut kept = vec![0];
    let near = vec![vec![2, 1, 3]];
    assert!(relocate_capped(&mut kept, &cover, &near, &weights));
    assert_eq!(kept, vec![1]);
}

#[test]
fn relocate_rechecks_proposals_against_earlier_moves() {
    // Both kept centers propose candidate 2; only the first move applies.
    let cover = vec![vec![0], vec![1], vec![0, 1, 2]];
    let weights = vec![1; 3];
    let mut kept = vec![0, 1];
    let near = vec![vec![2], vec![2]];
    assert!(relocate_capped(&mut kept, &cover, &near, &weights));
    assert_eq!(kept, vec![2, 1]);
}

use koji_algorithms::cover_dedup::distinct_cover_lists;
use koji_algorithms::select::{sorted_distinct, swap_round};

#[test]
fn sorted_distinct_sorts_and_dedups() {
    assert_eq!(sorted_distinct(&vec![5, 1, 5, 3, 1, 9]), vec![1, 3, 5, 9]);
    assert_eq!(sorted_distinct(&vec![]), Vec::<u32>::new());
    assert_eq!(sorted_distinct(&vec![2, 2, 2]), vec![2]);
}

#[test]
fn identical_and_empty_cover_lists_are_dropped() {
    let lists = vec![vec![1, 2], vec![], vec![1, 2], vec![3], vec![1, 2], vec![3]];
    assert_eq!(
        distinct_cover_lists(&lists),
        vec![true, false, false, true, false, false]
    );
}

#[test]
fn overlapping_but_different_cover_lists_are_all_kept() {
    let lists = vec![vec![1], vec![1, 2], vec![2, 1], vec![2], vec![1], vec![]];
    assert_eq!(
        distinct_cover_lists(&lists),
        vec![true, true, true, true, false, false]
    );
    assert_eq!(distinct_cover_lists(&[]), Vec::<bool>::new());
}

#[test]
fn swap_round_repairs_the_greedy_trap() {
    let candidates = vec![vec![0, 1, 2, 3], vec![0, 1, 4], vec![2, 3, 5]];
    let weights = vec![1; 6];
    let (kept, changed) = swap_round(&vec![0, 1], &candidates, &weights, 2);
    assert!(changed);
    let mut sorted = kept.clone();
    sorted.sort();
    assert_eq!(sorted, vec![1, 2]);
    let (again, changed_again) = swap_round(&kept, &candidates, &weights, 2);
    assert!(!changed_again);
    assert_eq!(again, kept);
}

use koji_algorithms::cap_cells::cap_cells;

#[test]
fn cap_cells_keeps_best_clusters_in_input_order() {
    let clusters = vec!['a', 'b', 'c'];
    let points = vec![1u64, 1, 1, 2, 3];
    let cover = vec![vec![1u64], vec![1, 2], vec![3]];
    assert_eq!(cap_cells(clusters.clone(), &points, &cover, 1), vec!['b']);
    assert_eq!(cap_cells(clusters.clone(), &points, &cover, 2), vec!['b', 'c']);
    assert_eq!(cap_cells(clusters.clone(), &points, &cover, 3), clusters);
}

#[test]
fn cap_cells_without_points_truncates() {
    let clusters = vec![1, 2, 3];
    let cover = vec![vec![1u64], vec![2], vec![3]];
    assert_eq!(cap_cells(clusters, &[], &cover, 2), vec![1, 2]);
}

#[test]
fn cap_cells_covering_nothing_truncates() {
    let clusters = vec![1, 2, 3];
    let cover = vec![vec![9u64], vec![8], vec![7]];
    assert_eq!(cap_cells(clusters, &[1, 2], &cover, 2), vec![1, 2]);
}

#[test]
fn keep_most_covering_under_cap_keeps_all() {
    assert_eq!(keep_most_covering(&[3, 5, 5, 1], 4), vec![0, 1, 2, 3]);
    assert_eq!(keep_most_covering(&[3, 5, 5, 1], 9), vec![0, 1, 2, 3]);
}

#[test]
fn keep_most_covering_ranks_by_count_then_later_index() {
    assert_eq!(keep_most_covering(&[3, 5, 5, 1], 2), vec![2, 1]);
    assert_eq!(keep_most_covering(&[3, 5, 5, 1], 3), vec![2, 1, 0]);
    assert!(keep_most_covering(&[3, 5], 0).is_empty());
}

#[test]
fn internal_score_counts_centers_and_uncovered() {
    assert_eq!(internal_score(3, 2, &[true, false, true, false]), 8);
    assert_eq!(internal_score(0, 5, &[]), 0);
}

#[test]
fn polish_keeps_greedy_pick_when_no_swap_pays() {
    let lists: Vec<Vec<u32>> = vec![vec![0, 1], vec![1, 2, 3], vec![3]];
    let near: Vec<Vec<u32>> = vec![vec![], vec![], vec![]];
    assert_eq!(polish_selection(&lists, &[1, 1, 1, 1], 1, &near), Some(vec![1]));
}

#[test]
fn polish_of_empty_covers_is_none() {
    let lists: Vec<Vec<u32>> = vec![vec![], vec![]];
    let near: Vec<Vec<u32>> = vec![vec![], vec![]];
    assert_eq!(polish_selection(&lists, &[1], 1, &near), None);
}

#[test]
fn polish_under_cap_keeps_every_candidate() {
    let lists: Vec<Vec<u32>> = vec![vec![0], vec![1]];
    let near: Vec<Vec<u32>> = vec![vec![1], vec![0]];
    assert_eq!(polish_selection(&lists, &[1, 1], 5, &near), Some(vec![0, 1]));
}

#[test]
fn polish_relocates_to_a_better_neighbour() {
    // Candidate 0 covers item 0 only; its neighbour 1 covers items 0..2.
    // The greedy takes 1 first; with cap 1 nothing better exists.
    let lists: Vec<Vec<u32>> = vec![vec![0], vec![0, 1, 2], vec![3]];
    let near: Vec<Vec<u32>> = vec![vec![1], vec![0], vec![]];
    assert_eq!(polish_selection(&lists, &[1, 1, 1, 1], 1, &near), Some(vec![1]));
}
