use koji_algorithms::cover_state::CoverState;

fn state(n: usize, m: usize, lists: &[&[u32]]) -> CoverState {
    let mut s = CoverState::new(n, m);
    for l in lists {
        s.add_center(l.to_vec());
    }
    s
}

#[test]
fn counts_follow_added_centers() {
    let s = state(4, 1, &[&[0, 1], &[1, 2]]);
    assert_eq!(s.count_of(0), 1);
    assert_eq!(s.count_of(1), 2);
    assert_eq!(s.count_of(2), 1);
    assert_eq!(s.count_of(3), 0);
    assert_eq!(s.uncovered_points(), vec![3]);
    assert_eq!(s.exclusive_of(0), vec![0]);
    assert_eq!(s.exclusive_of(1), vec![2]);
}

#[test]
fn kill_center_releases_its_points() {
    let mut s = state(3, 1, &[&[0, 1], &[1, 2]]);
    s.kill_center(0);
    assert!(!s.is_live(0));
    assert_eq!(s.count_of(0), 0);
    assert_eq!(s.count_of(1), 1);
    assert_eq!(s.live_centers(), vec![1]);
    assert_eq!(s.uncovered_points(), vec![0]);
}

#[test]
fn drop_removes_redundant_center_by_coverage() {
    // Two centers covering the same two points: one is redundant at m = 1.
    let mut s = state(2, 1, &[&[0, 1], &[0, 1]]);
    assert!(s.drop_pass());
    assert_eq!(s.live_centers().len(), 1);
    assert_eq!(s.uncovered_points(), Vec::<u32>::new());
}

#[test]
fn drop_removes_middle_center_of_a_chain() {
    let mut s = state(4, 1, &[&[0, 1], &[1, 2], &[2, 3]]);
    assert!(s.drop_pass());
    assert_eq!(s.live_centers(), vec![0, 2]);
    assert_eq!(s.uncovered_points(), Vec::<u32>::new());
}

#[test]
fn drop_keeps_centers_that_pay() {
    let mut s = state(4, 1, &[&[0, 1], &[2, 3]]);
    assert!(!s.drop_pass());
    assert_eq!(s.live_centers(), vec![0, 1]);
}

#[test]
fn drop_with_min_points_two_sheds_thin_centers() {
    // With m = 2, a center with a single exclusive point costs more than it
    // saves; the lowest exclusive count goes first.
    let mut s = state(5, 2, &[&[0, 1, 2], &[3], &[2, 4]]);
    assert!(s.drop_pass());
    assert_eq!(s.live_centers(), vec![0]);
    assert_eq!(s.uncovered_points(), vec![3, 4]);
}

#[test]
fn move_center_swaps_coverage() {
    let mut s = state(4, 1, &[&[0, 1], &[1, 2]]);
    s.move_center(0, vec![2, 3]);
    assert_eq!(s.count_of(0), 0);
    assert_eq!(s.count_of(1), 1);
    assert_eq!(s.count_of(2), 2);
    assert_eq!(s.count_of(3), 1);
    assert!(s.is_live(0));
}

#[test]
fn required_of_pair_lists_pair_only_points() {
    let s = state(5, 1, &[&[0, 1, 2], &[2, 3], &[3, 4]]);
    // Center 0: 0 and 1 once; 2 twice, with center 1 also covering it.
    // Center 1: 3 is covered twice (with center 2), so it is not listed.
    assert_eq!(s.required_of_pair(0, 1), vec![0, 1, 2]);
    assert_eq!(s.required_of_pair(1, 2), vec![3, 4]);
}

#[test]
fn required_of_three_is_sorted_and_complete() {
    let s = state(6, 1, &[&[4, 0], &[0, 1], &[1, 2, 5], &[2, 3]]);
    assert_eq!(s.required_of_three(0, 1, 2), vec![0, 1, 4, 5]);
}

#[test]
fn gapfill_covers_isolated_points_at_m1() {
    // No centers at all; each isolated point has its own candidate.
    let mut s = state(3, 1, &[]);
    let picks = s.gapfill(&[vec![0], vec![1], vec![2]]);
    assert_eq!(picks.len(), 3, "every isolated point needs a center at m = 1");
    assert_eq!(s.uncovered_points(), Vec::<u32>::new());
}

#[test]
fn gapfill_picks_the_largest_gain_first() {
    let mut s = state(4, 1, &[&[0]]);
    let picks = s.gapfill(&[vec![1, 2], vec![3], vec![0, 1]]);
    assert_eq!(picks, vec![0, 1]);
    assert_eq!(s.uncovered_points(), Vec::<u32>::new());
    assert_eq!(s.live_centers(), vec![0, 1, 2]);
}

#[test]
fn gapfill_leaves_isolated_points_at_m3() {
    let mut s = state(2, 3, &[]);
    assert!(s.gapfill(&[vec![0], vec![1]]).is_empty(), "isolated points stay uncovered at m = 3");
}

#[test]
fn gapfill_with_min_points_two_takes_only_paying_candidates() {
    let mut s = state(4, 2, &[]);
    let picks = s.gapfill(&[vec![0], vec![1], vec![2, 3]]);
    assert_eq!(picks, vec![2]);
    assert_eq!(s.uncovered_points(), vec![0, 1]);
}

#[test]
fn gapfill_with_nothing_uncovered_adds_nothing() {
    let mut s = state(2, 1, &[&[0, 1]]);
    assert!(s.gapfill(&[vec![0], vec![1]]).is_empty());
    assert_eq!(s.len(), 1);
}

#[test]
fn score_counts_centers_and_uncovered() {
    let s = state(5, 2, &[&[0, 1], &[1, 2]]);
    // Two centers at cost 2, points 3 and 4 uncovered.
    assert_eq!(s.current_score(), 6);
}

#[test]
fn drop_lowers_the_score() {
    let mut s = state(4, 1, &[&[0, 1], &[1, 2], &[2, 3]]);
    let before = s.current_score();
    assert!(s.drop_pass());
    assert!(s.current_score() < before);
    assert_eq!(s.current_score(), 2);
}

#[test]
fn merge_combines_pair_by_coverage() {
    // Two points, a center on each; one disk covering both replaces them.
    let mut s = state(2, 1, &[&[0], &[1]]);
    assert_eq!(s.required_of_pair(0, 1), vec![0, 1]);
    let before = s.current_score();
    let k = s.merge_pair(0, 1, vec![0, 1]);
    assert_eq!(k, 2);
    assert_eq!(s.live_centers(), vec![2]);
    assert_eq!(s.current_score() + 1, before);
}

#[test]
fn swap_three_for_two() {
    let mut s = state(6, 1, &[&[0, 1], &[2, 3], &[4, 5]]);
    assert_eq!(s.required_of_three(0, 1, 2), vec![0, 1, 2, 3, 4, 5]);
    let before = s.current_score();
    s.swap_three(0, 1, 2, vec![0, 1, 2], vec![3, 4, 5]);
    assert_eq!(s.live_centers(), vec![3, 4]);
    assert_eq!(s.current_score() + 1, before);
}

#[test]
fn loss_free_move_capturing_a_point_lowers_the_score() {
    let mut s = state(4, 1, &[&[0, 1], &[1, 2]]);
    let before = s.current_score();
    // Center 0 keeps its exclusive point 0 and picks up the uncovered 3.
    s.move_center(0, vec![0, 3]);
    assert_eq!(s.current_score() + 1, before);
    assert_eq!(s.uncovered_points(), Vec::<u32>::new());
}

#[test]
fn gapfill_never_raises_the_score() {
    let mut s = state(5, 2, &[&[0]]);
    let before = s.current_score();
    s.gapfill(&[vec![1, 2, 3], vec![4]]);
    assert!(s.current_score() <= before);
    assert_eq!(s.current_score(), 5);
}

#[test]
fn move_accepted_when_capturing_or_growing() {
    let s = state(5, 1, &[&[0, 1], &[1, 2]]);
    // Point 3 is uncovered: a move onto it captures it.
    assert!(s.move_accepted(0, &vec![0, 3]));
    // Three points against two: coverage grows.
    assert!(s.move_accepted(0, &vec![0, 1, 2]));
    // Same size, nothing captured.
    assert!(!s.move_accepted(0, &vec![1, 2]));
}
