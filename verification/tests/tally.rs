use koji_algorithms::tally::{merge_best, overlap_counts, size_tally, spread_points};

#[test]
fn tally_of_no_clusters_is_zero() {
    let t = size_tally(&[]);
    assert_eq!(t.best, 0);
    assert!(t.best_at.is_empty());
    assert_eq!(t.worst, 0);
    assert_eq!(t.worst_count, 0);
}

#[test]
fn tally_tracks_best_positions() {
    let t = size_tally(&[3, 5, 2, 5, 1, 1, 4]);
    assert_eq!(t.best, 5);
    assert_eq!(t.best_at, vec![1, 3]);
    // 2, 1, 1 and 4 fell short of a larger size before them.
    assert_eq!(t.worst, 1);
    assert_eq!(t.worst_count, 2);
}

#[test]
fn tally_ignores_sizes_that_were_best_when_seen() {
    // Increasing sizes never fall short of an earlier one.
    let t = size_tally(&[1, 2, 3]);
    assert_eq!(t.best, 3);
    assert_eq!(t.best_at, vec![2]);
    assert_eq!(t.worst, 0);
    assert_eq!(t.worst_count, 0);
}

#[test]
fn tally_counts_ties_of_worst() {
    let t = size_tally(&[6, 4, 4, 2, 6, 2, 2]);
    assert_eq!(t.best, 6);
    assert_eq!(t.best_at, vec![0, 4]);
    assert_eq!(t.worst, 2);
    assert_eq!(t.worst_count, 3);
}

#[test]
fn tally_of_zero_sizes_lists_every_cluster_as_best() {
    let t = size_tally(&[0, 0, 0]);
    assert_eq!(t.best, 0);
    assert_eq!(t.best_at, vec![0, 1, 2]);
    assert_eq!(t.worst, 0);
}

#[test]
fn overlap_counts_multi_and_excess() {
    assert_eq!(overlap_counts(&[1, 2, 3, 1, 5]), (3, 7));
    assert_eq!(overlap_counts(&[]), (0, 0));
    assert_eq!(overlap_counts(&[1, 1]), (0, 0));
}

#[test]
fn merge_best_takes_larger() {
    let (b, c) = merge_best(vec![1u8, 2], 3, &[9], 5);
    assert_eq!(b, vec![9]);
    assert_eq!(c, 5);
}

#[test]
fn merge_best_ties_extend_list() {
    let (b, c) = merge_best(vec![1u8, 2], 4, &[7, 8], 4);
    assert_eq!(b, vec![1, 2, 7, 8]);
    assert_eq!(c, 4);
}

#[test]
fn merge_best_lower_other_does_not_overwrite() {
    let (b, c) = merge_best(vec![1u8], 6, &[3, 4], 2);
    assert_eq!(b, vec![1]);
    assert_eq!(c, 6);
}

#[test]
fn merge_best_propagates_best_cluster_points() {
    let (b, c) = merge_best(vec![[40.0f64, -74.0]], 2, &[[41.0, -74.0]], 5);
    assert_eq!(c, 5);
    assert_eq!(b.len(), 1);
    assert!((b[0][0] - 41.0).abs() < 1e-6);
}

#[test]
fn spread_points_counts_far_points() {
    // Three points pairwise out of reach, and a fourth within reach of the
    // first: the fourth must not raise the count.
    let near: Vec<Vec<u32>> = vec![vec![0, 3], vec![1], vec![2], vec![0, 3]];
    let kept = spread_points(&near);
    assert_eq!(kept, vec![0, 1, 2]);
    assert_eq!(kept.len(), 3);
}

#[test]
fn spread_points_keeps_first_of_a_chain() {
    // 0-1 and 1-2 within reach, 0-2 not: 0 is kept, 1 is blocked by 0,
    // 2 is kept since 1 was not.
    let near: Vec<Vec<u32>> = vec![vec![0, 1], vec![0, 1, 2], vec![1, 2]];
    assert_eq!(spread_points(&near), vec![0, 2]);
}

#[test]
fn spread_points_of_nothing_is_empty() {
    let near: Vec<Vec<u32>> = Vec::new();
    assert!(spread_points(&near).is_empty());
}
