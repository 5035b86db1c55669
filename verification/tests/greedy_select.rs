use koji_algorithms::greedy_select::{bucket_by_size, fill_gaps, greedy_cluster, recover_missing, update_unique};

#[test]
fn cluster_with_no_viable_candidates_returns_empty() {
    let empty: Vec<Vec<usize>> = vec![vec![]];
    assert!(greedy_cluster(&[], &empty, 0, 1, usize::MAX).is_empty());
}

#[test]
fn bucket_clusters_by_size_indexes_by_all_len() {
    let buckets = bucket_by_size(&[1, 2, 3]);
    assert_eq!(buckets.len(), 4, "buckets span 0..=max_all_len (3)");
    assert_eq!(buckets[0].len(), 0);
    assert_eq!(buckets[1], vec![0]);
    assert_eq!(buckets[2], vec![1]);
    assert_eq!(buckets[3], vec![2]);
}

#[test]
fn bucket_of_nothing_is_one_empty_bucket() {
    assert_eq!(bucket_by_size(&[]), vec![Vec::<usize>::new()]);
}

#[test]
fn recover_missing_points_filters_seen_and_caps() {
    let reached = [true, false, false];
    assert_eq!(recover_missing(&reached, 1, 10).len(), 2, "two unseen points should be recovered");
    assert_eq!(recover_missing(&reached, 1, 1).len(), 1, "max_to_add caps the output");
    assert!(recover_missing(&reached, 1, 0).is_empty(), "max_to_add = 0 is the fast path");
    assert!(recover_missing(&[true, true, true], 3, 10).is_empty());
    assert_eq!(recover_missing(&reached, 1, 10), vec![1, 2]);
}

fn bucketed(all: &[Vec<u32>]) -> Vec<Vec<usize>> {
    let lens: Vec<usize> = all.iter().map(|a| a.len()).collect();
    bucket_by_size(&lens)
}

#[test]
fn greedy_takes_largest_first_and_skips_claimed() {
    let all = vec![vec![0u32, 1, 2, 3], vec![3, 4, 5], vec![4, 5, 6], vec![6]];
    let buckets = bucketed(&all);
    assert_eq!(greedy_cluster(&all, &buckets, 7, 1, usize::MAX), vec![0, 2]);
}

#[test]
fn greedy_honours_max_clusters() {
    let all = vec![vec![0u32, 1, 2, 3], vec![3, 4, 5], vec![4, 5, 6], vec![6]];
    let buckets = bucketed(&all);
    assert_eq!(greedy_cluster(&all, &buckets, 7, 1, 1), vec![0]);
    assert!(greedy_cluster(&all, &buckets, 7, 1, 0).is_empty());
}

#[test]
fn greedy_conflicts_within_a_round_go_to_the_earlier() {
    let all = vec![vec![0u32, 1], vec![2, 3], vec![1, 2]];
    let buckets = bucketed(&all);
    assert_eq!(greedy_cluster(&all, &buckets, 4, 1, usize::MAX), vec![0, 1]);
}

#[test]
fn greedy_ties_on_fresh_points_go_to_more_entries() {
    // Cluster 0 lists point 1 twice: same fresh points as cluster 1, more
    // entries, so it ranks first.
    let all = vec![vec![0u32, 1, 1], vec![2, 3]];
    let buckets = bucketed(&all);
    assert_eq!(greedy_cluster(&all, &buckets, 4, 1, usize::MAX), vec![0, 1]);
}

#[test]
fn greedy_min_points_stops_early_rounds() {
    let all = vec![vec![0u32, 1, 2], vec![3]];
    let buckets = bucketed(&all);
    assert_eq!(greedy_cluster(&all, &buckets, 4, 2, usize::MAX), vec![0]);
    assert!(greedy_cluster(&all, &buckets, 4, 4, usize::MAX).is_empty());
}

#[test]
fn fill_gaps_adds_clusters_covering_more_than_min_points() {
    // Points 0..4 each in its own cell; 0, 1, 2 are mutually near, 3 alone.
    let near = vec![vec![0u32, 1, 2], vec![0, 1, 2], vec![0, 1, 2], vec![3]];
    let cell_of = [0u32, 1, 2, 3];
    let (seeds, open) = fill_gaps(&near, &cell_of, vec![true; 4], 2);
    assert_eq!(seeds, vec![0]);
    assert_eq!(open, vec![false, false, false, true]);
    // Exactly min_points open neighbours is no win.
    let (seeds, _) = fill_gaps(&near, &cell_of, vec![true; 4], 3);
    assert!(seeds.is_empty());
}

#[test]
fn fill_gaps_skips_covered_points_and_zero_min_points() {
    let near = vec![vec![0u32, 1], vec![0, 1]];
    let cell_of = [0u32, 1];
    let (seeds, open) = fill_gaps(&near, &cell_of, vec![false, true], 0);
    assert!(seeds.is_empty());
    assert_eq!(open, vec![false, true]);
    // Point 0 is already covered; point 1 sees only one open neighbour.
    let (seeds, _) = fill_gaps(&near, &cell_of, vec![false, true], 1);
    assert!(seeds.is_empty());
}

#[test]
fn update_unique_keeps_clusters_with_enough_own_points() {
    // Points 0..5; point 2 is covered by both clusters 0 and 1.
    let all: Vec<Vec<u32>> = vec![vec![0, 1, 2, 1], vec![2, 3], vec![4, 4, 5]];
    let coverers: Vec<u32> = vec![1, 1, 2, 1, 1, 1];
    let r = update_unique(&all, &coverers, 2);
    assert_eq!(r, vec![(0, vec![0, 1]), (2, vec![4, 5])]);
    // With a threshold of one, cluster 1 keeps its own point 3.
    let r = update_unique(&all, &coverers, 1);
    assert_eq!(r, vec![(0, vec![0, 1]), (1, vec![3]), (2, vec![4, 5])]);
}

#[test]
fn update_unique_drops_fully_shared_clusters() {
    let all: Vec<Vec<u32>> = vec![vec![0, 1], vec![0, 1]];
    let coverers: Vec<u32> = vec![2, 2];
    assert!(update_unique(&all, &coverers, 1).is_empty());
    // A threshold of zero keeps every cluster, even one with no own point.
    assert_eq!(update_unique(&all, &coverers, 0), vec![(0, vec![]), (1, vec![])]);
}
