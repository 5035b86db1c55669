use koji_algorithms::chunk_greedy::{bucket_greedy, candidate_order, partner_pairs, TieBreak};

#[test]
fn two_points_share_one_disk() {
    // Each point alone, then two pair candidates covering both.
    let cover = vec![vec![0u32], vec![1], vec![0, 1], vec![0, 1]];
    let picks = bucket_greedy(&cover, 2, &[], 1, TieBreak::Dense);
    assert_eq!(picks.len(), 1, "one disk should cover both points");
    assert!(cover[picks[0]].len() == 2);
}

#[test]
fn sparse_candidates_give_no_disks() {
    let cover = vec![vec![0u32], vec![1], vec![2]];
    assert!(bucket_greedy(&cover, 3, &[], 2, TieBreak::Dense).is_empty());
}

#[test]
fn zero_min_points_counts_as_one() {
    let cover = vec![vec![0u32], vec![1]];
    let mut picks = bucket_greedy(&cover, 2, &[], 0, TieBreak::Dense);
    picks.sort();
    assert_eq!(picks, vec![0, 1]);
}

#[test]
fn m1_covers_every_coverable_point() {
    // A row of points, each candidate covering a point and its neighbours.
    let n = 30u32;
    let cover: Vec<Vec<u32>> = (0..n)
        .map(|i| {
            let mut v = vec![i];
            if i > 0 {
                v.push(i - 1);
            }
            if i + 1 < n {
                v.push(i + 1);
            }
            v
        })
        .collect();
    let picks = bucket_greedy(&cover, n as usize, &[], 1, TieBreak::Dense);
    let mut hit = vec![false; n as usize];
    for &p in &picks {
        for &x in &cover[p] {
            hit[x as usize] = true;
        }
    }
    assert!(hit.iter().all(|&h| h));
    assert!(picks.len() <= 15);
}

#[test]
fn pre_covered_points_never_gain() {
    let cover = vec![vec![0u32, 1], vec![1, 2]];
    let picks = bucket_greedy(&cover, 3, &[true, false, false], 1, TieBreak::Dense);
    assert_eq!(picks, vec![1]);
}

#[test]
fn ties_go_to_denser_start() {
    let cover = vec![vec![0u32, 1, 2, 3], vec![4, 5], vec![3, 4, 6]];
    assert_eq!(bucket_greedy(&cover, 7, &[], 1, TieBreak::Dense), vec![0, 2, 1]);
}

#[test]
fn inverted_ties_go_to_sparser_start() {
    let cover = vec![vec![0u32, 1, 2, 3], vec![4, 5], vec![3, 4, 6]];
    assert_eq!(bucket_greedy(&cover, 7, &[], 1, TieBreak::Sparse), vec![0, 1, 2]);
}

#[test]
fn no_candidates_no_picks() {
    assert!(bucket_greedy(&[], 4, &[], 1, TieBreak::Dense).is_empty());
}

#[test]
fn candidate_orders_by_variant() {
    assert_eq!(candidate_order(3, 5, 0), vec![0, 1, 2, 3, 4]);
    assert_eq!(candidate_order(3, 5, 1), vec![4, 3, 2, 1, 0]);
    assert_eq!(candidate_order(3, 5, 2), vec![3, 4, 0, 1, 2]);
    assert_eq!(candidate_order(7, 5, 2), vec![0, 1, 2, 3, 4]);
    assert_eq!(candidate_order(3, 5, 4), vec![0, 1, 2, 3, 4]);
    assert!(candidate_order(0, 0, 2).is_empty());
}

#[test]
fn partner_pairs_sorted_and_deduplicated() {
    let nearest = vec![vec![1u32, 2], vec![0], vec![0, 1]];
    assert_eq!(partner_pairs(&nearest, 1), vec![(0, 1), (0, 2)]);
    assert_eq!(partner_pairs(&nearest, 2), vec![(0, 1), (0, 2), (1, 2)]);
    assert_eq!(partner_pairs(&nearest, 0), Vec::<(u32, u32)>::new());
}
