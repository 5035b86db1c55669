use koji_algorithms::components::{dedupe_cells, group_components, link_all};

#[test]
fn dedupe_keeps_first_of_each_cell() {
    // Same shape as the collapse case: p, p, q, p.
    let cells = vec![7u64, 7, 9, 7];
    assert_eq!(dedupe_cells(&cells), vec![0, 2]);
}

#[test]
fn dedupe_of_nothing_is_nothing() {
    assert_eq!(dedupe_cells(&[]), Vec::<usize>::new());
}

#[test]
fn dedupe_keeps_distinct_cells_in_order() {
    let cells = vec![5u64, 3, 5, 1, 3, 1, 8];
    assert_eq!(dedupe_cells(&cells), vec![0, 1, 3, 6]);
}

#[test]
fn unlinked_cells_are_separate_components() {
    let members = vec![vec![3u32, 1], vec![0], vec![2, 4]];
    let comps = group_components(&members, &[]);
    assert_eq!(comps, vec![vec![1, 3], vec![0], vec![2, 4]]);
}

#[test]
fn linked_cells_merge_and_sort() {
    let members = vec![vec![5u32], vec![1], vec![4, 2], vec![0, 3]];
    let comps = group_components(&members, &[(0, 2), (1, 3)]);
    assert_eq!(comps, vec![vec![2, 4, 5], vec![0, 1, 3]]);
}

#[test]
fn chain_of_links_is_one_component() {
    let members: Vec<Vec<u32>> = (0..6u32).map(|i| vec![i]).collect();
    let links: Vec<(u32, u32)> = (0..5u32).map(|i| (i, i + 1)).collect();
    let comps = group_components(&members, &links);
    assert_eq!(comps, vec![vec![0, 1, 2, 3, 4, 5]]);
}

#[test]
fn two_far_groups_stay_two() {
    let members = vec![vec![0u32, 2, 4], vec![6, 8], vec![1, 3], vec![5, 7, 9]];
    let comps = group_components(&members, &[(0, 1), (2, 3)]);
    assert_eq!(comps.len(), 2);
    assert_eq!(comps.iter().map(|c| c.len()).sum::<usize>(), 10);
    assert_eq!(comps[0], vec![0, 2, 4, 6, 8]);
}

#[test]
fn link_all_gives_smallest_roots() {
    let mut uf = link_all(5, &[(4, 3), (3, 1), (2, 0)]);
    assert_eq!(uf.find(4), 1);
    assert_eq!(uf.find(3), 1);
    assert_eq!(uf.find(2), 0);
    assert_eq!(uf.find(1), 1);
}
