use koji_algorithms::regions::grow_regions;

#[test]
fn neighbouring_cells_merge_while_they_fit() {
    let keys = [(0, 0), (0, 1), (5, 5)];
    let regions = grow_regions(&keys, |v: &Vec<usize>| v.len() <= 2);
    assert_eq!(regions, vec![vec![0, 1], vec![2]]);
}

#[test]
fn refused_cells_seed_their_own_regions() {
    let keys = [(0, 0), (0, 1), (5, 5)];
    let regions = grow_regions(&keys, |v: &Vec<usize>| v.len() <= 1);
    assert_eq!(regions, vec![vec![0], vec![1], vec![2]]);
}

#[test]
fn first_accepted_neighbour_in_key_order_joins() {
    let keys = [(0, 0), (0, 1), (1, 0), (1, 1)];
    let regions = grow_regions(&keys, |v: &Vec<usize>| !v.contains(&1));
    assert_eq!(regions, vec![vec![0, 2, 3], vec![1]]);
}

#[test]
fn no_cells_no_regions() {
    let regions = grow_regions(&[], |_v: &Vec<usize>| true);
    assert!(regions.is_empty());
}

#[test]
fn diagonal_neighbours_count() {
    let keys = [(0, 0), (1, 1), (3, 3)];
    let regions = grow_regions(&keys, |_v: &Vec<usize>| true);
    assert_eq!(regions, vec![vec![0, 1], vec![2]]);
}
