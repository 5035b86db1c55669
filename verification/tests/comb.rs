use koji_algorithms::comb::{comb_visit_order, emit_rows};

#[test]
fn comb_order_of_six_and_five_rows() {
    assert_eq!(comb_visit_order(6), vec![0, 2, 4, 5, 3, 1]);
    assert_eq!(comb_visit_order(5), vec![0, 2, 4, 3, 1]);
    assert_eq!(comb_visit_order(1), vec![0]);
    assert!(comb_visit_order(0).is_empty());
    assert_eq!(comb_visit_order(2), vec![0, 1]);
}

fn grid_rows(n_rows: usize, n_cols: usize) -> Vec<Vec<[f64; 2]>> {
    (0..n_rows)
        .map(|r| (0..n_cols).map(|c| [c as f64, (n_rows - r) as f64]).collect())
        .collect()
}

fn sorted(mut v: Vec<[f64; 2]>) -> Vec<(i64, i64)> {
    let mut out: Vec<(i64, i64)> = v.drain(..).map(|p| (p[0] as i64, p[1] as i64)).collect();
    out.sort();
    out
}

#[test]
fn emitted_rows_are_a_permutation() {
    let rows = grid_rows(4, 3);
    let flat: Vec<[f64; 2]> = rows.iter().flatten().copied().collect();
    let order = comb_visit_order(rows.len());
    let out = emit_rows(&rows, &order, &[false, true, false, true]);
    assert_eq!(out.len(), 12, "comb order must not add or drop points");
    assert_eq!(sorted(out), sorted(flat), "same multiset as input");
}

#[test]
fn emit_rows_walks_rows_in_visit_order_and_direction() {
    let rows = vec![vec![1u8, 2], vec![3, 4], vec![5]];
    assert_eq!(emit_rows(&rows, &[0, 2, 1], &[false, false, true]), vec![1, 2, 5, 4, 3]);
    assert_eq!(emit_rows(&rows, &[], &[]), Vec::<u8>::new());
}

#[test]
fn comb_starts_top_and_ends_in_the_adjacent_row() {
    // Five rows: the visit ends on row 1, next to where it began.
    let order = comb_visit_order(5);
    assert_eq!(order[0], 0);
    assert_eq!(*order.last().unwrap(), 1);
}

#[test]
fn stitch_of_no_routes_is_empty() {
    let routes: Vec<Vec<[f64; 2]>> = vec![];
    assert!(koji_algorithms::stitch::stitch(&routes, &[]).is_empty());
}

#[test]
fn stitch_keeps_every_point() {
    // Three routes of three points each: nine points out.
    let routes: Vec<Vec<[f64; 2]>> = (0..3)
        .map(|r| (0..3).map(|c| [40.0 + r as f64 + c as f64 * 0.001, -74.0]).collect())
        .collect();
    assert_eq!(koji_algorithms::stitch::stitch(&routes, &[0, 1, 2]).len(), 9);
}

#[test]
fn stitch_rotates_each_route() {
    let routes = vec![vec![[0.0f64, 0.0], [1.0, 0.0], [2.0, 0.0]], vec![[5.0, 5.0], [6.0, 5.0]]];
    let out = koji_algorithms::stitch::stitch(&routes, &[2, 1]);
    assert_eq!(out.len(), 5);
    assert_eq!(out, vec![[2.0, 0.0], [0.0, 0.0], [1.0, 0.0], [6.0, 5.0], [5.0, 5.0]]);
}

#[test]
fn stitch_with_zero_shifts_concatenates() {
    let routes = vec![vec![1u32, 2], vec![], vec![3]];
    assert_eq!(koji_algorithms::stitch::stitch(&routes, &[0, 0, 0]), vec![1, 2, 3]);
}
