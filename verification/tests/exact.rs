use koji_algorithms::exact_basic;
use koji_algorithms::exact_cover::{solve_window_exact, MAX_EXACT_POINTS};
use koji_algorithms::mask_prep::{distinct_masks, greedy_independent, kept_entries, undominated};
use std::collections::HashMap;

/// Cost of a solution: `m` per pick plus one per point of `0..n` no pick covers.
fn cost_of(masks: &[u128], n: usize, m: usize, picks: &[usize]) -> usize {
    let mut covered = 0u128;
    for &p in picks {
        covered |= masks[p];
    }
    let full = if n == 128 { u128::MAX } else { (1u128 << n) - 1 };
    let m = m.max(1);
    m * picks.len() + (full & !covered).count_ones() as usize
}

/// Memoized exhaustive search over the same recursion, no pruning.
fn brute_force(masks: &[u128], n: usize, m: usize) -> usize {
    fn go(rem: u128, m: usize, masks: &[u128], memo: &mut HashMap<u128, usize>) -> usize {
        if rem == 0 {
            return 0;
        }
        if let Some(&c) = memo.get(&rem) {
            return c;
        }
        let u = rem.trailing_zeros();
        let mut best = 1 + go(rem & !(1 << u), m, masks, memo);
        for mask in masks {
            if mask & (1 << u) != 0 {
                best = best.min(m + go(rem & !mask, m, masks, memo));
            }
        }
        memo.insert(rem, best);
        best
    }
    let full = if n == 128 { u128::MAX } else { (1u128 << n) - 1 };
    go(full, m.max(1), masks, &mut HashMap::new())
}

/// Two points within one disk's reach: each alone, then both (the two
/// circle-intersection vertices).
fn pair() -> Vec<u128> {
    vec![0b01, 0b10, 0b11, 0b11]
}

/// `k` far-apart blobs of 16 points: a disk per point covering its blob.
fn blobs(k: usize) -> (Vec<u128>, usize) {
    let mut masks = Vec::new();
    for b in 0..k {
        let blob: u128 = 0xffffu128 << (16 * b);
        for _ in 0..16 {
            masks.push(blob);
        }
    }
    (masks, 16 * k)
}

#[test]
fn exact_covers_pair_with_one_disk_at_m1() {
    let masks = pair();
    let (cost, picks) = solve_window_exact(&masks, 2, 1, usize::MAX, 0).unwrap();
    assert_eq!(cost, 1);
    assert_eq!(picks.len(), 1);
    assert_eq!(masks[picks[0]], 0b11);
    assert_eq!(picks[0], 2);
}

#[test]
fn exact_abandons_pair_at_m3() {
    let (cost, picks) = solve_window_exact(&pair(), 2, 3, usize::MAX, 0).unwrap();
    assert_eq!(cost, 2);
    assert!(picks.is_empty());
}

#[test]
fn exact_colinear_m1_two_disks() {
    let masks = vec![0b001, 0b010, 0b100, 0b011, 0b011, 0b110, 0b110];
    let (cost, picks) = solve_window_exact(&masks, 3, 1, usize::MAX, 0).unwrap();
    assert_eq!(cost, 2);
    assert_eq!(picks.len(), 2);
    assert_eq!(cost_of(&masks, 3, 1, &picks), 2);
}

#[test]
fn exact_quad_disk_beats_abandonment_at_m3() {
    let masks = vec![0b1111, 0b0011, 0b0101, 0b1111];
    let (cost, picks) = solve_window_exact(&masks, 4, 3, usize::MAX, 0).unwrap();
    assert_eq!(cost, 3);
    assert_eq!(picks, vec![0]);
}

#[test]
fn exact_respects_incumbent() {
    assert!(solve_window_exact(&pair(), 2, 3, 2, 0).is_none());
    assert!(solve_window_exact(&pair(), 2, 3, 3, 0).is_some());
}

#[test]
fn exact_solves_80_points_above_old_cap() {
    let (masks, n) = blobs(5);
    let (cost, picks) = solve_window_exact(&masks, n, 1, usize::MAX, 0).unwrap();
    assert_eq!(cost, 5);
    assert_eq!(picks.len(), 5);
    let (cost3, picks3) = solve_window_exact(&masks, n, 3, usize::MAX, 0).unwrap();
    assert_eq!(cost3, 15);
    assert_eq!(picks3.len(), 5);
}

#[test]
fn exact_full_128_point_boundary() {
    let (masks, n) = blobs(8);
    assert_eq!(n, MAX_EXACT_POINTS);
    let (cost, picks) = solve_window_exact(&masks, n, 1, usize::MAX, 0).unwrap();
    assert_eq!(cost, 8);
    assert_eq!(picks.len(), 8);
    assert!(solve_window_exact(&masks, n + 1, 1, usize::MAX, 0).is_none());
}

#[test]
fn exact_declines_empty_window_and_empty_masks() {
    assert!(solve_window_exact(&pair(), 0, 1, usize::MAX, 0).is_none());
    assert!(solve_window_exact(&[0, 0], 2, 1, usize::MAX, 0).is_none());
    assert!(solve_window_exact(&[], 2, 1, usize::MAX, 0).is_none());
}

#[test]
fn exact_m0_counts_disks_as_one() {
    let (cost, picks) = solve_window_exact(&pair(), 2, 0, usize::MAX, 0).unwrap();
    assert_eq!(cost, 1);
    assert_eq!(picks.len(), 1);
}

#[test]
fn exact_ignores_an_inconsistent_independent_set() {
    // Points 0 and 1 share a candidate, so they are not independent; the
    // solver must not use that claim, and still finds cost 1.
    let (cost, _) = solve_window_exact(&pair(), 2, 1, usize::MAX, 0b11).unwrap();
    assert_eq!(cost, 1);
}

#[test]
fn exact_matches_brute_force_on_random_instances() {
    let mut x: u64 = 7;
    let mut next = || {
        x = x
            .wrapping_mul(6364136223846793005)
            .wrapping_add(1442695040888963407);
        x >> 33
    };
    for trial in 0..40 {
        let n = 4 + (trial % 7);
        let k = 3 + (next() as usize % 12);
        let masks: Vec<u128> = (0..k)
            .map(|_| (next() as u128) & ((1u128 << n) - 1))
            .collect();
        for m in [1usize, 3] {
            let expected = brute_force(&masks, n, m);
            match solve_window_exact(&masks, n, m, usize::MAX, 0) {
                Some((cost, picks)) => {
                    assert_eq!(cost, expected, "trial {trial} m={m} masks={masks:?}");
                    assert_eq!(cost_of(&masks, n, m, &picks), cost);
                }
                None => assert!(masks.iter().all(|&mk| mk == 0)),
            }
        }
    }
}

#[test]
fn basic_solver_matches_the_full_one() {
    let masks64: Vec<u64> = vec![0b001, 0b010, 0b100, 0b011, 0b011, 0b110, 0b110];
    let masks128: Vec<u128> = masks64.iter().map(|&m| m as u128).collect();
    for m in [1usize, 2, 3] {
        let a = exact_basic::solve_window_exact(&masks64, 3, m, usize::MAX);
        let b = solve_window_exact(&masks128, 3, m, usize::MAX, 0);
        assert_eq!(a.map(|r| r.0), b.map(|r| r.0));
    }
    assert!(exact_basic::solve_window_exact(&masks64, 65, 1, usize::MAX).is_none());
}

#[test]
fn basic_solver_full_64_point_window() {
    let masks: Vec<u64> = (0..4).map(|b| 0xffffu64 << (16 * b)).collect();
    let (cost, picks) = exact_basic::solve_window_exact(&masks, 64, 1, usize::MAX).unwrap();
    assert_eq!(cost, 4);
    assert_eq!(picks, vec![0, 1, 2, 3]);
}

#[test]
fn distinct_masks_keeps_first_appearances() {
    let (d, src) = distinct_masks(&[0, 5, 3, 5, 0, 3, 9]);
    assert_eq!(d, vec![5, 3, 9]);
    assert_eq!(src, vec![1, 2, 6]);
}

#[test]
fn dominated_masks_are_dropped() {
    let d = vec![0b0011, 0b0111, 0b1000, 0b0100];
    assert_eq!(undominated(&d, 4096), vec![false, true, true, false]);
    assert_eq!(undominated(&d, 3), vec![true, true, true, true]);
    let (kept, at) = kept_entries(&d, &undominated(&d, 4096));
    assert_eq!(kept, vec![0b0111, 0b1000]);
    assert_eq!(at, vec![1, 2]);
}

#[test]
fn greedy_independent_picks_far_points_in_order() {
    // 0 and 1 close, 2 far from both, 3 close to 2.
    let far = vec![
        vec![false, false, true, true],
        vec![false, false, true, true],
        vec![true, true, false, false],
        vec![true, true, false, false],
    ];
    assert_eq!(greedy_independent(&far, 4), 0b0101);
}
