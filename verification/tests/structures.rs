use koji_algorithms::grid::neighbours;
use koji_algorithms::jitter::splitmix64;
use koji_algorithms::options::{
    all_bootstrap_options, all_clustering_options, all_routing_options, clustering_options_with,
    clustering_plugins, routing_plugins, S2Config,
};
use koji_algorithms::sorting::{order_by_keys, SortRandom};
use koji_algorithms::stats::ClusterStats;
use koji_algorithms::union_find::UnionFind;

#[test]
fn union_find_starts_with_singletons() {
    let mut uf = UnionFind::new(4);
    for i in 0..4u32 {
        assert_eq!(uf.find(i), i);
    }
}

#[test]
fn union_find_smaller_root_wins() {
    let mut uf = UnionFind::new(6);
    uf.union(4, 2);
    assert_eq!(uf.find(4), 2);
    uf.union(5, 4);
    assert_eq!(uf.find(5), 2);
    uf.union(3, 1);
    uf.union(5, 3);
    for i in 1..6u32 {
        assert_eq!(uf.find(i), 1);
    }
    assert_eq!(uf.find(0), 0);
    // A second union of the same pair changes nothing.
    uf.union(2, 5);
    assert_eq!(uf.find(2), 1);
}

#[test]
fn union_find_root_is_smallest_member() {
    let mut uf = UnionFind::new(10);
    for (a, b) in [(9, 7), (7, 8), (3, 9), (6, 5), (5, 4)] {
        uf.union(a, b);
    }
    for i in [3u32, 7, 8, 9] {
        assert_eq!(uf.find(i), 3);
    }
    for i in [4u32, 5, 6] {
        assert_eq!(uf.find(i), 4);
    }
}

#[test]
fn splitmix64_known_values() {
    assert_eq!(splitmix64(0), 0xe220a8397b1dcdaf);
    assert_eq!(splitmix64(1), 0x910a2dec89025cc1);
    assert_ne!(splitmix64(2), splitmix64(3));
}

#[test]
fn neighbours_surround_the_cell() {
    assert_eq!(
        neighbours((0, 0)),
        [(-1, -1), (-1, 0), (-1, 1), (0, -1), (0, 1), (1, -1), (1, 0), (1, 1)]
    );
    assert_eq!(neighbours((5, -3))[7], (6, -2));
}

#[test]
fn all_clustering_options_contains_built_ins() {
    let opts = all_clustering_options();
    assert_eq!(
        opts,
        vec!["honeycomb", "fastest", "balanced", "fast", "better", "best"]
    );
    assert!(clustering_plugins().is_empty());
}

#[test]
fn all_routing_options_includes_built_ins() {
    let opts = all_routing_options();
    assert_eq!(
        opts,
        vec!["point_count", "latlon", "geohash", "s2", "tsp", "tsphybrid", "random"]
    );
    assert!(routing_plugins().is_empty());
}

#[test]
fn plugins_come_before_built_ins() {
    let opts = clustering_options_with(vec!["my_plugin".to_string()]);
    assert_eq!(opts[0], "my_plugin");
    assert_eq!(opts.len(), 7);
    let boot = all_bootstrap_options(vec!["p".to_string()]);
    assert_eq!(boot, vec!["p", "radius", "s2"]);
}

#[test]
fn s2_config_defaults_to_zero() {
    let c = S2Config::default();
    assert_eq!((c.level, c.size), (0, 0));
}

#[test]
fn cluster_stats_counts_sizes() {
    let mut s = ClusterStats::new();
    s.increment(3, 5);
    s.increment(3, 4);
    s.increment(2, 5);
    let mut u = s.unique_entries();
    u.sort();
    assert_eq!(u, vec![(2, 1), (3, 2)]);
    let mut a = s.all_entries();
    a.sort();
    assert_eq!(a, vec![(4, 1), (5, 2)]);
}

#[test]
fn sort_random_is_a_reproducible_permutation() {
    let v: Vec<u32> = (0..20).collect();
    let a = v.clone().sort_random();
    let b = v.clone().sort_random();
    assert_eq!(a, b);
    let mut sorted = a.clone();
    sorted.sort();
    assert_eq!(sorted, v);
    assert_ne!(a, v);
    let one = vec![7u32].sort_random();
    assert_eq!(one, vec![7]);
}

#[test]
fn order_by_keys_is_a_stable_sort_of_positions() {
    assert_eq!(order_by_keys(&[5, 3, 5, 1]), vec![3, 1, 0, 2]);
    assert_eq!(order_by_keys(&[]), Vec::<usize>::new());
    assert_eq!(order_by_keys(&[9, 9, 9]), vec![0, 1, 2]);
    assert_eq!(order_by_keys(&[u64::MAX, 0]), vec![1, 0]);
}

use koji_algorithms::utils::{keep_indices, rotate_to_best};

#[test]
fn rotate_to_best_puts_last_best_first() {
    let v = vec![10, 20, 30, 40];
    assert_eq!(rotate_to_best(v.clone(), &[false, true, false, false]), vec![20, 30, 40, 10]);
    assert_eq!(rotate_to_best(v.clone(), &[false, true, true, false]), vec![30, 40, 10, 20]);
    assert_eq!(rotate_to_best(v.clone(), &[false, false, false, false]), v);
    assert_eq!(rotate_to_best(Vec::<u8>::new(), &[]), Vec::<u8>::new());
}

#[test]
fn keep_indices_preserves_input_order() {
    let v = vec!['a', 'b', 'c', 'd'];
    assert_eq!(keep_indices(v.clone(), vec![3, 1], 2), vec!['b', 'd']);
    assert_eq!(keep_indices(v.clone(), vec![], 3), vec!['a', 'b', 'c']);
    assert_eq!(keep_indices(v.clone(), vec![], 9), v);
}

use koji_algorithms::stats::mygod_score;

#[test]
fn get_score_formula() {
    assert_eq!(mygod_score(4, 3, 10, 7), 15);
    assert_eq!(mygod_score(0, 3, 10, 10), 0);
}

#[test]
fn cluster_stats_merge_adds_counts() {
    let mut a = ClusterStats::new();
    a.increment(3, 5);
    a.increment(2, 5);
    let mut b = ClusterStats::new();
    b.increment(3, 4);
    b.increment(7, 5);
    a.merge(&b);
    let mut u = a.unique_entries();
    u.sort();
    assert_eq!(u, vec![(2, 1), (3, 2), (7, 1)]);
    let mut all = a.all_entries();
    all.sort();
    assert_eq!(all, vec![(4, 1), (5, 3)]);
}

use koji_algorithms::center_cap::{keep_best, restart_k_cap, restart_variants};

#[test]
fn restart_choices_follow_input_size() {
    assert_eq!(restart_k_cap(100_000), 14);
    assert_eq!(restart_k_cap(100_001), 10);
    assert_eq!(restart_variants(20_000), vec![0, 1, 2, 3, 4]);
    assert_eq!(restart_variants(20_001), vec![0, 4]);
    assert_eq!(restart_variants(50_001), vec![0]);
}

#[test]
fn keep_best_keeps_first_of_equal_scores() {
    let best = keep_best(None, 7, 'a');
    assert_eq!(best, Some((7, 'a')));
    let best = keep_best(best, 7, 'b');
    assert_eq!(best, Some((7, 'a')));
    let best = keep_best(best, 5, 'c');
    assert_eq!(best, Some((5, 'c')));
}

#[test]
fn histograms_rebuild_entry_by_entry() {
    let mut s = ClusterStats::new();
    s.bump_unique(3);
    s.bump_unique(3);
    s.bump_all(5);
    assert_eq!(s.unique_entries(), vec![(3, 2)]);
    assert_eq!(s.all_entries(), vec![(5, 1)]);
}

#[test]
fn union_find_roots_are_least_members() {
    let mut uf = UnionFind::new(5);
    uf.union(4, 2);
    uf.union(2, 3);
    for x in 0..5u32 {
        let r = uf.find(x);
        assert!(r <= x);
        assert_eq!(uf.find(r), r);
    }
    assert_eq!(uf.find(4), 2);
}
