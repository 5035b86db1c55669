//! Cluster size histograms: how many clusters cover each number of distinct
//! points, and each number of points counting repeats.

use vstd::prelude::*;
use std::collections::HashMap;
use vstd::std_specs::hash::spec_hash_map_iter;
use vstd::std_specs::iter::IteratorSpec;

verus! {

broadcast use vstd::std_specs::hash::group_hash_axioms;

/// `m` with the count under `k` raised by one (a missing key counts 0).
pub open spec fn bump(m: Map<usize, usize>, k: usize) -> Map<usize, usize> {
    m.insert(
        k,
        if m.contains_key(k) {
            (m[k] + 1) as usize
        } else {
            1
        },
    )
}

/// Histograms of cluster sizes.
#[derive(Debug, Clone)]
pub struct ClusterStats {
    unique: HashMap<usize, usize>,
    all: HashMap<usize, usize>,
}

impl ClusterStats {
    /// Number of clusters per count of distinct covered points.
    pub closed spec fn unique_sizes(&self) -> Map<usize, usize> {
        self.unique@
    }

    /// Number of clusters per count of covered points, repeats included.
    pub closed spec fn all_sizes(&self) -> Map<usize, usize> {
        self.all@
    }

    /// Empty histograms.
    pub fn new() -> (r: Self)
        ensures
            r.unique_sizes() == Map::<usize, usize>::empty(),
            r.all_sizes() == Map::<usize, usize>::empty(),
    {
        ClusterStats { all: HashMap::new(), unique: HashMap::new() }
    }

    /// Records one cluster covering `unique` distinct points, `all` in all.
    pub fn increment(&mut self, unique: usize, all: usize)
        requires
            old(self).all_sizes().contains_key(all) ==> old(self).all_sizes()[all] < usize::MAX,
            old(self).unique_sizes().contains_key(unique) ==> old(self).unique_sizes()[unique] < usize::MAX,
        ensures
            final(self).all_sizes() == bump(old(self).all_sizes(), all),
            final(self).unique_sizes() == bump(old(self).unique_sizes(), unique),
    {
        let a = match self.all.get(&all) {
            Some(c) => *c + 1,
            None => 1,
        };
        self.all.insert(all, a);
        let u = match self.unique.get(&unique) {
            Some(c) => *c + 1,
            None => 1,
        };
        self.unique.insert(unique, u);
    }

    /// Records one more cluster of `unique` distinct points in the
    /// distinct-point histogram alone (rebuilding a histogram entry by
    /// entry).
    pub fn bump_unique(&mut self, unique: usize)
        requires
            old(self).unique_sizes().contains_key(unique) ==> old(self).unique_sizes()[unique] < usize::MAX,
        ensures
            final(self).all_sizes() == old(self).all_sizes(),
            final(self).unique_sizes() == bump(old(self).unique_sizes(), unique),
    {
        let u = match self.unique.get(&unique) {
            Some(c) => *c + 1,
            None => 1,
        };
        self.unique.insert(unique, u);
    }

    /// Records one more cluster of `all` points in the all-point histogram
    /// alone.
    pub fn bump_all(&mut self, all: usize)
        requires
            old(self).all_sizes().contains_key(all) ==> old(self).all_sizes()[all] < usize::MAX,
        ensures
            final(self).all_sizes() == bump(old(self).all_sizes(), all),
            final(self).unique_sizes() == old(self).unique_sizes(),
    {
        let a = match self.all.get(&all) {
            Some(c) => *c + 1,
            None => 1,
        };
        self.all.insert(all, a);
    }

    /// Adds another run's histograms into these: each size's count becomes
    /// the sum of the two counts.
    pub fn merge(&mut self, rhs: &ClusterStats)
        requires
            forall|k: usize|
                old(self).all_sizes().contains_key(k) && rhs.all_sizes().contains_key(k) ==> old(self).all_sizes()[k]
                    + rhs.all_sizes()[k] <= usize::MAX,
            forall|k: usize|
                old(self).unique_sizes().contains_key(k) && rhs.unique_sizes().contains_key(k) ==> old(self).unique_sizes()[k]
                    + rhs.unique_sizes()[k] <= usize::MAX,
        ensures
            final(self).all_sizes() == added(old(self).all_sizes(), rhs.all_sizes()),
            final(self).unique_sizes() == added(old(self).unique_sizes(), rhs.unique_sizes()),
    {
        assert forall|k: usize| self.all@.contains_key(k) && rhs.all@.contains_key(k) implies self.all@[k]
            + rhs.all@[k] <= usize::MAX by {
            assert(old(self).all_sizes().contains_key(k) && rhs.all_sizes().contains_key(k));
        }
        assert forall|k: usize| self.unique@.contains_key(k) && rhs.unique@.contains_key(k) implies self.unique@[k]
            + rhs.unique@[k] <= usize::MAX by {
            assert(old(self).unique_sizes().contains_key(k) && rhs.unique_sizes().contains_key(k));
        }
        merge_into(&mut self.all, &rhs.all);
        merge_into(&mut self.unique, &rhs.unique);
    }

    /// The distinct-point histogram as `(size, clusters)` pairs, in no
    /// particular order.
    pub fn unique_entries(&self) -> (r: Vec<(usize, usize)>)
        ensures
            forall|k: usize, v: usize| r@.contains((k, v)) <==> self.unique_sizes().contains_pair(k, v),
    {
        entries_of(&self.unique)
    }

    /// The all-points histogram as `(size, clusters)` pairs, in no
    /// particular order.
    pub fn all_entries(&self) -> (r: Vec<(usize, usize)>)
        ensures
            forall|k: usize, v: usize| r@.contains((k, v)) <==> self.all_sizes().contains_pair(k, v),
    {
        entries_of(&self.all)
    }
}

/// Counts of two histograms added size by size (a missing size counts 0).
pub open spec fn added(a: Map<usize, usize>, b: Map<usize, usize>) -> Map<usize, usize> {
    Map::new(
        |k: usize| a.contains_key(k) || b.contains_key(k),
        |k: usize|
            ((if a.contains_key(k) {
                a[k] as int
            } else {
                0
            }) + (if b.contains_key(k) {
                b[k] as int
            } else {
                0
            })) as usize,
    )
}

/// Adds the counts of `src` into `dst`.
fn merge_into(dst: &mut HashMap<usize, usize>, src: &HashMap<usize, usize>)
    requires
        forall|k: usize| old(dst)@.contains_key(k) && src@.contains_key(k) ==> old(dst)@[k] + src@[k] <= usize::MAX,
    ensures
        final(dst)@ == added(old(dst)@, src@),
{
    let ghost d0 = dst@;
    let ghost pv = spec_hash_map_iter(src).remaining();
    let mut done: Vec<usize> = Vec::new();
    for (k, v) in it: src.iter()
        invariant
            it.seq() == pv,
            pv.no_duplicates(),
            forall|kk: usize| d0.contains_key(kk) && src@.contains_key(kk) ==> d0[kk] + src@[kk] <= usize::MAX,
            dst@ == added(d0, Map::new(|kk: usize| exists|t: int| 0 <= t < it.index() && *pv[t].0 == kk, |kk: usize| src@[kk])),
    {
        assert(src@.contains_key(*k) && src@[*k] == *v);
        let cur = match dst.get(k) {
            Some(c) => *c,
            None => 0,
        };
        dst.insert(*k, cur + *v);
    }
    assert(Map::new(|kk: usize| exists|t: int| 0 <= t < pv.len() && *pv[t].0 == kk, |kk: usize| src@[kk]) =~= src@);
}

/// The pairs a histogram holds.
fn entries_of(m: &HashMap<usize, usize>) -> (r: Vec<(usize, usize)>)
    ensures
        forall|k: usize, v: usize| r@.contains((k, v)) <==> m@.contains_pair(k, v),
{
    let ghost pv = spec_hash_map_iter(m).remaining();
    let mut out: Vec<(usize, usize)> = Vec::new();
    for (k, v) in it: m.iter()
        invariant
            it.seq() == pv,
            out@ == it.seq().take(it.index() as int).map_values(|p: (&usize, &usize)| (*p.0, *p.1)),
        ensures
            out@ == pv.map_values(|p: (&usize, &usize)| (*p.0, *p.1)),
    {
        assert(it.seq().take(it.index() as int + 1) =~= it.seq().take(it.index() as int).push((k, v)));
        out.push((*k, *v));
    }
    proof {
        assert forall|k: usize, w: usize| out@.contains((k, w)) <==> m@.contains_pair(k, w) by {
            if out@.contains((k, w)) {
                let i = choose|i: int| 0 <= i < out@.len() && out@[i] == (k, w);
                assert(m@.contains_key(*pv[i].0));
            }
            if m@.contains_pair(k, w) {
                assert(m@.contains_key(k));
                assert(pv.contains((&k, &m@[k])));
                let i = choose|i: int| 0 <= i < pv.len() && pv[i] == (&k, &m@[k]);
                assert(out@[i] == (k, w));
            }
        }
    }
    out
}

/// The clustering objective: `min_points` for every cluster plus one for
/// every point no cluster covers.
pub fn mygod_score(total_clusters: usize, min_points: usize, total_points: usize, points_covered: usize) -> (r: usize)
    requires
        points_covered <= total_points,
        total_clusters * min_points + (total_points - points_covered) <= usize::MAX,
    ensures
        r == total_clusters * min_points + (total_points - points_covered),
{
    assert(total_clusters * min_points <= usize::MAX) by (nonlinear_arith)
        requires
            total_clusters * min_points + (total_points - points_covered) <= usize::MAX,
            points_covered <= total_points,
    ;
    total_clusters * min_points + (total_points - points_covered)
}

} // verus!
