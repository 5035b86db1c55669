//! Honouring a cap on the number of centers (keep those covering the most
//! points), the score a run is judged by, and the run choices made by input
//! size.

use vstd::prelude::*;

verus! {

/// Whether center `a` ranks ahead of center `b`: it covers more points, or
/// as many and comes later.
pub open spec fn covers_more(counts: Seq<usize>, a: int, b: int) -> bool {
    counts[a] > counts[b] || (counts[a] == counts[b] && a > b)
}

/// Keeps every center when there are at most `cap`; otherwise the `cap`
/// centers covering the most points (ties to the later center), best first.
pub fn keep_most_covering(counts: &[usize], cap: usize) -> (r: Vec<usize>)
    ensures
        counts.len() <= cap ==> r@ == Seq::new(counts.len() as nat, |i: int| i as usize),
        counts.len() > cap ==> {
            &&& r.len() == cap
            &&& r@.no_duplicates()
            &&& forall|q: int| 0 <= q < r.len() ==> #[trigger] r@[q] < counts.len()
            &&& forall|a: int, b: int| 0 <= a < b < r.len() ==> covers_more(counts@, #[trigger] r@[a] as int, #[trigger] r@[b] as int)
            &&& forall|p: int, q: int|
                0 <= p < counts.len() && !r@.contains(p as usize) && 0 <= q < r.len() ==> #[trigger] covers_more(
                    counts@,
                    r@[q] as int,
                    p,
                )
        },
{
    let n = counts.len();
    if n <= cap {
        let mut all: Vec<usize> = Vec::new();
        let mut i: usize = 0;
        while i < n
            invariant
                i <= n,
                all@ == Seq::new(i as nat, |k: int| k as usize),
            decreases n - i,
        {
            all.push(i);
            i = i + 1;
            assert(all@ =~= Seq::new(i as nat, |k: int| k as usize));
        }
        return all;
    }
    let mut used: Vec<bool> = Vec::new();
    while used.len() < n
        invariant
            used.len() <= n,
            forall|k: int| 0 <= k < used.len() ==> !(#[trigger] used@[k]),
        decreases n - used.len(),
    {
        used.push(false);
    }
    let mut out: Vec<usize> = Vec::new();
    while out.len() < cap
        invariant
            n == counts.len(),
            cap < n,
            used.len() == n,
            out.len() <= cap,
            forall|q: int| 0 <= q < out.len() ==> #[trigger] out@[q] < n,
            out@.no_duplicates(),
            forall|k: int| 0 <= k < n ==> (#[trigger] used@[k] <==> out@.contains(k as usize)),
            forall|a: int, b: int| 0 <= a < b < out.len() ==> covers_more(counts@, #[trigger] out@[a] as int, #[trigger] out@[b] as int),
            forall|p: int, q: int|
                0 <= p < n && !used@[p] && 0 <= q < out.len() ==> #[trigger] covers_more(counts@, out@[q] as int, p),
        decreases cap - out.len(),
    {
        proof {
            crate::chunk_greedy::lemma_distinct_bounded(out@, n as int);
            if forall|k: int| 0 <= k < n ==> #[trigger] used@[k] {
                let oi = out@.map_values(|x: usize| x as int);
                assert forall|u: int| 0 <= u < n implies oi.contains(u) by {
                    assert(used@[u]);
                    let w = choose|w: int| 0 <= w < out@.len() && out@[w] == u as usize;
                    assert(oi[w] == u);
                }
                crate::components::lemma_picked_all(oi, n as int);
            }
        }
        let mut best: usize = n;
        let mut k: usize = 0;
        while k < n
            invariant
                k <= n,
                n == counts.len(),
                used.len() == n,
                best <= n,
                best == n ==> forall|w: int| 0 <= w < k ==> #[trigger] used@[w],
                best < n ==> best < k && !used@[best as int],
                best < n ==> forall|w: int| 0 <= w < k && !(#[trigger] used@[w]) && w != best ==> covers_more(counts@, best as int, w),
            decreases n - k,
        {
            if !used[k] {
                if best == n || counts[k] >= counts[best] {
                    best = k;
                }
            }
            k = k + 1;
        }
        assert(best < n);
        let ghost o0 = out@;
        let ghost u0 = used@;
        used.set(best, true);
        out.push(best);
        proof {
            assert(!o0.contains(best)) by {
                assert(!u0[best as int]);
            }
            assert(out@.no_duplicates()) by {
                assert forall|a: int, b: int| 0 <= a < b < out@.len() implies out@[a] != out@[b] by {
                    if b == o0.len() {
                        assert(out@[a] == o0[a]);
                        assert(o0.contains(o0[a]));
                    } else {
                        assert(out@[a] == o0[a] && out@[b] == o0[b]);
                    }
                }
            }
            assert forall|k2: int| 0 <= k2 < n implies (#[trigger] used@[k2] <==> out@.contains(k2 as usize)) by {
                if k2 != best as int {
                    assert(used@[k2] == u0[k2]);
                    if out@.contains(k2 as usize) {
                        let w = choose|w: int| 0 <= w < out@.len() && out@[w] == k2 as usize;
                        assert(w < o0.len());
                        assert(o0[w] == k2 as usize);
                    }
                    if o0.contains(k2 as usize) {
                        let w = choose|w: int| 0 <= w < o0.len() && o0[w] == k2 as usize;
                        assert(out@[w] == k2 as usize);
                    }
                } else {
                    assert(out@[o0.len() as int] == best);
                }
            }
            assert forall|a: int, b: int| 0 <= a < b < out.len() implies covers_more(counts@, #[trigger] out@[a] as int, #[trigger] out@[b] as int) by {
                assert(out@[a] == o0[a]);
                if b < o0.len() {
                    assert(out@[b] == o0[b]);
                } else {
                    assert(!u0[best as int]);
                }
            }
            assert forall|p: int, q: int| 0 <= p < n && !used@[p] && 0 <= q < out.len() implies #[trigger] covers_more(counts@, out@[q] as int, p) by {
                assert(p != best as int);
                assert(!u0[p]);
                if q < o0.len() {
                    assert(out@[q] == o0[q]);
                }
            }
        }
    }
    proof {
        assert forall|p: int, q: int|
            0 <= p < counts.len() && !out@.contains(p as usize) && 0 <= q < out.len() implies #[trigger] covers_more(
            counts@,
            out@[q] as int,
            p,
        ) by {
            assert(!used@[p]);
        }
    }
    out
}

/// How many of the first `k` flags are unset.
pub open spec fn unset_count(flags: Seq<bool>, k: int) -> nat
    decreases k,
{
    if k <= 0 {
        0
    } else {
        unset_count(flags, k - 1) + if flags[k - 1] {
            0nat
        } else {
            1nat
        }
    }
}

/// The score used to rank restart variants: `m` per center plus one per
/// uncovered distinct cell.
pub fn internal_score(centers: usize, m: usize, covered: &[bool]) -> (r: usize)
    requires
        centers * m + covered.len() <= usize::MAX,
    ensures
        r == centers * m + unset_count(covered@, covered.len() as int),
{
    let mut unc: usize = 0;
    let mut i: usize = 0;
    while i < covered.len()
        invariant
            i <= covered.len(),
            unc == unset_count(covered@, i as int),
            unc <= i,
        decreases covered.len() - i,
    {
        if !covered[i] {
            unc = unc + 1;
        }
        i = i + 1;
    }
    proof {
        assert(0 <= centers * m) by (nonlinear_arith);
    }
    centers * m + unc
}

/// Distinct cells up to which every restart variant runs.
pub const RESTART_MAX_CELLS: usize = 20000;
/// Distinct cells up to which a pair of variants runs.
pub const RESTART_PAIR_MAX_CELLS: usize = 50000;

/// Partners each point considers in a chunk solve, by input size in
/// distinct cells.
pub fn restart_k_cap(cells: usize) -> (r: usize)
    ensures
        r == (if cells <= 100000 {
            14usize
        } else {
            10usize
        }),
{
    if cells <= 100000 {
        14
    } else {
        10
    }
}

/// The greedy orderings tried, by input size in distinct cells: all five
/// for small inputs, the natural and lattice orderings for medium ones, the
/// natural one alone for large ones.
pub fn restart_variants(cells: usize) -> (r: Vec<u8>)
    ensures
        r@ == (if cells <= RESTART_MAX_CELLS {
            seq![0u8, 1u8, 2u8, 3u8, 4u8]
        } else if cells <= RESTART_PAIR_MAX_CELLS {
            seq![0u8, 4u8]
        } else {
            seq![0u8]
        }),
{
    if cells <= RESTART_MAX_CELLS {
        vec![0, 1, 2, 3, 4]
    } else if cells <= RESTART_PAIR_MAX_CELLS {
        vec![0, 4]
    } else {
        vec![0]
    }
}

/// Keeps the better of the best run so far and a new one: the new run
/// replaces it only with a strictly lower score, so the first of equal
/// scores stays.
pub fn keep_best<T>(best: Option<(usize, T)>, score: usize, cand: T) -> (r: Option<(usize, T)>)
    ensures
        r == (match best {
            None => Some((score, cand)),
            Some((s, b)) => if score < s {
                Some((score, cand))
            } else {
                Some((s, b))
            },
        }),
{
    match best {
        None => Some((score, cand)),
        Some((s, b)) => if score < s {
            Some((score, cand))
        } else {
            Some((s, b))
        },
    }
}

} // verus!
