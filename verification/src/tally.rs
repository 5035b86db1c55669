//! Integer tallies behind the solution statistics: the best and worst
//! cluster sizes, the overlap of coverage, the merge of two tallies, and
//! the spread-out points that bound the cluster count from below.

use vstd::prelude::*;
use crate::select::lists;

verus! {

/// The largest of `0` and the first `i` sizes.
pub open spec fn running_best(lens: Seq<usize>, i: int) -> int
    decreases i,
{
    if i <= 0 {
        0
    } else {
        let b = running_best(lens, i - 1);
        if lens[i - 1] > b {
            lens[i - 1] as int
        } else {
            b
        }
    }
}

/// Whether the size at `i` falls short of every best size seen before it.
pub open spec fn below_best(lens: Seq<usize>, i: int) -> bool {
    lens[i] < running_best(lens, i)
}

/// How many of the first `k` sizes fall short of the best before them and
/// equal `w`.
pub open spec fn count_worst(lens: Seq<usize>, w: int, k: int) -> nat
    decreases k,
{
    if k <= 0 {
        0
    } else {
        count_worst(lens, w, k - 1) + if below_best(lens, k - 1) && lens[k - 1] == w {
            1nat
        } else {
            0nat
        }
    }
}

/// The best and worst cluster sizes of a solution.
pub struct SizeTally {
    /// The largest size (0 when there is no cluster).
    pub best: usize,
    /// The positions of the clusters of the largest size, in order.
    pub best_at: Vec<usize>,
    /// The smallest size among the clusters that fell short of a larger one
    /// before them (0 when none did).
    pub worst: usize,
    /// How many of those clusters have that smallest size.
    pub worst_count: usize,
}

/// Whether the values are the tally of the first `k` sizes, with `worst`
/// still at `usize::MAX` while no cluster fell short.
#[verifier::opaque]
pub open spec fn tally_of(lens: Seq<usize>, k: int, best: int, best_at: Seq<usize>, worst: int, worst_count: int) -> bool {
    &&& best == running_best(lens, k)
    &&& forall|a: int, b: int| 0 <= a < b < best_at.len() ==> #[trigger] best_at[a] < #[trigger] best_at[b]
    &&& forall|a: int| 0 <= a < best_at.len() ==> (#[trigger] best_at[a]) < k && lens[best_at[a] as int] == best
    &&& forall|i: int| 0 <= i < k && #[trigger] lens[i] == best ==> best_at.contains(i as usize)
    &&& forall|i: int| 0 <= i < k && below_best(lens, i) ==> worst <= #[trigger] lens[i]
    &&& (worst == usize::MAX || exists|i: int| 0 <= i < k && below_best(lens, i) && #[trigger] lens[i] == worst)
    &&& worst_count == count_worst(lens, worst, k)
}

/// A size that falls short of the best before it is below `usize::MAX`,
/// and the best so far is a size or zero.
proof fn lemma_running_best_bounds(lens: Seq<usize>, i: int)
    requires
        0 <= i <= lens.len(),
    ensures
        0 <= running_best(lens, i) <= usize::MAX,
        forall|j: int| 0 <= j < i ==> lens[j] <= running_best(lens, i),
        running_best(lens, i) == 0 || exists|j: int| 0 <= j < i && lens[j] == running_best(lens, i),
    decreases i,
{
    if i > 0 {
        lemma_running_best_bounds(lens, i - 1);
        let b = running_best(lens, i - 1);
        if lens[i - 1] <= b && b != 0 {
            let j = choose|j: int| 0 <= j < i - 1 && lens[j] == b;
            assert(lens[j] == running_best(lens, i));
        }
    }
}

/// No counted size equals `w` when every size that fell short is above it.
proof fn lemma_count_worst_none(lens: Seq<usize>, w: int, k: int)
    requires
        0 <= k <= lens.len(),
        forall|i: int| 0 <= i < k && below_best(lens, i) ==> w < #[trigger] lens[i],
    ensures
        count_worst(lens, w, k) == 0,
    decreases k,
{
    if k > 0 {
        lemma_count_worst_none(lens, w, k - 1);
    }
}

/// A larger size starts the list of best positions afresh.
proof fn lemma_step_new_best(lens: Seq<usize>, i: int, best: int, ba: Seq<usize>, worst: int, wc: int)
    requires
        0 <= i < lens.len() <= usize::MAX,
        tally_of(lens, i, best, ba, worst, wc),
        lens[i] > best,
    ensures
        tally_of(lens, i + 1, lens[i] as int, seq![i as usize], worst, wc),
{
    reveal(tally_of);
    lemma_running_best_bounds(lens, i);
    assert(running_best(lens, i + 1) == lens[i]);
    assert(count_worst(lens, worst, i + 1) == count_worst(lens, worst, i));
    let nb = seq![i as usize];
    assert(!below_best(lens, i));
    assert forall|j: int| 0 <= j < i + 1 && #[trigger] lens[j] == lens[i] implies nb.contains(j as usize) by {
        if j < i {
            assert(lens[j] <= running_best(lens, i));
        }
        assert(nb[0] == i as usize);
    }
    assert forall|j: int| 0 <= j < i + 1 && below_best(lens, j) implies worst <= #[trigger] lens[j] by {}
}

/// A size equal to the best joins the list of best positions.
proof fn lemma_step_tie(lens: Seq<usize>, i: int, best: int, ba: Seq<usize>, worst: int, wc: int)
    requires
        0 <= i < lens.len() <= usize::MAX,
        tally_of(lens, i, best, ba, worst, wc),
        lens[i] == best,
    ensures
        tally_of(lens, i + 1, best, ba.push(i as usize), worst, wc),
{
    reveal(tally_of);
    let nb = ba.push(i as usize);
    assert(!below_best(lens, i));
    assert(running_best(lens, i + 1) == best);
    assert(count_worst(lens, worst, i + 1) == count_worst(lens, worst, i));
    assert forall|a: int, b: int| 0 <= a < b < nb.len() implies #[trigger] nb[a] < #[trigger] nb[b] by {
        assert(nb[a] == ba[a]);
        if b < ba.len() {
            assert(nb[b] == ba[b]);
        }
    }
    assert forall|a: int| 0 <= a < nb.len() implies (#[trigger] nb[a]) < i + 1 && lens[nb[a] as int] == best by {
        if a < ba.len() {
            assert(nb[a] == ba[a]);
        }
    }
    assert forall|j: int| 0 <= j < i + 1 && #[trigger] lens[j] == best implies nb.contains(j as usize) by {
        if j < i {
            assert(ba.contains(j as usize));
            let a = choose|a: int| 0 <= a < ba.len() && ba[a] == j as usize;
            assert(nb[a] == j as usize);
        } else {
            assert(nb[ba.len() as int] == i as usize);
        }
    }
    assert forall|j: int| 0 <= j < i + 1 && below_best(lens, j) implies worst <= #[trigger] lens[j] by {}
}

/// A size short of the best and below the worst so far becomes the worst.
proof fn lemma_step_new_worst(lens: Seq<usize>, i: int, best: int, ba: Seq<usize>, worst: int, wc: int)
    requires
        0 <= i < lens.len() <= usize::MAX,
        tally_of(lens, i, best, ba, worst, wc),
        lens[i] < best,
        lens[i] < worst,
    ensures
        tally_of(lens, i + 1, best, ba, lens[i] as int, 1),
{
    reveal(tally_of);
    let w = lens[i] as int;
    assert(below_best(lens, i));
    assert(running_best(lens, i + 1) == best);
    assert forall|j: int| 0 <= j < i && below_best(lens, j) implies w < #[trigger] lens[j] by {}
    lemma_count_worst_none(lens, w, i);
    assert(count_worst(lens, w, i + 1) == 1);
    assert forall|j: int| 0 <= j < i + 1 && #[trigger] lens[j] == best implies ba.contains(j as usize) by {}
    assert forall|j: int| 0 <= j < i + 1 && below_best(lens, j) implies w <= #[trigger] lens[j] by {}
    assert(exists|j: int| 0 <= j < i + 1 && below_best(lens, j) && #[trigger] lens[j] == w) by {
        assert(lens[i] == w);
    }
}

/// Any other size short of the best counts when it equals the worst.
proof fn lemma_step_other(lens: Seq<usize>, i: int, best: int, ba: Seq<usize>, worst: int, wc: int)
    requires
        0 <= i < lens.len() <= usize::MAX,
        tally_of(lens, i, best, ba, worst, wc),
        lens[i] < best,
        lens[i] >= worst,
    ensures
        tally_of(lens, i + 1, best, ba, worst, wc + if lens[i] == worst { 1int } else { 0int }),
{
    reveal(tally_of);
    assert(below_best(lens, i));
    assert(running_best(lens, i + 1) == best);
    assert forall|j: int| 0 <= j < i + 1 && #[trigger] lens[j] == best implies ba.contains(j as usize) by {}
    assert forall|j: int| 0 <= j < i + 1 && below_best(lens, j) implies worst <= #[trigger] lens[j] by {}
}

/// Tallies cluster sizes in order: the best size and where it occurs, and
/// the smallest size among the clusters that fell short of a larger one
/// seen before them, with how often it occurs.
pub fn size_tally(lens: &[usize]) -> (r: SizeTally)
    ensures
        r.best == running_best(lens@, lens.len() as int),
        forall|a: int, b: int| 0 <= a < b < r.best_at.len() ==> #[trigger] r.best_at@[a] < #[trigger] r.best_at@[b],
        forall|a: int| 0 <= a < r.best_at.len() ==> (#[trigger] r.best_at@[a]) < lens.len() && lens@[r.best_at@[a] as int] == r.best,
        forall|i: int| 0 <= i < lens.len() && #[trigger] lens@[i] == r.best ==> r.best_at@.contains(i as usize),
        (forall|i: int| 0 <= i < lens.len() ==> !below_best(lens@, i)) ==> r.worst == 0 && r.worst_count == 0,
        (exists|i: int| 0 <= i < lens.len() && below_best(lens@, i)) ==> {
            &&& exists|i: int| 0 <= i < lens.len() && below_best(lens@, i) && #[trigger] lens@[i] == r.worst
            &&& forall|i: int| 0 <= i < lens.len() && below_best(lens@, i) ==> r.worst <= #[trigger] lens@[i]
            &&& r.worst_count == count_worst(lens@, r.worst as int, lens.len() as int)
        },
{
    let mut best: usize = 0;
    let mut best_at: Vec<usize> = Vec::new();
    let mut worst: usize = usize::MAX;
    let mut worst_count: usize = 0;
    let mut i: usize = 0;
    proof {
        reveal(tally_of);
    }
    while i < lens.len()
        invariant
            i <= lens.len(),
            tally_of(lens@, i as int, best as int, best_at@, worst as int, worst_count as int),
            worst_count <= i,
        decreases lens.len() - i,
    {
        let length = lens[i];
        let ghost ba0 = best_at@;
        proof {
            lemma_running_best_bounds(lens@, i as int);
        }
        if length > best {
            proof {
                lemma_step_new_best(lens@, i as int, best as int, ba0, worst as int, worst_count as int);
            }
            best = length;
            best_at = Vec::new();
            best_at.push(i);
            assert(best_at@ =~= seq![i]);
        } else if length == best {
            proof {
                lemma_step_tie(lens@, i as int, best as int, ba0, worst as int, worst_count as int);
            }
            best_at.push(i);
        } else if length < worst {
            proof {
                lemma_step_new_worst(lens@, i as int, best as int, ba0, worst as int, worst_count as int);
            }
            worst = length;
            worst_count = 1;
        } else {
            proof {
                lemma_step_other(lens@, i as int, best as int, ba0, worst as int, worst_count as int);
            }
            if length == worst {
                worst_count = worst_count + 1;
            }
        }
        i = i + 1;
    }
    proof {
        reveal(tally_of);
    }
    if worst == usize::MAX {
        proof {
            assert forall|j: int| 0 <= j < lens.len() implies !below_best(lens@, j) by {
                if below_best(lens@, j) {
                    lemma_running_best_bounds(lens@, j);
                    assert(worst <= lens@[j]);
                }
            }
            lemma_count_worst_none(lens@, usize::MAX as int, lens.len() as int);
        }
        worst = 0;
        worst_count = 0;
    }
    SizeTally { best, best_at, worst, worst_count }
}

/// How many of the first `k` points have two or more coverers.
pub open spec fn count_multi(coverers: Seq<u32>, k: int) -> nat
    decreases k,
{
    if k <= 0 {
        0
    } else {
        count_multi(coverers, k - 1) + if coverers[k - 1] >= 2 {
            1nat
        } else {
            0nat
        }
    }
}

/// The coverers of the first `k` points beyond one per point.
pub open spec fn sum_excess(coverers: Seq<u32>, k: int) -> nat
    decreases k,
{
    if k <= 0 {
        0
    } else {
        sum_excess(coverers, k - 1) + if coverers[k - 1] >= 1 {
            (coverers[k - 1] - 1) as nat
        } else {
            0nat
        }
    }
}

/// The excess over a prefix is at most the excess over a longer prefix.
proof fn lemma_sum_excess_mono(coverers: Seq<u32>, j: int, k: int)
    requires
        0 <= j <= k,
    ensures
        sum_excess(coverers, j) <= sum_excess(coverers, k),
    decreases k - j,
{
    if j < k {
        lemma_sum_excess_mono(coverers, j, k - 1);
    }
}

/// From the number of centers covering each covered point: how many points
/// are covered more than once, and the redundant coverage in total (each
/// point's coverers beyond the first).
pub fn overlap_counts(coverers: &[u32]) -> (r: (usize, usize))
    requires
        sum_excess(coverers@, coverers.len() as int) <= usize::MAX,
    ensures
        r.0 == count_multi(coverers@, coverers.len() as int),
        r.1 == sum_excess(coverers@, coverers.len() as int),
{
    let mut multi: usize = 0;
    let mut excess: usize = 0;
    let mut i: usize = 0;
    while i < coverers.len()
        invariant
            i <= coverers.len(),
            multi == count_multi(coverers@, i as int),
            multi <= i,
            excess == sum_excess(coverers@, i as int),
            sum_excess(coverers@, coverers.len() as int) <= usize::MAX,
        decreases coverers.len() - i,
    {
        let n = coverers[i];
        if n >= 2 {
            multi = multi + 1;
        }
        proof {
            lemma_sum_excess_mono(coverers@, i as int + 1, coverers.len() as int);
        }
        if n >= 1 {
            excess = excess + (n - 1) as usize;
        }
        i = i + 1;
    }
    (multi, excess)
}

/// The best clusters after adding another solution's: the other list where
/// its best size is larger, both lists where the sizes tie, and this list
/// otherwise; with the larger best size.
pub fn merge_best<T: Copy>(best: Vec<T>, best_count: usize, other: &[T], other_count: usize) -> (r: (Vec<T>, usize))
    ensures
        r.0@ == (if best_count < other_count {
            other@
        } else if best_count == other_count {
            best@ + other@
        } else {
            best@
        }),
        r.1 == (if best_count < other_count {
            other_count
        } else {
            best_count
        }),
{
    if best_count < other_count {
        let mut out: Vec<T> = Vec::new();
        let mut i: usize = 0;
        while i < other.len()
            invariant
                i <= other.len(),
                out@ == other@.take(i as int),
            decreases other.len() - i,
        {
            out.push(other[i]);
            assert(other@.take(i as int + 1) =~= other@.take(i as int).push(other@[i as int]));
            i = i + 1;
        }
        assert(other@.take(other.len() as int) =~= other@);
        (out, other_count)
    } else if best_count == other_count {
        let mut out = best;
        let ghost b0 = out@;
        let mut i: usize = 0;
        while i < other.len()
            invariant
                i <= other.len(),
                out@ == b0 + other@.take(i as int),
            decreases other.len() - i,
        {
            out.push(other[i]);
            assert(b0 + other@.take(i as int + 1) =~= (b0 + other@.take(i as int)).push(other@[i as int]));
            i = i + 1;
        }
        assert(other@.take(other.len() as int) =~= other@);
        (out, best_count)
    } else {
        (best, best_count)
    }
}


/// Whether none of the entries of `list` was picked already.
pub open spec fn clear_of(list: Seq<u32>, picked: Seq<usize>) -> bool {
    forall|t: int| 0 <= t < list.len() ==> !picked.contains(#[trigger] list[t] as usize)
}

/// The points that a pass over the first `k` points keeps: a point is kept
/// when none of its neighbours (`near[p]`) was kept before it.
pub open spec fn spread_picks(near: Seq<Seq<u32>>, k: int) -> Seq<usize>
    decreases k,
{
    if k <= 0 {
        Seq::empty()
    } else {
        let prev = spread_picks(near, k - 1);
        if clear_of(near[k - 1], prev) {
            prev.push((k - 1) as usize)
        } else {
            prev
        }
    }
}

proof fn lemma_spread_picks(near: Seq<Seq<u32>>, k: int)
    requires
        0 <= k,
        k <= usize::MAX,
    ensures
        forall|i: int| 0 <= i < spread_picks(near, k).len() ==> #[trigger] spread_picks(near, k)[i] < k,
        forall|i: int, j: int| 0 <= i < j < spread_picks(near, k).len() ==> spread_picks(near, k)[i] < spread_picks(near, k)[j],
        forall|p: int|
            #![trigger spread_picks(near, k).contains(p as usize)]
            #![trigger clear_of(near[p], spread_picks(near, p))]
            0 <= p < k ==> (spread_picks(near, k).contains(p as usize) <==> clear_of(near[p], spread_picks(near, p))),
    decreases k,
{
    if k > 0 {
        lemma_spread_picks(near, k - 1);
        let prev = spread_picks(near, k - 1);
        let cur = spread_picks(near, k);
        assert forall|p: int| 0 <= p < k implies (cur.contains(p as usize) <==> #[trigger] clear_of(near[p], spread_picks(near, p))) by {
            if p < k - 1 {
                if cur.contains(p as usize) {
                    let i = choose|i: int| 0 <= i < cur.len() && cur[i] == p as usize;
                    if i == prev.len() {
                        assert(cur[i] == (k - 1) as usize);
                    } else {
                        assert(prev[i] == cur[i]);
                    }
                }
                if prev.contains(p as usize) {
                    let i = choose|i: int| 0 <= i < prev.len() && prev[i] == p as usize;
                    assert(cur[i] == prev[i]);
                }
            } else {
                if cur.contains(p as usize) && !clear_of(near[p], prev) {
                    let i = choose|i: int| 0 <= i < cur.len() && cur[i] == p as usize;
                    assert(prev[i] < k - 1);
                }
                if clear_of(near[p], prev) {
                    assert(cur[prev.len() as int] == p as usize);
                }
            }
        }
    }
}

/// Keeps, in index order, each point none of whose neighbours was kept
/// before it (`near[p]`: the points within reach of `p`, itself allowed).
/// When reach is symmetric, the kept points pairwise lie out of reach, so
/// no single cluster can cover two of them: their number bounds the
/// cluster count of any full cover from below.
pub fn spread_points(near: &[Vec<u32>]) -> (r: Vec<usize>)
    requires
        forall|p: int, t: int| 0 <= p < near.len() && 0 <= t < near@[p]@.len() ==> (#[trigger] near@[p]@[t]) < near.len(),
    ensures
        r@ == spread_picks(lists(near@), near.len() as int),
        forall|i: int, j: int| 0 <= i < j < r@.len() ==> r@[i] < r@[j],
        forall|i: int| 0 <= i < r@.len() ==> #[trigger] r@[i] < near.len(),
        forall|i: int, j: int, t: int|
            0 <= i < j < r@.len() && 0 <= t < near@[r@[j] as int]@.len() ==> (#[trigger] near@[r@[j] as int]@[t]) as usize != #[trigger] r@[i],
        forall|p: int| #![trigger near@[p]] 0 <= p < near.len() && !r@.contains(p as usize) ==> exists|t: int|
            0 <= t < near@[p]@.len() && #[trigger] r@.contains(near@[p]@[t] as usize) && near@[p]@[t] < p,
{
    let ghost nl = lists(near@);
    let n = near.len();
    let mut kept: Vec<bool> = Vec::new();
    let mut i: usize = 0;
    while i < n
        invariant
            i <= n == near.len(),
            kept@.len() == i,
            forall|q: int| 0 <= q < i ==> !kept@[q],
        decreases n - i,
    {
        kept.push(false);
        i = i + 1;
    }
    let mut picks: Vec<usize> = Vec::new();
    let mut p: usize = 0;
    while p < n
        invariant
            p <= n == near.len(),
            kept@.len() == n,
            nl == lists(near@),
            forall|p2: int, t: int| 0 <= p2 < near.len() && 0 <= t < near@[p2]@.len() ==> (#[trigger] near@[p2]@[t]) < near.len(),
            picks@ == spread_picks(nl, p as int),
            forall|q: int| 0 <= q < n ==> (kept@[q] <==> picks@.contains(q as usize)),
        decreases n - p,
    {
        proof {
            lemma_spread_picks(nl, p as int);
        }
        let list = &near[p];
        assert(nl[p as int] == list@);
        let mut clear = true;
        let mut t: usize = 0;
        while t < list.len()
            invariant
                t <= list@.len(),
                list@ == nl[p as int],
                kept@.len() == n,
                forall|t2: int| 0 <= t2 < list@.len() ==> (#[trigger] list@[t2]) < n,
                forall|q: int| 0 <= q < n ==> (kept@[q] <==> picks@.contains(q as usize)),
                clear <==> forall|t2: int| 0 <= t2 < t ==> !picks@.contains(#[trigger] list@[t2] as usize),
            decreases list@.len() - t,
        {
            let q = list[t] as usize;
            if kept[q] {
                clear = false;
            }
            t = t + 1;
        }
        if clear {
            picks.push(p);
            kept.set(p, true);
            proof {
                let prev = spread_picks(nl, p as int);
                assert forall|q: int| 0 <= q < n implies (kept@[q] <==> picks@.contains(q as usize)) by {
                    if q != p {
                        if picks@.contains(q as usize) {
                            let i2 = choose|i2: int| 0 <= i2 < picks@.len() && picks@[i2] == q as usize;
                            assert(i2 < prev.len());
                            assert(prev[i2] == picks@[i2]);
                        }
                        if prev.contains(q as usize) {
                            let i2 = choose|i2: int| 0 <= i2 < prev.len() && prev[i2] == q as usize;
                            assert(picks@[i2] == prev[i2]);
                        }
                    } else {
                        assert(picks@[prev.len() as int] == p);
                    }
                }
            }
        }
        p = p + 1;
    }
    proof {
        let k = n as int;
        lemma_spread_picks(nl, k);
        let r = picks@;
        assert forall|p2: int| #![trigger near@[p2]] 0 <= p2 < n && !r.contains(p2 as usize) implies exists|t: int|
            0 <= t < near@[p2]@.len() && #[trigger] r.contains(near@[p2]@[t] as usize) && near@[p2]@[t] < p2 by {
            let prev = spread_picks(nl, p2);
            assert(!clear_of(nl[p2], prev));
            let t = choose|t: int| 0 <= t < nl[p2].len() && prev.contains(#[trigger] nl[p2][t] as usize);
            lemma_spread_picks(nl, p2);
            let x = nl[p2][t] as int;
            assert(x < p2);
            assert(clear_of(nl[x], spread_picks(nl, x)));
            assert(r.contains(x as usize));
            assert(nl[p2] == near@[p2]@);
            assert(r.contains(near@[p2]@[t] as usize));
        }
        assert forall|i: int, j: int, t: int|
            0 <= i < j < r.len() && 0 <= t < near@[r[j] as int]@.len() implies (#[trigger] near@[r[j] as int]@[t]) as usize != #[trigger] r[i] by {
            let a = r[i] as int;
            let b = r[j] as int;
            assert(r.contains(r[i]));
            assert(r.contains(r[j]));
            assert(clear_of(nl[b], spread_picks(nl, b)));
            lemma_spread_picks(nl, b);
            assert(r.contains(a as usize));
            assert(clear_of(nl[a], spread_picks(nl, a)));
            assert(spread_picks(nl, b).contains(a as usize));
            assert(nl[b] == near@[b]@);
            if near@[b]@[t] as usize == r[i] {
                assert(!spread_picks(nl, b).contains(nl[b][t] as usize));
            }
        }
    }
    picks
}

/// Whether reach is symmetric: `q` is within reach of `p` exactly when `p`
/// is within reach of `q`.
pub open spec fn symmetric_reach(near: Seq<Seq<u32>>) -> bool {
    forall|p: int, q: int|
        0 <= p < near.len() && 0 <= q < near.len() ==> (#[trigger] near[p].contains(q as u32) <==> #[trigger] near[q].contains(
            p as u32,
        ))
}

/// With symmetric reach, the spread-out points lie pairwise out of each
/// other's reach, and every other point is within reach of one of them: no
/// cluster whose points are pairwise within reach holds two of them.
#[verifier::rlimit(40)]
pub proof fn lemma_spread_apart(near: Seq<Seq<u32>>)
    requires
        near.len() <= u32::MAX,
        symmetric_reach(near),
        forall|p: int, t: int| 0 <= p < near.len() && 0 <= t < near[p].len() ==> (#[trigger] near[p][t] as int) < near.len(),
    ensures
        forall|i: int, j: int|
            0 <= i < spread_picks(near, near.len() as int).len() && 0 <= j < spread_picks(near, near.len() as int).len() && i != j
                ==> !near[#[trigger] spread_picks(near, near.len() as int)[i] as int].contains(
                #[trigger] spread_picks(near, near.len() as int)[j] as u32,
            ),
        forall|p: int|
            #![trigger near[p]]
            0 <= p < near.len() && !spread_picks(near, near.len() as int).contains(p as usize) ==> exists|t: int|
                0 <= t < near[p].len() && spread_picks(near, near.len() as int).contains(#[trigger] near[p][t] as usize),
{
    let k = near.len() as int;
    let r = spread_picks(near, k);
    lemma_spread_picks(near, k);
    assert forall|i: int, j: int|
        0 <= i < r.len() && 0 <= j < r.len() && i != j implies !near[#[trigger] r[i] as int].contains(#[trigger] r[j] as u32) by {
        let (lo, hi) = if i < j { (i, j) } else { (j, i) };
        let a = r[lo] as int;
        let b = r[hi] as int;
        assert(a < b);
        assert(r.contains(r[lo]));
        assert(r.contains(r[hi]));
        assert(clear_of(near[b], spread_picks(near, b)));
        lemma_spread_picks(near, b);
        assert(clear_of(near[a], spread_picks(near, a)));
        assert(spread_picks(near, b).contains(a as usize));
        if near[b].contains(a as u32) {
            let t = choose|t: int| 0 <= t < near[b].len() && near[b][t] == a as u32;
            assert(!spread_picks(near, b).contains(near[b][t] as usize));
            assert(near[b][t] as usize == a as usize);
            assert(false);
        }
        assert(!near[b].contains(a as u32));
        assert(!near[a].contains(b as u32));
    }
    assert forall|p: int|
        #![trigger near[p]]
        0 <= p < near.len() && !r.contains(p as usize) implies exists|t: int|
            0 <= t < near[p].len() && r.contains(#[trigger] near[p][t] as usize) by {
        let prev = spread_picks(near, p);
        assert(!clear_of(near[p], prev));
        let t = choose|t: int| 0 <= t < near[p].len() && prev.contains(#[trigger] near[p][t] as usize);
        lemma_spread_picks(near, p);
        let x = near[p][t] as int;
        assert(x < p);
        assert(clear_of(near[x], spread_picks(near, x)));
        assert(r.contains(x as usize));
    }
}

/// Whether the points of cluster `d` are pairwise within reach.
pub open spec fn within_reach(near: Seq<Seq<u32>>, d: Set<int>) -> bool {
    forall|a: int, b: int| d.contains(a) && d.contains(b) && a != b ==> #[trigger] near[a].contains(b as u32)
}

/// Whether some cluster holds point `p`.
pub open spec fn held(clusters: Seq<Set<int>>, p: int) -> bool {
    exists|k: int| 0 <= k < clusters.len() && #[trigger] clusters[k].contains(p)
}

/// The spread-out points bound any full cover from below: with symmetric
/// reach, clusters whose points are pairwise within reach and which
/// together hold every point are at least as many as the spread-out points.
pub proof fn lemma_spread_cover_bound(near: Seq<Seq<u32>>, clusters: Seq<Set<int>>)
    requires
        near.len() <= u32::MAX,
        symmetric_reach(near),
        forall|p: int, t: int| 0 <= p < near.len() && 0 <= t < near[p].len() ==> (#[trigger] near[p][t] as int) < near.len(),
        forall|k: int| 0 <= k < clusters.len() ==> within_reach(near, #[trigger] clusters[k]),
        forall|p: int| 0 <= p < near.len() ==> #[trigger] held(clusters, p),
    ensures
        spread_picks(near, near.len() as int).len() <= clusters.len(),
{
    let n = near.len() as int;
    let r = spread_picks(near, n);
    lemma_spread_picks(near, n);
    lemma_spread_apart(near);
    let ks = Seq::new(r.len(), |i: int| choose|k: int| 0 <= k < clusters.len() && #[trigger] clusters[k].contains(r[i] as int));
    assert forall|i: int| 0 <= i < r.len() implies 0 <= (#[trigger] ks[i]) < clusters.len() && clusters[ks[i]].contains(r[i] as int) by {
        assert(held(clusters, r[i] as int));
    }
    assert(ks.no_duplicates()) by {
        assert forall|i: int, j: int| 0 <= i < j < ks.len() implies ks[i] != ks[j] by {
            if ks[i] == ks[j] {
                let d = clusters[ks[i]];
                assert(d.contains(r[i] as int) && d.contains(r[j] as int));
                assert(r[i] < r[j]);
                assert(within_reach(near, d));
                assert(near[r[i] as int].contains(r[j] as int as u32));
                assert(!near[r[i] as int].contains(r[j] as u32));
            }
        }
    }
    ks.unique_seq_to_set();
    let rng = vstd::set_lib::set_int_range(0, clusters.len() as int);
    vstd::set_lib::lemma_int_range(0, clusters.len() as int);
    assert(ks.to_set().subset_of(rng)) by {
        assert forall|y: int| ks.to_set().contains(y) implies rng.contains(y) by {
            let w = choose|w: int| 0 <= w < ks.len() && ks[w] == y;
            assert(0 <= ks[w] < clusters.len());
        }
    }
    vstd::set_lib::lemma_len_subset(ks.to_set(), rng);
}

} // verus!
