//! Enforcing a cap on the number of clusters: keep the candidates that cover
//! the most item weight, chosen greedily by marginal gain (lazily
//! re-evaluated, ties to the lower index, stopping at zero gain).

use vstd::prelude::*;
use crate::exact_cover::copy_u32s;
use vstd::set_lib::{lemma_len_subset, lemma_int_range, lemma_subset_equality, set_int_range};

verus! {

/// The candidates' item lists as sequences.
pub open spec fn lists(c: Seq<Vec<u32>>) -> Seq<Seq<u32>> {
    c.map_values(|v: Vec<u32>| v@)
}

/// Weight of the entries of `list` outside `cov` (an entry listed twice
/// counts twice).
pub open spec fn gain(list: Seq<u32>, w: Seq<usize>, cov: Set<int>) -> int
    decreases list.len(),
{
    if list.len() == 0 {
        0
    } else {
        gain(list.drop_last(), w, cov) + if cov.contains(list.last() as int) {
            0
        } else {
            w[list.last() as int] as int
        }
    }
}

/// The items the picked candidates `kept` cover together.
pub open spec fn covered(c: Seq<Seq<u32>>, kept: Seq<int>) -> Set<int> {
    Set::new(
        |j: int|
            exists|q: int, t: int|
                0 <= q < kept.len() && 0 <= t < c[kept[q]].len() && c[kept[q]][t] as int == j,
    )
}

/// The lowest index among `c[..k]` with the largest gain (-1 for `k == 0`).
pub open spec fn best_index(c: Seq<Seq<u32>>, w: Seq<usize>, cov: Set<int>, k: int) -> int
    decreases k,
{
    if k <= 0 {
        -1
    } else {
        let b = best_index(c, w, cov, k - 1);
        if b < 0 || gain(c[k - 1], w, cov) > gain(c[b], w, cov) {
            k - 1
        } else {
            b
        }
    }
}

/// Greedy max-coverage continued from the picks `kept`: while fewer than
/// `cap` are picked, pick the candidate of largest gain over what is
/// covered (lowest index among ties), and stop once that gain is 0.
pub open spec fn greedy_from(c: Seq<Seq<u32>>, w: Seq<usize>, cap: int, kept: Seq<int>) -> Seq<int>
    decreases cap - kept.len(),
{
    if kept.len() >= cap || c.len() == 0 {
        kept
    } else {
        let cov = covered(c, kept);
        let b = best_index(c, w, cov, c.len() as int);
        if gain(c[b], w, cov) <= 0 {
            kept
        } else {
            greedy_from(c, w, cap, kept.push(b))
        }
    }
}

/// Whether `b` is the greedy pick over what `cov` covers: positive gain,
/// the largest, the lowest index among equals.
pub open spec fn greedy_pick(c: Seq<Seq<u32>>, w: Seq<usize>, cov: Set<int>, b: int) -> bool {
    &&& 0 <= b < c.len()
    &&& gain(c[b], w, cov) > 0
    &&& forall|i: int|
        0 <= i < c.len() ==> gain(#[trigger] c[i], w, cov) < gain(c[b], w, cov) || (gain(c[i], w, cov) == gain(c[b], w, cov)
            && b <= i)
}

/// Continuing the greedy from `kept` keeps `kept` as a prefix; each later
/// pick is the greedy pick over what the picks before it cover; and a run
/// that stops short of `cap` leaves no candidate with positive gain.
pub proof fn lemma_greedy_steps(c: Seq<Seq<u32>>, w: Seq<usize>, cap: int, kept: Seq<int>)
    ensures
        greedy_from(c, w, cap, kept).len() >= kept.len(),
        greedy_from(c, w, cap, kept).take(kept.len() as int) == kept,
        forall|k: int|
            kept.len() <= k < greedy_from(c, w, cap, kept).len() ==> greedy_pick(
                c,
                w,
                covered(c, greedy_from(c, w, cap, kept).take(k)),
                #[trigger] greedy_from(c, w, cap, kept)[k],
            ),
        greedy_from(c, w, cap, kept).len() < cap ==> forall|i: int|
            0 <= i < c.len() ==> gain(#[trigger] c[i], w, covered(c, greedy_from(c, w, cap, kept))) <= 0,
    decreases cap - kept.len(),
{
    let r = greedy_from(c, w, cap, kept);
    if kept.len() >= cap || c.len() == 0 {
        assert(kept.take(kept.len() as int) =~= kept);
    } else {
        let cov = covered(c, kept);
        lemma_best_index(c, w, cov, c.len() as int);
        let b = best_index(c, w, cov, c.len() as int);
        if gain(c[b], w, cov) <= 0 {
            assert(kept.take(kept.len() as int) =~= kept);
            assert forall|i: int| 0 <= i < c.len() implies gain(#[trigger] c[i], w, covered(c, r)) <= 0 by {}
        } else {
            let k2 = kept.push(b);
            lemma_greedy_steps(c, w, cap, k2);
            assert(r == greedy_from(c, w, cap, k2));
            assert(r.take(kept.len() as int) =~= r.take(k2.len() as int).take(kept.len() as int));
            assert(k2.take(kept.len() as int) =~= kept);
            assert(r[kept.len() as int] == b) by {
                assert(r.take(k2.len() as int)[kept.len() as int] == k2[kept.len() as int]);
            }
            assert(r.take(kept.len() as int) == kept);
            assert forall|k: int| kept.len() <= k < r.len() implies greedy_pick(c, w, covered(c, r.take(k)), #[trigger] r[k]) by {
                if k == kept.len() {
                    assert(r.take(k) == kept);
                    assert forall|i: int| 0 <= i < c.len() implies gain(#[trigger] c[i], w, cov) < gain(c[b], w, cov) || (gain(
                        c[i],
                        w,
                        cov,
                    ) == gain(c[b], w, cov) && b <= i) by {
                        if i < b {
                            assert(gain(c[i], w, cov) < gain(c[b], w, cov));
                        }
                    }
                }
            }
        }
    }
}

/// The items a mark table holds.
pub open spec fn marked(cov: Seq<bool>) -> Set<int> {
    Set::new(|j: int| 0 <= j < cov.len() && cov[j])
}

/// Every item a list names has a weight.
pub open spec fn items_in_range(c: Seq<Seq<u32>>, n: int) -> bool {
    forall|i: int, t: int| 0 <= i < c.len() && 0 <= t < c[i].len() ==> (#[trigger] c[i][t]) < n
}

/// Gains are non-negative and shrink as coverage grows.
pub proof fn lemma_gain_monotone(list: Seq<u32>, w: Seq<usize>, a: Set<int>, b: Set<int>)
    requires
        a.subset_of(b),
    ensures
        0 <= gain(list, w, b) <= gain(list, w, a),
    decreases list.len(),
{
    if list.len() > 0 {
        lemma_gain_monotone(list.drop_last(), w, a, b);
    }
}

/// A list whose entries are all covered gains nothing.
pub(crate) proof fn lemma_gain_zero(list: Seq<u32>, w: Seq<usize>, cov: Set<int>)
    requires
        forall|t: int| 0 <= t < list.len() ==> cov.contains(#[trigger] list[t] as int),
    ensures
        gain(list, w, cov) == 0,
    decreases list.len(),
{
    if list.len() > 0 {
        assert(cov.contains(list[list.len() - 1] as int));
        lemma_gain_zero(list.drop_last(), w, cov);
    }
}

/// The gain of a list only depends on which of its own entries are covered.
pub(crate) proof fn lemma_gain_same(list: Seq<u32>, w: Seq<usize>, a: Set<int>, b: Set<int>)
    requires
        forall|t: int| 0 <= t < list.len() ==> (a.contains(#[trigger] list[t] as int) <==> b.contains(list[t] as int)),
    ensures
        gain(list, w, a) == gain(list, w, b),
    decreases list.len(),
{
    if list.len() > 0 {
        assert(a.contains(list[list.len() - 1] as int) <==> b.contains(list[list.len() - 1] as int));
        lemma_gain_same(list.drop_last(), w, a, b);
    }
}

/// `best_index` is the lowest index of largest gain, and the only such index.
pub proof fn lemma_best_index(c: Seq<Seq<u32>>, w: Seq<usize>, cov: Set<int>, k: int)
    requires
        1 <= k <= c.len(),
    ensures
        0 <= best_index(c, w, cov, k) < k,
        forall|j: int| 0 <= j < k ==> gain(#[trigger] c[j], w, cov) <= gain(c[best_index(c, w, cov, k)], w, cov),
        forall|j: int| 0 <= j < best_index(c, w, cov, k) ==> gain(#[trigger] c[j], w, cov) < gain(
            c[best_index(c, w, cov, k)],
            w,
            cov,
        ),
    decreases k,
{
    if k > 1 {
        lemma_best_index(c, w, cov, k - 1);
        let b0 = best_index(c, w, cov, k - 1);
        let b = best_index(c, w, cov, k);
        assert forall|j: int| 0 <= j < k implies gain(#[trigger] c[j], w, cov) <= gain(c[b], w, cov) by {
            if j < k - 1 {
                assert(gain(c[j], w, cov) <= gain(c[b0], w, cov));
            }
        }
        assert forall|j: int| 0 <= j < b implies gain(#[trigger] c[j], w, cov) < gain(c[b], w, cov) by {
            if b == b0 {
                assert(gain(c[j], w, cov) < gain(c[b0], w, cov));
            } else {
                assert(gain(c[j], w, cov) <= gain(c[b0], w, cov));
            }
        }
    } else {
        assert(best_index(c, w, cov, 0) == -1);
    }
}

/// An index of largest gain with no index before it as good is `best_index`.
pub proof fn lemma_best_unique(c: Seq<Seq<u32>>, w: Seq<usize>, cov: Set<int>, k: int, x: int)
    requires
        1 <= k <= c.len(),
        0 <= x < k,
        forall|j: int| 0 <= j < k ==> gain(#[trigger] c[j], w, cov) <= gain(c[x], w, cov),
        forall|j: int| 0 <= j < x ==> gain(#[trigger] c[j], w, cov) < gain(c[x], w, cov),
    ensures
        x == best_index(c, w, cov, k),
{
    lemma_best_index(c, w, cov, k);
    let b = best_index(c, w, cov, k);
    assert(gain(c[b], w, cov) <= gain(c[x], w, cov));
    assert(gain(c[x], w, cov) <= gain(c[b], w, cov));
    if x < b {
        assert(gain(c[x], w, cov) < gain(c[b], w, cov));
    }
    if b < x {
        assert(gain(c[b], w, cov) < gain(c[x], w, cov));
    }
}

/// The gain of `list` over the marked items, summed entry by entry.
fn fresh_gain(list: &Vec<u32>, w: &[usize], cov: &Vec<bool>) -> (r: usize)
    requires
        cov.len() == w.len(),
        forall|t: int| 0 <= t < list@.len() ==> (#[trigger] list@[t]) < w.len(),
        gain(list@, w@, Set::empty()) <= usize::MAX,
    ensures
        r == gain(list@, w@, marked(cov@)),
{
    let ghost cs = marked(cov@);
    let mut sum: usize = 0;
    let mut t: usize = 0;
    while t < list.len()
        invariant
            t <= list.len(),
            cov.len() == w.len(),
            cs == marked(cov@),
            forall|t2: int| 0 <= t2 < list@.len() ==> (#[trigger] list@[t2]) < w.len(),
            gain(list@, w@, Set::empty()) <= usize::MAX,
            sum == gain(list@.subrange(0, t as int), w@, cs),
        decreases list.len() - t,
    {
        let j = list[t] as usize;
        proof {
            let pre = list@.subrange(0, t as int + 1);
            assert(pre.drop_last() =~= list@.subrange(0, t as int));
            lemma_gain_monotone(pre, w@, Set::empty(), cs);
            lemma_gain_prefix(list@, w@, Set::empty(), t as int + 1);
        }
        if !cov[j] {
            sum = sum + w[j];
        }
        t = t + 1;
    }
    assert(list@.subrange(0, list.len() as int) =~= list@);
    sum
}

/// A prefix gains no more than the whole list.
proof fn lemma_gain_prefix(list: Seq<u32>, w: Seq<usize>, cov: Set<int>, k: int)
    requires
        0 <= k <= list.len(),
    ensures
        gain(list.subrange(0, k), w, cov) <= gain(list, w, cov),
    decreases list.len() - k,
{
    if k < list.len() {
        lemma_gain_prefix(list, w, cov, k + 1);
        let pre = list.subrange(0, k + 1);
        assert(pre.drop_last() =~= list.subrange(0, k));
    } else {
        assert(list.subrange(0, k) =~= list);
    }
}

/// Indices as integers.
pub open spec fn as_ints(v: Seq<usize>) -> Seq<int> {
    v.map_values(|x: usize| x as int)
}

/// The items list `l` names.
pub open spec fn items_of(l: Seq<u32>) -> Set<int> {
    Set::new(|j: int| exists|t: int| 0 <= t < l.len() && l[t] as int == j)
}

pub(crate) proof fn lemma_covered_push(c: Seq<Seq<u32>>, kept: Seq<int>, b: int)
    ensures
        covered(c, kept.push(b)) == covered(c, kept).union(items_of(c[b])),
{
    let k2 = kept.push(b);
    assert forall|j: int| covered(c, k2).contains(j) implies covered(c, kept).union(items_of(c[b])).contains(j) by {
        let (q, t) = choose|q: int, t: int|
            0 <= q < k2.len() && 0 <= t < c[k2[q]].len() && c[k2[q]][t] as int == j;
        if q < kept.len() {
            assert(k2[q] == kept[q]);
        } else {
            assert(items_of(c[b]).contains(j));
        }
    }
    assert forall|j: int| covered(c, kept).union(items_of(c[b])).contains(j) implies covered(c, k2).contains(j) by {
        if covered(c, kept).contains(j) {
            let (q, t) = choose|q: int, t: int|
                0 <= q < kept.len() && 0 <= t < c[kept[q]].len() && c[kept[q]][t] as int == j;
            assert(k2[q] == kept[q]);
        } else {
            let t = choose|t: int| 0 <= t < c[b].len() && c[b][t] as int == j;
            assert(k2[kept.len() as int] == b);
        }
    }
    assert(covered(c, k2) =~= covered(c, kept).union(items_of(c[b])));
}

/// Sum over the queued candidates `i < k` of `bound[i] + 1`.
pub open spec fn potential(bound: Seq<usize>, active: Seq<bool>, k: int) -> nat
    decreases k,
{
    if k <= 0 {
        0
    } else {
        potential(bound, active, k - 1) + if active[k - 1] {
            (bound[k - 1] + 1) as nat
        } else {
            0nat
        }
    }
}

/// Lowering one queued candidate's term lowers the potential.
proof fn lemma_potential_lower(b1: Seq<usize>, a1: Seq<bool>, b2: Seq<usize>, a2: Seq<bool>, i: int, k: int)
    requires
        0 <= i < k,
        forall|j: int| 0 <= j < k && j != i ==> a1[j] == a2[j] && (a1[j] ==> b1[j] == b2[j]),
        a1[i],
        !a2[i] || b2[i] < b1[i],
    ensures
        potential(b2, a2, k) < potential(b1, a1, k),
    decreases k,
{
    if k - 1 > i {
        lemma_potential_lower(b1, a1, b2, a2, i, k - 1);
    } else {
        lemma_potential_same(b1, a1, b2, a2, k - 1);
    }
}

proof fn lemma_potential_same(b1: Seq<usize>, a1: Seq<bool>, b2: Seq<usize>, a2: Seq<bool>, k: int)
    requires
        forall|j: int| 0 <= j < k ==> a1[j] == a2[j] && (a1[j] ==> b1[j] == b2[j]),
    ensures
        potential(b2, a2, k) == potential(b1, a1, k),
    decreases k,
{
    if k > 0 {
        lemma_potential_same(b1, a1, b2, a2, k - 1);
    }
}

/// Once no candidate gains anything, greedy stops where it is.
proof fn lemma_greedy_stops(c: Seq<Seq<u32>>, w: Seq<usize>, cap: int, kept: Seq<int>)
    requires
        forall|j: int| 0 <= j < c.len() ==> gain(#[trigger] c[j], w, covered(c, kept)) == 0,
    ensures
        greedy_from(c, w, cap, kept) == kept,
{
    if kept.len() < cap && c.len() > 0 {
        lemma_best_index(c, w, covered(c, kept), c.len() as int);
    }
}

/// Greedy weighted max-coverage: keeps at most `cap` candidates, each time
/// the one adding the most not-yet-covered item weight (the lowest index
/// among equals), stopping early once no candidate adds any. With no more
/// candidates than `cap`, all are kept. Candidates are re-scored lazily:
/// a stored score only ever overstates the current gain, so a candidate
/// whose fresh score still tops all stored scores is the true best.
pub fn select_max_coverage(candidates: &[Vec<u32>], item_weights: &[usize], cap: usize) -> (r: Vec<usize>)
    requires
        items_in_range(lists(candidates@), item_weights.len() as int),
        forall|i: int|
            0 <= i < candidates.len() ==> gain(#[trigger] candidates@[i]@, item_weights@, Set::empty()) <= usize::MAX,
    ensures
        candidates.len() <= cap ==> r@ == Seq::new(candidates.len() as nat, |i: int| i as usize),
        candidates.len() > cap ==> as_ints(r@) == greedy_from(
            lists(candidates@),
            item_weights@,
            cap as int,
            Seq::empty(),
        ),
        candidates.len() > cap ==> r.len() <= cap && r@.no_duplicates(),
        forall|q: int| 0 <= q < r.len() ==> #[trigger] r@[q] < candidates.len(),
{
    let n = candidates.len();
    if n <= cap {
        let mut all: Vec<usize> = Vec::new();
        let mut i: usize = 0;
        while i < n
            invariant
                i <= n,
                all@ == Seq::new(i as nat, |k: int| k as usize),
            decreases n - i,
        {
            all.push(i);
            i = i + 1;
            assert(all@ =~= Seq::new(i as nat, |k: int| k as usize));
        }
        return all;
    }
    let ghost c = lists(candidates@);
    let ghost w = item_weights@;
    let mut cov: Vec<bool> = Vec::new();
    let mut j: usize = 0;
    while j < item_weights.len()
        invariant
            j <= item_weights.len(),
            cov.len() == j,
            forall|q: int| 0 <= q < j ==> !cov@[q],
        decreases item_weights.len() - j,
    {
        cov.push(false);
        j = j + 1;
    }
    assert(marked(cov@) =~= Set::<int>::empty());
    let mut bound: Vec<usize> = Vec::new();
    let mut active: Vec<bool> = Vec::new();
    let mut i: usize = 0;
    while i < n
        invariant
            i <= n,
            n == candidates.len(),
            c == lists(candidates@),
            w == item_weights@,
            cov.len() == w.len(),
            marked(cov@) == Set::<int>::empty(),
            items_in_range(c, w.len() as int),
            forall|k: int| 0 <= k < candidates.len() ==> gain(#[trigger] candidates@[k]@, w, Set::empty()) <= usize::MAX,
            bound.len() == i,
            active.len() == i,
            forall|k: int| 0 <= k < i ==> #[trigger] active@[k],
            forall|k: int| 0 <= k < i ==> gain(c[k], w, marked(cov@)) <= #[trigger] bound@[k],
        decreases n - i,
    {
        assert(c[i as int] == candidates@[i as int]@);
        let g = fresh_gain(&candidates[i], item_weights, &cov);
        let ghost a0 = active@;
        let ghost b0 = bound@;
        bound.push(g);
        active.push(true);
        assert forall|k: int| 0 <= k < i + 1 implies #[trigger] active@[k] by {
            if k < i {
                assert(active@[k] == a0[k]);
            }
        }
        assert forall|k: int| 0 <= k < i + 1 implies gain(c[k], w, marked(cov@)) <= #[trigger] bound@[k] by {
            if k < i {
                assert(bound@[k] == b0[k]);
            }
        }
        i = i + 1;
    }
    let mut kept: Vec<usize> = Vec::new();
    let mut done = false;
    assert(as_ints(kept@) =~= Seq::<int>::empty());
    assert(covered(c, as_ints(kept@)) =~= Set::<int>::empty());
    while kept.len() < cap && !done
        invariant
            n == candidates.len(),
            n > cap,
            c == lists(candidates@),
            w == item_weights@,
            items_in_range(c, w.len() as int),
            forall|k: int| 0 <= k < candidates.len() ==> gain(#[trigger] candidates@[k]@, w, Set::empty()) <= usize::MAX,
            cov.len() == w.len(),
            bound.len() == n,
            active.len() == n,
            kept.len() <= cap,
            marked(cov@) == covered(c, as_ints(kept@)),
            forall|k: int| 0 <= k < n && #[trigger] active@[k] ==> gain(c[k], w, marked(cov@)) <= bound@[k],
            forall|k: int| 0 <= k < n && !(#[trigger] active@[k]) ==> gain(c[k], w, marked(cov@)) == 0,
            greedy_from(c, w, cap as int, as_ints(kept@)) == greedy_from(c, w, cap as int, Seq::empty()),
            done ==> greedy_from(c, w, cap as int, as_ints(kept@)) == as_ints(kept@),
        decreases potential(bound@, active@, n as int) + if done {
            0int
        } else {
            1int
        },
    {
        let ghost cs = marked(cov@);
        // The queued candidate with the largest stored score, lowest index first.
        let mut best: usize = n;
        let mut q: usize = 0;
        while q < n
            invariant
                q <= n,
                bound.len() == n,
                active.len() == n,
                best == n || (best < q && active@[best as int]),
                best == n ==> forall|k: int| 0 <= k < q ==> !(#[trigger] active@[k]),
                best < n ==> forall|k: int|
                    0 <= k < q && #[trigger] active@[k] ==> bound@[k] <= bound@[best as int] && (k < best
                        ==> bound@[k] < bound@[best as int]),
            decreases n - q,
        {
            if active[q] && (best == n || bound[q] > bound[best]) {
                best = q;
            }
            q = q + 1;
        }
        if best == n {
            proof {
                assert forall|k: int| 0 <= k < c.len() implies gain(#[trigger] c[k], w, covered(c, as_ints(kept@)))
                    == 0 by {
                    assert(!active@[k]);
                }
                lemma_greedy_stops(c, w, cap as int, as_ints(kept@));
            }
            done = true;
        } else {
            let b = bound[best];
            if b == 0 {
                proof {
                    assert forall|k: int| 0 <= k < c.len() implies gain(#[trigger] c[k], w, covered(c, as_ints(kept@)))
                        == 0 by {
                        if active@[k] {
                            lemma_gain_monotone(c[k], w, Set::empty(), cs);
                        }
                    }
                    lemma_greedy_stops(c, w, cap as int, as_ints(kept@));
                }
                done = true;
            } else {
                assert(c[best as int] == candidates@[best as int]@);
                let fresh = fresh_gain(&candidates[best], item_weights, &cov);
                if fresh == 0 {
                    let ghost a0 = active@;
                    active.set(best, false);
                    proof {
                        lemma_potential_lower(bound@, a0, bound@, active@, best as int, n as int);
                    }
                } else if fresh < b {
                    let ghost b0 = bound@;
                    bound.set(best, fresh);
                    proof {
                        lemma_potential_lower(b0, active@, bound@, active@, best as int, n as int);
                    }
                } else {
                    let ghost kk = as_ints(kept@);
                    proof {
                        assert forall|k: int| 0 <= k < n implies gain(#[trigger] c[k], w, cs) <= gain(c[best as int], w, cs) by {
                            if active@[k] {
                                lemma_gain_monotone(c[k], w, Set::empty(), cs);
                            }
                        }
                        assert forall|k: int| 0 <= k < best implies gain(#[trigger] c[k], w, cs) < gain(c[best as int], w, cs) by {
                            if active@[k] {
                                lemma_gain_monotone(c[k], w, Set::empty(), cs);
                            }
                        }
                        lemma_best_unique(c, w, cs, n as int, best as int);
                        assert(greedy_from(c, w, cap as int, kk) == greedy_from(c, w, cap as int, kk.push(best as int)));
                        lemma_covered_push(c, kk, best as int);
                    }
                    // Mark the picked candidate's items covered.
                    let list = &candidates[best];
                    let mut t: usize = 0;
                    while t < list.len()
                        invariant
                            t <= list.len(),
                            list@ == c[best as int],
                            cov.len() == w.len(),
                            items_in_range(c, w.len() as int),
                            0 <= best < c.len(),
                            marked(cov@) == cs.union(Set::new(|jj: int| exists|tt: int| 0 <= tt < t && list@[tt] as int == jj)),
                        decreases list.len() - t,
                    {
                        let it = list[t] as usize;
                        assert(c[best as int][t as int] < w.len());
                        let ghost m0 = marked(cov@);
                        cov.set(it, true);
                        assert(marked(cov@) =~= cs.union(Set::new(|jj: int| exists|tt: int| 0 <= tt < t + 1 && list@[tt] as int == jj))) by {
                            assert forall|jj: int| marked(cov@).contains(jj) implies cs.union(Set::new(|jj: int| exists|tt: int| 0 <= tt < t + 1 && list@[tt] as int == jj)).contains(jj) by {
                                if jj != it as int {
                                    assert(m0.contains(jj));
                                } else {
                                    assert(list@[t as int] as int == jj);
                                }
                            }
                            assert forall|jj: int| cs.union(Set::new(|jj: int| exists|tt: int| 0 <= tt < t + 1 && list@[tt] as int == jj)).contains(jj) implies marked(cov@).contains(jj) by {
                                if jj != it as int {
                                    if !cs.contains(jj) {
                                        let tt = choose|tt: int| 0 <= tt < t + 1 && list@[tt] as int == jj;
                                        assert(tt != t);
                                    }
                                    assert(m0.contains(jj));
                                }
                            }
                        }
                        t = t + 1;
                    }
                    let ghost a0 = active@;
                    active.set(best, false);
                    kept.push(best);
                    proof {
                        assert(as_ints(kept@) =~= kk.push(best as int));
                        let ncs = marked(cov@);
                        assert(ncs =~= cs.union(items_of(c[best as int])));
                        assert(cs.subset_of(ncs));
                        assert forall|k: int| 0 <= k < n && #[trigger] active@[k] implies gain(c[k], w, ncs) <= bound@[k] by {
                            lemma_gain_monotone(c[k], w, cs, ncs);
                        }
                        assert forall|k: int| 0 <= k < n && !(#[trigger] active@[k]) implies gain(c[k], w, ncs) == 0 by {
                            if k == best {
                                assert forall|tt: int| 0 <= tt < c[k].len() implies ncs.contains(#[trigger] c[k][tt] as int) by {
                                    assert(items_of(c[k]).contains(c[k][tt] as int));
                                }
                                lemma_gain_zero(c[k], w, ncs);
                            } else {
                                lemma_gain_monotone(c[k], w, cs, ncs);
                            }
                        }
                        lemma_potential_lower(bound@, a0, bound@, active@, best as int, n as int);
                    }
                }
            }
        }
    }
    proof {
        if !done {
            assert(kept.len() >= cap);
        }
        let g = greedy_from(lists(candidates@), item_weights@, cap as int, Seq::empty());
        crate::cap_cells::lemma_greedy_picks(lists(candidates@), item_weights@, cap as int, Seq::empty());
        crate::cap_cells::lemma_greedy_distinct(lists(candidates@), item_weights@, cap as int, Seq::empty());
        assert forall|q: int| 0 <= q < kept.len() implies #[trigger] kept@[q] < candidates.len() by {
            assert(as_ints(kept@)[q] == kept@[q] as int);
        }
        assert(kept@.no_duplicates()) by {
            assert forall|a: int, b: int| 0 <= a < b < kept.len() implies kept@[a] != kept@[b] by {
                assert(as_ints(kept@)[a] == kept@[a] as int);
                assert(as_ints(kept@)[b] == kept@[b] as int);
            }
        }
    }
    kept
}

/// `f(0) + ... + f(n - 1)`.
pub open spec fn sum_to(f: spec_fn(int) -> int, n: int) -> int
    decreases n,
{
    if n <= 0 {
        0
    } else {
        sum_to(f, n - 1) + f(n - 1)
    }
}

/// Total weight of the items of `s`.
pub open spec fn weight_of(s: Set<int>, w: Seq<usize>) -> int {
    sum_to(|j: int| if s.contains(j) { w[j] as int } else { 0 }, w.len() as int)
}

/// Sums follow pointwise differences.
pub proof fn lemma_sum_diff(f: spec_fn(int) -> int, g: spec_fn(int) -> int, h: spec_fn(int) -> int, k: spec_fn(int) -> int, n: int)
    requires
        forall|j: int| 0 <= j < n ==> #[trigger] f(j) - g(j) == h(j) - k(j),
    ensures
        sum_to(f, n) - sum_to(g, n) == sum_to(h, n) - sum_to(k, n),
    decreases n,
{
    if n > 0 {
        lemma_sum_diff(f, g, h, k, n - 1);
    }
}

/// Sums follow pointwise bounds.
proof fn lemma_sum_le(f: spec_fn(int) -> int, g: spec_fn(int) -> int, n: int)
    requires
        forall|j: int| 0 <= j < n ==> #[trigger] f(j) <= g(j),
    ensures
        sum_to(f, n) <= sum_to(g, n),
    decreases n,
{
    if n > 0 {
        lemma_sum_le(f, g, n - 1);
    }
}

/// `g(e)` summed over the entries `e` of `list`.
pub open spec fn list_sum(list: Seq<u32>, g: spec_fn(int) -> int) -> int
    decreases list.len(),
{
    if list.len() == 0 {
        0
    } else {
        list_sum(list.drop_last(), g) + g(list.last() as int)
    }
}

/// Over a list without repeats, summing over the entries is summing over
/// the items it names.
proof fn lemma_list_sum(list: Seq<u32>, g: spec_fn(int) -> int, n: int)
    requires
        list.no_duplicates(),
        forall|t: int| 0 <= t < list.len() ==> (#[trigger] list[t]) < n,
    ensures
        list_sum(list, g) == sum_to(|j: int| if items_of(list).contains(j) { g(j) } else { 0 }, n),
    decreases list.len(),
{
    let f = |j: int| if items_of(list).contains(j) { g(j) } else { 0 };
    if list.len() == 0 {
        lemma_sum_diff(f, |j: int| 0int, |j: int| 0int, |j: int| 0int, n);
        lemma_sum_zero(n);
    } else {
        let l2 = list.drop_last();
        let e = list.last() as int;
        assert(l2.no_duplicates());
        lemma_list_sum(l2, g, n);
        let f2 = |j: int| if items_of(l2).contains(j) { g(j) } else { 0 };
        let pe = |j: int| if j == e { g(j) } else { 0 };
        assert forall|j: int| 0 <= j < n implies #[trigger] f(j) - f2(j) == pe(j) - (|j: int| 0int)(j) by {
            if j == e {
                assert(items_of(list).contains(j)) by {
                    assert(list[list.len() - 1] as int == j);
                }
                if items_of(l2).contains(j) {
                    let t = choose|t: int| 0 <= t < l2.len() && l2[t] as int == j;
                    assert(list[t] == list[list.len() - 1]);
                }
            } else {
                if items_of(list).contains(j) {
                    let t = choose|t: int| 0 <= t < list.len() && list[t] as int == j;
                    assert(l2[t] as int == j);
                }
                if items_of(l2).contains(j) {
                    let t = choose|t: int| 0 <= t < l2.len() && l2[t] as int == j;
                    assert(list[t] as int == j);
                }
            }
        }
        lemma_sum_diff(f, f2, pe, |j: int| 0int, n);
        lemma_sum_zero(n);
        lemma_sum_single(g, e, n);
    }
}

proof fn lemma_sum_zero(n: int)
    ensures
        sum_to(|j: int| 0int, n) == 0,
    decreases n,
{
    if n > 0 {
        lemma_sum_zero(n - 1);
    }
}

proof fn lemma_sum_single(g: spec_fn(int) -> int, e: int, n: int)
    requires
        0 <= e < n,
    ensures
        sum_to(|j: int| if j == e { g(j) } else { 0 }, n) == g(e),
    decreases n,
{
    let pe = |j: int| if j == e { g(j) } else { 0 };
    if n - 1 > e {
        lemma_sum_single(g, e, n - 1);
    } else {
        lemma_sum_diff(pe, |j: int| 0int, |j: int| 0int, |j: int| 0int, n - 1);
        lemma_sum_zero(n - 1);
    }
}

/// Number of picks among `kept[..k]` whose list names item `j`.
pub open spec fn cover_count(c: Seq<Seq<u32>>, kept: Seq<usize>, j: int, k: int) -> nat
    decreases k,
{
    if k <= 0 {
        0
    } else {
        cover_count(c, kept, j, k - 1) + if items_of(c[kept[k - 1] as int]).contains(j) {
            1nat
        } else {
            0nat
        }
    }
}

/// An item is covered exactly when some pick names it, and no more picks
/// than there are name it.
proof fn lemma_cover_count(c: Seq<Seq<u32>>, kept: Seq<usize>, j: int, k: int)
    requires
        0 <= k <= kept.len(),
    ensures
        cover_count(c, kept, j, k) <= k,
        cover_count(c, kept, j, k) > 0 <==> exists|p: int| 0 <= p < k && items_of(c[kept[p] as int]).contains(j),
    decreases k,
{
    if k > 0 {
        lemma_cover_count(c, kept, j, k - 1);
        if exists|p: int| 0 <= p < k && items_of(c[kept[p] as int]).contains(j) {
            let p = choose|p: int| 0 <= p < k && items_of(c[kept[p] as int]).contains(j);
            if p < k - 1 {
                assert(exists|p2: int| 0 <= p2 < k - 1 && items_of(c[kept[p2] as int]).contains(j));
            }
        }
    }
}

/// Replacing one pick changes each count by what the two lists name.
proof fn lemma_cover_count_update(c: Seq<Seq<u32>>, kept: Seq<usize>, pos: int, x: usize, j: int, k: int)
    requires
        0 <= pos < kept.len(),
        0 <= k <= kept.len(),
    ensures
        cover_count(c, kept.update(pos, x), j, k) + (if pos < k && items_of(c[kept[pos] as int]).contains(j) {
            1int
        } else {
            0int
        }) == cover_count(c, kept, j, k) + (if pos < k && items_of(c[x as int]).contains(j) {
            1int
        } else {
            0int
        }),
    decreases k,
{
    if k > 0 {
        lemma_cover_count_update(c, kept, pos, x, j, k - 1);
    }
}

/// The items covered by the picks, by count.
proof fn lemma_covered_count(c: Seq<Seq<u32>>, kept: Seq<usize>, j: int)
    ensures
        covered(c, as_ints(kept)).contains(j) <==> cover_count(c, kept, j, kept.len() as int) > 0,
{
    lemma_cover_count(c, kept, j, kept.len() as int);
    let ks = as_ints(kept);
    if covered(c, ks).contains(j) {
        let (q, t) = choose|q: int, t: int| 0 <= q < ks.len() && 0 <= t < c[ks[q]].len() && c[ks[q]][t] as int == j;
        assert(items_of(c[kept[q] as int]).contains(j));
    }
    if cover_count(c, kept, j, kept.len() as int) > 0 {
        let p = choose|p: int| 0 <= p < kept.len() && items_of(c[kept[p] as int]).contains(j);
        let t = choose|t: int| 0 <= t < c[kept[p] as int].len() && c[kept[p] as int][t] as int == j;
        assert(ks[p] == kept[p] as int);
        assert(covered(c, ks).contains(j));
    }
}

/// Total item weight, as a sum.
pub open spec fn total_weight(w: Seq<usize>) -> int {
    sum_to(|j: int| w[j] as int, w.len() as int)
}

/// Weight of what the picks cover, counted through the cover counts.
proof fn lemma_weight_by_count(c: Seq<Seq<u32>>, kept: Seq<usize>, w: Seq<usize>)
    ensures
        weight_of(covered(c, as_ints(kept)), w) == sum_to(
            |j: int| if cover_count(c, kept, j, kept.len() as int) > 0 { w[j] as int } else { 0 },
            w.len() as int,
        ),
{
    let cv = covered(c, as_ints(kept));
    let f = |j: int| if cv.contains(j) { w[j] as int } else { 0 };
    let g = |j: int| if cover_count(c, kept, j, kept.len() as int) > 0 { w[j] as int } else { 0 };
    assert forall|j: int| 0 <= j < w.len() implies #[trigger] f(j) - g(j) == (|j: int| 0int)(j) - (|j: int| 0int)(j) by {
        lemma_covered_count(c, kept, j);
    }
    lemma_sum_diff(f, g, |j: int| 0int, |j: int| 0int, w.len() as int);
}

/// The weight the entries of a list without repeats add, bounded by the total.
proof fn lemma_list_sum_bound(list: Seq<u32>, g: spec_fn(int) -> int, w: Seq<usize>)
    requires
        list.no_duplicates(),
        forall|t: int| 0 <= t < list.len() ==> (#[trigger] list[t]) < w.len(),
        forall|j: int| 0 <= j < w.len() ==> 0 <= #[trigger] g(j) <= w[j],
    ensures
        0 <= list_sum(list, g) <= total_weight(w),
{
    lemma_list_sum(list, g, w.len() as int);
    let f = |j: int| if items_of(list).contains(j) { g(j) } else { 0 };
    assert forall|j: int| 0 <= j < w.len() implies #[trigger] f(j) <= (|j: int| w[j] as int)(j) by {
        assert(0 <= g(j) <= w[j]);
    }
    lemma_sum_le(f, |j: int| w[j] as int, w.len() as int);
    assert forall|j: int| 0 <= j < w.len() implies (|j: int| 0int)(j) <= #[trigger] f(j) by {}
    lemma_sum_le(|j: int| 0int, f, w.len() as int);
    lemma_sum_zero(w.len() as int);
}

/// Whether a list's items are distinct and name items below `n`.
pub open spec fn clean_list(l: Seq<u32>, n: int) -> bool {
    l.no_duplicates() && forall|t: int| 0 <= t < l.len() ==> (#[trigger] l[t]) < n
}

/// Weight of the entries of `list` that no pick covers.
fn uncovered_weight(list: &Vec<u32>, w: &[usize], count: &Vec<u32>) -> (r: usize)
    requires
        count.len() == w.len(),
        clean_list(list@, w.len() as int),
        total_weight(w@) <= usize::MAX,
    ensures
        r == list_sum(list@, |j: int| if count@[j] == 0 { w@[j] as int } else { 0 }),
{
    let ghost g = |j: int| if count@[j] == 0 { w@[j] as int } else { 0 };
    let mut sum: usize = 0;
    let mut t: usize = 0;
    while t < list.len()
        invariant
            t <= list.len(),
            count.len() == w.len(),
            clean_list(list@, w.len() as int),
            total_weight(w@) <= usize::MAX,
            g == (|j: int| if count@[j] == 0 { w@[j] as int } else { 0 }),
            sum == list_sum(list@.take(t as int), g),
        decreases list.len() - t,
    {
        let j = list[t] as usize;
        proof {
            let pre = list@.take(t as int + 1);
            assert(pre.drop_last() =~= list@.take(t as int));
            assert(pre.no_duplicates());
            lemma_list_sum_bound(pre, g, w@);
        }
        if count[j] == 0 {
            sum = sum + w[j];
        }
        t = t + 1;
    }
    assert(list@.take(list.len() as int) =~= list@);
    sum
}

/// Weight of the entries of `list` that no other pick covers and that
/// `marks` does not hold.
fn exclusive_weight(list: &Vec<u32>, w: &[usize], count: &Vec<u32>, marks: &Vec<bool>) -> (r: usize)
    requires
        count.len() == w.len(),
        marks.len() == w.len(),
        clean_list(list@, w.len() as int),
        total_weight(w@) <= usize::MAX,
    ensures
        r == list_sum(list@, |j: int| if count@[j] == 1 && !marks@[j] { w@[j] as int } else { 0 }),
{
    let ghost g = |j: int| if count@[j] == 1 && !marks@[j] { w@[j] as int } else { 0 };
    let mut sum: usize = 0;
    let mut t: usize = 0;
    while t < list.len()
        invariant
            t <= list.len(),
            count.len() == w.len(),
            marks.len() == w.len(),
            clean_list(list@, w.len() as int),
            total_weight(w@) <= usize::MAX,
            g == (|j: int| if count@[j] == 1 && !marks@[j] { w@[j] as int } else { 0 }),
            sum == list_sum(list@.take(t as int), g),
        decreases list.len() - t,
    {
        let j = list[t] as usize;
        proof {
            let pre = list@.take(t as int + 1);
            assert(pre.drop_last() =~= list@.take(t as int));
            assert(pre.no_duplicates());
            lemma_list_sum_bound(pre, g, w@);
        }
        if count[j] == 1 && !marks[j] {
            sum = sum + w[j];
        }
        t = t + 1;
    }
    assert(list@.take(list.len() as int) =~= list@);
    sum
}

/// Swapping pick `pos` for candidate `x` changes the covered weight by what
/// `x` newly covers minus what only the old pick covered and `x` does not.
proof fn lemma_swap_weight(c: Seq<Seq<u32>>, kept: Seq<usize>, pos: int, x: usize, w: Seq<usize>)
    requires
        0 <= pos < kept.len(),
        clean_list(c[kept[pos] as int], w.len() as int),
        clean_list(c[x as int], w.len() as int),
    ensures
        weight_of(covered(c, as_ints(kept.update(pos, x))), w) - weight_of(covered(c, as_ints(kept)), w)
            == list_sum(
            c[x as int],
            |j: int| if cover_count(c, kept, j, kept.len() as int) == 0 { w[j] as int } else { 0 },
        ) - list_sum(
            c[kept[pos] as int],
            |j: int|
                if cover_count(c, kept, j, kept.len() as int) == 1 && !items_of(c[x as int]).contains(j) {
                    w[j] as int
                } else {
                    0
                },
        ),
{
    let k = kept.len() as int;
    let nk = kept.update(pos, x);
    let out = c[kept[pos] as int];
    let inl = c[x as int];
    let n = w.len() as int;
    let g = |j: int| if cover_count(c, kept, j, k) == 0 { w[j] as int } else { 0 };
    let l = |j: int| if cover_count(c, kept, j, k) == 1 && !items_of(inl).contains(j) { w[j] as int } else { 0 };
    lemma_weight_by_count(c, kept, w);
    lemma_weight_by_count(c, nk, w);
    lemma_list_sum(inl, g, n);
    lemma_list_sum(out, l, n);
    let fo = |j: int| if cover_count(c, kept, j, k) > 0 { w[j] as int } else { 0 };
    let fnew = |j: int| if cover_count(c, nk, j, k) > 0 { w[j] as int } else { 0 };
    let gi = |j: int| if items_of(inl).contains(j) { g(j) } else { 0 };
    let li = |j: int| if items_of(out).contains(j) { l(j) } else { 0 };
    assert forall|j: int| 0 <= j < n implies #[trigger] fnew(j) - fo(j) == gi(j) - li(j) by {
        lemma_cover_count_update(c, kept, pos, x, j, k);
        lemma_cover_count(c, kept, j, k);
        if items_of(out).contains(j) {
            assert(items_of(c[kept[pos] as int]).contains(j));
        }
    }
    lemma_sum_diff(fnew, fo, gi, li, n);
}

/// The weight candidate `x` would newly cover.
pub open spec fn new_gain(c: Seq<Seq<u32>>, w: Seq<usize>, kept: Seq<usize>, x: int) -> int {
    list_sum(c[x], |j: int| if cover_count(c, kept, j, kept.len() as int) == 0 { w[j] as int } else { 0 })
}

/// The weight lost when pick `pos` leaves for candidate `x`: what only the
/// pick covers and `x` does not.
pub open spec fn swap_loss(c: Seq<Seq<u32>>, w: Seq<usize>, kept: Seq<usize>, pos: int, x: int) -> int {
    list_sum(
        c[kept[pos] as int],
        |j: int|
            if cover_count(c, kept, j, kept.len() as int) == 1 && !items_of(c[x]).contains(j) {
                w[j] as int
            } else {
                0
            },
    )
}

/// Whether `x` is the unpicked candidate of `0..m` ranked first: positive
/// new weight, the most of it, the lowest index among equals.
pub open spec fn ranked_first(c: Seq<Seq<u32>>, w: Seq<usize>, kept: Seq<usize>, m: int, x: int) -> bool {
    &&& 0 <= x < m
    &&& !kept.contains(x as usize)
    &&& new_gain(c, w, kept, x) > 0
    &&& forall|y: int|
        0 <= y < m && !kept.contains(y as usize) && new_gain(c, w, kept, y) > 0 ==> !(new_gain(c, w, kept, y) > new_gain(
            c,
            w,
            kept,
            x,
        ) || (new_gain(c, w, kept, y) == new_gain(c, w, kept, x) && y < x))
}

/// Whether bringing in the first-ranked unpicked candidate, in place of any
/// pick, fails to raise the covered weight.
pub open spec fn swap_settled(c: Seq<Seq<u32>>, w: Seq<usize>, kept: Seq<usize>, m: int) -> bool {
    forall|x: int, pos: int|
        #![trigger ranked_first(c, w, kept, m, x), swap_loss(c, w, kept, pos, x)]
        ranked_first(c, w, kept, m, x) && 0 <= pos < kept.len() ==> new_gain(c, w, kept, x) <= swap_loss(
            c,
            w,
            kept,
            pos,
            x,
        )
}

/// Inbound candidates tried per round before concluding no swap pays.
pub const TRY_INBOUND: usize = 24;

/// Whether entry `a` (gain, candidate) ranks ahead of entry `b`: higher gain,
/// or equal gain and lower candidate index.
pub open spec fn entry_ahead(a: (usize, usize), b: (usize, usize)) -> bool {
    a.0 > b.0 || (a.0 == b.0 && a.1 < b.1)
}

/// Positions of the `limit` best entries of `inbound` by gain, highest gain
/// first and lower candidate index first among equal gains (the earlier
/// position among equal entries).
fn top_entries(inbound: &Vec<(usize, usize)>, limit: usize) -> (r: Vec<usize>)
    ensures
        r.len() <= limit,
        r.len() == (if limit < inbound.len() { limit as int } else { inbound.len() as int }),
        r@.no_duplicates(),
        forall|q: int| 0 <= q < r.len() ==> #[trigger] r@[q] < inbound.len(),
        forall|a: int, b: int| 0 <= a < b < r.len() ==> !entry_ahead(inbound@[#[trigger] r@[b] as int], inbound@[#[trigger] r@[a] as int]),
        forall|p: int, q: int|
            0 <= p < inbound.len() && !r@.contains(p as usize) && 0 <= q < r.len() ==> !entry_ahead(
                #[trigger] inbound@[p],
                inbound@[#[trigger] r@[q] as int],
            ),
{
    let mut used: Vec<bool> = Vec::new();
    let mut i: usize = 0;
    while i < inbound.len()
        invariant
            i <= inbound.len(),
            used.len() == i,
            forall|k: int| 0 <= k < i ==> !(#[trigger] used@[k]),
        decreases inbound.len() - i,
    {
        used.push(false);
        i = i + 1;
    }
    let mut out: Vec<usize> = Vec::new();
    let mut done = false;
    while out.len() < limit && !done
        invariant
            used.len() == inbound.len(),
            out.len() <= limit,
            forall|q: int| 0 <= q < out.len() ==> #[trigger] out@[q] < inbound.len(),
            out@.no_duplicates(),
            forall|k: int| 0 <= k < inbound.len() ==> (#[trigger] used@[k] <==> out@.contains(k as usize)),
            forall|a: int, b: int| 0 <= a < b < out.len() ==> !entry_ahead(inbound@[#[trigger] out@[b] as int], inbound@[#[trigger] out@[a] as int]),
            forall|p: int, q: int|
                0 <= p < inbound.len() && !used@[p] && 0 <= q < out.len() ==> !entry_ahead(
                    #[trigger] inbound@[p],
                    inbound@[#[trigger] out@[q] as int],
                ),
            done ==> forall|k: int| 0 <= k < inbound.len() ==> #[trigger] used@[k],
        decreases limit - out.len() + if done { 0int } else { 1int },
    {
        let mut best: usize = inbound.len();
        let mut k: usize = 0;
        while k < inbound.len()
            invariant
                k <= inbound.len(),
                used.len() == inbound.len(),
                best <= inbound.len(),
                best == inbound.len() ==> forall|w: int| 0 <= w < k ==> #[trigger] used@[w],
                best < inbound.len() ==> best < k && !used@[best as int],
                best < inbound.len() ==> forall|w: int|
                    0 <= w < k && !(#[trigger] used@[w]) ==> !entry_ahead(inbound@[w], inbound@[best as int]),
            decreases inbound.len() - k,
        {
            if !used[k] {
                if best == inbound.len() {
                    best = k;
                } else {
                    let (g, ci) = inbound[k];
                    let (bg, bc) = inbound[best];
                    if g > bg || (g == bg && ci < bc) {
                        best = k;
                    }
                }
            }
            k = k + 1;
        }
        if best == inbound.len() {
            done = true;
        } else {
            let ghost o0 = out@;
            let ghost u0 = used@;
            used.set(best, true);
            out.push(best);
            proof {
                assert(!o0.contains(best)) by {
                    assert(!u0[best as int]);
                }
                assert(out@.no_duplicates()) by {
                    assert forall|a: int, b: int| 0 <= a < b < out@.len() implies out@[a] != out@[b] by {
                        if b == o0.len() {
                            assert(out@[a] == o0[a]);
                            assert(o0.contains(o0[a]));
                        } else {
                            assert(out@[a] == o0[a] && out@[b] == o0[b]);
                        }
                    }
                }
                assert forall|k2: int| 0 <= k2 < inbound.len() implies (#[trigger] used@[k2] <==> out@.contains(k2 as usize)) by {
                    if k2 != best as int {
                        assert(used@[k2] == u0[k2]);
                        if out@.contains(k2 as usize) {
                            let w = choose|w: int| 0 <= w < out@.len() && out@[w] == k2 as usize;
                            assert(w < o0.len());
                            assert(o0[w] == k2 as usize);
                        }
                        if o0.contains(k2 as usize) {
                            let w = choose|w: int| 0 <= w < o0.len() && o0[w] == k2 as usize;
                            assert(out@[w] == k2 as usize);
                        }
                    } else {
                        assert(out@[o0.len() as int] == best);
                    }
                }
                assert forall|a: int, b: int| 0 <= a < b < out.len() implies !entry_ahead(inbound@[#[trigger] out@[b] as int], inbound@[#[trigger] out@[a] as int]) by {
                    assert(out@[a] == o0[a]);
                    if b < o0.len() {
                        assert(out@[b] == o0[b]);
                    } else {
                        assert(!u0[best as int]);
                    }
                }
                assert forall|p: int, q: int|
                    0 <= p < inbound.len() && !used@[p] && 0 <= q < out.len() implies !entry_ahead(
                    #[trigger] inbound@[p],
                    inbound@[#[trigger] out@[q] as int],
                ) by {
                    assert(p != best as int);
                    assert(!u0[p]);
                    if q < o0.len() {
                        assert(out@[q] == o0[q]);
                    }
                }
            }
        }
    }
    proof {
        if done {
            let oi = out@.map_values(|x: usize| x as int);
            assert forall|u: int| 0 <= u < inbound.len() implies oi.contains(u) by {
                assert(used@[u]);
                assert(out@.contains(u as usize));
                let w = choose|w: int| 0 <= w < out@.len() && out@[w] == u as usize;
                assert(oi[w] == u);
            }
            crate::components::lemma_picked_all(oi, inbound.len() as int);
            crate::chunk_greedy::lemma_distinct_bounded(out@, inbound.len() as int);
        } else {
            crate::chunk_greedy::lemma_distinct_bounded(out@, inbound.len() as int);
        }
        assert forall|p: int, q: int|
            0 <= p < inbound.len() && !out@.contains(p as usize) && 0 <= q < out.len() implies !entry_ahead(
            #[trigger] inbound@[p],
            inbound@[#[trigger] out@[q] as int],
        ) by {
            assert(!used@[p]);
        }
    }
    out
}

/// The cover counts of the picks `kept`.
fn initial_counts(kept: &Vec<usize>, candidates: &[Vec<u32>], n: usize) -> (r: Vec<u32>)
    requires
        forall|p: int| 0 <= p < kept.len() ==> #[trigger] kept@[p] < candidates.len(),
        kept.len() <= u32::MAX,
        forall|i: int| 0 <= i < candidates.len() ==> clean_list(#[trigger] candidates@[i]@, n as int),
    ensures
        r.len() == n,
        forall|j: int| 0 <= j < n ==> #[trigger] r@[j] == cover_count(lists(candidates@), kept@, j, kept.len() as int),
{
    let ghost c = lists(candidates@);
    let mut count: Vec<u32> = Vec::new();
    let mut j: usize = 0;
    while j < n
        invariant
            j <= n,
            count.len() == j,
            forall|q: int| 0 <= q < j ==> count@[q] == 0,
        decreases n - j,
    {
        count.push(0);
        j = j + 1;
    }
    let mut p: usize = 0;
    while p < kept.len()
        invariant
            p <= kept.len() <= u32::MAX,
            c == lists(candidates@),
            count.len() == n,
            forall|q: int| 0 <= q < kept.len() ==> #[trigger] kept@[q] < candidates.len(),
            forall|i: int| 0 <= i < candidates.len() ==> clean_list(#[trigger] candidates@[i]@, n as int),
            forall|jj: int| 0 <= jj < n ==> #[trigger] count@[jj] == cover_count(c, kept@, jj, p as int),
        decreases kept.len() - p,
    {
        let list = &candidates[kept[p]];
        assert(list@ == c[kept@[p as int] as int]);
        let ghost before = count@;
        let mut t: usize = 0;
        while t < list.len()
            invariant
                t <= list.len(),
                p < kept.len() <= u32::MAX,
                count.len() == n,
                clean_list(list@, n as int),
                forall|jj: int| 0 <= jj < n ==> before[jj] == cover_count(c, kept@, jj, p as int),
                forall|jj: int|
                    0 <= jj < n ==> #[trigger] count@[jj] == before[jj] + if items_of(list@.take(t as int)).contains(jj) {
                        1int
                    } else {
                        0int
                    },
            decreases list.len() - t,
        {
            let it = list[t] as usize;
            proof {
                lemma_cover_count(c, kept@, it as int, p as int);
                assert(!items_of(list@.take(t as int)).contains(it as int)) by {
                    if items_of(list@.take(t as int)).contains(it as int) {
                        let tt = choose|tt: int| 0 <= tt < t && #[trigger] list@.take(t as int)[tt] as int == it as int;
                        assert(list@[tt] == list@[t as int]);
                    }
                }
            }
            let ghost c0 = count@;
            count.set(it, count[it] + 1);
            assert forall|jj: int|
                0 <= jj < n implies #[trigger] count@[jj] == before[jj] + if items_of(list@.take(t as int + 1)).contains(jj) {
                    1int
                } else {
                    0int
                } by {
                if items_of(list@.take(t as int)).contains(jj) {
                    let tt = choose|tt: int| 0 <= tt < t && #[trigger] list@.take(t as int)[tt] as int == jj;
                    assert(list@.take(t as int + 1)[tt] as int == jj);
                }
                if jj == it as int {
                    assert(list@.take(t as int + 1)[t as int] as int == jj);
                } else if items_of(list@.take(t as int + 1)).contains(jj) {
                    let tt = choose|tt: int| 0 <= tt < t + 1 && #[trigger] list@.take(t as int + 1)[tt] as int == jj;
                    assert(list@.take(t as int)[tt] as int == jj);
                }
            }
            t = t + 1;
        }
        assert(list@.take(list.len() as int) =~= list@);
        p = p + 1;
    }
    count
}

/// Sets the marks of the items of `list` to `value`.
fn set_marks(marks: &mut Vec<bool>, list: &Vec<u32>, value: bool)
    requires
        clean_list(list@, old(marks).len() as int),
    ensures
        final(marks).len() == old(marks).len(),
        forall|j: int|
            0 <= j < old(marks).len() ==> #[trigger] final(marks)@[j] == if items_of(list@).contains(j) {
                value
            } else {
                old(marks)@[j]
            },
{
    let ghost m0 = marks@;
    let mut t: usize = 0;
    while t < list.len()
        invariant
            t <= list.len(),
            marks.len() == m0.len(),
            clean_list(list@, m0.len() as int),
            forall|j: int|
                0 <= j < m0.len() ==> #[trigger] marks@[j] == if items_of(list@.take(t as int)).contains(j) {
                    value
                } else {
                    m0[j]
                },
        decreases list.len() - t,
    {
        let it = list[t] as usize;
        marks.set(it, value);
        assert forall|j: int|
            0 <= j < m0.len() implies #[trigger] marks@[j] == if items_of(list@.take(t as int + 1)).contains(j) {
                value
            } else {
                m0[j]
            } by {
            if items_of(list@.take(t as int)).contains(j) {
                let tt = choose|tt: int| 0 <= tt < t && #[trigger] list@.take(t as int)[tt] as int == j;
                assert(list@.take(t as int + 1)[tt] as int == j);
            }
            if j == it as int {
                assert(list@.take(t as int + 1)[t as int] as int == j);
            } else if items_of(list@.take(t as int + 1)).contains(j) {
                let tt = choose|tt: int| 0 <= tt < t + 1 && #[trigger] list@.take(t as int + 1)[tt] as int == j;
                assert(list@.take(t as int)[tt] as int == j);
            }
        }
        t = t + 1;
    }
    assert(list@.take(list.len() as int) =~= list@);
}

/// Moves the cover counts from the picks `kept` to the picks with
/// position `pos` replaced by `x`.
fn swap_counts(
    count: &mut Vec<u32>,
    out_list: &Vec<u32>,
    in_list: &Vec<u32>,
    Ghost(c): Ghost<Seq<Seq<u32>>>,
    Ghost(kept): Ghost<Seq<usize>>,
    Ghost(pos): Ghost<int>,
    Ghost(x): Ghost<usize>,
)
    requires
        0 <= pos < kept.len() <= u32::MAX,
        out_list@ == c[kept[pos] as int],
        in_list@ == c[x as int],
        clean_list(out_list@, old(count).len() as int),
        clean_list(in_list@, old(count).len() as int),
        forall|j: int| 0 <= j < old(count).len() ==> #[trigger] old(count)@[j] == cover_count(c, kept, j, kept.len() as int),
    ensures
        final(count).len() == old(count).len(),
        forall|j: int|
            0 <= j < old(count).len() ==> #[trigger] final(count)@[j] == cover_count(
                c,
                kept.update(pos, x),
                j,
                kept.len() as int,
            ),
{
    let ghost n = count.len() as int;
    let ghost k = kept.len() as int;
    let ghost a = count@;
    let mut t: usize = 0;
    while t < out_list.len()
        invariant
            t <= out_list.len(),
            count.len() == n,
            0 <= pos < k == kept.len(),
            out_list@ == c[kept[pos] as int],
            clean_list(out_list@, n),
            forall|j: int| 0 <= j < n ==> a[j] == cover_count(c, kept, j, k),
            forall|j: int|
                0 <= j < n ==> #[trigger] count@[j] == a[j] - if items_of(out_list@.take(t as int)).contains(j) {
                    1int
                } else {
                    0int
                },
        decreases out_list.len() - t,
    {
        let it = out_list[t] as usize;
        proof {
            assert(items_of(c[kept[pos] as int]).contains(it as int)) by {
                assert(out_list@[t as int] as int == it as int);
            }
            lemma_cover_count(c, kept, it as int, k);
            assert(!items_of(out_list@.take(t as int)).contains(it as int)) by {
                if items_of(out_list@.take(t as int)).contains(it as int) {
                    let tt = choose|tt: int| 0 <= tt < t && #[trigger] out_list@.take(t as int)[tt] as int == it as int;
                    assert(out_list@[tt] == out_list@[t as int]);
                }
            }
        }
        count.set(it, count[it] - 1);
        assert forall|j: int|
            0 <= j < n implies #[trigger] count@[j] == a[j] - if items_of(out_list@.take(t as int + 1)).contains(j) {
                1int
            } else {
                0int
            } by {
            if items_of(out_list@.take(t as int)).contains(j) {
                let tt = choose|tt: int| 0 <= tt < t && #[trigger] out_list@.take(t as int)[tt] as int == j;
                assert(out_list@.take(t as int + 1)[tt] as int == j);
            }
            if j == it as int {
                assert(out_list@.take(t as int + 1)[t as int] as int == j);
            } else if items_of(out_list@.take(t as int + 1)).contains(j) {
                let tt = choose|tt: int| 0 <= tt < t + 1 && #[trigger] out_list@.take(t as int + 1)[tt] as int == j;
                assert(out_list@.take(t as int)[tt] as int == j);
            }
        }
        t = t + 1;
    }
    assert(out_list@.take(out_list.len() as int) =~= out_list@);
    let ghost b = count@;
    let mut t: usize = 0;
    while t < in_list.len()
        invariant
            t <= in_list.len(),
            count.len() == n,
            0 <= pos < k == kept.len() <= u32::MAX,
            out_list@ == c[kept[pos] as int],
            in_list@ == c[x as int],
            clean_list(in_list@, n),
            forall|j: int| 0 <= j < n ==> a[j] == cover_count(c, kept, j, k),
            forall|j: int|
                0 <= j < n ==> b[j] == a[j] - if items_of(out_list@).contains(j) {
                    1int
                } else {
                    0int
                },
            forall|j: int|
                0 <= j < n ==> #[trigger] count@[j] == b[j] + if items_of(in_list@.take(t as int)).contains(j) {
                    1int
                } else {
                    0int
                },
        decreases in_list.len() - t,
    {
        let it = in_list[t] as usize;
        proof {
            assert(items_of(c[x as int]).contains(it as int)) by {
                assert(in_list@[t as int] as int == it as int);
            }
            lemma_cover_count_update(c, kept, pos, x, it as int, k);
            lemma_cover_count(c, kept.update(pos, x), it as int, k);
            assert(!items_of(in_list@.take(t as int)).contains(it as int)) by {
                if items_of(in_list@.take(t as int)).contains(it as int) {
                    let tt = choose|tt: int| 0 <= tt < t && #[trigger] in_list@.take(t as int)[tt] as int == it as int;
                    assert(in_list@[tt] == in_list@[t as int]);
                }
            }
        }
        count.set(it, count[it] + 1);
        assert forall|j: int|
            0 <= j < n implies #[trigger] count@[j] == b[j] + if items_of(in_list@.take(t as int + 1)).contains(j) {
                1int
            } else {
                0int
            } by {
            if items_of(in_list@.take(t as int)).contains(j) {
                let tt = choose|tt: int| 0 <= tt < t && #[trigger] in_list@.take(t as int)[tt] as int == j;
                assert(in_list@.take(t as int + 1)[tt] as int == j);
            }
            if j == it as int {
                assert(in_list@.take(t as int + 1)[t as int] as int == j);
            } else if items_of(in_list@.take(t as int + 1)).contains(j) {
                let tt = choose|tt: int| 0 <= tt < t + 1 && #[trigger] in_list@.take(t as int + 1)[tt] as int == j;
                assert(in_list@.take(t as int)[tt] as int == j);
            }
        }
        t = t + 1;
    }
    assert(in_list@.take(in_list.len() as int) =~= in_list@);
    assert forall|j: int| 0 <= j < n implies #[trigger] count@[j] == cover_count(c, kept.update(pos, x), j, k) by {
        lemma_cover_count_update(c, kept, pos, x, j, k);
    }
}

/// Sums over a list agree when the summands agree on its entries.
proof fn lemma_list_sum_ext(list: Seq<u32>, f: spec_fn(int) -> int, g: spec_fn(int) -> int)
    requires
        forall|t: int| 0 <= t < list.len() ==> f(#[trigger] list[t] as int) == g(list[t] as int),
    ensures
        list_sum(list, f) == list_sum(list, g),
    decreases list.len(),
{
    if list.len() > 0 {
        let l2 = list.drop_last();
        assert forall|t: int| 0 <= t < l2.len() implies f(#[trigger] l2[t] as int) == g(l2[t] as int) by {
            assert(l2[t] == list[t]);
        }
        lemma_list_sum_ext(l2, f, g);
        assert(f(list[list.len() - 1] as int) == g(list[list.len() - 1] as int));
    }
}

/// Whether `y` is an unpicked candidate of `0..m` with new weight.
pub open spec fn is_inbound(c: Seq<Seq<u32>>, w: Seq<usize>, kept: Seq<usize>, m: int, y: int) -> bool {
    0 <= y < m && !kept.contains(y as usize) && new_gain(c, w, kept, y) > 0
}

/// Whether `y` ranks ahead of `x` for coming in: more new weight, or equal
/// new weight and a lower index.
pub open spec fn inbound_ahead(c: Seq<Seq<u32>>, w: Seq<usize>, kept: Seq<usize>, y: int, x: int) -> bool {
    new_gain(c, w, kept, y) > new_gain(c, w, kept, x) || (new_gain(c, w, kept, y) == new_gain(c, w, kept, x) && y < x)
}

/// The inbound candidates ranked ahead of `x`.
pub open spec fn ahead_of(c: Seq<Seq<u32>>, w: Seq<usize>, kept: Seq<usize>, m: int, x: int) -> Set<int> {
    Set::new(|y: int| is_inbound(c, w, kept, m, y) && inbound_ahead(c, w, kept, y, x))
}

/// Whether inbound candidate `x` is among the first [`TRY_INBOUND`] ranked.
pub open spec fn tried(c: Seq<Seq<u32>>, w: Seq<usize>, kept: Seq<usize>, m: int, x: int) -> bool {
    is_inbound(c, w, kept, m, x) && ahead_of(c, w, kept, m, x).len() < TRY_INBOUND
}

/// Whether pick `pos` is the one that gives way to `x`: least loss, the
/// lower candidate index among equal losses.
pub open spec fn cheapest_out(c: Seq<Seq<u32>>, w: Seq<usize>, kept: Seq<usize>, x: int, pos: int) -> bool {
    &&& 0 <= pos < kept.len()
    &&& forall|p2: int|
        0 <= p2 < kept.len() ==> swap_loss(c, w, kept, pos, x) < #[trigger] swap_loss(c, w, kept, p2, x) || (swap_loss(
            c,
            w,
            kept,
            pos,
            x,
        ) == swap_loss(c, w, kept, p2, x) && kept[pos] <= kept[p2])
}

/// The move of a round: `x` is the first-ranked tried candidate whose
/// cheapest pairing pays, and `pos` that pairing.
pub open spec fn round_move(c: Seq<Seq<u32>>, w: Seq<usize>, kept: Seq<usize>, m: int, x: int, pos: int) -> bool {
    &&& tried(c, w, kept, m, x)
    &&& cheapest_out(c, w, kept, x, pos)
    &&& new_gain(c, w, kept, x) > swap_loss(c, w, kept, pos, x)
    &&& forall|y: int, p: int|
        #![trigger tried(c, w, kept, m, y), swap_loss(c, w, kept, p, y)]
        tried(c, w, kept, m, y) && inbound_ahead(c, w, kept, y, x) && 0 <= p < kept.len() ==> new_gain(c, w, kept, y)
            <= swap_loss(c, w, kept, p, y)
}

/// The picks after up to `k` interchange rounds, stopping at the first
/// round with no move.
pub open spec fn swap_run(c: Seq<Seq<u32>>, w: Seq<usize>, kept: Seq<usize>, m: int, k: int) -> Seq<usize>
    decreases k,
{
    if k <= 0 {
        kept
    } else if exists|x: int, pos: int| #[trigger] round_move(c, w, kept, m, x, pos) {
        let (x, pos) = choose|x: int, pos: int| #[trigger] round_move(c, w, kept, m, x, pos);
        swap_run(c, w, kept.update(pos, x as usize), m, k - 1)
    } else {
        kept
    }
}

/// A round's move is unique.
proof fn lemma_round_move_unique(c: Seq<Seq<u32>>, w: Seq<usize>, kept: Seq<usize>, m: int, x1: int, p1: int, x2: int, p2: int)
    requires
        kept.no_duplicates(),
        round_move(c, w, kept, m, x1, p1),
        round_move(c, w, kept, m, x2, p2),
    ensures
        x1 == x2 && p1 == p2,
{
    if x1 != x2 {
        if inbound_ahead(c, w, kept, x2, x1) {
            assert(tried(c, w, kept, m, x2));
            assert(new_gain(c, w, kept, x2) <= swap_loss(c, w, kept, p2, x2));
        } else {
            assert(inbound_ahead(c, w, kept, x1, x2));
            assert(new_gain(c, w, kept, x1) <= swap_loss(c, w, kept, p1, x1));
        }
    }
    assert(swap_loss(c, w, kept, p1, x1) <= swap_loss(c, w, kept, p2, x1));
    assert(swap_loss(c, w, kept, p2, x1) <= swap_loss(c, w, kept, p1, x1));
    assert(kept[p1] == kept[p2]);
}

/// What one round of the search needs to know of its ranked entries.
pub open spec fn round_setup(
    c: Seq<Seq<u32>>,
    w: Seq<usize>,
    kept: Seq<usize>,
    m: int,
    inbound: Seq<(usize, usize)>,
    order: Seq<usize>,
    limit: int,
) -> bool {
    &&& inbound.len() <= usize::MAX
    &&& forall|q: int|
        0 <= q < inbound.len() ==> {
            let e = #[trigger] inbound[q];
            &&& is_inbound(c, w, kept, m, e.1 as int)
            &&& e.0 as int == new_gain(c, w, kept, e.1 as int)
        }
    &&& forall|a: int, b: int| 0 <= a < b < inbound.len() ==> inbound[a].1 < inbound[b].1
    &&& forall|y: int| #[trigger] is_inbound(c, w, kept, m, y) ==> exists|q: int| 0 <= q < inbound.len() && inbound[q].1 as int == y
    &&& order.len() == (if limit < inbound.len() { limit } else { inbound.len() as int })
    &&& order.no_duplicates()
    &&& forall|q: int| 0 <= q < order.len() ==> #[trigger] order[q] < inbound.len()
    &&& forall|a: int, b: int|
        0 <= a < b < order.len() ==> !entry_ahead(inbound[#[trigger] order[b] as int], inbound[#[trigger] order[a] as int])
    &&& forall|p: int, q: int|
        0 <= p < inbound.len() && !order.contains(p as usize) && 0 <= q < order.len() ==> !entry_ahead(
            #[trigger] inbound[p],
            inbound[#[trigger] order[q] as int],
        )
}

/// The candidates of the first `q` ranked entries.
pub open spec fn order_ids(inbound: Seq<(usize, usize)>, order: Seq<usize>, q: int) -> Seq<int> {
    Seq::new(q as nat, |i: int| inbound[order[i] as int].1 as int)
}

/// The inbound candidates of `0..m`.
pub open spec fn inbound_set(c: Seq<Seq<u32>>, w: Seq<usize>, kept: Seq<usize>, m: int) -> Set<int> {
    Set::new(|y: int| is_inbound(c, w, kept, m, y))
}

/// The candidates ranked ahead of the `q`-th entry are exactly the entries
/// before it, so `q` of them; and the entries name every inbound candidate
/// once.
proof fn lemma_rank_positions(
    c: Seq<Seq<u32>>,
    w: Seq<usize>,
    kept: Seq<usize>,
    m: int,
    inbound: Seq<(usize, usize)>,
    order: Seq<usize>,
    limit: int,
)
    requires
        round_setup(c, w, kept, m, inbound, order, limit),
    ensures
        forall|q: int|
            0 <= q < order.len() ==> is_inbound(c, w, kept, m, inbound[order[q] as int].1 as int) && #[trigger] ahead_of(
                c,
                w,
                kept,
                m,
                inbound[order[q] as int].1 as int,
            ) == order_ids(inbound, order, q).to_set() && ahead_of(c, w, kept, m, inbound[order[q] as int].1 as int).len() == q,
        inbound_set(c, w, kept, m).len() == inbound.len(),
{
    assert forall|q: int|
        0 <= q < order.len() implies is_inbound(c, w, kept, m, inbound[order[q] as int].1 as int) && #[trigger] ahead_of(
            c,
            w,
            kept,
            m,
            inbound[order[q] as int].1 as int,
        ) == order_ids(inbound, order, q).to_set() && ahead_of(c, w, kept, m, inbound[order[q] as int].1 as int).len() == q by {
        let x = inbound[order[q] as int].1 as int;
        assert(order[q] < inbound.len());
        let ids = order_ids(inbound, order, q);
        assert forall|y: int| ahead_of(c, w, kept, m, x).contains(y) implies ids.to_set().contains(y) by {
            let py = choose|p: int| 0 <= p < inbound.len() && inbound[p].1 as int == y;
            if !order.contains(py as usize) {
                assert(!entry_ahead(inbound[py], inbound[order[q] as int]));
                assert(false);
            }
            let i = choose|i: int| 0 <= i < order.len() && order[i] == py as usize;
            if i > q {
                assert(!entry_ahead(inbound[order[i] as int], inbound[order[q] as int]));
                assert(false);
            }
            if i == q {
                assert(false);
            }
            assert(ids[i] == y);
        }
        assert forall|y: int| ids.to_set().contains(y) implies ahead_of(c, w, kept, m, x).contains(y) by {
            let i = choose|i: int| 0 <= i < ids.len() && ids[i] == y;
            let oi = order[i] as int;
            let oq = order[q] as int;
            assert(oi < inbound.len());
            assert(order[i] != order[q]);
            assert(!entry_ahead(inbound[oq], inbound[oi]));
            if oi < oq {
                assert(inbound[oi].1 < inbound[oq].1);
            } else {
                assert(inbound[oq].1 < inbound[oi].1);
            }
        }
        assert(ahead_of(c, w, kept, m, x) =~= ids.to_set());
        assert(ids.no_duplicates()) by {
            assert forall|a: int, b: int| 0 <= a < b < ids.len() implies ids[a] != ids[b] by {
                let oa = order[a] as int;
                let ob = order[b] as int;
                assert(order[a] != order[b]);
                assert(oa < inbound.len() && ob < inbound.len());
                if oa < ob {
                    assert(inbound[oa].1 < inbound[ob].1);
                } else {
                    assert(inbound[ob].1 < inbound[oa].1);
                }
            }
        }
        ids.unique_seq_to_set();
    }
    let all = Seq::new(inbound.len(), |p: int| inbound[p].1 as int);
    assert(all.no_duplicates()) by {
        assert forall|a: int, b: int| 0 <= a < b < all.len() implies all[a] != all[b] by {
            assert(inbound[a].1 < inbound[b].1);
        }
    }
    all.unique_seq_to_set();
    assert forall|y: int| #[trigger] inbound_set(c, w, kept, m).contains(y) <==> all.to_set().contains(y) by {
        if inbound_set(c, w, kept, m).contains(y) {
            let p = choose|p: int| 0 <= p < inbound.len() && inbound[p].1 as int == y;
            assert(all[p] == y);
        }
        if all.to_set().contains(y) {
            let p = choose|p: int| 0 <= p < all.len() && all[p] == y;
            assert(is_inbound(c, w, kept, m, inbound[p].1 as int));
        }
    }
    assert(inbound_set(c, w, kept, m) =~= all.to_set());
}

/// The `q`-th ranked entry is tried, and every inbound candidate ahead of
/// it is one of the entries before it.
proof fn lemma_tried_prefix(
    c: Seq<Seq<u32>>,
    w: Seq<usize>,
    kept: Seq<usize>,
    m: int,
    inbound: Seq<(usize, usize)>,
    order: Seq<usize>,
    q: int,
)
    requires
        round_setup(c, w, kept, m, inbound, order, TRY_INBOUND as int),
        0 <= q < order.len(),
    ensures
        tried(c, w, kept, m, inbound[order[q] as int].1 as int),
        forall|y: int|
            is_inbound(c, w, kept, m, y) && inbound_ahead(c, w, kept, y, inbound[order[q] as int].1 as int) ==> exists|i: int|
                0 <= i < q && #[trigger] inbound[order[i] as int].1 as int == y,
{
    let x = inbound[order[q] as int].1 as int;
    assert(order[q] < inbound.len());
    assert forall|y: int|
        is_inbound(c, w, kept, m, y) && inbound_ahead(c, w, kept, y, x) implies exists|i: int|
            0 <= i < q && #[trigger] inbound[order[i] as int].1 as int == y by {
        let py = choose|p: int| 0 <= p < inbound.len() && inbound[p].1 as int == y;
        if !order.contains(py as usize) {
            assert(!entry_ahead(inbound[py], inbound[order[q] as int]));
            assert(false);
        }
        let i = choose|i: int| 0 <= i < order.len() && order[i] == py as usize;
        if i > q {
            assert(!entry_ahead(inbound[order[i] as int], inbound[order[q] as int]));
            assert(false);
        }
        if i == q {
            assert(inbound[order[q] as int].1 as int == y);
            assert(false);
        }
        assert(inbound[order[i] as int].1 as int == y);
    }
    let ids = order_ids(inbound, order, q);
    assert(ahead_of(c, w, kept, m, x).subset_of(ids.to_set())) by {
        assert forall|y: int| ahead_of(c, w, kept, m, x).contains(y) implies ids.to_set().contains(y) by {
            let i = choose|i: int| 0 <= i < q && #[trigger] inbound[order[i] as int].1 as int == y;
            assert(ids[i] == y);
        }
    }
    ids.lemma_cardinality_of_set();
    lemma_len_subset(ahead_of(c, w, kept, m, x), ids.to_set());
}

/// Every tried candidate is one of the ranked entries.
proof fn lemma_tried_listed(
    c: Seq<Seq<u32>>,
    w: Seq<usize>,
    kept: Seq<usize>,
    m: int,
    inbound: Seq<(usize, usize)>,
    order: Seq<usize>,
    x: int,
)
    requires
        round_setup(c, w, kept, m, inbound, order, TRY_INBOUND as int),
        tried(c, w, kept, m, x),
    ensures
        exists|i: int| 0 <= i < order.len() && #[trigger] inbound[order[i] as int].1 as int == x,
{
    let px = choose|p: int| 0 <= p < inbound.len() && inbound[p].1 as int == x;
    if !order.contains(px as usize) {
        if order.len() == inbound.len() {
            let rng = set_int_range(0, inbound.len() as int);
            lemma_int_range(0, inbound.len() as int);
            let os = order.map_values(|v: usize| v as int);
            assert(os.no_duplicates()) by {
                assert forall|a: int, b: int| 0 <= a < b < os.len() implies os[a] != os[b] by {
                    assert(order[a] != order[b]);
                }
            }
            os.unique_seq_to_set();
            assert(os.to_set().subset_of(rng)) by {
                assert forall|v: int| os.to_set().contains(v) implies rng.contains(v) by {
                    let i = choose|i: int| 0 <= i < os.len() && os[i] == v;
                    assert(order[i] < inbound.len());
                }
            }
            lemma_subset_equality(os.to_set(), rng);
            assert(rng.contains(px));
            assert(os.to_set().contains(px));
            let i = choose|i: int| 0 <= i < os.len() && os[i] == px;
            assert(order[i] == px as usize);
            assert(false);
        } else {
            let ids = order_ids(inbound, order, order.len() as int);
            assert(ids.no_duplicates()) by {
                assert forall|a: int, b: int| 0 <= a < b < ids.len() implies ids[a] != ids[b] by {
                    let oa = order[a] as int;
                    let ob = order[b] as int;
                    assert(order[a] != order[b]);
                    assert(oa < inbound.len() && ob < inbound.len());
                    if oa < ob {
                        assert(inbound[oa].1 < inbound[ob].1);
                    } else {
                        assert(inbound[ob].1 < inbound[oa].1);
                    }
                }
            }
            ids.unique_seq_to_set();
            let ahead = ahead_of(c, w, kept, m, x);
            assert(ids.to_set().subset_of(ahead)) by {
                assert forall|y: int| ids.to_set().contains(y) implies ahead.contains(y) by {
                    let i = choose|i: int| 0 <= i < ids.len() && ids[i] == y;
                    assert(order[i] < inbound.len());
                    assert(!entry_ahead(inbound[px], inbound[order[i] as int]));
                    assert(inbound[order[i] as int].1 as int == y);
                    if y == x {
                        assert(order[i] as int != px);
                        let oi = order[i] as int;
                        if oi < px {
                            assert(inbound[oi].1 < inbound[px].1);
                        } else {
                            assert(inbound[px].1 < inbound[oi].1);
                        }
                    }
                }
            }
            lemma_int_range(0, m);
            assert(ahead.subset_of(set_int_range(0, m)));
            lemma_len_subset(ahead, set_int_range(0, m));
            lemma_len_subset(ids.to_set(), ahead);
            assert(false);
        }
    }
    let i = choose|i: int| 0 <= i < order.len() && order[i] == px as usize;
    assert(inbound[order[i] as int].1 as int == x);
}

/// A round that tried the first-ranked entries and found no paying swap
/// leaves the picks settled.
#[verifier::rlimit(40)]
proof fn lemma_round_settled(
    c: Seq<Seq<u32>>,
    w: Seq<usize>,
    kept: Seq<usize>,
    m: int,
    isk: Seq<bool>,
    inbound: Seq<(usize, usize)>,
    order: Seq<usize>,
    gain_of: spec_fn(int) -> int,
)
    requires
        isk.len() == m,
        inbound.len() <= usize::MAX,
        forall|y: int| 0 <= y < m ==> (#[trigger] isk[y] == kept.contains(y as usize)),
        forall|y: int| 0 <= y < m ==> #[trigger] gain_of(y) == new_gain(c, w, kept, y),
        forall|q: int|
            0 <= q < inbound.len() ==> {
                let e = #[trigger] inbound[q];
                &&& e.1 < m
                &&& !isk[e.1 as int]
                &&& e.0 == gain_of(e.1 as int)
                &&& e.0 > 0
            },
        forall|a: int, b: int| 0 <= a < b < inbound.len() ==> inbound[a].1 < inbound[b].1,
        forall|y: int| 0 <= y < m && !isk[y] && #[trigger] gain_of(y) > 0 ==> exists|q: int| 0 <= q < inbound.len() && inbound[q].1 == y,
        inbound.len() > 0 ==> order.len() > 0,
        forall|q: int| 0 <= q < order.len() ==> #[trigger] order[q] < inbound.len(),
        forall|p: int, q: int|
            0 <= p < inbound.len() && !order.contains(p as usize) && 0 <= q < order.len() ==> !entry_ahead(
                #[trigger] inbound[p],
                inbound[#[trigger] order[q] as int],
            ),
        forall|qq: int, pos: int|
            #![trigger order[qq], swap_loss(c, w, kept, pos, inbound[order[qq] as int].1 as int)]
            0 <= qq < order.len() && 0 <= pos < kept.len() ==> inbound[order[qq] as int].0 <= swap_loss(
                c,
                w,
                kept,
                pos,
                inbound[order[qq] as int].1 as int,
            ),
    ensures
        swap_settled(c, w, kept, m),
{
    assert forall|x: int, pos: int|
        #![trigger ranked_first(c, w, kept, m, x), swap_loss(c, w, kept, pos, x)]
        ranked_first(c, w, kept, m, x) && 0 <= pos < kept.len() implies new_gain(
        c,
        w,
        kept,
        x,
    ) <= swap_loss(c, w, kept, pos, x) by {
        assert(!isk[x]);
        assert(gain_of(x) > 0);
        let q = choose|q: int| 0 <= q < inbound.len() && inbound[q].1 == x;
        if !order.contains(q as usize) {
            let o0 = order[0] as int;
            assert(0 <= o0 < inbound.len());
            let e0 = inbound[o0];
            let y0 = e0.1 as int;
            let gx = new_gain(c, w, kept, x);
            let g0 = new_gain(c, w, kept, y0);
            assert(!entry_ahead(inbound[q], inbound[order[0] as int]));
            assert(inbound[q].0 == gain_of(x));
            assert(inbound[q].0 as int == gx);
            assert(!isk[y0] && e0.0 == gain_of(y0) && e0.0 > 0);
            assert(e0.0 as int == g0);
            assert(!kept.contains(y0 as usize));
            assert(!(g0 > gx || (g0 == gx && y0 < x)));
            assert(y0 == x);
            if o0 < q {
                assert(inbound[o0].1 < inbound[q].1);
            } else if o0 > q {
                assert(inbound[q].1 < inbound[o0].1);
            }
            assert(order[0] == q as usize);
            assert(false);
        }
        let qq = choose|qq: int| 0 <= qq < order.len() && order[qq] == q as usize;
        assert(order[qq] as int == q);
        assert(inbound[order[qq] as int] == inbound[q]);
        assert(inbound[q].1 as int == x);
        assert(inbound[q].0 == gain_of(x));
        assert(inbound[order[qq] as int].0 <= swap_loss(c, w, kept, pos, inbound[order[qq] as int].1 as int));
        assert(inbound[q].0 <= swap_loss(c, w, kept, pos, x));
    }
}

/// Post-selection interchange at fixed size: repeatedly replaces a kept
/// candidate by an unkept one when that strictly raises the covered weight.
/// Each round ranks the unkept candidates by the weight they would newly
/// cover (highest first, lower index first among equals), tries the first
/// [`TRY_INBOUND`] of them, and pairs each with the kept candidate whose
/// exclusively covered weight (ignoring items the newcomer covers too) is
/// least, the lower candidate index first among equals; the first pairing
/// that gains more than it loses is applied. Stops when no tried pairing
/// pays, after at most `max(kept.len(), 64)` rounds: unless every round
/// swapped, no pick can give way to the first-ranked newcomer with a gain.
pub fn improve_by_swap(kept: Vec<usize>, candidates: &[Vec<u32>], item_weights: &[usize]) -> (r: Vec<usize>)
    requires
        forall|p: int| 0 <= p < kept.len() ==> #[trigger] kept@[p] < candidates.len(),
        kept.len() <= u32::MAX,
        forall|i: int| 0 <= i < candidates.len() ==> clean_list(#[trigger] candidates@[i]@, item_weights.len() as int),
        total_weight(item_weights@) <= usize::MAX,
    ensures
        r.len() == kept.len(),
        forall|p: int| 0 <= p < r.len() ==> #[trigger] r@[p] < candidates.len(),
        kept@.no_duplicates() ==> r@.no_duplicates(),
        weight_of(covered(lists(candidates@), as_ints(r@)), item_weights@) >= weight_of(
            covered(lists(candidates@), as_ints(kept@)),
            item_weights@,
        ),
        r@ != kept@ ==> weight_of(covered(lists(candidates@), as_ints(r@)), item_weights@) > weight_of(
            covered(lists(candidates@), as_ints(kept@)),
            item_weights@,
        ),
        kept.len() == 0 || kept.len() >= candidates.len() ==> r@ == kept@,
        kept@.no_duplicates() && 0 < kept.len() < candidates.len() ==> r@ == swap_run(
            lists(candidates@),
            item_weights@,
            kept@,
            candidates.len() as int,
            if kept.len() > 64 {
                kept.len() as int
            } else {
                64
            },
        ),
        kept@.no_duplicates() && kept.len() < candidates.len() ==> swap_settled(
            lists(candidates@),
            item_weights@,
            r@,
            candidates.len() as int,
        ) || weight_of(covered(lists(candidates@), as_ints(r@)), item_weights@) >= weight_of(
            covered(lists(candidates@), as_ints(kept@)),
            item_weights@,
        ) + (if kept.len() > 64 {
            kept.len() as int
        } else {
            64
        }),
{
    if kept.len() == 0 || kept.len() >= candidates.len() {
        return kept;
    }
    let ghost c = lists(candidates@);
    let ghost w = item_weights@;
    let ghost k0 = kept@;
    let ghost base = weight_of(covered(c, as_ints(k0)), w);
    let n = item_weights.len();
    let m = candidates.len();
    let mut kept = kept;
    let mut count = initial_counts(&kept, candidates, n);
    let mut is_kept: Vec<bool> = Vec::new();
    let mut x: usize = 0;
    while x < m
        invariant
            x <= m,
            is_kept.len() == x,
            forall|y: int| 0 <= y < x ==> !(#[trigger] is_kept@[y]),
        decreases m - x,
    {
        is_kept.push(false);
        x = x + 1;
    }
    let mut p: usize = 0;
    while p < kept.len()
        invariant
            p <= kept.len(),
            is_kept.len() == m,
            forall|q: int| 0 <= q < kept.len() ==> #[trigger] kept@[q] < m,
            forall|y: int| 0 <= y < m ==> (#[trigger] is_kept@[y] <==> exists|q: int| 0 <= q < p && kept@[q] == y),
        decreases kept.len() - p,
    {
        let kp = kept[p];
        let ghost f0 = is_kept@;
        is_kept.set(kp, true);
        assert forall|y: int| 0 <= y < m implies (#[trigger] is_kept@[y] <==> exists|q: int|
            0 <= q < p + 1 && kept@[q] == y) by {
            if y != kp {
                assert(is_kept@[y] == f0[y]);
                if exists|q: int| 0 <= q < p + 1 && kept@[q] == y {
                    let q = choose|q: int| 0 <= q < p + 1 && kept@[q] == y;
                    assert(q != p);
                }
            } else {
                assert(kept@[p as int] == y);
            }
        }
        p = p + 1;
    }
    proof {
        assert forall|y: int| 0 <= y < m implies (#[trigger] is_kept@[y] == kept@.contains(y as usize)) by {
            if is_kept@[y] {
                let q = choose|q: int| 0 <= q < kept.len() && kept@[q] == y;
                assert(kept@[q] == y as usize);
            }
            if kept@.contains(y as usize) {
                let q = choose|q: int| 0 <= q < kept.len() && kept@[q] == y as usize;
                assert(kept@[q] == y);
            }
        }
    }
    let mut in_covers: Vec<bool> = Vec::new();
    let mut j: usize = 0;
    while j < n
        invariant
            j <= n,
            in_covers.len() == j,
            forall|y: int| 0 <= y < j ==> !(#[trigger] in_covers@[y]),
        decreases n - j,
    {
        in_covers.push(false);
        j = j + 1;
    }
    let rounds: usize = if kept.len() > 64 {
        kept.len()
    } else {
        64
    };
    let mut round: usize = 0;
    let mut done = false;
    while round < rounds && !done
        invariant
            c == lists(candidates@),
            w == item_weights@,
            n == w.len(),
            m == candidates.len(),
            kept.len() == k0.len(),
            0 < kept.len() <= u32::MAX,
            forall|q: int| 0 <= q < kept.len() ==> #[trigger] kept@[q] < m,
            forall|i: int| 0 <= i < m ==> clean_list(#[trigger] candidates@[i]@, n as int),
            total_weight(w) <= usize::MAX,
            count.len() == n,
            forall|jj: int| 0 <= jj < n ==> #[trigger] count@[jj] == cover_count(c, kept@, jj, kept.len() as int),
            is_kept.len() == m,
            in_covers.len() == n,
            forall|y: int| 0 <= y < n ==> !(#[trigger] in_covers@[y]),
            k0.no_duplicates() ==> kept@.no_duplicates() && forall|y: int|
                0 <= y < m ==> (#[trigger] is_kept@[y] == kept@.contains(y as usize)),
            weight_of(covered(c, as_ints(kept@)), w) >= base,
            kept@ != k0 ==> weight_of(covered(c, as_ints(kept@)), w) > base,
            k0.no_duplicates() && done ==> swap_settled(c, w, kept@, m as int),
            rounds == (if k0.len() > 64 { k0.len() as int } else { 64int }),
            round <= rounds,
            k0.no_duplicates() ==> swap_run(c, w, k0, m as int, rounds as int) == (if done {
                kept@
            } else {
                swap_run(c, w, kept@, m as int, rounds - round)
            }),
            !done ==> weight_of(covered(c, as_ints(kept@)), w) >= base + round,
        decreases rounds - round,
    {
        let ghost cnt_r = count@;
        let ghost isk_r = is_kept@;
        let ghost kept_r = kept@;
        let ghost weight_r = weight_of(covered(c, as_ints(kept_r)), w);
        let ghost gain_of = |ci: int| list_sum(c[ci], |jj: int| if cnt_r[jj] == 0 { w[jj] as int } else { 0 });
        let mut inbound: Vec<(usize, usize)> = Vec::new();
        let mut ci: usize = 0;
        while ci < m
            invariant
                ci <= m,
                m == candidates.len(),
                count@ == cnt_r,
                is_kept@ == isk_r,
                count.len() == n == w.len(),
                is_kept.len() == m,
                c == lists(candidates@),
                w == item_weights@,
                total_weight(w) <= usize::MAX,
                forall|i: int| 0 <= i < m ==> clean_list(#[trigger] candidates@[i]@, n as int),
                gain_of == (|ci: int| list_sum(c[ci], |jj: int| if cnt_r[jj] == 0 { w[jj] as int } else { 0 })),
                forall|q: int|
                    0 <= q < inbound.len() ==> {
                        let e = #[trigger] inbound@[q];
                        &&& e.1 < m
                        &&& !isk_r[e.1 as int]
                        &&& e.0 == gain_of(e.1 as int)
                        &&& e.0 > 0
                        &&& e.1 < ci
                    },
                forall|a: int, b: int| 0 <= a < b < inbound.len() ==> inbound@[a].1 < inbound@[b].1,
                forall|y: int|
                    0 <= y < ci && !isk_r[y] && #[trigger] gain_of(y) > 0 ==> exists|q: int|
                        0 <= q < inbound.len() && inbound@[q].1 == y,
            decreases m - ci,
        {
            let ghost in0 = inbound@;
            if !is_kept[ci] {
                assert(c[ci as int] == candidates@[ci as int]@);
                let g = uncovered_weight(&candidates[ci], item_weights, &count);
                if g > 0 {
                    inbound.push((g, ci));
                    proof {
                        assert(inbound@[in0.len() as int].1 == ci);
                        assert forall|y: int|
                            0 <= y < ci + 1 && !isk_r[y] && #[trigger] gain_of(y) > 0 implies exists|q: int|
                                0 <= q < inbound.len() && inbound@[q].1 == y by {
                            if y < ci {
                                let q = choose|q: int| 0 <= q < in0.len() && in0[q].1 == y;
                                assert(inbound@[q] == in0[q]);
                            }
                        }
                    }
                }
            }
            ci = ci + 1;
        }
        let order = top_entries(&inbound, TRY_INBOUND);
        proof {
            assert forall|jj: int| 0 <= jj < n implies #[trigger] cnt_r[jj] == cover_count(c, kept_r, jj, kept_r.len() as int) by {
                assert(count@[jj] == cnt_r[jj]);
            }
            assert forall|y: int| 0 <= y < m implies #[trigger] gain_of(y) == new_gain(c, w, kept_r, y) by {
                assert(c[y] == candidates@[y]@);
                lemma_list_sum_ext(
                    c[y],
                    |jj: int| if cnt_r[jj] == 0 { w[jj] as int } else { 0 },
                    |jj: int| if cover_count(c, kept_r, jj, kept_r.len() as int) == 0 { w[jj] as int } else { 0 },
                );
            }
            if k0.no_duplicates() {
                assert forall|qq: int| 0 <= qq < inbound.len() implies {
                    let e = #[trigger] inbound@[qq];
                    &&& is_inbound(c, w, kept_r, m as int, e.1 as int)
                    &&& e.0 as int == new_gain(c, w, kept_r, e.1 as int)
                } by {
                    let e = inbound@[qq];
                    assert(!isk_r[e.1 as int]);
                    assert(gain_of(e.1 as int) == new_gain(c, w, kept_r, e.1 as int));
                }
                assert forall|y: int| #[trigger] is_inbound(c, w, kept_r, m as int, y) implies exists|qq: int|
                    0 <= qq < inbound.len() && inbound@[qq].1 as int == y by {
                    assert(isk_r[y] == kept_r.contains(y as usize));
                    assert(gain_of(y) == new_gain(c, w, kept_r, y));
                    assert(gain_of(y) > 0);
                }
                assert(round_setup(c, w, kept_r, m as int, inbound@, order@, TRY_INBOUND as int));
            }
        }
        let ghost kr = rounds - round;
        let mut q: usize = 0;
        let mut swapped = false;
        while q < order.len() && !swapped
            invariant
                c == lists(candidates@),
                w == item_weights@,
                n == w.len(),
                m == candidates.len(),
                kept.len() == k0.len(),
                0 < kept.len() <= u32::MAX,
                forall|qq: int| 0 <= qq < kept.len() ==> #[trigger] kept@[qq] < m,
                forall|i: int| 0 <= i < m ==> clean_list(#[trigger] candidates@[i]@, n as int),
                total_weight(w) <= usize::MAX,
                count.len() == n,
                forall|jj: int| 0 <= jj < n ==> #[trigger] count@[jj] == cover_count(c, kept@, jj, kept.len() as int),
                is_kept.len() == m,
                in_covers.len() == n,
                forall|y: int| 0 <= y < n ==> !(#[trigger] in_covers@[y]),
                k0.no_duplicates() ==> kept@.no_duplicates() && forall|y: int|
                    0 <= y < m ==> (#[trigger] is_kept@[y] == kept@.contains(y as usize)),
                weight_of(covered(c, as_ints(kept@)), w) >= base,
                kept@ != k0 ==> weight_of(covered(c, as_ints(kept@)), w) > base,
                !swapped ==> count@ == cnt_r && is_kept@ == isk_r,
                !swapped ==> kept@ == kept_r,
                kept_r.len() == kept.len(),
                q <= order.len(),
                kr >= 1,
                forall|y: int| 0 <= y < m ==> #[trigger] gain_of(y) == new_gain(c, w, kept_r, y),
                k0.no_duplicates() ==> round_setup(c, w, kept_r, m as int, inbound@, order@, TRY_INBOUND as int) && kept_r.no_duplicates(),
                k0.no_duplicates() && swapped ==> swap_run(c, w, kept_r, m as int, kr) == swap_run(c, w, kept@, m as int, kr - 1),
                weight_r == weight_of(covered(c, as_ints(kept_r)), w),
                swapped ==> weight_of(covered(c, as_ints(kept@)), w) >= weight_r + 1,
                forall|jj: int| 0 <= jj < n ==> #[trigger] cnt_r[jj] == cover_count(c, kept_r, jj, kept_r.len() as int),
                !swapped ==> forall|qq: int, pos: int|
                    #![trigger order@[qq], swap_loss(c, w, kept_r, pos, inbound@[order@[qq] as int].1 as int)]
                    0 <= qq < q && 0 <= pos < kept_r.len() ==> inbound@[order@[qq] as int].0 <= swap_loss(
                        c,
                        w,
                        kept_r,
                        pos,
                        inbound@[order@[qq] as int].1 as int,
                    ),
                gain_of == (|ci: int| list_sum(c[ci], |jj: int| if cnt_r[jj] == 0 { w[jj] as int } else { 0 })),
                forall|qq: int| 0 <= qq < order.len() ==> #[trigger] order@[qq] < inbound.len(),
                forall|qq: int|
                    0 <= qq < inbound.len() ==> {
                        let e = #[trigger] inbound@[qq];
                        &&& e.1 < m
                        &&& !isk_r[e.1 as int]
                        &&& e.0 == gain_of(e.1 as int)
                    },
            decreases order.len() - q,
        {
            let (gain, c_in) = inbound[order[q]];
            let in_list = &candidates[c_in];
            assert(in_list@ == c[c_in as int]);
            set_marks(&mut in_covers, in_list, true);
            let ghost marks = in_covers@;
            let ghost lossf = |jj: int| if count@[jj] == 1 && !marks[jj] { w[jj] as int } else { 0 };
            let mut best_pos: usize = 0;
            let mut best_loss = exclusive_weight(&candidates[kept[0]], item_weights, &count, &in_covers);
            let mut pos: usize = 1;
            while pos < kept.len()
                invariant
                    1 <= pos <= kept.len(),
                    best_pos < kept.len(),
                    count.len() == n,
                    in_covers@ == marks,
                    marks.len() == n,
                    forall|qq: int| 0 <= qq < kept.len() ==> #[trigger] kept@[qq] < m,
                    forall|i: int| 0 <= i < m ==> clean_list(#[trigger] candidates@[i]@, n as int),
                    m == candidates.len(),
                    n == item_weights.len(),
                    total_weight(item_weights@) <= usize::MAX,
                    lossf == (|jj: int| if count@[jj] == 1 && !marks[jj] { item_weights@[jj] as int } else { 0 }),
                    best_loss == list_sum(candidates@[kept@[best_pos as int] as int]@, lossf),
                    forall|pp: int| #![trigger kept@[pp]] 0 <= pp < pos ==> best_loss <= list_sum(candidates@[kept@[pp] as int]@, lossf),
                    forall|pp: int|
                        #![trigger kept@[pp]]
                        0 <= pp < pos ==> best_loss < list_sum(candidates@[kept@[pp] as int]@, lossf) || (best_loss == list_sum(
                            candidates@[kept@[pp] as int]@,
                            lossf,
                        ) && kept@[best_pos as int] <= kept@[pp]),
                decreases kept.len() - pos,
            {
                let loss = exclusive_weight(&candidates[kept[pos]], item_weights, &count, &in_covers);
                if loss < best_loss || (loss == best_loss && kept[pos] < kept[best_pos]) {
                    best_pos = pos;
                    best_loss = loss;
                }
                pos = pos + 1;
            }
            set_marks(&mut in_covers, in_list, false);
            assert forall|y: int| 0 <= y < n implies !(#[trigger] in_covers@[y]) by {}
            proof {
                assert forall|p2: int| 0 <= p2 < kept_r.len() implies #[trigger] list_sum(candidates@[kept@[p2] as int]@, lossf)
                    == swap_loss(c, w, kept_r, p2, c_in as int) by {
                    let kp = kept_r[p2] as int;
                    assert(c[kp] == candidates@[kp]@);
                    assert forall|t: int| 0 <= t < c[kp].len() implies lossf(#[trigger] c[kp][t] as int)
                        == (|jj: int|
                            if cover_count(c, kept_r, jj, kept_r.len() as int) == 1 && !items_of(c[c_in as int]).contains(jj) {
                                w[jj] as int
                            } else {
                                0
                            })(c[kp][t] as int) by {
                        let jj = c[kp][t] as int;
                        assert(marks[jj] == items_of(in_list@).contains(jj));
                    }
                    lemma_list_sum_ext(
                        c[kp],
                        lossf,
                        |jj: int|
                            if cover_count(c, kept_r, jj, kept_r.len() as int) == 1 && !items_of(c[c_in as int]).contains(jj) {
                                w[jj] as int
                            } else {
                                0
                            },
                    );
                }
                assert(gain_of(c_in as int) == gain);
                assert(gain == new_gain(c, w, kept_r, c_in as int));
                if k0.no_duplicates() {
                    assert(cheapest_out(c, w, kept_r, c_in as int, best_pos as int)) by {
                        assert forall|p2: int| 0 <= p2 < kept_r.len() implies swap_loss(c, w, kept_r, best_pos as int, c_in as int)
                            < #[trigger] swap_loss(c, w, kept_r, p2, c_in as int) || (swap_loss(c, w, kept_r, best_pos as int, c_in as int)
                            == swap_loss(c, w, kept_r, p2, c_in as int) && kept_r[best_pos as int] <= kept_r[p2]) by {
                            assert(kept@[p2] == kept_r[p2]);
                            assert(list_sum(candidates@[kept@[p2] as int]@, lossf) == swap_loss(c, w, kept_r, p2, c_in as int));
                            assert(list_sum(candidates@[kept@[best_pos as int] as int]@, lossf) == swap_loss(c, w, kept_r, best_pos as int, c_in as int));
                        }
                    }
                }
            }
            if gain > best_loss {
                proof {
                    if k0.no_duplicates() {
                        lemma_tried_prefix(c, w, kept_r, m as int, inbound@, order@, q as int);
                        assert(inbound@[order@[q as int] as int].1 == c_in);
                        assert(list_sum(candidates@[kept@[best_pos as int] as int]@, lossf) == swap_loss(c, w, kept_r, best_pos as int, c_in as int));
                        assert forall|y: int, p: int|
                            #![trigger tried(c, w, kept_r, m as int, y), swap_loss(c, w, kept_r, p, y)]
                            tried(c, w, kept_r, m as int, y) && inbound_ahead(c, w, kept_r, y, c_in as int) && 0 <= p < kept_r.len()
                                implies new_gain(c, w, kept_r, y) <= swap_loss(c, w, kept_r, p, y) by {
                            let i = choose|i: int| 0 <= i < q && #[trigger] inbound@[order@[i] as int].1 as int == y;
                            assert(inbound@[order@[i] as int].0 <= swap_loss(c, w, kept_r, p, inbound@[order@[i] as int].1 as int));
                        }
                        assert(round_move(c, w, kept_r, m as int, c_in as int, best_pos as int));
                        let (x2, p2) = choose|x: int, pos: int| #[trigger] round_move(c, w, kept_r, m as int, x, pos);
                        lemma_round_move_unique(c, w, kept_r, m as int, x2, p2, c_in as int, best_pos as int);
                    }
                }
                let k_out = kept[best_pos];
                let ghost kb = kept@;
                proof {
                    assert(c[k_out as int] == candidates@[k_out as int]@);
                    lemma_swap_weight(c, kb, best_pos as int, c_in, w);
                    lemma_list_sum_ext(
                        c[c_in as int],
                        |jj: int| if cnt_r[jj] == 0 { w[jj] as int } else { 0 },
                        |jj: int| if cover_count(c, kb, jj, kb.len() as int) == 0 { w[jj] as int } else { 0 },
                    );
                    assert forall|t: int| 0 <= t < c[k_out as int].len() implies lossf(#[trigger] c[k_out as int][t] as int)
                        == (|jj: int|
                            if cover_count(c, kb, jj, kb.len() as int) == 1 && !items_of(c[c_in as int]).contains(jj) {
                                w[jj] as int
                            } else {
                                0
                            })(c[k_out as int][t] as int) by {
                        let jj = c[k_out as int][t] as int;
                        assert(marks[jj] == items_of(in_list@).contains(jj));
                    }
                    lemma_list_sum_ext(
                        c[k_out as int],
                        lossf,
                        |jj: int|
                            if cover_count(c, kb, jj, kb.len() as int) == 1 && !items_of(c[c_in as int]).contains(jj) {
                                w[jj] as int
                            } else {
                                0
                            },
                    );
                    if k0.no_duplicates() {
                        assert(!kb.contains(c_in));
                    }
                }
                swap_counts(
                    &mut count,
                    &candidates[k_out],
                    in_list,
                    Ghost(c),
                    Ghost(kb),
                    Ghost(best_pos as int),
                    Ghost(c_in),
                );
                is_kept.set(k_out, false);
                is_kept.set(c_in, true);
                kept.set(best_pos, c_in);
                proof {
                    assert(kept@ == kb.update(best_pos as int, c_in));
                    if k0.no_duplicates() {
                        assert(kept@.no_duplicates()) by {
                            assert forall|a: int, b: int| 0 <= a < b < kept.len() implies kept@[a] != kept@[b] by {
                                if a == best_pos || b == best_pos {
                                    assert(!kb.contains(c_in));
                                    if a == best_pos {
                                        assert(kb[b] == kept@[b]);
                                    } else {
                                        assert(kb[a] == kept@[a]);
                                    }
                                }
                            }
                        }
                        assert forall|y: int| 0 <= y < m implies (#[trigger] is_kept@[y] == kept@.contains(y as usize)) by {
                            if y == k_out && y != c_in {
                                if kept@.contains(y as usize) {
                                    let t = choose|t: int| 0 <= t < kept.len() && kept@[t] == y as usize;
                                    assert(t != best_pos);
                                    assert(kb[t] == kb[best_pos as int]);
                                }
                            } else if y == c_in {
                                assert(kept@[best_pos as int] == y as usize);
                            } else {
                                if kept@.contains(y as usize) {
                                    let t = choose|t: int| 0 <= t < kept.len() && kept@[t] == y as usize;
                                    assert(kb[t] == y as usize);
                                }
                                if kb.contains(y as usize) {
                                    let t = choose|t: int| 0 <= t < kb.len() && kb[t] == y as usize;
                                    assert(kept@[t] == y as usize);
                                }
                            }
                        }
                    }
                }
                proof {
                    assert(kb == kept_r);
                    assert(weight_of(covered(c, as_ints(kept@)), w) >= weight_r + 1);
                }
                swapped = true;
            } else {
                proof {
                    assert(gain_of(c_in as int) == gain);
                    assert(c[c_in as int] == in_list@);
                    lemma_list_sum_ext(
                        c[c_in as int],
                        |jj: int| if cnt_r[jj] == 0 { w[jj] as int } else { 0 },
                        |jj: int| if cover_count(c, kept_r, jj, kept_r.len() as int) == 0 { w[jj] as int } else { 0 },
                    );
                    assert(gain == new_gain(c, w, kept_r, c_in as int));
                    assert forall|pos2: int| 0 <= pos2 < kept_r.len() implies gain <= #[trigger] swap_loss(c, w, kept_r, pos2, c_in as int) by {
                        let kp = kept_r[pos2] as int;
                        assert(c[kp] == candidates@[kp]@);
                        assert(best_loss <= list_sum(candidates@[kept@[pos2] as int]@, lossf));
                        assert forall|t: int| 0 <= t < c[kp].len() implies lossf(#[trigger] c[kp][t] as int)
                            == (|jj: int|
                                if cover_count(c, kept_r, jj, kept_r.len() as int) == 1 && !items_of(c[c_in as int]).contains(jj) {
                                    w[jj] as int
                                } else {
                                    0
                                })(c[kp][t] as int) by {
                            let jj = c[kp][t] as int;
                            assert(marks[jj] == items_of(in_list@).contains(jj));
                        }
                        lemma_list_sum_ext(
                            c[kp],
                            lossf,
                            |jj: int|
                                if cover_count(c, kept_r, jj, kept_r.len() as int) == 1 && !items_of(c[c_in as int]).contains(jj) {
                                    w[jj] as int
                                } else {
                                    0
                                },
                        );
                    }
                    assert forall|qq: int, pos2: int|
                        #![trigger order@[qq], swap_loss(c, w, kept_r, pos2, inbound@[order@[qq] as int].1 as int)]
                        0 <= qq < q + 1 && 0 <= pos2 < kept_r.len() implies inbound@[order@[qq] as int].0 <= swap_loss(
                            c,
                            w,
                            kept_r,
                            pos2,
                            inbound@[order@[qq] as int].1 as int,
                        ) by {
                        if qq == q {
                            assert(inbound@[order@[qq] as int] == (gain, c_in));
                            assert(gain <= swap_loss(c, w, kept_r, pos2, c_in as int));
                        }
                    }
                }
            }
            q = q + 1;
        }
        if !swapped {
            proof {
                if k0.no_duplicates() {
                    if exists|x: int, pos: int| #[trigger] round_move(c, w, kept_r, m as int, x, pos) {
                        let (x, pos) = choose|x: int, pos: int| #[trigger] round_move(c, w, kept_r, m as int, x, pos);
                        lemma_tried_listed(c, w, kept_r, m as int, inbound@, order@, x);
                        let i = choose|i: int| 0 <= i < order@.len() && #[trigger] inbound@[order@[i] as int].1 as int == x;
                        assert(inbound@[order@[i] as int].0 <= swap_loss(c, w, kept_r, pos, inbound@[order@[i] as int].1 as int));
                        assert(false);
                    }
                    assert(swap_run(c, w, kept_r, m as int, kr) == kept_r);
                    lemma_round_settled(c, w, kept_r, m as int, isk_r, inbound@, order@, gain_of);
                }
            }
            done = true;
        }
        round = round + 1;
    }
    kept
}

/// The value of moving pick `pos` to candidate `x` (what `x` covers that
/// would be uncovered without the pick) minus the pick's exclusive weight
/// equals what `x` newly covers minus what only the pick covered and `x`
/// does not.
proof fn lemma_relocate_delta(c: Seq<Seq<u32>>, kept: Seq<usize>, pos: int, x: usize, w: Seq<usize>)
    requires
        0 <= pos < kept.len(),
        clean_list(c[kept[pos] as int], w.len() as int),
        clean_list(c[x as int], w.len() as int),
    ensures
        ({
            let k = kept.len() as int;
            let own = c[kept[pos] as int];
            list_sum(
                c[x as int],
                |j: int|
                    if cover_count(c, kept, j, k) == 0 || (cover_count(c, kept, j, k) == 1 && items_of(own).contains(j)) {
                        w[j] as int
                    } else {
                        0
                    },
            ) - list_sum(own, |j: int| if cover_count(c, kept, j, k) == 1 { w[j] as int } else { 0 }) == list_sum(
                c[x as int],
                |j: int| if cover_count(c, kept, j, k) == 0 { w[j] as int } else { 0 },
            ) - list_sum(
                own,
                |j: int|
                    if cover_count(c, kept, j, k) == 1 && !items_of(c[x as int]).contains(j) {
                        w[j] as int
                    } else {
                        0
                    },
            )
        }),
{
    let k = kept.len() as int;
    let n = w.len() as int;
    let own = c[kept[pos] as int];
    let xl = c[x as int];
    let vf = |j: int|
        if cover_count(c, kept, j, k) == 0 || (cover_count(c, kept, j, k) == 1 && items_of(own).contains(j)) {
            w[j] as int
        } else {
            0
        };
    let ef = |j: int| if cover_count(c, kept, j, k) == 1 { w[j] as int } else { 0 };
    let gf = |j: int| if cover_count(c, kept, j, k) == 0 { w[j] as int } else { 0 };
    let lf = |j: int| if cover_count(c, kept, j, k) == 1 && !items_of(xl).contains(j) { w[j] as int } else { 0 };
    lemma_list_sum(xl, vf, n);
    lemma_list_sum(own, ef, n);
    lemma_list_sum(xl, gf, n);
    lemma_list_sum(own, lf, n);
    let a = |j: int| if items_of(xl).contains(j) { vf(j) } else { 0 };
    let b = |j: int| if items_of(own).contains(j) { ef(j) } else { 0 };
    let g = |j: int| if items_of(xl).contains(j) { gf(j) } else { 0 };
    let l = |j: int| if items_of(own).contains(j) { lf(j) } else { 0 };
    assert forall|j: int| 0 <= j < n implies #[trigger] a(j) - b(j) == g(j) - l(j) by {}
    lemma_sum_diff(a, b, g, l, n);
}

/// Weight of the entries of `list` that no pick covers, or that only the
/// marked pick covers.
fn relocation_value(list: &Vec<u32>, w: &[usize], count: &Vec<u32>, marks: &Vec<bool>) -> (r: usize)
    requires
        count.len() == w.len(),
        marks.len() == w.len(),
        clean_list(list@, w.len() as int),
        total_weight(w@) <= usize::MAX,
    ensures
        r == list_sum(
            list@,
            |j: int| if count@[j] == 0 || (count@[j] == 1 && marks@[j]) { w@[j] as int } else { 0 },
        ),
{
    let ghost g = |j: int| if count@[j] == 0 || (count@[j] == 1 && marks@[j]) { w@[j] as int } else { 0 };
    let mut sum: usize = 0;
    let mut t: usize = 0;
    while t < list.len()
        invariant
            t <= list.len(),
            count.len() == w.len(),
            marks.len() == w.len(),
            clean_list(list@, w.len() as int),
            total_weight(w@) <= usize::MAX,
            g == (|j: int| if count@[j] == 0 || (count@[j] == 1 && marks@[j]) { w@[j] as int } else { 0 }),
            sum == list_sum(list@.take(t as int), g),
        decreases list.len() - t,
    {
        let j = list[t] as usize;
        proof {
            let pre = list@.take(t as int + 1);
            assert(pre.drop_last() =~= list@.take(t as int));
            assert(pre.no_duplicates());
            lemma_list_sum_bound(pre, g, w@);
        }
        if count[j] == 0 || (count[j] == 1 && marks[j]) {
            sum = sum + w[j];
        }
        t = t + 1;
    }
    assert(list@.take(list.len() as int) =~= list@);
    sum
}

/// What moving pick `pos` to candidate `x` would cover anew: the weight of
/// the items of `x` that no pick covers, or that only pick `pos` covers.
pub open spec fn relocation_gain(c: Seq<Seq<u32>>, w: Seq<usize>, kept: Seq<usize>, pos: int, x: int) -> int {
    list_sum(
        c[x],
        |j: int|
            if cover_count(c, kept, j, kept.len() as int) == 0 || (cover_count(c, kept, j, kept.len() as int) == 1
                && items_of(c[kept[pos] as int]).contains(j)) {
                w[j] as int
            } else {
                0
            },
    )
}

/// The weight only pick `pos` covers.
pub open spec fn exclusive_gain(c: Seq<Seq<u32>>, w: Seq<usize>, kept: Seq<usize>, pos: int) -> int {
    list_sum(c[kept[pos] as int], |j: int| if cover_count(c, kept, j, kept.len() as int) == 1 { w[j] as int } else { 0 })
}

/// Whether candidate `x` is listed for pick `pos`.
pub open spec fn listed_near(near: Seq<Vec<u32>>, pos: int, x: int) -> bool {
    exists|t: int| 0 <= t < near[pos]@.len() && near[pos]@[t] as int == x
}

/// Whether moving pick `pos` to the unpicked candidate `x` raises the
/// covered weight.
pub open spec fn relocation_pays(c: Seq<Seq<u32>>, w: Seq<usize>, kept: Seq<usize>, pos: int, x: int) -> bool {
    !kept.contains(x as usize) && relocation_gain(c, w, kept, pos, x) > exclusive_gain(c, w, kept, pos)
}

/// Whether `x` is the replacement proposed for pick `pos`: listed near
/// it, paying, and ahead of every other paying listed candidate (more gain,
/// or equal gain and a lower index).
pub open spec fn best_relocation(c: Seq<Seq<u32>>, w: Seq<usize>, kept: Seq<usize>, near: Seq<Vec<u32>>, pos: int, x: int) -> bool {
    &&& listed_near(near, pos, x)
    &&& relocation_pays(c, w, kept, pos, x)
    &&& forall|t: int|
        0 <= t < near[pos]@.len() && #[trigger] relocation_pays(c, w, kept, pos, near[pos]@[t] as int) ==> relocation_gain(
            c,
            w,
            kept,
            pos,
            x,
        ) > relocation_gain(c, w, kept, pos, near[pos]@[t] as int) || (relocation_gain(c, w, kept, pos, x)
            == relocation_gain(c, w, kept, pos, near[pos]@[t] as int) && x <= near[pos]@[t] as int)
}

/// The proposals for the first `p` picks, in pick order, each made against
/// the picks `kept`.
pub open spec fn relocation_proposals(c: Seq<Seq<u32>>, w: Seq<usize>, kept: Seq<usize>, near: Seq<Vec<u32>>, p: int) -> Seq<(usize, usize)>
    decreases p,
{
    if p <= 0 {
        Seq::empty()
    } else {
        let prev = relocation_proposals(c, w, kept, near, p - 1);
        if exists|x: int| #[trigger] best_relocation(c, w, kept, near, p - 1, x) {
            prev.push(((p - 1) as usize, (choose|x: int| #[trigger] best_relocation(c, w, kept, near, p - 1, x)) as usize))
        } else {
            prev
        }
    }
}

/// The picks after applying the first `k` proposals in order, each only
/// where it still pays against the picks as they then stand.
pub open spec fn apply_relocations(c: Seq<Seq<u32>>, w: Seq<usize>, kept: Seq<usize>, props: Seq<(usize, usize)>, k: int) -> Seq<usize>
    decreases k,
{
    if k <= 0 {
        kept
    } else {
        let cur = apply_relocations(c, w, kept, props, k - 1);
        let e = props[k - 1];
        if relocation_pays(c, w, cur, e.0 as int, e.1 as int) {
            cur.update(e.0 as int, e.1)
        } else {
            cur
        }
    }
}

/// The proposed replacement of a pick is unique.
proof fn lemma_best_relocation_unique(c: Seq<Seq<u32>>, w: Seq<usize>, kept: Seq<usize>, near: Seq<Vec<u32>>, pos: int, x: int, y: int)
    requires
        best_relocation(c, w, kept, near, pos, x),
        best_relocation(c, w, kept, near, pos, y),
    ensures
        x == y,
{
    let tx = choose|t: int| 0 <= t < near[pos]@.len() && near[pos]@[t] as int == x;
    let ty = choose|t: int| 0 <= t < near[pos]@.len() && near[pos]@[t] as int == y;
    assert(relocation_pays(c, w, kept, pos, near[pos]@[ty] as int));
    assert(relocation_pays(c, w, kept, pos, near[pos]@[tx] as int));
}

/// Paired remove-reinsert at fixed size. For each kept candidate, the best
/// replacement among the candidates `near` its position (`near[pos]`, not
/// kept) is the one of largest value (items it covers that would go
/// uncovered without the kept one), lower index first among equals, and is
/// proposed when that value beats the kept candidate's exclusive weight.
/// Proposals are made against the state before any move and applied in kept
/// order, each re-checked against the state at that point. Returns whether
/// anything moved, which is so exactly when some pick has a paying
/// replacement among its `near` candidates.
pub fn relocate_capped(kept: &mut Vec<usize>, cover_lists: &[Vec<u32>], near: &[Vec<u32>], item_weights: &[usize]) -> (changed: bool)
    requires
        forall|p: int| 0 <= p < old(kept).len() ==> #[trigger] old(kept)@[p] < cover_lists.len(),
        old(kept).len() <= u32::MAX,
        near.len() == old(kept).len(),
        forall|p: int, t: int| 0 <= p < near.len() && 0 <= t < near@[p]@.len() ==> #[trigger] near@[p]@[t] < cover_lists.len(),
        forall|i: int| 0 <= i < cover_lists.len() ==> clean_list(#[trigger] cover_lists@[i]@, item_weights.len() as int),
        total_weight(item_weights@) <= usize::MAX,
    ensures
        final(kept).len() == old(kept).len(),
        forall|p: int| 0 <= p < final(kept).len() ==> #[trigger] final(kept)@[p] < cover_lists.len(),
        old(kept)@.no_duplicates() ==> final(kept)@.no_duplicates(),
        weight_of(covered(lists(cover_lists@), as_ints(final(kept)@)), item_weights@) >= weight_of(
            covered(lists(cover_lists@), as_ints(old(kept)@)),
            item_weights@,
        ),
        changed ==> weight_of(covered(lists(cover_lists@), as_ints(final(kept)@)), item_weights@) > weight_of(
            covered(lists(cover_lists@), as_ints(old(kept)@)),
            item_weights@,
        ),
        !changed ==> final(kept)@ == old(kept)@,
        old(kept)@.no_duplicates() ==> final(kept)@ == apply_relocations(
            lists(cover_lists@),
            item_weights@,
            old(kept)@,
            relocation_proposals(lists(cover_lists@), item_weights@, old(kept)@, near@, old(kept).len() as int),
            relocation_proposals(lists(cover_lists@), item_weights@, old(kept)@, near@, old(kept).len() as int).len() as int,
        ),
        changed == exists|pos: int, t: int|
            0 <= pos < old(kept).len() && 0 <= t < near@[pos]@.len() && #[trigger] relocation_pays(
                lists(cover_lists@),
                item_weights@,
                old(kept)@,
                pos,
                near@[pos]@[t] as int,
            ),
{
    let ghost c = lists(cover_lists@);
    let ghost w = item_weights@;
    let ghost k0 = kept@;
    let ghost base = weight_of(covered(c, as_ints(k0)), w);
    let n = item_weights.len();
    let m = cover_lists.len();
    let mut count = initial_counts(kept, cover_lists, n);
    let mut is_kept: Vec<bool> = Vec::new();
    let mut x: usize = 0;
    while x < m
        invariant
            x <= m,
            is_kept.len() == x,
            forall|y: int| 0 <= y < x ==> !(#[trigger] is_kept@[y]),
        decreases m - x,
    {
        is_kept.push(false);
        x = x + 1;
    }
    let mut p: usize = 0;
    while p < kept.len()
        invariant
            p <= kept.len(),
            kept@ == k0,
            is_kept.len() == m,
            forall|q: int| 0 <= q < kept.len() ==> #[trigger] kept@[q] < m,
            forall|y: int| 0 <= y < m ==> (#[trigger] is_kept@[y] <==> exists|q: int| 0 <= q < p && kept@[q] == y),
        decreases kept.len() - p,
    {
        let kp = kept[p];
        let ghost f0 = is_kept@;
        is_kept.set(kp, true);
        assert forall|y: int| 0 <= y < m implies (#[trigger] is_kept@[y] <==> exists|q: int|
            0 <= q < p + 1 && kept@[q] == y) by {
            if y != kp {
                assert(is_kept@[y] == f0[y]);
                if exists|q: int| 0 <= q < p + 1 && kept@[q] == y {
                    let q = choose|q: int| 0 <= q < p + 1 && kept@[q] == y;
                    assert(q != p);
                }
            } else {
                assert(kept@[p as int] == y);
            }
        }
        p = p + 1;
    }
    proof {
        assert forall|y: int| 0 <= y < m implies (#[trigger] is_kept@[y] == kept@.contains(y as usize)) by {
            if is_kept@[y] {
                let q = choose|q: int| 0 <= q < kept.len() && kept@[q] == y;
                assert(kept@[q] == y as usize);
            }
            if kept@.contains(y as usize) {
                let q = choose|q: int| 0 <= q < kept.len() && kept@[q] == y as usize;
                assert(kept@[q] == y);
            }
        }
    }
    let mut marks: Vec<bool> = Vec::new();
    let mut j: usize = 0;
    while j < n
        invariant
            j <= n,
            marks.len() == j,
            forall|y: int| 0 <= y < j ==> !(#[trigger] marks@[y]),
        decreases n - j,
    {
        marks.push(false);
        j = j + 1;
    }
    // Propose against the state before any move.
    let mut proposals: Vec<(usize, usize)> = Vec::new();
    let mut pos: usize = 0;
    while pos < kept.len()
        invariant
            pos <= kept.len(),
            kept@ == k0,
            near.len() == kept.len(),
            m == cover_lists.len(),
            n == item_weights.len(),
            count.len() == n,
            is_kept.len() == m,
            marks.len() == n,
            forall|y: int| 0 <= y < n ==> !(#[trigger] marks@[y]),
            forall|q: int| 0 <= q < kept.len() ==> #[trigger] kept@[q] < m,
            forall|pp: int, t: int| 0 <= pp < near.len() && 0 <= t < near@[pp]@.len() ==> #[trigger] near@[pp]@[t] < m,
            forall|i: int| 0 <= i < m ==> clean_list(#[trigger] cover_lists@[i]@, n as int),
            total_weight(item_weights@) <= usize::MAX,
            forall|q: int| 0 <= q < proposals.len() ==> (#[trigger] proposals@[q]).0 < kept.len() && proposals@[q].1 < m,
            c == lists(cover_lists@),
            w == item_weights@,
            forall|jj: int| 0 <= jj < n ==> #[trigger] count@[jj] == cover_count(c, k0, jj, k0.len() as int),
            forall|y: int| 0 <= y < m ==> (#[trigger] is_kept@[y] == k0.contains(y as usize)),
            forall|q: int|
                0 <= q < proposals.len() ==> relocation_pays(c, w, k0, (#[trigger] proposals@[q]).0 as int, proposals@[q].1 as int),
            forall|q: int|
                0 <= q < proposals.len() ==> listed_near(near@, (#[trigger] proposals@[q]).0 as int, proposals@[q].1 as int),
            (exists|pp: int, t: int|
                0 <= pp < pos && 0 <= t < near@[pp]@.len() && #[trigger] relocation_pays(c, w, k0, pp, near@[pp]@[t] as int))
                ==> proposals.len() > 0,
            proposals@ == relocation_proposals(c, w, k0, near@, pos as int),
        decreases kept.len() - pos,
    {
        let own = &cover_lists[kept[pos]];
        let excl = exclusive_weight(own, item_weights, &count, &marks);
        proof {
            assert(own@ == c[k0[pos as int] as int]);
            lemma_list_sum_ext(
                c[k0[pos as int] as int],
                |jj: int| if count@[jj] == 1 && !marks@[jj] { w[jj] as int } else { 0 },
                |jj: int| if cover_count(c, k0, jj, k0.len() as int) == 1 { w[jj] as int } else { 0 },
            );
            assert(excl == exclusive_gain(c, w, k0, pos as int));
        }
        set_marks(&mut marks, own, true);
        let ghost own_marks = marks@;
        let mut found = false;
        let mut best_val: usize = 0;
        let mut best_c: usize = 0;
        let cands = &near[pos];
        let mut t: usize = 0;
        while t < cands.len()
            invariant
                t <= cands.len(),
                cands@ == near@[pos as int]@,
                pos < near.len(),
                m == cover_lists.len(),
                n == item_weights.len(),
                count.len() == n,
                is_kept.len() == m,
                marks.len() == n,
                forall|pp: int, tt: int| 0 <= pp < near.len() && 0 <= tt < near@[pp]@.len() ==> #[trigger] near@[pp]@[tt] < m,
                forall|i: int| 0 <= i < m ==> clean_list(#[trigger] cover_lists@[i]@, n as int),
                total_weight(item_weights@) <= usize::MAX,
                found ==> best_c < m,
                c == lists(cover_lists@),
                w == item_weights@,
                kept@ == k0,
                pos < kept.len(),
                marks@ == own_marks,
                own@ == c[k0[pos as int] as int],
                excl == exclusive_gain(c, w, k0, pos as int),
                forall|jj: int| 0 <= jj < n ==> #[trigger] marks@[jj] == items_of(own@).contains(jj),
                forall|jj: int| 0 <= jj < n ==> #[trigger] count@[jj] == cover_count(c, k0, jj, k0.len() as int),
                forall|y: int| 0 <= y < m ==> (#[trigger] is_kept@[y] == k0.contains(y as usize)),
                found ==> relocation_pays(c, w, k0, pos as int, best_c as int),
                found ==> listed_near(near@, pos as int, best_c as int),
                found ==> best_val == relocation_gain(c, w, k0, pos as int, best_c as int),
                found ==> forall|tt: int|
                    0 <= tt < t && #[trigger] relocation_pays(c, w, k0, pos as int, near@[pos as int]@[tt] as int) ==> relocation_gain(
                        c,
                        w,
                        k0,
                        pos as int,
                        best_c as int,
                    ) > relocation_gain(c, w, k0, pos as int, near@[pos as int]@[tt] as int) || (relocation_gain(
                        c,
                        w,
                        k0,
                        pos as int,
                        best_c as int,
                    ) == relocation_gain(c, w, k0, pos as int, near@[pos as int]@[tt] as int) && best_c as int
                        <= near@[pos as int]@[tt] as int),
                !found ==> forall|tt: int| 0 <= tt < t ==> !#[trigger] relocation_pays(c, w, k0, pos as int, near@[pos as int]@[tt] as int),
            decreases cands.len() - t,
        {
            let ci = cands[t] as usize;
            assert(near@[pos as int]@[t as int] < m);
            if !is_kept[ci] {
                let val = relocation_value(&cover_lists[ci], item_weights, &count, &marks);
                proof {
                    assert(cover_lists@[ci as int]@ == c[ci as int]);
                    lemma_list_sum_ext(
                        c[ci as int],
                        |jj: int| if count@[jj] == 0 || (count@[jj] == 1 && marks@[jj]) { w[jj] as int } else { 0 },
                        |jj: int|
                            if cover_count(c, k0, jj, k0.len() as int) == 0 || (cover_count(c, k0, jj, k0.len() as int) == 1
                                && items_of(c[k0[pos as int] as int]).contains(jj)) {
                                w[jj] as int
                            } else {
                                0
                            },
                    );
                    assert(val == relocation_gain(c, w, k0, pos as int, ci as int));
                }
                if val > excl && (!found || val > best_val || (val == best_val && ci < best_c)) {
                    found = true;
                    best_val = val;
                    best_c = ci;
                }
            }
            t = t + 1;
        }
        set_marks(&mut marks, own, false);
        assert forall|y: int| 0 <= y < n implies !(#[trigger] marks@[y]) by {}
        let ghost p0 = proposals@;
        proof {
            if found {
                assert(best_relocation(c, w, k0, near@, pos as int, best_c as int));
                let x = choose|x: int| #[trigger] best_relocation(c, w, k0, near@, pos as int, x);
                lemma_best_relocation_unique(c, w, k0, near@, pos as int, x, best_c as int);
            } else {
                if exists|x: int| #[trigger] best_relocation(c, w, k0, near@, pos as int, x) {
                    let x = choose|x: int| #[trigger] best_relocation(c, w, k0, near@, pos as int, x);
                    let tx = choose|t: int| 0 <= t < near@[pos as int]@.len() && near@[pos as int]@[t] as int == x;
                    assert(relocation_pays(c, w, k0, pos as int, near@[pos as int]@[tx] as int));
                }
            }
        }
        if found {
            proposals.push((pos, best_c));
        }
        proof {
            assert forall|q: int|
                0 <= q < proposals.len() implies relocation_pays(c, w, k0, (#[trigger] proposals@[q]).0 as int, proposals@[q].1 as int) by {
                if q < p0.len() {
                    assert(proposals@[q] == p0[q]);
                }
            }
            assert forall|q: int|
                0 <= q < proposals.len() implies listed_near(near@, (#[trigger] proposals@[q]).0 as int, proposals@[q].1 as int) by {
                if q < p0.len() {
                    assert(proposals@[q] == p0[q]);
                }
            }
            if exists|pp: int, t: int|
                0 <= pp < pos + 1 && 0 <= t < near@[pp]@.len() && #[trigger] relocation_pays(c, w, k0, pp, near@[pp]@[t] as int) {
                let (pp, tt) = choose|pp: int, t: int|
                    0 <= pp < pos + 1 && 0 <= t < near@[pp]@.len() && #[trigger] relocation_pays(c, w, k0, pp, near@[pp]@[t] as int);
                if pp == pos {
                    assert(cands@ == near@[pos as int]@);
                    assert(found);
                } else {
                    assert(p0.len() > 0);
                }
            }
        }
        pos = pos + 1;
    }
    // Apply in kept order, re-checking each move against the live state.
    let mut changed = false;
    let mut q: usize = 0;
    while q < proposals.len()
        invariant
            c == lists(cover_lists@),
            w == item_weights@,
            n == w.len(),
            m == cover_lists.len(),
            kept.len() == k0.len() <= u32::MAX,
            forall|qq: int| 0 <= qq < kept.len() ==> #[trigger] kept@[qq] < m,
            forall|i: int| 0 <= i < m ==> clean_list(#[trigger] cover_lists@[i]@, n as int),
            total_weight(w) <= usize::MAX,
            count.len() == n,
            forall|jj: int| 0 <= jj < n ==> #[trigger] count@[jj] == cover_count(c, kept@, jj, kept.len() as int),
            is_kept.len() == m,
            marks.len() == n,
            forall|y: int| 0 <= y < n ==> !(#[trigger] marks@[y]),
            k0.no_duplicates() ==> kept@.no_duplicates() && forall|y: int|
                0 <= y < m ==> (#[trigger] is_kept@[y] == kept@.contains(y as usize)),
            weight_of(covered(c, as_ints(kept@)), w) >= base,
            changed ==> weight_of(covered(c, as_ints(kept@)), w) > base,
            !changed ==> kept@ == k0,
            forall|qq: int| 0 <= qq < proposals.len() ==> (#[trigger] proposals@[qq]).0 < kept.len() && proposals@[qq].1 < m,
            forall|qq: int|
                0 <= qq < proposals.len() ==> relocation_pays(c, w, k0, (#[trigger] proposals@[qq]).0 as int, proposals@[qq].1 as int),
            forall|qq: int|
                0 <= qq < proposals.len() ==> listed_near(near@, (#[trigger] proposals@[qq]).0 as int, proposals@[qq].1 as int),
            (exists|pp: int, t: int|
                0 <= pp < k0.len() && 0 <= t < near@[pp]@.len() && #[trigger] relocation_pays(c, w, k0, pp, near@[pp]@[t] as int))
                ==> proposals.len() > 0,
            !changed ==> forall|y: int| 0 <= y < m ==> (#[trigger] is_kept@[y] == k0.contains(y as usize)),
            proposals@ == relocation_proposals(c, w, k0, near@, k0.len() as int),
            k0.no_duplicates() ==> kept@ == apply_relocations(c, w, k0, proposals@, q as int),
            q <= proposals.len(),
            q > 0 ==> changed,
            changed ==> proposals.len() > 0,
        decreases proposals.len() - q,
    {
        let (pos, c_idx) = proposals[q];
        if !is_kept[c_idx] {
            let i = kept[pos];
            let own = &cover_lists[i];
            let cand = &cover_lists[c_idx];
            let excl = exclusive_weight(own, item_weights, &count, &marks);
            let ghost zero_marks = marks@;
            set_marks(&mut marks, own, true);
            let ghost own_marks = marks@;
            let val = relocation_value(cand, item_weights, &count, &marks);
            set_marks(&mut marks, own, false);
            assert forall|y: int| 0 <= y < n implies !(#[trigger] marks@[y]) by {}
            proof {
                let kc = kept@;
                let k = kc.len() as int;
                assert(own@ == c[i as int]);
                assert(cand@ == c[c_idx as int]);
                assert(i == kc[pos as int]);
                lemma_list_sum_ext(
                    c[c_idx as int],
                    |jj: int| if count@[jj] == 0 || (count@[jj] == 1 && own_marks[jj]) { w[jj] as int } else { 0 },
                    |jj: int|
                        if cover_count(c, kc, jj, k) == 0 || (cover_count(c, kc, jj, k) == 1 && items_of(c[kc[pos as int] as int]).contains(jj)) {
                            w[jj] as int
                        } else {
                            0
                        },
                );
                lemma_list_sum_ext(
                    c[i as int],
                    |jj: int| if count@[jj] == 1 && !zero_marks[jj] { w[jj] as int } else { 0 },
                    |jj: int| if cover_count(c, kc, jj, k) == 1 { w[jj] as int } else { 0 },
                );
                assert(val == relocation_gain(c, w, kc, pos as int, c_idx as int));
                assert(excl == exclusive_gain(c, w, kc, pos as int));
                if !changed {
                    assert(val > excl);
                }
                if k0.no_duplicates() {
                    assert(!kc.contains(c_idx));
                    assert(relocation_pays(c, w, kc, pos as int, c_idx as int) == (val > excl));
                }
            }
            if val > excl {
                let ghost kb = kept@;
                let ghost k = kb.len() as int;
                proof {
                    assert(own@ == c[i as int]);
                    assert(cand@ == c[c_idx as int]);
                    lemma_relocate_delta(c, kb, pos as int, c_idx, w);
                    lemma_swap_weight(c, kb, pos as int, c_idx, w);
                    lemma_list_sum_ext(
                        c[c_idx as int],
                        |jj: int| if count@[jj] == 0 || (count@[jj] == 1 && own_marks[jj]) { w[jj] as int } else { 0 },
                        |jj: int|
                            if cover_count(c, kb, jj, k) == 0 || (cover_count(c, kb, jj, k) == 1 && items_of(c[i as int]).contains(jj)) {
                                w[jj] as int
                            } else {
                                0
                            },
                    );
                    lemma_list_sum_ext(
                        c[i as int],
                        |jj: int| if count@[jj] == 1 && !zero_marks[jj] { w[jj] as int } else { 0 },
                        |jj: int| if cover_count(c, kb, jj, k) == 1 { w[jj] as int } else { 0 },
                    );
                    if k0.no_duplicates() {
                        assert(!kb.contains(c_idx));
                    }
                }
                swap_counts(&mut count, own, cand, Ghost(c), Ghost(kb), Ghost(pos as int), Ghost(c_idx));
                is_kept.set(i, false);
                is_kept.set(c_idx, true);
                kept.set(pos, c_idx);
                proof {
                    assert(kept@ == kb.update(pos as int, c_idx));
                    if k0.no_duplicates() {
                        assert(kept@.no_duplicates()) by {
                            assert forall|a: int, b: int| 0 <= a < b < kept.len() implies kept@[a] != kept@[b] by {
                                if a == pos || b == pos {
                                    if a == pos {
                                        assert(kb[b] == kept@[b]);
                                    } else {
                                        assert(kb[a] == kept@[a]);
                                    }
                                }
                            }
                        }
                        assert forall|y: int| 0 <= y < m implies (#[trigger] is_kept@[y] == kept@.contains(y as usize)) by {
                            if y == i && y != c_idx {
                                if kept@.contains(y as usize) {
                                    let t = choose|t: int| 0 <= t < kept.len() && kept@[t] == y as usize;
                                    assert(t != pos);
                                    assert(kb[t] == kb[pos as int]);
                                }
                            } else if y == c_idx {
                                assert(kept@[pos as int] == y as usize);
                            } else {
                                if kept@.contains(y as usize) {
                                    let t = choose|t: int| 0 <= t < kept.len() && kept@[t] == y as usize;
                                    assert(kb[t] == y as usize);
                                }
                                if kb.contains(y as usize) {
                                    let t = choose|t: int| 0 <= t < kb.len() && kb[t] == y as usize;
                                    assert(kept@[t] == y as usize);
                                }
                            }
                        }
                    }
                }
                changed = true;
            }
        }
        q = q + 1;
    }
    proof {
        assert(q == proposals.len());
        if k0.no_duplicates() {
            assert(kept@ == apply_relocations(c, w, k0, proposals@, proposals@.len() as int));
        }
        if changed {
            let e = proposals@[0];
            assert(relocation_pays(c, w, k0, e.0 as int, e.1 as int));
            assert(listed_near(near@, e.0 as int, e.1 as int));
            let t = choose|t: int| 0 <= t < near@[e.0 as int]@.len() && near@[e.0 as int]@[t] as int == e.1 as int;
            assert(relocation_pays(c, w, k0, e.0 as int, near@[e.0 as int]@[t] as int));
        }
    }
    changed
}

/// The entries of `v` in increasing order, each once.
pub fn sorted_distinct(v: &Vec<u32>) -> (r: Vec<u32>)
    ensures
        forall|a: int, b: int| 0 <= a < b < r.len() ==> r@[a] < r@[b],
        forall|x: u32| r@.contains(x) <==> v@.contains(x),
{
    let mut out: Vec<u32> = Vec::new();
    let mut i: usize = 0;
    while i < v.len()
        invariant
            i <= v.len(),
            forall|a: int, b: int| 0 <= a < b < out.len() ==> out@[a] < out@[b],
            forall|x: u32| out@.contains(x) <==> v@.take(i as int).contains(x),
        decreases v.len() - i,
    {
        let x = v[i];
        let mut pos: usize = 0;
        while pos < out.len() && out[pos] < x
            invariant
                pos <= out.len(),
                forall|a: int| 0 <= a < pos ==> out@[a] < x,
            decreases out.len() - pos,
        {
            pos = pos + 1;
        }
        let ghost o0 = out@;
        if pos == out.len() || out[pos] != x {
            out.insert(pos, x);
            assert forall|a: int, b: int| 0 <= a < b < out.len() implies out@[a] < out@[b] by {
                if b < pos {
                    assert(out@[a] == o0[a] && out@[b] == o0[b]);
                } else if b == pos {
                    assert(out@[a] == o0[a]);
                } else if a == pos {
                    assert(out@[b] == o0[b - 1]);
                    assert(o0[pos as int] > x) by {
                        assert(o0[pos as int] >= x);
                    }
                    if b - 1 > pos {
                        assert(o0[pos as int] < o0[b - 1]);
                    }
                } else if a < pos {
                    assert(out@[a] == o0[a] && out@[b] == o0[b - 1]);
                    assert(o0[a] < x);
                    assert(o0[pos as int] > x) by {
                        assert(o0[pos as int] >= x);
                    }
                    if b - 1 > pos {
                        assert(o0[pos as int] < o0[b - 1]);
                    }
                } else {
                    assert(out@[a] == o0[a - 1] && out@[b] == o0[b - 1]);
                }
            }
            assert forall|y: u32| out@.contains(y) <==> v@.take(i as int + 1).contains(y) by {
                if out@.contains(y) {
                    let q = choose|q: int| 0 <= q < out@.len() && out@[q] == y;
                    if q < pos {
                        assert(o0[q] == y);
                    } else if q > pos {
                        assert(o0[q - 1] == y);
                    }
                    if y == x {
                        assert(v@.take(i as int + 1)[i as int] == y);
                    } else {
                        assert(o0.contains(y));
                        assert(v@.take(i as int).contains(y));
                        let q2 = choose|q2: int| 0 <= q2 < i && #[trigger] v@.take(i as int)[q2] == y;
                        assert(v@.take(i as int + 1)[q2] == y);
                    }
                }
                if v@.take(i as int + 1).contains(y) {
                    let q = choose|q: int| 0 <= q < i + 1 && #[trigger] v@.take(i as int + 1)[q] == y;
                    if q < i {
                        assert(v@.take(i as int)[q] == y);
                        assert(o0.contains(y));
                        let q3 = choose|q3: int| 0 <= q3 < o0.len() && o0[q3] == y;
                        if q3 < pos {
                            assert(out@[q3] == y);
                        } else {
                            assert(out@[q3 + 1] == y);
                        }
                    } else {
                        assert(out@[pos as int] == y);
                    }
                }
            }
        } else {
            assert forall|y: u32| out@.contains(y) <==> v@.take(i as int + 1).contains(y) by {
                if out@.contains(y) {
                    if y == x {
                        assert(v@.take(i as int + 1)[i as int] == y);
                    } else {
                        let q2 = choose|q2: int| 0 <= q2 < i && #[trigger] v@.take(i as int)[q2] == y;
                        assert(v@.take(i as int + 1)[q2] == y);
                    }
                }
                if v@.take(i as int + 1).contains(y) {
                    let q = choose|q: int| 0 <= q < i + 1 && #[trigger] v@.take(i as int + 1)[q] == y;
                    if q < i {
                        assert(v@.take(i as int)[q] == y);
                    } else {
                        assert(out@[pos as int] == y);
                    }
                }
            }
        }
        i = i + 1;
    }
    assert(v@.take(v.len() as int) =~= v@);
    out
}

/// A list in strictly increasing order has no repeats.
pub proof fn lemma_increasing_distinct(l: Seq<u32>)
    requires
        forall|a: int, b: int| 0 <= a < b < l.len() ==> l[a] < l[b],
    ensures
        l.no_duplicates(),
{
}

/// Covers of picks named through `pool`: picking positions `ks` of the pool
/// covers what picking the pool's entries at those positions covers.
proof fn lemma_covered_through(c: Seq<Seq<u32>>, pool: Seq<usize>, pc: Seq<Seq<u32>>, ks: Seq<usize>, mapped: Seq<usize>)
    requires
        pc.len() == pool.len(),
        forall|k: int| 0 <= k < pool.len() ==> #[trigger] pc[k] == c[pool[k] as int],
        mapped.len() == ks.len(),
        forall|q: int| 0 <= q < ks.len() ==> (#[trigger] ks[q]) < pool.len() && mapped[q] == pool[ks[q] as int],
    ensures
        covered(pc, as_ints(ks)) == covered(c, as_ints(mapped)),
{
    let a = covered(pc, as_ints(ks));
    let b = covered(c, as_ints(mapped));
    assert forall|j: int| a.contains(j) implies b.contains(j) by {
        let (q, t) = choose|q: int, t: int|
            0 <= q < as_ints(ks).len() && 0 <= t < pc[as_ints(ks)[q]].len() && pc[as_ints(ks)[q]][t] as int == j;
        assert(pc[ks[q] as int] == c[mapped[q] as int]);
        assert(as_ints(mapped)[q] == mapped[q] as int);
    }
    assert forall|j: int| b.contains(j) implies a.contains(j) by {
        let (q, t) = choose|q: int, t: int|
            0 <= q < as_ints(mapped).len() && 0 <= t < c[as_ints(mapped)[q]].len() && c[as_ints(mapped)[q]][t] as int == j;
        assert(pc[ks[q] as int] == c[mapped[q] as int]);
        assert(as_ints(ks)[q] == ks[q] as int);
    }
    assert(a =~= b);
}

/// The cover lists of the pool's candidates.
pub open spec fn pool_lists(c: Seq<Seq<u32>>, pool: Seq<usize>) -> Seq<Seq<u32>> {
    Seq::new(pool.len(), |k: int| c[pool[k] as int])
}

/// The positions `0..k`.
pub open spec fn first_positions(k: int) -> Seq<usize> {
    Seq::new(k as nat, |t: int| t as usize)
}

/// Interchange rounds allowed for `k` picks.
pub open spec fn swap_rounds(k: int) -> int {
    if k > 64 {
        k
    } else {
        64
    }
}

/// The pool positions the interchange keeps when the first `k` are picked.
pub open spec fn pool_outcome(c: Seq<Seq<u32>>, w: Seq<usize>, pool: Seq<usize>, k: int) -> Seq<usize> {
    if 0 < k < pool.len() {
        swap_run(pool_lists(c, pool), w, first_positions(k), pool.len() as int, swap_rounds(k))
    } else {
        first_positions(k)
    }
}

/// How many runners-up a pool holds for `cap` slots.
pub open spec fn pool_take(cap: usize) -> int {
    if cap <= usize::MAX / SWAP_POOL_PER_SLOT {
        cap * SWAP_POOL_PER_SLOT
    } else {
        usize::MAX as int
    }
}

/// Whether `pool` is the kept candidates followed by the first `take`
/// runners-up in rank order (most new weight, lower index among equals).
pub open spec fn runner_pool(c: Seq<Seq<u32>>, w: Seq<usize>, kept: Seq<usize>, m: int, take: int, pool: Seq<usize>) -> bool {
    &&& pool.len() >= kept.len()
    &&& pool.take(kept.len() as int) == kept
    &&& pool.len() - kept.len() == (if take < inbound_set(c, w, kept, m).len() {
        take
    } else {
        inbound_set(c, w, kept, m).len() as int
    })
    &&& forall|i: int|
        0 <= i < pool.len() - kept.len() ==> is_inbound(c, w, kept, m, pool[kept.len() + i] as int) && #[trigger] ahead_of(
            c,
            w,
            kept,
            m,
            pool[kept.len() + i] as int,
        ).len() == i
}

/// Runners-up considered per kept slot in an interchange round.
pub const SWAP_POOL_PER_SLOT: usize = 8;

/// One interchange round of capped selection: the kept candidates plus the
/// strongest runners-up (most not-yet-covered weight first, lower index
/// first among equals; at most `cap * SWAP_POOL_PER_SLOT` of them) form a
/// pool, [`improve_by_swap`] runs over it, and the result is named by
/// candidate index again. Also returns whether the selection changed.
pub fn swap_round(kept_idx: &Vec<usize>, cover_lists: &[Vec<u32>], item_weights: &[usize], cap: usize) -> (r: (Vec<usize>, bool))
    requires
        forall|p: int| 0 <= p < kept_idx.len() ==> #[trigger] kept_idx@[p] < cover_lists.len(),
        kept_idx.len() <= u32::MAX,
        forall|i: int| 0 <= i < cover_lists.len() ==> clean_list(#[trigger] cover_lists@[i]@, item_weights.len() as int),
        total_weight(item_weights@) <= usize::MAX,
    ensures
        r.0.len() == kept_idx.len(),
        forall|p: int| 0 <= p < r.0.len() ==> #[trigger] r.0@[p] < cover_lists.len(),
        r.1 == (r.0@ != kept_idx@),
        exists|pool: Seq<usize>|
            #[trigger] runner_pool(lists(cover_lists@), item_weights@, kept_idx@, cover_lists.len() as int, pool_take(cap), pool)
                && r.0@ == pool_outcome(lists(cover_lists@), item_weights@, pool, kept_idx.len() as int).map_values(
                |x: usize| pool[x as int],
            ),
        kept_idx@.no_duplicates() ==> r.0@.no_duplicates(),
        r.1 ==> weight_of(covered(lists(cover_lists@), as_ints(r.0@)), item_weights@) > weight_of(
            covered(lists(cover_lists@), as_ints(kept_idx@)),
            item_weights@,
        ),
        weight_of(covered(lists(cover_lists@), as_ints(r.0@)), item_weights@) >= weight_of(
            covered(lists(cover_lists@), as_ints(kept_idx@)),
            item_weights@,
        ),
{
    let ghost c = lists(cover_lists@);
    let n = item_weights.len();
    let m = cover_lists.len();
    let count = initial_counts(kept_idx, cover_lists, n);
    let mut is_kept: Vec<bool> = Vec::new();
    let mut x: usize = 0;
    while x < m
        invariant
            x <= m,
            is_kept.len() == x,
            forall|y: int| 0 <= y < x ==> !(#[trigger] is_kept@[y]),
        decreases m - x,
    {
        is_kept.push(false);
        x = x + 1;
    }
    let mut p: usize = 0;
    while p < kept_idx.len()
        invariant
            p <= kept_idx.len(),
            is_kept.len() == m,
            forall|q: int| 0 <= q < kept_idx.len() ==> #[trigger] kept_idx@[q] < m,
            forall|y: int| 0 <= y < m ==> (#[trigger] is_kept@[y] <==> exists|q: int| 0 <= q < p && kept_idx@[q] == y),
        decreases kept_idx.len() - p,
    {
        let kp = kept_idx[p];
        let ghost f0 = is_kept@;
        is_kept.set(kp, true);
        assert forall|y: int| 0 <= y < m implies (#[trigger] is_kept@[y] <==> exists|q: int|
            0 <= q < p + 1 && kept_idx@[q] == y) by {
            if y != kp {
                assert(is_kept@[y] == f0[y]);
                if exists|q: int| 0 <= q < p + 1 && kept_idx@[q] == y {
                    let q = choose|q: int| 0 <= q < p + 1 && kept_idx@[q] == y;
                    assert(q != p);
                }
            } else {
                assert(kept_idx@[p as int] == y);
            }
        }
        p = p + 1;
    }
    proof {
        assert forall|y: int| 0 <= y < m implies (#[trigger] is_kept@[y] == kept_idx@.contains(y as usize)) by {
            if is_kept@[y] {
                let q = choose|q: int| 0 <= q < kept_idx.len() && kept_idx@[q] == y;
                assert(kept_idx@[q] == y as usize);
            }
            if kept_idx@.contains(y as usize) {
                let q = choose|q: int| 0 <= q < kept_idx.len() && kept_idx@[q] == y as usize;
                assert(kept_idx@[q] == y);
            }
        }
    }
    let ghost kx = kept_idx@;
    let ghost w = item_weights@;
    let mut runners: Vec<(usize, usize)> = Vec::new();
    let mut i: usize = 0;
    while i < m
        invariant
            i <= m == cover_lists.len(),
            count.len() == n == item_weights.len(),
            is_kept.len() == m,
            forall|k: int| 0 <= k < m ==> clean_list(#[trigger] cover_lists@[k]@, n as int),
            total_weight(item_weights@) <= usize::MAX,
            forall|q: int| 0 <= q < runners.len() ==> (#[trigger] runners@[q]).1 < m,
            c == lists(cover_lists@),
            kx == kept_idx@,
            w == item_weights@,
            forall|y: int| 0 <= y < m ==> (#[trigger] is_kept@[y] == kx.contains(y as usize)),
            forall|jj: int| 0 <= jj < n ==> #[trigger] count@[jj] == cover_count(c, kx, jj, kx.len() as int),
            forall|q: int|
                0 <= q < runners.len() ==> {
                    let e = #[trigger] runners@[q];
                    &&& is_inbound(c, w, kx, m as int, e.1 as int)
                    &&& e.0 as int == new_gain(c, w, kx, e.1 as int)
                    &&& e.1 < i
                },
            forall|a: int, b: int| 0 <= a < b < runners.len() ==> runners@[a].1 < runners@[b].1,
            forall|y: int|
                0 <= y < i && #[trigger] is_inbound(c, w, kx, m as int, y) ==> exists|q: int|
                    0 <= q < runners.len() && runners@[q].1 as int == y,
        decreases m - i,
    {
        let ghost r0 = runners@;
        proof {
            assert(c[i as int] == cover_lists@[i as int]@);
            lemma_list_sum_ext(
                c[i as int],
                |jj: int| if count@[jj] == 0 { w[jj] as int } else { 0 },
                |jj: int| if cover_count(c, kx, jj, kx.len() as int) == 0 { w[jj] as int } else { 0 },
            );
        }
        if !is_kept[i] {
            let residual = uncovered_weight(&cover_lists[i], item_weights, &count);
            if residual > 0 {
                runners.push((residual, i));
                proof {
                    assert(runners@[r0.len() as int].1 == i);
                    assert forall|y: int|
                        0 <= y < i + 1 && #[trigger] is_inbound(c, w, kx, m as int, y) implies exists|q: int|
                            0 <= q < runners.len() && runners@[q].1 as int == y by {
                        if y < i {
                            let q = choose|q: int| 0 <= q < r0.len() && r0[q].1 as int == y;
                            assert(runners@[q] == r0[q]);
                        }
                    }
                }
            }
        }
        i = i + 1;
    }
    let take = if cap <= usize::MAX / SWAP_POOL_PER_SLOT {
        cap * SWAP_POOL_PER_SLOT
    } else {
        usize::MAX
    };
    let order = top_entries(&runners, take);
    proof {
        assert(take as int == pool_take(cap));
        assert(round_setup(c, w, kx, m as int, runners@, order@, take as int));
        lemma_rank_positions(c, w, kx, m as int, runners@, order@, take as int);
    }
    let mut pool: Vec<usize> = Vec::new();
    let mut pool_cover: Vec<Vec<u32>> = Vec::new();
    let mut q: usize = 0;
    while q < kept_idx.len()
        invariant
            q <= kept_idx.len(),
            pool.len() == q,
            pool_cover.len() == q,
            m == cover_lists.len(),
            forall|qq: int| 0 <= qq < kept_idx.len() ==> #[trigger] kept_idx@[qq] < m,
            forall|k: int| 0 <= k < q ==> (#[trigger] pool@[k]) < m && pool_cover@[k]@ == c[pool@[k] as int],
            forall|k: int| 0 <= k < q ==> #[trigger] pool@[k] == kept_idx@[k],
            c == lists(cover_lists@),
        decreases kept_idx.len() - q,
    {
        let idx = kept_idx[q];
        pool.push(idx);
        pool_cover.push(copy_u32s(&cover_lists[idx]));
        q = q + 1;
    }
    let mut q: usize = 0;
    while q < order.len()
        invariant
            q <= order.len(),
            pool.len() == kept_idx.len() + q,
            pool_cover.len() == pool.len(),
            m == cover_lists.len(),
            forall|qq: int| 0 <= qq < order.len() ==> #[trigger] order@[qq] < runners.len(),
            forall|qq: int| 0 <= qq < runners.len() ==> (#[trigger] runners@[qq]).1 < m,
            forall|k: int| 0 <= k < pool.len() ==> (#[trigger] pool@[k]) < m && pool_cover@[k]@ == c[pool@[k] as int],
            forall|k: int| 0 <= k < kept_idx.len() ==> #[trigger] pool@[k] == kept_idx@[k],
            c == lists(cover_lists@),
            forall|qq: int| 0 <= qq < q ==> #[trigger] pool@[kept_idx.len() + qq] == runners@[order@[qq] as int].1,
        decreases order.len() - q,
    {
        let idx = runners[order[q]].1;
        pool.push(idx);
        pool_cover.push(copy_u32s(&cover_lists[idx]));
        q = q + 1;
    }
    let mut start: Vec<usize> = Vec::new();
    let mut k: usize = 0;
    while k < kept_idx.len()
        invariant
            k <= kept_idx.len(),
            start@ == Seq::new(k as nat, |t: int| t as usize),
        decreases kept_idx.len() - k,
    {
        start.push(k);
        k = k + 1;
        assert(start@ =~= Seq::new(k as nat, |t: int| t as usize));
    }
    let ghost pc = lists(pool_cover@);
    assert forall|kk: int| 0 <= kk < pool.len() implies #[trigger] pc[kk] == c[pool@[kk] as int] by {}
    assert forall|kk: int| 0 <= kk < pool_cover.len() implies clean_list(#[trigger] pool_cover@[kk]@, n as int) by {
        assert(pool_cover@[kk]@ == cover_lists@[pool@[kk] as int]@);
    }
    proof {
        assert(pc =~= pool_lists(c, pool@));
        assert(start@ =~= first_positions(kept_idx.len() as int));
        assert(start@.no_duplicates());
    }
    let chosen = improve_by_swap(start, pool_cover.as_slice(), item_weights);
    proof {
        assert(chosen@ == pool_outcome(c, w, pool@, kept_idx.len() as int));
    }
    let mut new_kept: Vec<usize> = Vec::new();
    let mut t: usize = 0;
    while t < chosen.len()
        invariant
            t <= chosen.len(),
            chosen.len() == kept_idx.len(),
            new_kept.len() == t,
            forall|qq: int| 0 <= qq < chosen.len() ==> #[trigger] chosen@[qq] < pool.len(),
            forall|kk: int| 0 <= kk < pool.len() ==> (#[trigger] pool@[kk]) < m,
            forall|qq: int| 0 <= qq < t ==> #[trigger] new_kept@[qq] == pool@[chosen@[qq] as int],
        decreases chosen.len() - t,
    {
        new_kept.push(pool[chosen[t]]);
        t = t + 1;
    }
    proof {
        lemma_covered_through(c, pool@, pc, chosen@, new_kept@);
        assert forall|qq: int| 0 <= qq < start.len() implies (#[trigger] start@[qq]) < pool.len() && kept_idx@[qq]
            == pool@[start@[qq] as int] by {}
        lemma_covered_through(c, pool@, pc, start@, kept_idx@);
    }
    let mut same = true;
    let mut u: usize = 0;
    assert(new_kept@.take(0) =~= kept_idx@.take(0));
    while u < new_kept.len()
        invariant
            u <= new_kept.len() == kept_idx.len(),
            same == (new_kept@.take(u as int) == kept_idx@.take(u as int)),
        decreases new_kept.len() - u,
    {
        if new_kept[u] != kept_idx[u] {
            same = false;
        }
        proof {
            assert(new_kept@.take(u as int + 1) =~= new_kept@.take(u as int).push(new_kept@[u as int]));
            assert(kept_idx@.take(u as int + 1) =~= kept_idx@.take(u as int).push(kept_idx@[u as int]));
            if new_kept@.take(u as int) == kept_idx@.take(u as int) && new_kept@[u as int] != kept_idx@[u as int] {
                assert(new_kept@.take(u as int + 1)[u as int] != kept_idx@.take(u as int + 1)[u as int]);
            }
            if new_kept@.take(u as int) != kept_idx@.take(u as int) {
                assert(new_kept@.take(u as int + 1).take(u as int) =~= new_kept@.take(u as int));
                assert(kept_idx@.take(u as int + 1).take(u as int) =~= kept_idx@.take(u as int));
            }
        }
        u = u + 1;
    }
    assert(new_kept@.take(new_kept.len() as int) =~= new_kept@);
    assert(kept_idx@.take(kept_idx.len() as int) =~= kept_idx@);
    proof {
        let pl = pool@;
        let k = kept_idx.len() as int;
        assert(new_kept@ =~= chosen@.map_values(|x: usize| pl[x as int]));
        assert(pl.take(k) =~= kx);
        assert forall|ii: int| 0 <= ii < pl.len() - k implies is_inbound(c, w, kx, m as int, pl[k + ii] as int) && #[trigger] ahead_of(
            c,
            w,
            kx,
            m as int,
            pl[k + ii] as int,
        ).len() == ii by {
            assert(pl[k + ii] == runners@[order@[ii] as int].1);
        }
        assert(runner_pool(c, w, kx, m as int, pool_take(cap), pl));
        if kx.no_duplicates() {
            assert(pl.no_duplicates()) by {
                assert forall|a: int, bb: int| 0 <= a < bb < pl.len() implies pl[a] != pl[bb] by {
                    if bb < k {
                        assert(pl[a] == kx[a] && pl[bb] == kx[bb]);
                    } else if a < k {
                        assert(pl[a] == kx[a]);
                        assert(is_inbound(c, w, kx, m as int, pl[k + (bb - k)] as int));
                        assert(kx.contains(pl[a]));
                    } else {
                        let qa = a - k;
                        let qb = bb - k;
                        let oa = order@[qa] as int;
                        let ob = order@[qb] as int;
                        assert(pool@[kept_idx.len() + qa] == runners@[order@[qa] as int].1);
                        assert(pool@[kept_idx.len() + qb] == runners@[order@[qb] as int].1);
                        assert(kept_idx.len() + qa == a);
                        assert(pl[a] == runners@[oa].1);
                        assert(pl[bb] == runners@[ob].1);
                        assert(order@[a - k] != order@[bb - k]);
                        if oa < ob {
                            assert(runners@[oa].1 < runners@[ob].1);
                        } else {
                            assert(runners@[ob].1 < runners@[oa].1);
                        }
                    }
                }
            }
            assert(new_kept@.no_duplicates()) by {
                assert forall|a: int, bb: int| 0 <= a < bb < new_kept@.len() implies new_kept@[a] != new_kept@[bb] by {
                    assert(chosen@[a] != chosen@[bb]);
                    assert(chosen@[a] < pl.len() && chosen@[bb] < pl.len());
                }
            }
        }
        if !same {
            if chosen@ == start@ {
                assert(new_kept@ =~= kept_idx@) by {
                    assert forall|qq: int| 0 <= qq < new_kept@.len() implies new_kept@[qq] == kept_idx@[qq] by {
                        assert(chosen@[qq] == qq as usize);
                    }
                }
            }
        }
    }
    (new_kept, !same)
}

/// A clean list's gain over nothing covered fits the total weight.
proof fn lemma_gain_empty_bound(list: Seq<u32>, w: Seq<usize>)
    requires
        clean_list(list, w.len() as int),
        total_weight(w) <= usize::MAX,
    ensures
        0 <= gain(list, w, Set::empty()) <= usize::MAX,
{
    crate::cap_cells::lemma_gain_as_sum(list, w, Set::empty());
    lemma_clean_list_sum_bound(list, |j: int| if Set::<int>::empty().contains(j) { 0 } else { w[j] as int }, w);
}

/// Interchange-and-relocation rounds allowed in capped selection.
pub const SWAP_ROUNDS: usize = 12;

/// Whether `near` gives each pick of `kept` the near list of its candidate.
pub open spec fn near_of_picks(near_of: Seq<Vec<u32>>, kept: Seq<usize>, near: Seq<Vec<u32>>) -> bool {
    &&& near.len() == kept.len()
    &&& forall|p: int| 0 <= p < kept.len() ==> (#[trigger] near[p])@ == near_of[kept[p] as int]@
}

/// The candidates the interchange over `pool` keeps for `k` picks.
pub open spec fn pool_picks(c: Seq<Seq<u32>>, w: Seq<usize>, pool: Seq<usize>, k: int) -> Seq<usize> {
    pool_outcome(c, w, pool, k).map_values(|x: usize| pool[x as int])
}

/// The picks after the relocation step over the near lists `near`.
pub open spec fn relocated_picks(c: Seq<Seq<u32>>, w: Seq<usize>, kept: Seq<usize>, near: Seq<Vec<u32>>) -> Seq<usize> {
    apply_relocations(
        c,
        w,
        kept,
        relocation_proposals(c, w, kept, near, kept.len() as int),
        relocation_proposals(c, w, kept, near, kept.len() as int).len() as int,
    )
}

/// Whether some pick has a paying relocation among its near list.
pub open spec fn relocation_possible(c: Seq<Seq<u32>>, w: Seq<usize>, kept: Seq<usize>, near: Seq<Vec<u32>>) -> bool {
    exists|pos: int, t: int|
        0 <= pos < kept.len() && 0 <= t < near[pos]@.len() && #[trigger] relocation_pays(c, w, kept, pos, near[pos]@[t] as int)
}

/// One polishing round from `kept` to `next`: an interchange round over
/// the runner pool, then relocation of each pick among its candidate's
/// near list; `moved` tells whether either changed anything.
pub open spec fn polish_step(
    c: Seq<Seq<u32>>,
    w: Seq<usize>,
    near_of: Seq<Vec<u32>>,
    m: int,
    cap: usize,
    kept: Seq<usize>,
    next: Seq<usize>,
    moved: bool,
) -> bool {
    exists|pool: Seq<usize>, near: Seq<Vec<u32>>|
        #[trigger] runner_pool(c, w, kept, m, pool_take(cap), pool) && #[trigger] near_of_picks(
            near_of,
            pool_picks(c, w, pool, kept.len() as int),
            near,
        ) && next == relocated_picks(c, w, pool_picks(c, w, pool, kept.len() as int), near) && moved == (pool_picks(
            c,
            w,
            pool,
            kept.len() as int,
        ) != kept || relocation_possible(c, w, pool_picks(c, w, pool, kept.len() as int), near))
}

/// Whether `trace` runs the polishing rounds: each step one round, every
/// round but the last moving something, stopping after [`SWAP_ROUNDS`]
/// rounds or at a round that moved nothing.
pub open spec fn polish_trace(
    c: Seq<Seq<u32>>,
    w: Seq<usize>,
    near_of: Seq<Vec<u32>>,
    m: int,
    cap: usize,
    trace: Seq<Seq<usize>>,
    moves: Seq<bool>,
) -> bool {
    &&& trace.len() == moves.len() + 1
    &&& 1 <= moves.len() <= SWAP_ROUNDS
    &&& forall|i: int| 0 <= i < moves.len() ==> polish_step(c, w, near_of, m, cap, #[trigger] trace[i], trace[i + 1], moves[i])
    &&& forall|i: int| 0 <= i < moves.len() - 1 ==> #[trigger] moves[i]
    &&& moves[moves.len() - 1] ==> moves.len() == SWAP_ROUNDS
}

/// The picks capped selection starts polishing from: every candidate when
/// they fit under the cap, else the greedy picks.
pub open spec fn start_picks(c: Seq<Seq<u32>>, w: Seq<usize>, cap: int) -> Seq<usize> {
    if c.len() <= cap {
        Seq::new(c.len(), |i: int| i as usize)
    } else {
        greedy_from(c, w, cap, Seq::empty()).map_values(|x: int| x as usize)
    }
}

/// Capped selection over candidate cover lists: greedy max-coverage picks,
/// polished by rounds of interchange and relocation (`near_of[i]`: the
/// candidates near candidate `i`) until a round moves nothing or
/// [`SWAP_ROUNDS`] rounds have run. `None` when the greedy picks nothing.
pub fn polish_selection(cover_lists: &[Vec<u32>], item_weights: &[usize], cap: usize, near_of: &[Vec<u32>]) -> (r: Option<Vec<usize>>)
    requires
        cover_lists.len() <= u32::MAX,
        forall|i: int| 0 <= i < cover_lists.len() ==> clean_list(#[trigger] cover_lists@[i]@, item_weights.len() as int),
        total_weight(item_weights@) <= usize::MAX,
        near_of.len() == cover_lists.len(),
        forall|i: int, t: int| 0 <= i < near_of.len() && 0 <= t < near_of@[i]@.len() ==> #[trigger] near_of@[i]@[t] < cover_lists.len(),
    ensures
        r is None <==> start_picks(lists(cover_lists@), item_weights@, cap as int).len() == 0,
        r is Some ==> exists|trace: Seq<Seq<usize>>, moves: Seq<bool>|
            #[trigger] polish_trace(lists(cover_lists@), item_weights@, near_of@, cover_lists.len() as int, cap, trace, moves)
                && trace[0] == start_picks(lists(cover_lists@), item_weights@, cap as int) && r->0@ == trace[trace.len() - 1],
{
    let ghost c = lists(cover_lists@);
    let ghost w = item_weights@;
    let m = cover_lists.len();
    proof {
        assert(items_in_range(c, w.len() as int)) by {
            assert forall|i: int, t: int| 0 <= i < c.len() && 0 <= t < c[i].len() implies (#[trigger] c[i][t]) < w.len() by {
                assert(clean_list(cover_lists@[i]@, w.len() as int));
            }
        }
        assert forall|i: int| 0 <= i < cover_lists.len() implies gain(#[trigger] cover_lists@[i]@, w, Set::empty()) <= usize::MAX by {
            lemma_gain_empty_bound(cover_lists@[i]@, w);
        }
    }
    let start = select_max_coverage(cover_lists, item_weights, cap);
    proof {
        let g = greedy_from(c, w, cap as int, Seq::empty());
        if m > cap {
            crate::cap_cells::lemma_greedy_distinct(c, w, cap as int, Seq::empty());
            crate::cap_cells::lemma_greedy_picks(c, w, cap as int, Seq::empty());
            lemma_greedy_steps(c, w, cap as int, Seq::empty());
            assert(start@ =~= start_picks(c, w, cap as int)) by {
                assert forall|q: int| 0 <= q < start.len() implies start@[q] == start_picks(c, w, cap as int)[q] by {
                    assert(as_ints(start@)[q] == start@[q] as int);
                }
            }
            assert(start@.no_duplicates()) by {
                assert forall|a: int, b: int| 0 <= a < b < start.len() implies start@[a] != start@[b] by {
                    assert(as_ints(start@)[a] == start@[a] as int);
                    assert(as_ints(start@)[b] == start@[b] as int);
                }
            }
            assert forall|q: int| 0 <= q < start.len() implies #[trigger] start@[q] < m by {
                assert(as_ints(start@)[q] == start@[q] as int);
                assert(greedy_pick(c, w, covered(c, g.take(q)), g[q]));
            }
        } else {
            assert(start@ =~= start_picks(c, w, cap as int));
        }
    }
    if start.len() == 0 {
        return None;
    }
    let mut kept = start;
    let ghost mut trace: Seq<Seq<usize>> = seq![kept@];
    let ghost mut moves: Seq<bool> = Seq::empty();
    let mut round: usize = 0;
    let mut done = false;
    while round < SWAP_ROUNDS && !done
        invariant
            c == lists(cover_lists@),
            w == item_weights@,
            m == cover_lists.len() <= u32::MAX,
            forall|i: int| 0 <= i < m ==> clean_list(#[trigger] cover_lists@[i]@, w.len() as int),
            total_weight(w) <= usize::MAX,
            near_of.len() == m,
            forall|i: int, t: int| 0 <= i < near_of.len() && 0 <= t < near_of@[i]@.len() ==> #[trigger] near_of@[i]@[t] < m,
            kept.len() <= m,
            forall|q: int| 0 <= q < kept.len() ==> #[trigger] kept@[q] < m,
            kept@.no_duplicates(),
            round <= SWAP_ROUNDS,
            trace.len() == moves.len() + 1,
            moves.len() == round,
            trace[0] == start_picks(c, w, cap as int),
            trace[trace.len() - 1] == kept@,
            forall|i: int| 0 <= i < moves.len() ==> polish_step(c, w, near_of@, m as int, cap, #[trigger] trace[i], trace[i + 1], moves[i]),
            !done ==> forall|i: int| 0 <= i < moves.len() ==> #[trigger] moves[i],
            done ==> moves.len() >= 1 && !moves[moves.len() - 1] && forall|i: int| 0 <= i < moves.len() - 1 ==> #[trigger] moves[i],
        decreases SWAP_ROUNDS - round,
    {
        let ghost k0 = kept@;
        let (k1, swapped) = swap_round(&kept, cover_lists, item_weights, cap);
        let mut near: Vec<Vec<u32>> = Vec::new();
        let mut p: usize = 0;
        while p < k1.len()
            invariant
                p <= k1.len(),
                near.len() == p,
                m == cover_lists.len(),
                near_of.len() == m,
                forall|q: int| 0 <= q < k1.len() ==> #[trigger] k1@[q] < m,
                forall|q: int| 0 <= q < p ==> (#[trigger] near@[q])@ == near_of@[k1@[q] as int]@,
            decreases k1.len() - p,
        {
            near.push(copy_u32s(&near_of[k1[p]]));
            p = p + 1;
        }
        let mut k2 = k1;
        let ghost k1v = k2@;
        let relocated = relocate_capped(&mut k2, cover_lists, near.as_slice(), item_weights);
        proof {
            let pool = choose|pool: Seq<usize>|
                #[trigger] runner_pool(c, w, k0, m as int, pool_take(cap), pool) && k1v == pool_outcome(c, w, pool, k0.len() as int).map_values(
                    |x: usize| pool[x as int],
                );
            assert(k1v == pool_picks(c, w, pool, k0.len() as int));
            assert(near_of_picks(near_of@, k1v, near@));
            assert(k2@ == relocated_picks(c, w, k1v, near@));
            assert(relocated == relocation_possible(c, w, k1v, near@));
            assert(polish_step(c, w, near_of@, m as int, cap, k0, k2@, swapped || relocated));
            trace = trace.push(k2@);
            moves = moves.push(swapped || relocated);
        }
        kept = k2;
        if !(swapped || relocated) {
            done = true;
        }
        round = round + 1;
    }
    proof {
        assert(polish_trace(c, w, near_of@, m as int, cap, trace, moves));
    }
    Some(kept)
}

/// The weight the entries of a clean list add is at most the total weight.
pub(crate) proof fn lemma_clean_list_sum_bound(list: Seq<u32>, g: spec_fn(int) -> int, w: Seq<usize>)
    requires
        clean_list(list, w.len() as int),
        forall|j: int| 0 <= j < w.len() ==> 0 <= #[trigger] g(j) <= w[j],
    ensures
        0 <= list_sum(list, g) <= total_weight(w),
{
    lemma_list_sum_bound(list, g, w);
}

} // verus!
