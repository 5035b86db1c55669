//! Coverage bookkeeping for refinement: the points each center covers,
//! which centers are live, and how many live centers cover each point. Every
//! refinement move goes through here, so the counts never drift from the
//! lists.

use vstd::prelude::*;
use crate::select::{sorted_distinct, gain, covered, lists, items_in_range, items_of, as_ints, lemma_covered_push};
use crate::chunk_greedy::{bucket_greedy, ones, start_marks, cover_after, is_greedy_pick, TieBreak};

verus! {

/// How many of the first `k` centers are live and cover point `r`.
pub open spec fn coverers(lists: Seq<Seq<u32>>, live: Seq<bool>, r: int, k: int) -> nat
    decreases k,
{
    if k <= 0 {
        0
    } else {
        coverers(lists, live, r, k - 1) + if live[k - 1] && lists[k - 1].contains(r as u32) {
            1nat
        } else {
            0nat
        }
    }
}

/// How many of the first `k` centers are live.
pub open spec fn live_count(live: Seq<bool>, k: int) -> nat
    decreases k,
{
    if k <= 0 {
        0
    } else {
        live_count(live, k - 1) + if live[k - 1] {
            1nat
        } else {
            0nat
        }
    }
}

/// How many of the first `k` points no live center covers.
pub open spec fn uncovered_count(counts: Seq<u32>, k: int) -> nat
    decreases k,
{
    if k <= 0 {
        0
    } else {
        uncovered_count(counts, k - 1) + if counts[k - 1] == 0 {
            1nat
        } else {
            0nat
        }
    }
}

/// The entries of `list` whose point has exactly `v` live coverers, in order.
pub open spec fn with_count(list: Seq<u32>, counts: Seq<u32>, v: u32) -> Seq<u32>
    decreases list.len(),
{
    if list.len() == 0 {
        Seq::empty()
    } else {
        let rest = with_count(list.drop_last(), counts, v);
        if counts[list.last() as int] == v {
            rest.push(list.last())
        } else {
            rest
        }
    }
}

/// The refinement score: `m` per live center plus one per uncovered point.
pub open spec fn score_of(live: Seq<bool>, counts: Seq<u32>, m: int) -> int {
    live_count(live, live.len() as int) * m + uncovered_count(counts, counts.len() as int)
}

/// Coverage state over `n` points.
pub struct CoverState {
    m: usize,
    lists: Vec<Vec<u32>>,
    live: Vec<bool>,
    count: Vec<u32>,
}

impl CoverState {
    /// The points each center covers.
    pub closed spec fn lists_view(self) -> Seq<Seq<u32>> {
        self.lists@.map_values(|v: Vec<u32>| v@)
    }

    /// Which centers are live.
    pub closed spec fn live_view(self) -> Seq<bool> {
        self.live@
    }

    /// The number of live coverers of each point.
    pub closed spec fn counts(self) -> Seq<u32> {
        self.count@
    }

    /// The smallest number of new points that pays for a center.
    pub closed spec fn min_gain(self) -> int {
        self.m as int
    }

    /// The score of the state.
    pub open spec fn score(self) -> int {
        score_of(self.live_view(), self.counts(), self.min_gain())
    }

    /// The state is consistent: one live flag per center, every list names
    /// distinct points, and each count is the number of live centers
    /// covering that point.
    pub open spec fn wf(self) -> bool {
        &&& self.min_gain() >= 1
        &&& self.lists_view().len() == self.live_view().len()
        &&& self.lists_view().len() <= u32::MAX
        &&& self.counts().len() <= u32::MAX
        &&& forall|i: int| 0 <= i < self.lists_view().len() ==> (#[trigger] self.lists_view()[i]).no_duplicates()
        &&& forall|i: int, t: int|
            0 <= i < self.lists_view().len() && 0 <= t < self.lists_view()[i].len() ==> (#[trigger] self.lists_view()[i][t])
                < self.counts().len()
        &&& forall|r: int|
            0 <= r < self.counts().len() ==> #[trigger] self.counts()[r] == coverers(
                self.lists_view(),
                self.live_view(),
                r,
                self.lists_view().len() as int,
            )
    }
}

/// Appending a center adds one coverer to the points it covers.
proof fn lemma_coverers_push(lists: Seq<Seq<u32>>, live: Seq<bool>, l: Seq<u32>, r: int, k: int)
    requires
        0 <= k <= lists.len(),
        lists.len() == live.len(),
    ensures
        coverers(lists.push(l), live.push(true), r, k) == coverers(lists, live, r, k),
        coverers(lists.push(l), live.push(true), r, lists.len() + 1int) == coverers(lists, live, r, lists.len() as int)
            + if l.contains(r as u32) {
            1nat
        } else {
            0nat
        },
    decreases k,
{
    if k > 0 {
        lemma_coverers_push(lists, live, l, r, k - 1);
    }
    lemma_coverers_prefix_push(lists, live, l, r, lists.len() as int);
}

proof fn lemma_coverers_prefix_push(lists: Seq<Seq<u32>>, live: Seq<bool>, l: Seq<u32>, r: int, k: int)
    requires
        0 <= k <= lists.len(),
        lists.len() == live.len(),
    ensures
        coverers(lists.push(l), live.push(true), r, k) == coverers(lists, live, r, k),
    decreases k,
{
    if k > 0 {
        lemma_coverers_prefix_push(lists, live, l, r, k - 1);
    }
}

/// Changing one center's flag or list changes only its own term.
proof fn lemma_coverers_update(
    lists: Seq<Seq<u32>>,
    live: Seq<bool>,
    lists2: Seq<Seq<u32>>,
    live2: Seq<bool>,
    i: int,
    r: int,
    k: int,
)
    requires
        0 <= i < lists.len(),
        0 <= k <= lists.len(),
        lists.len() == live.len(),
        lists2.len() == lists.len(),
        live2.len() == live.len(),
        forall|j: int| 0 <= j < lists.len() && j != i ==> lists2[j] == lists[j] && live2[j] == live[j],
    ensures
        coverers(lists2, live2, r, k) + (if i < k && live[i] && lists[i].contains(r as u32) {
            1int
        } else {
            0int
        }) == coverers(lists, live, r, k) + (if i < k && live2[i] && lists2[i].contains(r as u32) {
            1int
        } else {
            0int
        }),
    decreases k,
{
    if k > 0 {
        lemma_coverers_update(lists, live, lists2, live2, i, r, k - 1);
    }
}

/// A point has at most as many coverers as there are centers.
proof fn lemma_coverers_bound(lists: Seq<Seq<u32>>, live: Seq<bool>, r: int, k: int)
    requires
        0 <= k,
    ensures
        coverers(lists, live, r, k) <= k,
    decreases k,
{
    if k > 0 {
        lemma_coverers_bound(lists, live, r, k - 1);
    }
}

/// The entries of `list` covered once, or twice with `other` naming them too.
pub open spec fn only_by_pair(list: Seq<u32>, other: Seq<u32>, counts: Seq<u32>) -> Seq<u32>
    decreases list.len(),
{
    if list.len() == 0 {
        Seq::empty()
    } else {
        let rest = only_by_pair(list.drop_last(), other, counts);
        let p = list.last();
        if counts[p as int] == 1 || (counts[p as int] == 2 && other.contains(p)) {
            rest.push(p)
        } else {
            rest
        }
    }
}

/// Whether all live coverers of `p` are among three centers' lists: its
/// count equals the number of those lists naming it.
pub open spec fn only_by_three(p: u32, a: Seq<u32>, b: Seq<u32>, c: Seq<u32>, counts: Seq<u32>) -> bool {
    &&& (a.contains(p) || b.contains(p) || c.contains(p))
    &&& counts[p as int] == (if a.contains(p) {
        1int
    } else {
        0int
    }) + (if b.contains(p) {
        1int
    } else {
        0int
    }) + (if c.contains(p) {
        1int
    } else {
        0int
    })
}

/// Whether `x` comes before `y` in lexicographic order.
pub open spec fn lex_less(x: (usize, usize), y: (usize, usize)) -> bool {
    x.0 < y.0 || (x.0 == y.0 && x.1 < y.1)
}

/// Two lexicographically increasing sequences holding the same pairs are
/// the same sequence.
proof fn lemma_sorted_unique(a: Seq<(usize, usize)>, b: Seq<(usize, usize)>)
    requires
        forall|i: int, j: int| 0 <= i < j < a.len() ==> lex_less(#[trigger] a[i], #[trigger] a[j]),
        forall|i: int, j: int| 0 <= i < j < b.len() ==> lex_less(#[trigger] b[i], #[trigger] b[j]),
        forall|x: (usize, usize)| a.contains(x) <==> b.contains(x),
    ensures
        a == b,
    decreases a.len(),
{
    if a.len() == 0 {
        if b.len() > 0 {
            assert(b.contains(b[0]));
        }
        assert(a =~= b);
    } else {
        assert(a.contains(a[0]));
        let j = choose|j: int| 0 <= j < b.len() && b[j] == a[0];
        if j > 0 {
            assert(b.contains(b[0]));
            let i = choose|i: int| 0 <= i < a.len() && a[i] == b[0];
            assert(lex_less(b[0], b[j]));
            if i > 0 {
                assert(lex_less(a[0], a[i]));
            }
            assert(false);
        }
        let a2 = a.drop_first();
        let b2 = b.drop_first();
        assert forall|x: (usize, usize)| a2.contains(x) <==> b2.contains(x) by {
            if a2.contains(x) {
                let i = choose|i: int| 0 <= i < a2.len() && a2[i] == x;
                assert(a[i + 1] == x);
                assert(lex_less(a[0], a[i + 1]));
                assert(b.contains(x));
                let k = choose|k: int| 0 <= k < b.len() && b[k] == x;
                assert(k != 0);
                assert(b2[k - 1] == x);
            }
            if b2.contains(x) {
                let i = choose|i: int| 0 <= i < b2.len() && b2[i] == x;
                assert(b[i + 1] == x);
                assert(lex_less(b[0], b[i + 1]));
                assert(a.contains(x));
                let k = choose|k: int| 0 <= k < a.len() && a[k] == x;
                assert(k != 0);
                assert(a2[k - 1] == x);
            }
        }
        assert forall|i: int, j2: int| 0 <= i < j2 < a2.len() implies lex_less(#[trigger] a2[i], #[trigger] a2[j2]) by {
            assert(lex_less(a[i + 1], a[j2 + 1]));
        }
        assert forall|i: int, j2: int| 0 <= i < j2 < b2.len() implies lex_less(#[trigger] b2[i], #[trigger] b2[j2]) by {
            assert(lex_less(b[i + 1], b[j2 + 1]));
        }
        lemma_sorted_unique(a2, b2);
        assert(a =~= b) by {
            assert forall|i: int| 0 <= i < a.len() implies a[i] == b[i] by {
                if i > 0 {
                    assert(a[i] == a2[i - 1]);
                    assert(b[i] == b2[i - 1]);
                }
            }
        }
    }
}

/// The points only center `i` covers.
pub open spec fn exclusive_count(lists: Seq<Seq<u32>>, counts: Seq<u32>, i: int) -> int {
    with_count(lists[i], counts, 1).len() as int
}

/// The counts after center `i` stops covering its points.
pub open spec fn kill_counts(lists: Seq<Seq<u32>>, counts: Seq<u32>, i: int) -> Seq<u32> {
    Seq::new(
        counts.len(),
        |r: int|
            (counts[r] - if lists[i].contains(r as u32) {
                1int
            } else {
                0int
            }) as u32,
    )
}

/// Whether `order` lists, in increasing (exclusive count, index) order, the
/// live centers with fewer than `m` exclusive points.
pub open spec fn is_drop_order(lists: Seq<Seq<u32>>, m: int, live: Seq<bool>, counts: Seq<u32>, order: Seq<(usize, usize)>) -> bool {
    &&& forall|a: int, b: int| 0 <= a < b < order.len() ==> lex_less(#[trigger] order[a], #[trigger] order[b])
    &&& forall|x: (usize, usize)|
        #[trigger] order.contains(x) <==> (0 <= x.1 < live.len() && live[x.1 as int] && x.0 == exclusive_count(lists, counts, x.1 as int) && x.0 < m)
}

/// The live flags and counts after the first `k` entries of a sweep: each
/// center still live and still short of `m` exclusive points goes.
pub open spec fn drop_sweep(
    lists: Seq<Seq<u32>>,
    m: int,
    live: Seq<bool>,
    counts: Seq<u32>,
    order: Seq<(usize, usize)>,
    k: int,
) -> (Seq<bool>, Seq<u32>)
    decreases k,
{
    if k <= 0 {
        (live, counts)
    } else {
        let st = drop_sweep(lists, m, live, counts, order, k - 1);
        let i = order[k - 1].1 as int;
        if st.0[i] && exclusive_count(lists, st.1, i) < m {
            (st.0.update(i, false), kill_counts(lists, st.1, i))
        } else {
            st
        }
    }
}

/// The live flags and counts after sweeps (at most `fuel` of them), each
/// over the centers short of `m` exclusive points in increasing (count,
/// index) order, until a sweep drops nothing.
pub open spec fn drop_run(lists: Seq<Seq<u32>>, m: int, live: Seq<bool>, counts: Seq<u32>, fuel: nat) -> (Seq<bool>, Seq<u32>)
    decreases fuel,
{
    if fuel == 0 {
        (live, counts)
    } else {
        let order = choose|o: Seq<(usize, usize)>| #[trigger] is_drop_order(lists, m, live, counts, o);
        let st = drop_sweep(lists, m, live, counts, order, order.len() as int);
        if order.len() == 0 || st.0 == live {
            (live, counts)
        } else {
            drop_run(lists, m, st.0, st.1, (fuel - 1) as nat)
        }
    }
}

/// The pairs of `v` in increasing lexicographic order, each once.
fn sorted_pairs(v: &Vec<(usize, usize)>) -> (r: Vec<(usize, usize)>)
    ensures
        forall|a: int, b: int| 0 <= a < b < r.len() ==> lex_less(#[trigger] r@[a], #[trigger] r@[b]),
        forall|x: (usize, usize)| r@.contains(x) <==> v@.contains(x),
{
    let mut out: Vec<(usize, usize)> = Vec::new();
    let mut i: usize = 0;
    while i < v.len()
        invariant
            i <= v.len(),
            forall|a: int, b: int| 0 <= a < b < out.len() ==> lex_less(#[trigger] out@[a], #[trigger] out@[b]),
            forall|x: (usize, usize)| out@.contains(x) <==> v@.take(i as int).contains(x),
        decreases v.len() - i,
    {
        let x = v[i];
        let mut pos: usize = 0;
        while pos < out.len() && (out[pos].0 < x.0 || (out[pos].0 == x.0 && out[pos].1 < x.1))
            invariant
                pos <= out.len(),
                forall|a: int| 0 <= a < pos ==> lex_less(#[trigger] out@[a], x),
            decreases out.len() - pos,
        {
            pos = pos + 1;
        }
        let ghost o0 = out@;
        proof {
            assert(v@.take(i as int + 1) =~= v@.take(i as int).push(x));
        }
        if pos == out.len() || out[pos].0 != x.0 || out[pos].1 != x.1 {
            out.insert(pos, x);
            proof {
                assert(pos < o0.len() ==> lex_less(x, o0[pos as int]));
                assert forall|a: int, b: int| 0 <= a < b < out.len() implies lex_less(#[trigger] out@[a], #[trigger] out@[b]) by {
                    if b < pos {
                        assert(out@[a] == o0[a] && out@[b] == o0[b]);
                    } else if b == pos {
                        assert(out@[a] == o0[a]);
                    } else if a == pos {
                        assert(out@[b] == o0[b - 1]);
                        if b - 1 > pos {
                            assert(lex_less(o0[pos as int], o0[b - 1]));
                        }
                    } else if a < pos {
                        assert(out@[a] == o0[a] && out@[b] == o0[b - 1]);
                        if b - 1 > pos {
                            assert(lex_less(o0[pos as int], o0[b - 1]));
                        }
                    } else {
                        assert(out@[a] == o0[a - 1] && out@[b] == o0[b - 1]);
                    }
                }
                assert forall|y: (usize, usize)| out@.contains(y) <==> v@.take(i as int + 1).contains(y) by {
                    if out@.contains(y) {
                        let q = choose|q: int| 0 <= q < out@.len() && out@[q] == y;
                        if q < pos {
                            assert(o0[q] == y);
                            assert(o0.contains(y));
                        } else if q > pos {
                            assert(o0[q - 1] == y);
                            assert(o0.contains(y));
                        }
                    }
                    if o0.contains(y) {
                        let q = choose|q: int| 0 <= q < o0.len() && o0[q] == y;
                        if q < pos {
                            assert(out@[q] == y);
                        } else {
                            assert(out@[q + 1] == y);
                        }
                    }
                    if y == x {
                        assert(out@[pos as int] == x);
                    }
                    let ti = v@.take(i as int);
                    let tj = v@.take(i as int + 1);
                    if tj.contains(y) {
                        let q = choose|q: int| 0 <= q < tj.len() && tj[q] == y;
                        if q < i {
                            assert(ti[q] == y);
                        }
                    }
                    if ti.contains(y) {
                        let q = choose|q: int| 0 <= q < ti.len() && ti[q] == y;
                        assert(tj[q] == y);
                    }
                    assert(tj[i as int] == x);
                }
            }
        } else {
            proof {
                assert forall|y: (usize, usize)| out@.contains(y) <==> v@.take(i as int + 1).contains(y) by {
                    if y == x {
                        assert(out@[pos as int] == x);
                    }
                }
            }
        }
        i = i + 1;
    }
    assert(v@.take(v.len() as int) =~= v@);
    out
}

impl CoverState {
    /// No centers yet over `n` points; `min_points` below one counts as one.
    pub fn new(n: usize, min_points: usize) -> (s: Self)
        requires
            n <= u32::MAX,
        ensures
            s.wf(),
            s.lists_view() == Seq::<Seq<u32>>::empty(),
            s.counts() == Seq::new(n as nat, |r: int| 0u32),
            s.min_gain() == (if min_points == 0 {
                1
            } else {
                min_points as int
            }),
    {
        let mut count: Vec<u32> = Vec::new();
        while count.len() < n
            invariant
                count.len() <= n,
                forall|r: int| 0 <= r < count.len() ==> #[trigger] count@[r] == 0,
            decreases n - count.len(),
        {
            count.push(0);
        }
        let s = CoverState {
            m: if min_points == 0 {
                1
            } else {
                min_points
            },
            lists: Vec::new(),
            live: Vec::new(),
            count,
        };
        assert(s.lists_view() =~= Seq::<Seq<u32>>::empty());
        assert(s.counts() =~= Seq::new(n as nat, |r: int| 0u32));
        s
    }

    /// How many centers there are, live or not.
    pub fn len(&self) -> (r: usize)
        requires
            self.wf(),
        ensures
            r == self.lists_view().len(),
    {
        self.lists.len()
    }

    /// Whether center `i` is live.
    pub fn is_live(&self, i: usize) -> (r: bool)
        requires
            self.wf(),
            i < self.lists_view().len(),
        ensures
            r == self.live_view()[i as int],
    {
        self.live[i]
    }

    /// How many live centers cover point `r`.
    pub fn count_of(&self, r: usize) -> (c: u32)
        requires
            self.wf(),
            r < self.counts().len(),
        ensures
            c == self.counts()[r as int],
    {
        self.count[r]
    }

    /// Whether moving center `i` to cover `cov` is taken: it captures a
    /// point no center covers, or covers more points than `i` does now.
    pub fn move_accepted(&self, i: usize, cov: &Vec<u32>) -> (r: bool)
        requires
            self.wf(),
            i < self.lists_view().len(),
            forall|t: int| 0 <= t < cov@.len() ==> (#[trigger] cov@[t]) < self.counts().len(),
        ensures
            r == (with_count(cov@, self.counts(), 0).len() > 0 || cov@.len() > self.lists_view()[i as int].len()),
    {
        let mut captured = false;
        let mut t: usize = 0;
        while t < cov.len()
            invariant
                t <= cov.len(),
                self.wf(),
                forall|t2: int| 0 <= t2 < cov@.len() ==> (#[trigger] cov@[t2]) < self.counts().len(),
                captured == (with_count(cov@.take(t as int), self.counts(), 0).len() > 0),
            decreases cov.len() - t,
        {
            assert(cov@.take(t as int + 1).drop_last() =~= cov@.take(t as int));
            if self.count[cov[t] as usize] == 0 {
                captured = true;
            }
            t = t + 1;
        }
        assert(cov@.take(cov.len() as int) =~= cov@);
        assert(self.lists@[i as int]@ == self.lists_view()[i as int]);
        captured || cov.len() > self.lists[i].len()
    }

    /// Adds a live center covering the distinct points `cov`; returns its index.
    pub fn add_center(&mut self, cov: Vec<u32>) -> (i: usize)
        requires
            old(self).wf(),
            old(self).lists_view().len() < u32::MAX,
            cov@.no_duplicates(),
            forall|t: int| 0 <= t < cov@.len() ==> (#[trigger] cov@[t]) < old(self).counts().len(),
        ensures
            final(self).wf(),
            i == old(self).lists_view().len(),
            final(self).lists_view() == old(self).lists_view().push(cov@),
            final(self).live_view() == old(self).live_view().push(true),
            final(self).min_gain() == old(self).min_gain(),
            final(self).counts().len() == old(self).counts().len(),
            forall|r: int|
                0 <= r < old(self).counts().len() ==> #[trigger] final(self).counts()[r] == old(self).counts()[r] + if cov@.contains(
                    r as u32,
                ) {
                    1int
                } else {
                    0int
                },
    {
        let ghost l0 = self.lists_view();
        let ghost v0 = self.live_view();
        let ghost c0 = self.counts();
        let k = self.lists.len();
        proof {
            assert forall|r: int| 0 <= r < c0.len() implies coverers(l0, v0, r, l0.len() as int) <= l0.len() by {
                lemma_coverers_bound(l0, v0, r, l0.len() as int);
            }
        }
        let mut t: usize = 0;
        while t < cov.len()
            invariant
                t <= cov.len(),
                cov@.no_duplicates(),
                forall|t2: int| 0 <= t2 < cov@.len() ==> (#[trigger] cov@[t2]) < c0.len(),
                self.count@.len() == c0.len(),
                self.m == old(self).m,
                self.lists == old(self).lists,
                self.live == old(self).live,
                l0.len() < u32::MAX,
                c0.len() <= u32::MAX,
                forall|r: int| 0 <= r < c0.len() ==> coverers(l0, v0, r, l0.len() as int) <= l0.len(),
                forall|r: int|
                    0 <= r < c0.len() ==> #[trigger] self.count@[r] == c0[r] + if cov@.take(t as int).contains(r as u32) {
                        1int
                    } else {
                        0int
                    },
                forall|r: int| 0 <= r < c0.len() ==> c0[r] == coverers(l0, v0, r, l0.len() as int),
            decreases cov.len() - t,
        {
            let r = cov[t] as usize;
            proof {
                assert(!cov@.take(t as int).contains(r as u32)) by {
                    if cov@.take(t as int).contains(r as u32) {
                        let q = choose|q: int| 0 <= q < t && cov@.take(t as int)[q] == r as u32;
                        assert(cov@[q] == cov@[t as int]);
                    }
                }
                assert(self.count@[r as int] == c0[r as int]);
            }
            self.count.set(r, self.count[r] + 1);
            proof {
                assert forall|r2: int| 0 <= r2 < c0.len() implies #[trigger] self.count@[r2] == c0[r2] + if cov@.take(t as int + 1).contains(r2 as u32) {
                    1int
                } else {
                    0int
                } by {
                    let a = cov@.take(t as int);
                    let b = cov@.take(t as int + 1);
                    assert(b =~= a.push(cov@[t as int]));
                    assert(b[t as int] == cov@[t as int]);
                    if r2 != r as int {
                        assert(b.contains(r2 as u32) == a.contains(r2 as u32)) by {
                            if b.contains(r2 as u32) {
                                let q = choose|q: int| 0 <= q < b.len() && b[q] == r2 as u32;
                                assert(q < t);
                                assert(a[q] == r2 as u32);
                            }
                            if a.contains(r2 as u32) {
                                let q = choose|q: int| 0 <= q < a.len() && a[q] == r2 as u32;
                                assert(b[q] == r2 as u32);
                            }
                        }
                    } else {
                        assert(b[t as int] == r as u32);
                    }
                }
            }
            t = t + 1;
        }
        proof {
            assert(cov@.take(cov@.len() as int) =~= cov@);
        }
        self.lists.push(cov);
        self.live.push(true);
        proof {
            assert(self.lists_view() =~= l0.push(self.lists@[k as int]@));
            assert(self.live_view() =~= v0.push(true));
            let l1 = self.lists_view();
            assert forall|i2: int| 0 <= i2 < l1.len() implies (#[trigger] l1[i2]).no_duplicates() by {
                if i2 < l0.len() {
                    assert(l1[i2] == l0[i2]);
                }
            }
            assert forall|i2: int, t2: int| 0 <= i2 < l1.len() && 0 <= t2 < l1[i2].len() implies (#[trigger] l1[i2][t2]) < self.counts().len() by {
                if i2 < l0.len() {
                    assert(l1[i2] == l0[i2]);
                }
            }
            assert forall|r: int| 0 <= r < self.counts().len() implies #[trigger] self.counts()[r] == coverers(
                l1,
                self.live_view(),
                r,
                l1.len() as int,
            ) by {
                lemma_coverers_push(l0, v0, self.lists@[k as int]@, r, l0.len() as int);
            }
        }
        k
    }

    /// Retires live center `i`: its points lose one coverer.
    pub fn kill_center(&mut self, i: usize)
        requires
            old(self).wf(),
            i < old(self).lists_view().len(),
            old(self).live_view()[i as int],
        ensures
            final(self).wf(),
            final(self).lists_view() == old(self).lists_view(),
            final(self).live_view() == old(self).live_view().update(i as int, false),
            final(self).min_gain() == old(self).min_gain(),
            final(self).counts().len() == old(self).counts().len(),
            forall|r: int|
                0 <= r < old(self).counts().len() ==> #[trigger] final(self).counts()[r] == old(self).counts()[r] - if old(
                    self,
                ).lists_view()[i as int].contains(r as u32) {
                    1int
                } else {
                    0int
                },
    {
        let ghost l0 = self.lists_view();
        let ghost v0 = self.live_view();
        let ghost c0 = self.counts();
        let ghost li = l0[i as int];
        self.live.set(i, false);
        proof {
            assert forall|r: int| 0 <= r < c0.len() implies coverers(l0, self.live@, r, l0.len() as int) + (if li.contains(r as u32) {
                1int
            } else {
                0int
            }) == c0[r] by {
                lemma_coverers_update(l0, v0, l0, self.live@, i as int, r, l0.len() as int);
            }
        }
        assert(self.lists@[i as int]@ == li);
        let n_items = self.lists[i].len();
        let mut t: usize = 0;
        while t < n_items
            invariant
                t <= n_items,
                n_items == li.len(),
                i < self.lists@.len(),
                self.lists@[i as int]@ == li,
                li.no_duplicates(),
                forall|t2: int| 0 <= t2 < li.len() ==> (#[trigger] li[t2]) < c0.len(),
                self.count@.len() == c0.len(),
                c0.len() <= u32::MAX,
                self.lists == old(self).lists,
                self.live@ == v0.update(i as int, false),
                self.m == old(self).m,
                forall|r: int|
                    0 <= r < c0.len() ==> #[trigger] self.count@[r] == c0[r] - if li.take(t as int).contains(r as u32) {
                        1int
                    } else {
                        0int
                    },
                forall|r: int| 0 <= r < c0.len() && li.contains(r as u32) ==> c0[r] >= 1,
            decreases n_items - t,
        {
            let r = self.lists[i][t] as usize;
            proof {
                assert(li[t as int] == r as u32);
                assert(li.contains(r as u32));
                assert(!li.take(t as int).contains(r as u32)) by {
                    if li.take(t as int).contains(r as u32) {
                        let q = choose|q: int| 0 <= q < t && li.take(t as int)[q] == r as u32;
                        assert(li[q] == li[t as int]);
                    }
                }
            }
            self.count.set(r, self.count[r] - 1);
            proof {
                assert forall|r2: int| 0 <= r2 < c0.len() implies #[trigger] self.count@[r2] == c0[r2] - if li.take(t as int + 1).contains(r2 as u32) {
                    1int
                } else {
                    0int
                } by {
                    let a = li.take(t as int);
                    let b = li.take(t as int + 1);
                    assert(b[t as int] == li[t as int]);
                    if r2 != r as int {
                        assert(b.contains(r2 as u32) == a.contains(r2 as u32)) by {
                            if b.contains(r2 as u32) {
                                let q = choose|q: int| 0 <= q < b.len() && b[q] == r2 as u32;
                                assert(q < t);
                                assert(a[q] == r2 as u32);
                            }
                            if a.contains(r2 as u32) {
                                let q = choose|q: int| 0 <= q < a.len() && a[q] == r2 as u32;
                                assert(b[q] == r2 as u32);
                            }
                        }
                    } else {
                        assert(b[t as int] == r as u32);
                    }
                }
            }
            t = t + 1;
        }
        proof {
            assert(li.take(li.len() as int) =~= li);
            assert(self.lists_view() =~= l0);
            assert(self.live_view() =~= v0.update(i as int, false));
            assert forall|r: int| 0 <= r < self.counts().len() implies #[trigger] self.counts()[r] == coverers(
                self.lists_view(),
                self.live_view(),
                r,
                self.lists_view().len() as int,
            ) by {
                lemma_coverers_update(l0, v0, l0, self.live@, i as int, r, l0.len() as int);
            }
        }
    }
}

impl CoverState {
    /// The points only center `i` covers, in its list's order.
    pub fn exclusive_of(&self, i: usize) -> (r: Vec<u32>)
        requires
            self.wf(),
            i < self.lists_view().len(),
        ensures
            r@ == with_count(self.lists_view()[i as int], self.counts(), 1),
    {
        let ghost li = self.lists_view()[i as int];
        assert(self.lists@[i as int]@ == li);
        let list = &self.lists[i];
        let mut out: Vec<u32> = Vec::new();
        let mut t: usize = 0;
        while t < list.len()
            invariant
                t <= list.len(),
                list@ == li,
                forall|t2: int| 0 <= t2 < li.len() ==> (#[trigger] li[t2]) < self.count@.len(),
                out@ == with_count(li.take(t as int), self.count@, 1),
            decreases list.len() - t,
        {
            let p = list[t];
            proof {
                assert(li.take(t as int + 1).drop_last() =~= li.take(t as int));
                assert(li.take(t as int + 1).last() == p);
            }
            if self.count[p as usize] == 1 {
                out.push(p);
            }
            t = t + 1;
        }
        assert(li.take(li.len() as int) =~= li);
        out
    }

    /// The points only centers `i` and `j` cover: from `i`'s list those with
    /// one coverer, or two when `j` covers them too; then from `j`'s list
    /// those with one coverer.
    pub fn required_of_pair(&self, i: usize, j: usize) -> (r: Vec<u32>)
        requires
            self.wf(),
            i < self.lists_view().len(),
            j < self.lists_view().len(),
        ensures
            r@ == only_by_pair(self.lists_view()[i as int], self.lists_view()[j as int], self.counts()) + with_count(
                self.lists_view()[j as int],
                self.counts(),
                1,
            ),
    {
        let ghost li = self.lists_view()[i as int];
        let ghost lj = self.lists_view()[j as int];
        assert(self.lists@[i as int]@ == li);
        assert(self.lists@[j as int]@ == lj);
        let a = &self.lists[i];
        let b = &self.lists[j];
        let mut out: Vec<u32> = Vec::new();
        let mut t: usize = 0;
        while t < a.len()
            invariant
                t <= a.len(),
                a@ == li,
                b@ == lj,
                forall|t2: int| 0 <= t2 < li.len() ==> (#[trigger] li[t2]) < self.count@.len(),
                out@ == only_by_pair(li.take(t as int), lj, self.count@),
            decreases a.len() - t,
        {
            let p = a[t];
            proof {
                assert(li.take(t as int + 1).drop_last() =~= li.take(t as int));
                assert(li.take(t as int + 1).last() == p);
            }
            let c = self.count[p as usize];
            if c == 1 || (c == 2 && list_contains(b, p)) {
                out.push(p);
            }
            t = t + 1;
        }
        assert(li.take(li.len() as int) =~= li);
        let ghost first = out@;
        let mut t: usize = 0;
        while t < b.len()
            invariant
                t <= b.len(),
                b@ == lj,
                forall|t2: int| 0 <= t2 < lj.len() ==> (#[trigger] lj[t2]) < self.count@.len(),
                out@ == first + with_count(lj.take(t as int), self.count@, 1),
            decreases b.len() - t,
        {
            let p = b[t];
            proof {
                assert(lj.take(t as int + 1).drop_last() =~= lj.take(t as int));
                assert(lj.take(t as int + 1).last() == p);
            }
            if self.count[p as usize] == 1 {
                out.push(p);
                proof {
                    assert(first + with_count(lj.take(t as int + 1), self.count@, 1) =~= (first + with_count(
                        lj.take(t as int),
                        self.count@,
                        1,
                    )).push(p));
                }
            }
            t = t + 1;
        }
        assert(lj.take(lj.len() as int) =~= lj);
        out
    }

    /// The points whose every live coverer is among centers `i`, `j` and
    /// `k`, in increasing order, each once.
    pub fn required_of_three(&self, i: usize, j: usize, k: usize) -> (r: Vec<u32>)
        requires
            self.wf(),
            i < self.lists_view().len(),
            j < self.lists_view().len(),
            k < self.lists_view().len(),
        ensures
            forall|x: int, y: int| 0 <= x < y < r.len() ==> r@[x] < r@[y],
            forall|p: u32|
                r@.contains(p) <==> only_by_three(
                    p,
                    self.lists_view()[i as int],
                    self.lists_view()[j as int],
                    self.lists_view()[k as int],
                    self.counts(),
                ),
    {
        let ghost li = self.lists_view()[i as int];
        let ghost lj = self.lists_view()[j as int];
        let ghost lk = self.lists_view()[k as int];
        assert(self.lists@[i as int]@ == li);
        assert(self.lists@[j as int]@ == lj);
        assert(self.lists@[k as int]@ == lk);
        let mut found: Vec<u32> = Vec::new();
        let mut c: usize = 0;
        while c < 3
            invariant
                c <= 3,
                i < self.lists@.len() && j < self.lists@.len() && k < self.lists@.len(),
                self.lists@[i as int]@ == li,
                self.lists@[j as int]@ == lj,
                self.lists@[k as int]@ == lk,
                forall|t2: int| 0 <= t2 < li.len() ==> (#[trigger] li[t2]) < self.count@.len(),
                forall|t2: int| 0 <= t2 < lj.len() ==> (#[trigger] lj[t2]) < self.count@.len(),
                forall|t2: int| 0 <= t2 < lk.len() ==> (#[trigger] lk[t2]) < self.count@.len(),
                forall|p: u32|
                    found@.contains(p) <==> (only_by_three(p, li, lj, lk, self.count@) && ((c > 0 && li.contains(p)) || (c
                        > 1 && lj.contains(p)) || (c > 2 && lk.contains(p)))),
            decreases 3 - c,
        {
            let src = if c == 0 {
                i
            } else if c == 1 {
                j
            } else {
                k
            };
            let ghost ls = self.lists@[src as int]@;
            let list = &self.lists[src];
            let ghost f0 = found@;
            let mut t: usize = 0;
            while t < list.len()
                invariant
                    t <= list.len(),
                    list@ == ls,
                    ls == (if c == 0 {
                        li
                    } else if c == 1 {
                        lj
                    } else {
                        lk
                    }),
                    i < self.lists@.len() && j < self.lists@.len() && k < self.lists@.len(),
                    self.lists@[i as int]@ == li,
                    self.lists@[j as int]@ == lj,
                    self.lists@[k as int]@ == lk,
                    forall|t2: int| 0 <= t2 < ls.len() ==> (#[trigger] ls[t2]) < self.count@.len(),
                    forall|p: u32|
                        found@.contains(p) <==> (f0.contains(p) || (only_by_three(p, li, lj, lk, self.count@)
                            && ls.take(t as int).contains(p))),
                decreases list.len() - t,
            {
                let p = list[t];
                let n_in: u32 = (if list_contains(&self.lists[i], p) {
                    1u32
                } else {
                    0u32
                }) + (if list_contains(&self.lists[j], p) {
                    1u32
                } else {
                    0u32
                }) + (if list_contains(&self.lists[k], p) {
                    1u32
                } else {
                    0u32
                });
                let ghost fb = found@;
                if self.count[p as usize] == n_in {
                    found.push(p);
                }
                proof {
                    let ta = ls.take(t as int);
                    let tb = ls.take(t as int + 1);
                    assert(tb[t as int] == p);
                    assert(ls.contains(p));
                    assert(li.contains(p) || lj.contains(p) || lk.contains(p));
                    assert(only_by_three(p, li, lj, lk, self.count@) <==> self.count@[p as int] == n_in);
                    assert forall|q: u32| found@.contains(q) <==> (f0.contains(q) || (only_by_three(q, li, lj, lk, self.count@)
                        && tb.contains(q))) by {
                        if tb.contains(q) {
                            let w = choose|w: int| 0 <= w < tb.len() && tb[w] == q;
                            if w < t {
                                assert(ta[w] == q);
                            }
                        }
                        if ta.contains(q) {
                            let w = choose|w: int| 0 <= w < ta.len() && ta[w] == q;
                            assert(tb[w] == q);
                        }
                        assert(fb.contains(q) <==> (f0.contains(q) || (only_by_three(q, li, lj, lk, self.count@)
                            && ta.contains(q))));
                        if found@.contains(q) && !fb.contains(q) {
                            let w = choose|w: int| 0 <= w < found@.len() && found@[w] == q;
                            assert(w == fb.len());
                        }
                        if fb.contains(q) {
                            let w = choose|w: int| 0 <= w < fb.len() && fb[w] == q;
                            assert(found@[w] == q);
                        }
                        if q == p && self.count@[p as int] == n_in {
                            assert(found@[fb.len() as int] == p);
                        }
                    }
                }
                t = t + 1;
            }
            proof {
                assert(ls.take(ls.len() as int) =~= ls);
            }
            c = c + 1;
        }
        sorted_distinct(&found)
    }

    /// The points no live center covers, in increasing order.
    pub fn uncovered_points(&self) -> (r: Vec<u32>)
        requires
            self.wf(),
        ensures
            forall|x: int, y: int| 0 <= x < y < r.len() ==> r@[x] < r@[y],
            forall|p: u32| r@.contains(p) <==> (p < self.counts().len() && self.counts()[p as int] == 0),
    {
        let mut out: Vec<u32> = Vec::new();
        let mut r: usize = 0;
        while r < self.count.len()
            invariant
                r <= self.count.len() <= u32::MAX,
                forall|x: int, y: int| 0 <= x < y < out.len() ==> out@[x] < out@[y],
                forall|x: int| 0 <= x < out.len() ==> out@[x] < r,
                forall|p: u32| out@.contains(p) <==> (p < r && self.count@[p as int] == 0),
            decreases self.count.len() - r,
        {
            if self.count[r] == 0 {
                let ghost o0 = out@;
                out.push(r as u32);
                proof {
                    assert forall|p: u32| out@.contains(p) <==> (p < r + 1 && self.count@[p as int] == 0) by {
                        if out@.contains(p) && p != r as u32 {
                            let w = choose|w: int| 0 <= w < out@.len() && out@[w] == p;
                            assert(w < o0.len());
                            assert(o0.contains(p));
                        }
                        if p < r && self.count@[p as int] == 0 {
                            assert(o0.contains(p));
                            let w = choose|w: int| 0 <= w < o0.len() && o0[w] == p;
                            assert(out@[w] == p);
                        }
                        if p == r as u32 {
                            assert(out@[o0.len() as int] == p);
                        }
                    }
                }
            }
            r = r + 1;
        }
        out
    }
}

/// Whether `v` names `p`.
fn list_contains(v: &Vec<u32>, p: u32) -> (r: bool)
    ensures
        r == v@.contains(p),
{
    let mut t: usize = 0;
    while t < v.len()
        invariant
            t <= v.len(),
            forall|t2: int| 0 <= t2 < t ==> v@[t2] != p,
        decreases v.len() - t,
    {
        if v[t] == p {
            assert(v@[t as int] == p);
            return true;
        }
        t = t + 1;
    }
    false
}

/// How many points below `k` are in `list` and have exactly `v` coverers.
pub open spec fn hits(list: Seq<u32>, counts: Seq<u32>, v: u32, k: int) -> nat
    decreases k,
{
    if k <= 0 {
        0
    } else {
        hits(list, counts, v, k - 1) + if list.contains((k - 1) as u32) && counts[k - 1] == v {
            1nat
        } else {
            0nat
        }
    }
}

/// Retiring a live center lowers the live count by one.
proof fn lemma_live_count_kill(live: Seq<bool>, i: int, k: int)
    requires
        0 <= i < live.len(),
        0 <= k <= live.len(),
        live[i],
    ensures
        live_count(live.update(i, false), k) + (if i < k {
            1int
        } else {
            0int
        }) == live_count(live, k),
    decreases k,
{
    if k > 0 {
        lemma_live_count_kill(live, i, k - 1);
    }
}

/// Taking one coverer from each point of `list` uncovers exactly the points
/// of `list` that had one.
proof fn lemma_uncovered_after_kill(c0: Seq<u32>, c1: Seq<u32>, list: Seq<u32>, k: int)
    requires
        0 <= k <= c0.len() <= u32::MAX,
        c1.len() == c0.len(),
        forall|r: int|
            0 <= r < c0.len() ==> #[trigger] c1[r] == c0[r] - if list.contains(r as u32) {
                1int
            } else {
                0int
            },
        forall|r: int| 0 <= r < c0.len() && list.contains(r as u32) ==> c0[r] >= 1,
    ensures
        uncovered_count(c1, k) == uncovered_count(c0, k) + hits(list, c0, 1, k),
    decreases k,
{
    if k > 0 {
        lemma_uncovered_after_kill(c0, c1, list, k - 1);
        assert(c1[k - 1] == c0[k - 1] - if list.contains((k - 1) as u32) {
            1int
        } else {
            0int
        });
    }
}

/// Appending a point not yet listed adds its term to `hits`.
proof fn lemma_hits_push(list: Seq<u32>, x: u32, counts: Seq<u32>, v: u32, k: int)
    requires
        0 <= k <= u32::MAX + 1,
        !list.contains(x),
    ensures
        hits(list.push(x), counts, v, k) == hits(list, counts, v, k) + if x < k && counts[x as int] == v {
            1nat
        } else {
            0nat
        },
    decreases k,
{
    if k > 0 {
        lemma_hits_push(list, x, counts, v, k - 1);
        let r = (k - 1) as u32;
        assert(list.push(x).contains(r) <==> (list.contains(r) || r == x)) by {
            if list.push(x).contains(r) {
                let q = choose|q: int| 0 <= q < list.push(x).len() && list.push(x)[q] == r;
                if q < list.len() {
                    assert(list[q] == r);
                }
            }
            if list.contains(r) {
                let q = choose|q: int| 0 <= q < list.len() && list[q] == r;
                assert(list.push(x)[q] == r);
            }
            assert(list.push(x)[list.len() as int] == x);
        }
        assert(((k - 1) as u32) as int == k - 1);
    }
}

/// For a list of distinct points below `n`, the points with one coverer
/// counted over all points are the list's entries with one coverer.
proof fn lemma_hits_list(list: Seq<u32>, counts: Seq<u32>, v: u32, n: int)
    requires
        0 <= n <= u32::MAX + 1,
        list.no_duplicates(),
        forall|t: int| 0 <= t < list.len() ==> (#[trigger] list[t]) < n,
    ensures
        hits(list, counts, v, n) == with_count(list, counts, v).len(),
    decreases list.len(),
{
    if list.len() == 0 {
        lemma_hits_empty(counts, v, n);
        assert(list =~= Seq::<u32>::empty());
    } else {
        let l = list.drop_last();
        let x = list.last();
        assert(list == l.push(x));
        assert(!l.contains(x)) by {
            if l.contains(x) {
                let q = choose|q: int| 0 <= q < l.len() && l[q] == x;
                assert(list[q] == list[list.len() - 1]);
            }
        }
        assert(l.no_duplicates()) by {
            assert forall|a: int, b: int| 0 <= a < b < l.len() implies l[a] != l[b] by {
                assert(list[a] != list[b]);
            }
        }
        assert forall|t: int| 0 <= t < l.len() implies (#[trigger] l[t]) < n by {
            assert(l[t] == list[t]);
        }
        assert(list[list.len() - 1] < n);
        lemma_hits_list(l, counts, v, n);
        lemma_hits_push(l, x, counts, v, n);
        assert(with_count(list, counts, v).len() == with_count(l, counts, v).len() + if counts[x as int] == v {
            1int
        } else {
            0int
        });
    }
}

proof fn lemma_hits_empty(counts: Seq<u32>, v: u32, k: int)
    ensures
        hits(Seq::empty(), counts, v, k) == 0,
    decreases k,
{
    if k > 0 {
        lemma_hits_empty(counts, v, k - 1);
    }
}

/// Keeping entries with one coverer keeps at most the whole list.
proof fn lemma_with_count_len(list: Seq<u32>, counts: Seq<u32>, v: u32)
    ensures
        with_count(list, counts, v).len() <= list.len(),
    decreases list.len(),
{
    if list.len() > 0 {
        lemma_with_count_len(list.drop_last(), counts, v);
    }
}

/// Retiring a live center changes the score by its exclusive points less
/// one center's cost.
proof fn lemma_kill_score(
    lists: Seq<Seq<u32>>,
    live: Seq<bool>,
    c0: Seq<u32>,
    c1: Seq<u32>,
    m: int,
    i: int,
)
    requires
        0 <= i < live.len(),
        lists.len() == live.len(),
        live[i],
        c0.len() <= u32::MAX,
        c1.len() == c0.len(),
        lists[i].no_duplicates(),
        forall|t: int| 0 <= t < lists[i].len() ==> (#[trigger] lists[i][t]) < c0.len(),
        forall|r: int|
            0 <= r < c0.len() ==> #[trigger] c1[r] == c0[r] - if lists[i].contains(r as u32) {
                1int
            } else {
                0int
            },
    ensures
        score_of(live.update(i, false), c1, m) + m == score_of(live, c0, m) + with_count(lists[i], c0, 1).len(),
{
    let n = c0.len() as int;
    assert forall|r: int| 0 <= r < c0.len() && lists[i].contains(r as u32) implies c0[r] >= 1 by {
        assert(c1[r] == c0[r] - 1);
    }
    lemma_uncovered_after_kill(c0, c1, lists[i], n);
    lemma_hits_list(lists[i], c0, 1, n);
    lemma_live_count_kill(live, i, live.len() as int);
    let lc = live_count(live, live.len() as int) as int;
    let lc1 = live_count(live.update(i, false), live.len() as int) as int;
    assert(lc1 == lc - 1);
    assert(lc1 * m == lc * m - m) by (nonlinear_arith)
        requires
            lc1 == lc - 1,
    ;
}

impl CoverState {
    /// Drops centers whose exclusive points number fewer than `m`, in
    /// ascending order of exclusive count (then index) per sweep, re-checking
    /// each before it goes, until a sweep finds none. Each drop lowers the
    /// score; afterwards every live center has at least `m` exclusive points.
    pub fn drop_pass(&mut self) -> (changed: bool)
        requires
            old(self).wf(),
        ensures
            final(self).wf(),
            final(self).lists_view() == old(self).lists_view(),
            final(self).min_gain() == old(self).min_gain(),
            final(self).counts().len() == old(self).counts().len(),
            final(self).live_view().len() == old(self).live_view().len(),
            forall|i: int| 0 <= i < old(self).live_view().len() && #[trigger] final(self).live_view()[i] ==> old(self).live_view()[i],
            forall|i: int|
                0 <= i < final(self).lists_view().len() && #[trigger] final(self).live_view()[i] ==> with_count(
                    final(self).lists_view()[i],
                    final(self).counts(),
                    1,
                ).len() >= final(self).min_gain(),
            !changed ==> final(self).live_view() == old(self).live_view(),
            final(self).score() <= old(self).score(),
            changed ==> final(self).score() < old(self).score(),
            (final(self).live_view(), final(self).counts()) == drop_run(
                old(self).lists_view(),
                old(self).min_gain(),
                old(self).live_view(),
                old(self).counts(),
                (old(self).live_view().len() + 1) as nat,
            ),
    {
        let ghost l0 = self.lists_view();
        let ghost v0 = self.live_view();
        let ghost s0 = self.score();
        let ghost c0 = self.counts();
        let ghost mg = self.min_gain();
        let ghost nn = v0.len() as int;
        let ghost fuel: nat = (nn + 1) as nat;
        let ghost mut sweeps: nat = 0;
        proof {
            lemma_live_count_le(v0, nn);
        }
        let mut changed = false;
        loop
            invariant
                self.wf(),
                self.lists_view() == l0,
                self.min_gain() == old(self).min_gain(),
                self.counts().len() == old(self).counts().len(),
                self.live_view().len() == v0.len(),
                v0 == old(self).live_view(),
                l0 == old(self).lists_view(),
                s0 == old(self).score(),
                forall|i: int| 0 <= i < v0.len() && #[trigger] self.live_view()[i] ==> v0[i],
                !changed ==> self.live_view() == v0,
                self.score() <= s0,
                changed ==> self.score() < s0,
                mg == self.min_gain(),
                c0 == old(self).counts(),
                nn == v0.len(),
                fuel == nn + 1,
                sweeps + live_count(self.live_view(), nn) <= nn,
                drop_run(l0, mg, v0, c0, fuel) == drop_run(l0, mg, self.live_view(), self.counts(), (fuel - sweeps) as nat),
            decreases live_count(self.live_view(), self.live_view().len() as int),
        {
            let n = self.lists.len();
            let mut eligible: Vec<(usize, usize)> = Vec::new();
            let mut i: usize = 0;
            while i < n
                invariant
                    i <= n,
                    n == self.lists_view().len(),
                    self.wf(),
                    forall|q: int|
                        0 <= q < eligible.len() ==> {
                            let e = (#[trigger] eligible@[q]);
                            &&& e.1 < i
                            &&& self.live_view()[e.1 as int]
                            &&& e.0 == with_count(self.lists_view()[e.1 as int], self.counts(), 1).len()
                            &&& e.0 < self.min_gain()
                        },
                    forall|j: int|
                        0 <= j < i && self.live_view()[j] && with_count(self.lists_view()[j], self.counts(), 1).len()
                            < self.min_gain() ==> eligible@.contains(
                            (with_count(self.lists_view()[j], self.counts(), 1).len() as usize, j as usize),
                        ),
                decreases n - i,
            {
                if self.live[i] {
                    let e = self.exclusive_of(i).len();
                    if e < self.m {
                        let ghost g0 = eligible@;
                        eligible.push((e, i));
                        proof {
                            assert forall|j: int|
                                0 <= j < i + 1 && self.live_view()[j] && with_count(self.lists_view()[j], self.counts(), 1).len()
                                    < self.min_gain() implies eligible@.contains(
                                (with_count(self.lists_view()[j], self.counts(), 1).len() as usize, j as usize),
                            ) by {
                                if j < i {
                                    let w = choose|w: int|
                                        0 <= w < g0.len() && g0[w] == (with_count(self.lists_view()[j], self.counts(), 1).len() as usize, j as usize);
                                    assert(eligible@[w] == g0[w]);
                                } else {
                                    assert(eligible@[g0.len() as int] == (e, i));
                                }
                            }
                        }
                    }
                }
                i = i + 1;
            }
            let ghost ve = self.live_view();
            let ghost ce = self.counts();
            proof {
                assert forall|x: (usize, usize)| eligible@.contains(x) <==> (0 <= x.1 < ve.len() && ve[x.1 as int] && x.0
                    == exclusive_count(l0, ce, x.1 as int) && x.0 < mg) by {
                    if eligible@.contains(x) {
                        let w = choose|w: int| 0 <= w < eligible.len() && eligible@[w] == x;
                        assert(eligible@[w].1 < n);
                    }
                    if 0 <= x.1 < ve.len() && ve[x.1 as int] && x.0 == exclusive_count(l0, ce, x.1 as int) && x.0 < mg {
                        assert(eligible@.contains(
                            (with_count(self.lists_view()[x.1 as int], self.counts(), 1).len() as usize, x.1 as usize),
                        ));
                    }
                }
                assert((fuel - sweeps) as nat >= 1);
            }
            if eligible.len() == 0 {
                proof {
                    let o = choose|o: Seq<(usize, usize)>| #[trigger] is_drop_order(l0, mg, ve, ce, o);
                    assert(is_drop_order(l0, mg, ve, ce, Seq::<(usize, usize)>::empty()));
                    lemma_sorted_unique(o, Seq::<(usize, usize)>::empty());
                    assert(drop_run(l0, mg, ve, ce, (fuel - sweeps) as nat) == (ve, ce));
                }
                return changed;
            }
            let order = sorted_pairs(&eligible);
            proof {
                assert(is_drop_order(l0, mg, ve, ce, order@));
                let o = choose|o: Seq<(usize, usize)>| #[trigger] is_drop_order(l0, mg, ve, ce, o);
                lemma_sorted_unique(o, order@);
            }
            proof {
                assert(eligible@.contains(eligible@[0]));
                assert(order@.contains(eligible@[0]));
            }
            let ghost v1 = self.live_view();
            let ghost c1 = self.counts();
            let ghost sc1 = self.score();
            let ghost lc1 = live_count(v1, v1.len() as int);
            let mut dropped = false;
            let mut q: usize = 0;
            while q < order.len()
                invariant
                    q <= order.len(),
                    order.len() > 0,
                    self.wf(),
                    self.lists_view() == l0,
                    self.min_gain() == old(self).min_gain(),
                    self.counts().len() == old(self).counts().len(),
                    self.live_view().len() == v0.len(),
                    v1.len() == v0.len(),
                    forall|j: int| 0 <= j < v0.len() && #[trigger] self.live_view()[j] ==> v1[j],
                    forall|x: (usize, usize)| order@.contains(x) ==> eligible@.contains(x),
                    forall|w: int|
                        0 <= w < eligible.len() ==> {
                            let e = (#[trigger] eligible@[w]);
                            &&& e.1 < n
                            &&& v1[e.1 as int]
                            &&& e.0 == with_count(l0[e.1 as int], c1, 1).len()
                            &&& e.0 < self.min_gain()
                        },
                    !dropped ==> self.live_view() == v1 && self.counts() == c1,
                    dropped ==> self.score() < sc1,
                    dropped ==> live_count(self.live_view(), v0.len() as int) < lc1,
                    self.score() <= sc1,
                    live_count(self.live_view(), v0.len() as int) <= lc1,
                    q > 0 ==> dropped,
                    q == 0 ==> !dropped,
                    dropped ==> changed,
                    n == l0.len(),
                    v1 == ve,
                    c1 == ce,
                    mg == self.min_gain(),
                    (self.live_view(), self.counts()) == drop_sweep(l0, mg, v1, c1, order@, q as int),
                decreases order.len() - q,
            {
                let (_, i) = order[q];
                proof {
                    assert(order@.contains(order@[q as int]));
                    assert(eligible@.contains(order@[q as int]));
                    let w = choose|w: int| 0 <= w < eligible.len() && eligible@[w] == order@[q as int];
                    assert(i < n);
                }
                if self.live[i] && self.exclusive_of(i).len() < self.m {
                    let ghost vb = self.live_view();
                    let ghost cb = self.counts();
                    let ghost eb = with_count(l0[i as int], cb, 1).len();
                    let ghost lcb = live_count(vb, vb.len() as int);
                    self.kill_center(i);
                    proof {
                        assert(self.counts() =~= kill_counts(l0, cb, i as int));
                        assert(order@[q as int].1 == i);
                        lemma_kill_score(l0, vb, cb, self.counts(), self.min_gain(), i as int);
                        lemma_live_count_kill(vb, i as int, vb.len() as int);
                        assert forall|j: int| 0 <= j < v0.len() && #[trigger] self.live_view()[j] implies v1[j] by {
                            assert(vb[j]);
                        }
                    }
                    dropped = true;
                    changed = true;
                } else {
                    proof {
                        if q == 0 {
                            let w = choose|w: int| 0 <= w < eligible.len() && eligible@[w] == order@[0];
                            assert(!dropped);
                            assert(false);
                        }
                    }
                }
                q = q + 1;
            }
            if !dropped {
                proof {
                    assert(drop_sweep(l0, mg, ve, ce, order@, order@.len() as int) == (ve, ce));
                    assert(drop_run(l0, mg, ve, ce, (fuel - sweeps) as nat) == (ve, ce));
                }
                return changed;
            }
            proof {
                let st = drop_sweep(l0, mg, ve, ce, order@, order@.len() as int);
                assert(st.0 != ve) by {
                    if st.0 == ve {
                        assert(live_count(self.live_view(), v0.len() as int) == live_count(ve, v0.len() as int));
                    }
                }
                assert(drop_run(l0, mg, ve, ce, (fuel - sweeps) as nat) == drop_run(l0, mg, st.0, st.1, (fuel - sweeps - 1) as nat));
                sweeps = sweeps + 1;
                assert forall|j: int| 0 <= j < v0.len() && #[trigger] self.live_view()[j] implies v0[j] by {
                    assert(v1[j]);
                }
            }
        }
    }
}

impl CoverState {
    /// Gives retired center `i` the list `cov` and makes it live again.
    fn revive(&mut self, i: usize, cov: Vec<u32>)
        requires
            old(self).wf(),
            old(self).lists_view().len() < u32::MAX,
            i < old(self).lists_view().len(),
            !old(self).live_view()[i as int],
            cov@.no_duplicates(),
            forall|t: int| 0 <= t < cov@.len() ==> (#[trigger] cov@[t]) < old(self).counts().len(),
        ensures
            final(self).wf(),
            final(self).lists_view() == old(self).lists_view().update(i as int, cov@),
            final(self).live_view() == old(self).live_view().update(i as int, true),
            final(self).min_gain() == old(self).min_gain(),
            final(self).counts().len() == old(self).counts().len(),
            forall|r: int|
                0 <= r < old(self).counts().len() ==> #[trigger] final(self).counts()[r] == old(self).counts()[r] + if cov@.contains(
                    r as u32,
                ) {
                    1int
                } else {
                    0int
                },
    {
        let ghost l0 = self.lists_view();
        let ghost v0 = self.live_view();
        let ghost c0 = self.counts();
        proof {
            assert forall|r: int| 0 <= r < c0.len() implies coverers(l0, v0, r, l0.len() as int) <= l0.len() by {
                lemma_coverers_bound(l0, v0, r, l0.len() as int);
            }
        }
        let mut t: usize = 0;
        while t < cov.len()
            invariant
                t <= cov.len(),
                cov@.no_duplicates(),
                forall|t2: int| 0 <= t2 < cov@.len() ==> (#[trigger] cov@[t2]) < c0.len(),
                self.count@.len() == c0.len(),
                self.m == old(self).m,
                self.lists == old(self).lists,
                self.live == old(self).live,
                l0.len() < u32::MAX,
                c0.len() <= u32::MAX,
                forall|r: int| 0 <= r < c0.len() ==> coverers(l0, v0, r, l0.len() as int) <= l0.len(),
                forall|r: int|
                    0 <= r < c0.len() ==> #[trigger] self.count@[r] == c0[r] + if cov@.take(t as int).contains(r as u32) {
                        1int
                    } else {
                        0int
                    },
                forall|r: int| 0 <= r < c0.len() ==> c0[r] == coverers(l0, v0, r, l0.len() as int),
            decreases cov.len() - t,
        {
            let r = cov[t] as usize;
            proof {
                assert(!cov@.take(t as int).contains(r as u32)) by {
                    if cov@.take(t as int).contains(r as u32) {
                        let q = choose|q: int| 0 <= q < t && cov@.take(t as int)[q] == r as u32;
                        assert(cov@[q] == cov@[t as int]);
                    }
                }
                assert(self.count@[r as int] == c0[r as int]);
            }
            self.count.set(r, self.count[r] + 1);
            proof {
                assert forall|r2: int| 0 <= r2 < c0.len() implies #[trigger] self.count@[r2] == c0[r2] + if cov@.take(t as int + 1).contains(r2 as u32) {
                    1int
                } else {
                    0int
                } by {
                    let a = cov@.take(t as int);
                    let b = cov@.take(t as int + 1);
                    assert(b[t as int] == cov@[t as int]);
                    if r2 != r as int {
                        assert(b.contains(r2 as u32) == a.contains(r2 as u32)) by {
                            if b.contains(r2 as u32) {
                                let q = choose|q: int| 0 <= q < b.len() && b[q] == r2 as u32;
                                assert(q < t);
                                assert(a[q] == r2 as u32);
                            }
                            if a.contains(r2 as u32) {
                                let q = choose|q: int| 0 <= q < a.len() && a[q] == r2 as u32;
                                assert(b[q] == r2 as u32);
                            }
                        }
                    } else {
                        assert(b[t as int] == r as u32);
                    }
                }
            }
            t = t + 1;
        }
        proof {
            assert(cov@.take(cov@.len() as int) =~= cov@);
        }
        let ghost covv = cov@;
        self.lists.set(i, cov);
        self.live.set(i, true);
        proof {
            let l1 = self.lists_view();
            assert(l1 =~= l0.update(i as int, covv));
            assert(self.live_view() =~= v0.update(i as int, true));
            assert forall|i2: int| 0 <= i2 < l1.len() implies (#[trigger] l1[i2]).no_duplicates() by {
                if i2 != i {
                    assert(l1[i2] == l0[i2]);
                }
            }
            assert forall|i2: int, t2: int| 0 <= i2 < l1.len() && 0 <= t2 < l1[i2].len() implies (#[trigger] l1[i2][t2]) < self.counts().len() by {
                if i2 != i {
                    assert(l1[i2] == l0[i2]);
                }
            }
            assert forall|r: int| 0 <= r < self.counts().len() implies #[trigger] self.counts()[r] == coverers(
                l1,
                self.live_view(),
                r,
                l1.len() as int,
            ) by {
                lemma_coverers_update(l0, v0, l1, self.live_view(), i as int, r, l0.len() as int);
            }
        }
    }

    /// Moves live center `i` to cover the distinct points `cov` instead: the
    /// points it covered lose it as a coverer, the points of `cov` gain it.
    /// When `cov` keeps every point only `i` covered, the score does not
    /// rise; when it also covers an uncovered point, the score falls.
    pub fn move_center(&mut self, i: usize, cov: Vec<u32>)
        requires
            old(self).wf(),
            old(self).lists_view().len() < u32::MAX,
            i < old(self).lists_view().len(),
            old(self).live_view()[i as int],
            cov@.no_duplicates(),
            forall|t: int| 0 <= t < cov@.len() ==> (#[trigger] cov@[t]) < old(self).counts().len(),
        ensures
            final(self).wf(),
            final(self).lists_view() == old(self).lists_view().update(i as int, cov@),
            final(self).live_view() == old(self).live_view(),
            final(self).min_gain() == old(self).min_gain(),
            final(self).counts().len() == old(self).counts().len(),
            forall|r: int|
                0 <= r < old(self).counts().len() ==> #[trigger] final(self).counts()[r] == old(self).counts()[r] - (if old(
                    self,
                ).lists_view()[i as int].contains(r as u32) {
                    1int
                } else {
                    0int
                }) + (if cov@.contains(r as u32) {
                    1int
                } else {
                    0int
                }),
            (forall|x: u32| with_count(old(self).lists_view()[i as int], old(self).counts(), 1).contains(x) ==> #[trigger] cov@.contains(x))
                ==> final(self).score() <= old(self).score(),
            (forall|x: u32| with_count(old(self).lists_view()[i as int], old(self).counts(), 1).contains(x) ==> #[trigger] cov@.contains(x))
                && (exists|t: int| 0 <= t < cov@.len() && old(self).counts()[#[trigger] cov@[t] as int] == 0)
                ==> final(self).score() < old(self).score(),
    {
        let ghost c0 = self.counts();
        let ghost l0 = self.lists_view();
        let ghost v0 = self.live_view();
        let ghost li = self.lists_view()[i as int];
        let ghost covv = cov@;
        self.kill_center(i);
        self.revive(i, cov);
        proof {
            assert(self.live_view() =~= v0);
            let c1 = self.counts();
            if forall|x: u32| with_count(li, c0, 1).contains(x) ==> #[trigger] covv.contains(x) {
                assert forall|r: int| 0 <= r < c0.len() && #[trigger] c0[r] > 0 implies c1[r] > 0 by {
                    if c0[r] == 1 && li.contains(r as u32) {
                        lemma_with_count_contains(li, c0, 1, r as u32);
                        assert(covv.contains(r as u32));
                    }
                }
                lemma_uncovered_mono(c0, c1, c0.len() as int);
                if exists|t: int| 0 <= t < covv.len() && c0[#[trigger] covv[t] as int] == 0 {
                    let t = choose|t: int| 0 <= t < covv.len() && c0[#[trigger] covv[t] as int] == 0;
                    let w = covv[t] as int;
                    assert(covv.contains(w as u32));
                    assert(!li.contains(w as u32)) by {
                        if li.contains(w as u32) {
                            lemma_coverers_pos(l0, v0, w, l0.len() as int, i as int);
                        }
                    }
                    lemma_uncovered_strict(c0, c1, c0.len() as int, w);
                }
            }
        }
    }

    /// The indices of the live centers, in order.
    pub fn live_centers(&self) -> (r: Vec<usize>)
        requires
            self.wf(),
        ensures
            forall|x: int, y: int| 0 <= x < y < r.len() ==> r@[x] < r@[y],
            forall|i: usize| r@.contains(i) <==> (i < self.lists_view().len() && self.live_view()[i as int]),
    {
        let mut out: Vec<usize> = Vec::new();
        let mut i: usize = 0;
        while i < self.live.len()
            invariant
                i <= self.live.len(),
                forall|x: int, y: int| 0 <= x < y < out.len() ==> out@[x] < out@[y],
                forall|x: int| 0 <= x < out.len() ==> out@[x] < i,
                forall|k: usize| out@.contains(k) <==> (k < i && self.live@[k as int]),
            decreases self.live.len() - i,
        {
            if self.live[i] {
                let ghost o0 = out@;
                out.push(i);
                proof {
                    assert forall|k: usize| out@.contains(k) <==> (k < i + 1 && self.live@[k as int]) by {
                        if out@.contains(k) && k != i {
                            let w = choose|w: int| 0 <= w < out@.len() && out@[w] == k;
                            assert(w < o0.len());
                            assert(o0.contains(k));
                        }
                        if k < i && self.live@[k as int] {
                            assert(o0.contains(k));
                            let w = choose|w: int| 0 <= w < o0.len() && o0[w] == k;
                            assert(out@[w] == k);
                        }
                        if k == i {
                            assert(out@[o0.len() as int] == k);
                        }
                    }
                }
            }
            i = i + 1;
        }
        out
    }
}

/// The points with at least one live coverer.
pub open spec fn covered_set(counts: Seq<u32>) -> Set<int> {
    Set::new(|r: int| 0 <= r < counts.len() && counts[r] > 0)
}

/// Adding one coverer to each point of `list` covers exactly its points
/// that had none.
proof fn lemma_uncovered_after_add(c0: Seq<u32>, c1: Seq<u32>, list: Seq<u32>, k: int)
    requires
        0 <= k <= c0.len() <= u32::MAX,
        c1.len() == c0.len(),
        forall|r: int|
            0 <= r < c0.len() ==> #[trigger] c1[r] == c0[r] + if list.contains(r as u32) {
                1int
            } else {
                0int
            },
    ensures
        uncovered_count(c1, k) + hits(list, c0, 0, k) == uncovered_count(c0, k),
    decreases k,
{
    if k > 0 {
        lemma_uncovered_after_add(c0, c1, list, k - 1);
        assert(c1[k - 1] == c0[k - 1] + if list.contains((k - 1) as u32) {
            1int
        } else {
            0int
        });
    }
}

/// Appending a live center raises the live count by one.
proof fn lemma_live_count_push(live: Seq<bool>, k: int)
    requires
        0 <= k <= live.len(),
    ensures
        live_count(live.push(true), k) == live_count(live, k),
        live_count(live.push(true), live.len() + 1int) == live_count(live, live.len() as int) + 1,
    decreases k,
{
    if k > 0 {
        lemma_live_count_push(live, k - 1);
    }
    lemma_live_count_prefix_push(live, live.len() as int);
}

proof fn lemma_live_count_prefix_push(live: Seq<bool>, k: int)
    requires
        0 <= k <= live.len(),
    ensures
        live_count(live.push(true), k) == live_count(live, k),
    decreases k,
{
    if k > 0 {
        lemma_live_count_prefix_push(live, k - 1);
    }
}

/// Adding a center changes the score by one center's cost less the points
/// it newly covers.
proof fn lemma_add_score(live: Seq<bool>, c0: Seq<u32>, c1: Seq<u32>, m: int, cov: Seq<u32>)
    requires
        c0.len() <= u32::MAX,
        c1.len() == c0.len(),
        cov.no_duplicates(),
        forall|t: int| 0 <= t < cov.len() ==> (#[trigger] cov[t]) < c0.len(),
        forall|r: int|
            0 <= r < c0.len() ==> #[trigger] c1[r] == c0[r] + if cov.contains(r as u32) {
                1int
            } else {
                0int
            },
    ensures
        score_of(live.push(true), c1, m) + with_count(cov, c0, 0).len() == score_of(live, c0, m) + m,
{
    let n = c0.len() as int;
    lemma_uncovered_after_add(c0, c1, cov, n);
    lemma_hits_list(cov, c0, 0, n);
    lemma_live_count_push(live, live.len() as int);
    let lc = live_count(live, live.len() as int) as int;
    assert((lc + 1) * m == lc * m + m) by (nonlinear_arith);
}

/// A list's gain over the covered points is its entries with no coverer.
proof fn lemma_gain_uncovered(cov: Seq<u32>, counts: Seq<u32>)
    requires
        forall|t: int| 0 <= t < cov.len() ==> (#[trigger] cov[t]) < counts.len(),
    ensures
        gain(cov, ones(counts.len()), covered_set(counts)) == with_count(cov, counts, 0).len(),
    decreases cov.len(),
{
    if cov.len() > 0 {
        let l = cov.drop_last();
        assert forall|t: int| 0 <= t < l.len() implies (#[trigger] l[t]) < counts.len() by {
            assert(l[t] == cov[t]);
        }
        assert(cov[cov.len() - 1] < counts.len());
        lemma_gain_uncovered(l, counts);
    }
}

/// Adding a center covers the points of its list on top of those covered.
proof fn lemma_covered_set_add(c0: Seq<u32>, c1: Seq<u32>, cov: Seq<u32>)
    requires
        c1.len() == c0.len() <= u32::MAX,
        forall|t: int| 0 <= t < cov.len() ==> (#[trigger] cov[t]) < c0.len(),
        forall|r: int|
            0 <= r < c0.len() ==> #[trigger] c1[r] == c0[r] + if cov.contains(r as u32) {
                1int
            } else {
                0int
            },
    ensures
        covered_set(c1) == covered_set(c0).union(items_of(cov)),
{
    assert forall|r: int| covered_set(c1).contains(r) <==> covered_set(c0).union(items_of(cov)).contains(r) by {
        if items_of(cov).contains(r) {
            let t = choose|t: int| 0 <= t < cov.len() && cov[t] as int == r;
            assert(cov[t] < c0.len());
            assert(cov.contains(r as u32));
        }
        if 0 <= r < c0.len() && cov.contains(r as u32) {
            let t = choose|t: int| 0 <= t < cov.len() && cov[t] == r as u32;
            assert(items_of(cov).contains(r));
        }
    }
    assert(covered_set(c1) =~= covered_set(c0).union(items_of(cov)));
}

impl CoverState {
    /// Fills gaps: greedily adds candidates (given by the points each covers)
    /// that cover at least `m` still-uncovered points, most new points first
    /// with no further tie-break, until none would. Each addition keeps the
    /// score from rising.
    pub fn gapfill(&mut self, cands: &[Vec<u32>]) -> (picks: Vec<usize>)
        requires
            old(self).wf(),
            items_in_range(lists(cands@), old(self).counts().len() as int),
            cands.len() <= u32::MAX,
            forall|i: int| 0 <= i < cands.len() ==> (#[trigger] cands@[i])@.no_duplicates(),
            forall|i: int| 0 <= i < cands.len() ==> ((#[trigger] cands@[i])@.len() + 1) * 256 <= usize::MAX,
            old(self).lists_view().len() + cands.len() < u32::MAX,
        ensures
            final(self).wf(),
            final(self).min_gain() == old(self).min_gain(),
            final(self).counts().len() == old(self).counts().len(),
            forall|q: int|
                0 <= q < picks.len() ==> is_greedy_pick(
                    lists(cands@),
                    old(self).counts().len(),
                    covered_set(old(self).counts()),
                    old(self).min_gain(),
                    TieBreak::Off,
                    as_ints(picks@),
                    q,
                ),
            forall|j: int|
                0 <= j < cands.len() ==> gain(
                    #[trigger] lists(cands@)[j],
                    ones(final(self).counts().len()),
                    covered_set(final(self).counts()),
                ) < final(self).min_gain(),
            final(self).lists_view() == old(self).lists_view() + Seq::new(
                picks.len() as nat,
                |q: int| lists(cands@)[picks@[q] as int],
            ),
            final(self).live_view() == old(self).live_view() + Seq::new(picks.len() as nat, |q: int| true),
            final(self).score() <= old(self).score(),
    {
        let ghost c = lists(cands@);
        let ghost l0 = self.lists_view();
        let ghost v0 = self.live_view();
        let ghost c0 = self.counts();
        let ghost s0 = self.score();
        let n = self.count.len();
        let mut flags: Vec<bool> = Vec::new();
        let mut r: usize = 0;
        while r < n
            invariant
                r <= n,
                n == self.count@.len(),
                flags.len() == r,
                forall|k: int| 0 <= k < r ==> #[trigger] flags@[k] == (self.count@[k] > 0),
            decreases n - r,
        {
            flags.push(self.count[r] > 0);
            r = r + 1;
        }
        proof {
            assert(start_marks(flags@) =~= covered_set(c0));
        }
        let picks = bucket_greedy(cands, n, &flags, self.m, TieBreak::Off);
        let ghost pre = covered_set(c0);
        let ghost pk = as_ints(picks@);
        proof {
            assert(crate::chunk_greedy::at_least_one(self.m as int) == self.min_gain());
            assert(start_marks(flags@) == pre);
            assert(pk.take(0) =~= Seq::<int>::empty());
            assert(covered(c, Seq::<int>::empty()) =~= Set::<int>::empty());
            assert(covered_set(c0) =~= cover_after(c, pre, pk, 0));
        }
        let mut q: usize = 0;
        while q < picks.len()
            invariant
                q <= picks.len(),
                c == lists(cands@),
                pk == as_ints(picks@),
                pre == covered_set(c0),
                c0 == old(self).counts(),
                self.wf(),
                self.min_gain() == old(self).min_gain(),
                self.counts().len() == c0.len(),
                n == c0.len(),
                items_in_range(c, n as int),
                forall|i: int| 0 <= i < cands.len() ==> (#[trigger] cands@[i])@.no_duplicates(),
                l0.len() + cands.len() < u32::MAX,
                picks.len() <= cands.len(),
                forall|q2: int|
                    0 <= q2 < picks.len() ==> is_greedy_pick(c, n as nat, pre, self.min_gain(), TieBreak::Off, pk, q2),
                self.lists_view() == l0 + Seq::new(q as nat, |k: int| c[picks@[k] as int]),
                self.live_view() == v0 + Seq::new(q as nat, |k: int| true),
                covered_set(self.counts()) == cover_after(c, pre, pk, q as int),
                self.score() <= s0,
                self.lists_view().len() == l0.len() + q,
                q <= cands.len(),
            decreases picks.len() - q,
        {
            let p = picks[q];
            proof {
                assert(is_greedy_pick(c, n as nat, pre, self.min_gain(), TieBreak::Off, pk, q as int));
                assert(c[p as int] == cands@[p as int]@);
            }
            let cov = crate::exact_cover::copy_u32s(&cands[p]);
            let ghost cb = self.counts();
            let ghost vb = self.live_view();
            let ghost lb = self.lists_view();
            proof {
                assert forall|t: int| 0 <= t < cov@.len() implies (#[trigger] cov@[t]) < cb.len() by {
                    assert(c[p as int][t] == cov@[t]);
                }
            }
            self.add_center(cov);
            proof {
                let cv = c[p as int];
                lemma_add_score(vb, cb, self.counts(), self.min_gain(), cv);
                lemma_gain_uncovered(cv, cb);
                lemma_covered_set_add(cb, self.counts(), cv);
                assert(pk.take(q as int + 1) =~= pk.take(q as int).push(p as int));
                lemma_covered_push(c, pk.take(q as int), p as int);
                assert(covered_set(self.counts()) =~= cover_after(c, pre, pk, q as int + 1));
                assert(self.lists_view() =~= l0 + Seq::new((q + 1) as nat, |k: int| c[picks@[k] as int]));
                assert(self.live_view() =~= v0 + Seq::new((q + 1) as nat, |k: int| true));
            }
            q = q + 1;
        }
        proof {
            assert(pk.take(picks.len() as int) =~= pk);
        }
        picks
    }
}

/// With no point losing its last coverer, no more points are uncovered.
proof fn lemma_uncovered_mono(c0: Seq<u32>, c1: Seq<u32>, k: int)
    requires
        0 <= k <= c0.len(),
        c1.len() == c0.len(),
        forall|r: int| 0 <= r < c0.len() && #[trigger] c0[r] > 0 ==> c1[r] > 0,
    ensures
        uncovered_count(c1, k) <= uncovered_count(c0, k),
    decreases k,
{
    if k > 0 {
        lemma_uncovered_mono(c0, c1, k - 1);
        assert(c0[k - 1] > 0 ==> c1[k - 1] > 0);
    }
}

/// An entry is kept by `with_count` exactly when it is listed with that count.
proof fn lemma_with_count_contains(list: Seq<u32>, c: Seq<u32>, v: u32, x: u32)
    ensures
        with_count(list, c, v).contains(x) <==> (list.contains(x) && c[x as int] == v),
    decreases list.len(),
{
    if list.len() > 0 {
        let l = list.drop_last();
        let y = list.last();
        lemma_with_count_contains(l, c, v, x);
        let rest = with_count(l, c, v);
        assert(list =~= l.push(y));
        assert(list.contains(x) <==> (l.contains(x) || x == y)) by {
            if list.contains(x) {
                let q = choose|q: int| 0 <= q < list.len() && list[q] == x;
                if q < l.len() {
                    assert(l[q] == x);
                }
            }
            if l.contains(x) {
                let q = choose|q: int| 0 <= q < l.len() && l[q] == x;
                assert(list[q] == x);
            }
            assert(list[list.len() - 1] == y);
        }
        if c[y as int] == v {
            assert(with_count(list, c, v) == rest.push(y));
            assert(rest.push(y).contains(x) <==> (rest.contains(x) || x == y)) by {
                if rest.push(y).contains(x) {
                    let q = choose|q: int| 0 <= q < rest.push(y).len() && rest.push(y)[q] == x;
                    if q < rest.len() {
                        assert(rest[q] == x);
                    }
                }
                if rest.contains(x) {
                    let q = choose|q: int| 0 <= q < rest.len() && rest[q] == x;
                    assert(rest.push(y)[q] == x);
                }
                assert(rest.push(y)[rest.len() as int] == y);
            }
        }
    } else {
        assert(with_count(list, c, v) =~= Seq::<u32>::empty());
    }
}

/// An entry is kept by `only_by_pair` exactly when the pair alone covers it.
proof fn lemma_only_by_pair_contains(list: Seq<u32>, other: Seq<u32>, c: Seq<u32>, x: u32)
    ensures
        only_by_pair(list, other, c).contains(x) <==> (list.contains(x) && (c[x as int] == 1 || (c[x as int] == 2
            && other.contains(x)))),
    decreases list.len(),
{
    if list.len() > 0 {
        let l = list.drop_last();
        let y = list.last();
        lemma_only_by_pair_contains(l, other, c, x);
        let rest = only_by_pair(l, other, c);
        assert(list =~= l.push(y));
        assert(list.contains(x) <==> (l.contains(x) || x == y)) by {
            if list.contains(x) {
                let q = choose|q: int| 0 <= q < list.len() && list[q] == x;
                if q < l.len() {
                    assert(l[q] == x);
                }
            }
            if l.contains(x) {
                let q = choose|q: int| 0 <= q < l.len() && l[q] == x;
                assert(list[q] == x);
            }
            assert(list[list.len() - 1] == y);
        }
        if c[y as int] == 1 || (c[y as int] == 2 && other.contains(y)) {
            assert(only_by_pair(list, other, c) == rest.push(y));
            assert(rest.push(y).contains(x) <==> (rest.contains(x) || x == y)) by {
                if rest.push(y).contains(x) {
                    let q = choose|q: int| 0 <= q < rest.push(y).len() && rest.push(y)[q] == x;
                    if q < rest.len() {
                        assert(rest[q] == x);
                    }
                }
                if rest.contains(x) {
                    let q = choose|q: int| 0 <= q < rest.len() && rest[q] == x;
                    assert(rest.push(y)[q] == x);
                }
                assert(rest.push(y)[rest.len() as int] == y);
            }
        }
    } else {
        assert(only_by_pair(list, other, c) =~= Seq::<u32>::empty());
    }
}

/// A point listed by a live center has a coverer.
proof fn lemma_coverers_pos(lists: Seq<Seq<u32>>, live: Seq<bool>, r: int, k: int, i: int)
    requires
        0 <= i < k,
        live[i],
        lists[i].contains(r as u32),
    ensures
        coverers(lists, live, r, k) >= 1,
    decreases k,
{
    if k - 1 > i {
        lemma_coverers_pos(lists, live, r, k - 1, i);
    }
}

/// Covering an uncovered point while uncovering none lowers the count of
/// uncovered points.
proof fn lemma_uncovered_strict(c0: Seq<u32>, c1: Seq<u32>, k: int, w: int)
    requires
        0 <= w < k <= c0.len(),
        c1.len() == c0.len(),
        forall|r: int| 0 <= r < c0.len() && #[trigger] c0[r] > 0 ==> c1[r] > 0,
        c0[w] == 0,
        c1[w] > 0,
    ensures
        uncovered_count(c1, k) < uncovered_count(c0, k),
    decreases k,
{
    if k - 1 == w {
        lemma_uncovered_mono(c0, c1, k - 1);
    } else {
        lemma_uncovered_strict(c0, c1, k - 1, w);
        assert(c0[k - 1] > 0 ==> c1[k - 1] > 0);
    }
}

/// The score with one center fewer and no more uncovered points is at
/// least one center's cost lower.
proof fn lemma_score_one_fewer(v0: Seq<bool>, v1: Seq<bool>, c0: Seq<u32>, c1: Seq<u32>, m: int)
    requires
        live_count(v1, v1.len() as int) + 1 == live_count(v0, v0.len() as int),
        uncovered_count(c1, c1.len() as int) <= uncovered_count(c0, c0.len() as int),
        m >= 0,
    ensures
        score_of(v1, c1, m) + m <= score_of(v0, c0, m),
{
    let a = live_count(v1, v1.len() as int) as int;
    assert((a + 1) * m == a * m + m) by (nonlinear_arith);
}


impl CoverState {
    /// Replaces live centers `i` and `j` by one new center covering the
    /// distinct points `cov`. When `cov` covers every point only the pair
    /// covered, the score falls by at least one center's cost.
    pub fn merge_pair(&mut self, i: usize, j: usize, cov: Vec<u32>) -> (k: usize)
        requires
            old(self).wf(),
            old(self).lists_view().len() < u32::MAX,
            i < old(self).lists_view().len(),
            j < old(self).lists_view().len(),
            i != j,
            old(self).live_view()[i as int],
            old(self).live_view()[j as int],
            cov@.no_duplicates(),
            forall|t: int| 0 <= t < cov@.len() ==> (#[trigger] cov@[t]) < old(self).counts().len(),
        ensures
            final(self).wf(),
            k == old(self).lists_view().len(),
            final(self).lists_view() == old(self).lists_view().push(cov@),
            final(self).live_view() == old(self).live_view().update(i as int, false).update(j as int, false).push(true),
            final(self).min_gain() == old(self).min_gain(),
            final(self).counts().len() == old(self).counts().len(),
            forall|r: int|
                0 <= r < old(self).counts().len() ==> #[trigger] final(self).counts()[r] == old(self).counts()[r] - (if old(
                    self,
                ).lists_view()[i as int].contains(r as u32) {
                    1int
                } else {
                    0int
                }) - (if old(self).lists_view()[j as int].contains(r as u32) {
                    1int
                } else {
                    0int
                }) + (if cov@.contains(r as u32) {
                    1int
                } else {
                    0int
                }),
            (forall|x: u32|
                (only_by_pair(old(self).lists_view()[i as int], old(self).lists_view()[j as int], old(self).counts()).contains(x)
                    || with_count(old(self).lists_view()[j as int], old(self).counts(), 1).contains(x)) ==> #[trigger] cov@.contains(x))
                ==> final(self).score() + final(self).min_gain() <= old(self).score(),
    {
        let ghost c0 = self.counts();
        let ghost l0 = self.lists_view();
        let ghost v0 = self.live_view();
        let ghost li = l0[i as int];
        let ghost lj = l0[j as int];
        let ghost covv = cov@;
        self.kill_center(i);
        let ghost v1 = self.live_view();
        self.kill_center(j);
        let ghost v2 = self.live_view();
        let k = self.add_center(cov);
        proof {
            let c1 = self.counts();
            lemma_live_count_kill(v0, i as int, v0.len() as int);
            lemma_live_count_kill(v1, j as int, v1.len() as int);
            lemma_live_count_push(v2, v2.len() as int);
            if forall|x: u32|
                (only_by_pair(li, lj, c0).contains(x) || with_count(lj, c0, 1).contains(x)) ==> #[trigger] covv.contains(x) {
                assert forall|r: int| 0 <= r < c0.len() && #[trigger] c0[r] > 0 implies c1[r] > 0 by {
                    let x = r as u32;
                    let ni: int = if li.contains(x) { 1 } else { 0 };
                    let nj: int = if lj.contains(x) { 1 } else { 0 };
                    if c0[r] <= ni + nj {
                        lemma_only_by_pair_contains(li, lj, c0, x);
                        lemma_with_count_contains(lj, c0, 1, x);
                        assert(covv.contains(x));
                    }
                }
                lemma_uncovered_mono(c0, c1, c0.len() as int);
                lemma_score_one_fewer(v0, self.live_view(), c0, c1, self.min_gain());
            }
        }
        k
    }

    /// Replaces three distinct live centers by two new centers covering the
    /// distinct points `cov1` and `cov2`. When every point only the three
    /// covered is covered by one of the new lists, the score falls by at
    /// least one center's cost.
    pub fn swap_three(&mut self, i: usize, j: usize, k: usize, cov1: Vec<u32>, cov2: Vec<u32>)
        requires
            old(self).wf(),
            old(self).lists_view().len() + 1 < u32::MAX,
            i < old(self).lists_view().len(),
            j < old(self).lists_view().len(),
            k < old(self).lists_view().len(),
            i != j && j != k && i != k,
            old(self).live_view()[i as int],
            old(self).live_view()[j as int],
            old(self).live_view()[k as int],
            cov1@.no_duplicates(),
            cov2@.no_duplicates(),
            forall|t: int| 0 <= t < cov1@.len() ==> (#[trigger] cov1@[t]) < old(self).counts().len(),
            forall|t: int| 0 <= t < cov2@.len() ==> (#[trigger] cov2@[t]) < old(self).counts().len(),
        ensures
            final(self).wf(),
            final(self).lists_view() == old(self).lists_view().push(cov1@).push(cov2@),
            final(self).live_view() == old(self).live_view().update(i as int, false).update(j as int, false).update(
                k as int,
                false,
            ).push(true).push(true),
            final(self).min_gain() == old(self).min_gain(),
            final(self).counts().len() == old(self).counts().len(),
            (forall|x: u32|
                only_by_three(
                    x,
                    old(self).lists_view()[i as int],
                    old(self).lists_view()[j as int],
                    old(self).lists_view()[k as int],
                    old(self).counts(),
                ) ==> #[trigger] cov1@.contains(x) || cov2@.contains(x)) ==> final(self).score() + final(self).min_gain()
                <= old(self).score(),
    {
        let ghost c0 = self.counts();
        let ghost l0 = self.lists_view();
        let ghost v0 = self.live_view();
        let ghost li = l0[i as int];
        let ghost lj = l0[j as int];
        let ghost lk = l0[k as int];
        let ghost cv1 = cov1@;
        let ghost cv2 = cov2@;
        self.kill_center(i);
        let ghost v1 = self.live_view();
        self.kill_center(j);
        let ghost v2 = self.live_view();
        self.kill_center(k);
        let ghost v3 = self.live_view();
        let ghost c3 = self.counts();
        self.add_center(cov1);
        let ghost v4 = self.live_view();
        let ghost c4 = self.counts();
        self.add_center(cov2);
        proof {
            let c5 = self.counts();
            lemma_live_count_kill(v0, i as int, v0.len() as int);
            lemma_live_count_kill(v1, j as int, v1.len() as int);
            lemma_live_count_kill(v2, k as int, v2.len() as int);
            lemma_live_count_push(v3, v3.len() as int);
            lemma_live_count_push(v4, v4.len() as int);
            if forall|x: u32| only_by_three(x, li, lj, lk, c0) ==> #[trigger] cv1.contains(x) || cv2.contains(x) {
                assert forall|r: int| 0 <= r < c0.len() && #[trigger] c0[r] > 0 implies c5[r] > 0 by {
                    let x = r as u32;
                    assert(c3[r] == c0[r] - (if li.contains(x) { 1int } else { 0int }) - (if lj.contains(x) { 1int } else { 0int })
                        - (if lk.contains(x) { 1int } else { 0int }));
                    if c3[r] == 0 {
                        assert(only_by_three(x, li, lj, lk, c0));
                        assert(cv1.contains(x) || cv2.contains(x));
                    }
                }
                lemma_uncovered_mono(c0, c5, c0.len() as int);
                let a = live_count(self.live_view(), self.live_view().len() as int) as int;
                assert(a + 1 == live_count(v0, v0.len() as int));
                lemma_score_one_fewer(v0, self.live_view(), c0, c5, self.min_gain());
            }
        }
    }
}

impl CoverState {
    /// The score: `m` per live center plus one per uncovered point.
    pub fn current_score(&self) -> (r: usize)
        requires
            self.wf(),
            self.score() <= usize::MAX,
        ensures
            r == self.score(),
    {
        let mut live: usize = 0;
        let mut i: usize = 0;
        proof {
            lemma_live_count_le(self.live@, self.live@.len() as int);
        }
        while i < self.live.len()
            invariant
                i <= self.live.len(),
                live == live_count(self.live@, i as int),
                live_count(self.live@, self.live@.len() as int) <= self.live@.len(),
                forall|k: int| 0 <= k <= self.live@.len() ==> live_count(self.live@, k) <= k,
            decreases self.live.len() - i,
        {
            if self.live[i] {
                live = live + 1;
            }
            i = i + 1;
        }
        let mut unc: usize = 0;
        let mut r: usize = 0;
        while r < self.count.len()
            invariant
                r <= self.count.len(),
                unc == uncovered_count(self.count@, r as int),
                unc <= r,
            decreases self.count.len() - r,
        {
            if self.count[r] == 0 {
                unc = unc + 1;
            }
            r = r + 1;
        }
        proof {
            let lc = live as int;
            let m = self.m as int;
            assert(lc * m + unc == self.score());
            assert(0 <= lc * m) by (nonlinear_arith)
                requires
                    lc >= 0,
                    m >= 0,
            ;
        }
        live * self.m + unc
    }
}

/// The live count over a prefix is at most its length.
proof fn lemma_live_count_le(live: Seq<bool>, k: int)
    requires
        0 <= k <= live.len(),
    ensures
        forall|j: int| 0 <= j <= k ==> live_count(live, j) <= j,
    decreases k,
{
    if k > 0 {
        lemma_live_count_le(live, k - 1);
        assert(live_count(live, k - 1) <= k - 1);
        assert(live_count(live, k) <= k);
    }
}

} // verus!
