//! The greedy at the heart of the per-chunk solver: candidates are taken in
//! order of (points newly covered, points covered at the start), from an
//! integer bucket queue that re-scores lazily, until no candidate would
//! cover `m` new points.

use vstd::prelude::*;
use crate::select::{
    gain, covered, lists, marked, as_ints, items_in_range, items_of, lemma_gain_monotone,
    lemma_gain_zero, lemma_covered_push, sorted_distinct,
};

verus! {

/// Every point counts once.
pub open spec fn ones(n: nat) -> Seq<usize> {
    Seq::new(n, |i: int| 1usize)
}

/// How candidates of equal gain are ordered.
#[derive(Clone, Copy, Debug)]
pub enum TieBreak {
    /// Toward more points covered at the start.
    Dense,
    /// Toward fewer points covered at the start.
    Sparse,
    /// Not at all: equal gains are equal priorities.
    Off,
}

/// The tie-break part of a priority: the points covered at the start, capped
/// at 255, its complement, or nothing.
pub open spec fn tie_rank(s: int, tie: TieBreak) -> int {
    let c = if s < 255 {
        s
    } else {
        255
    };
    match tie {
        TieBreak::Dense => c,
        TieBreak::Sparse => 255 - c,
        TieBreak::Off => 0,
    }
}

/// A candidate's priority: its gain first, then its tie rank.
pub open spec fn priority(g: int, s: int, tie: TieBreak) -> int {
    g * 256 + tie_rank(s, tie)
}

/// How priorities order candidates: more new points always win; at equal
/// gain `Dense` prefers the candidate that covered more points at the start
/// and `Sparse` the one that covered fewer (counts at most 255 told apart),
/// while `Off` ties them.
pub proof fn lemma_priority_order(g1: int, s1: int, g2: int, s2: int, tie: TieBreak)
    requires
        0 <= s1,
        0 <= s2,
    ensures
        g1 > g2 ==> priority(g1, s1, tie) > priority(g2, s2, tie),
        tie is Dense && s1 < s2 && s1 < 255 ==> priority(g1, s1, tie) < priority(g1, s2, tie),
        tie is Dense && s1 <= s2 ==> priority(g1, s1, tie) <= priority(g1, s2, tie),
        tie is Sparse && s1 < s2 && s1 < 255 ==> priority(g1, s1, tie) > priority(g1, s2, tie),
        tie is Sparse && s1 <= s2 ==> priority(g1, s1, tie) >= priority(g1, s2, tie),
        tie is Off ==> priority(g1, s1, tie) == priority(g1, s2, tie),
{
    assert(0 <= tie_rank(s1, tie) <= 255);
    assert(0 <= tie_rank(s2, tie) <= 255);
    if g1 > g2 {
        assert(g1 * 256 >= g2 * 256 + 256) by (nonlinear_arith)
            requires
                g1 >= g2 + 1,
        ;
    }
}

/// The points covered once the first `q` picks are placed on top of `pre`.
pub open spec fn cover_after(c: Seq<Seq<u32>>, pre: Set<int>, picks: Seq<int>, q: int) -> Set<int> {
    pre.union(covered(c, picks.take(q)))
}

/// Whether pick `q` covers at least `m` new points and has the highest
/// priority of all candidates at that moment.
pub open spec fn is_greedy_pick(
    c: Seq<Seq<u32>>,
    n: nat,
    pre: Set<int>,
    m: int,
    tie: TieBreak,
    picks: Seq<int>,
    q: int,
) -> bool {
    let cov = cover_after(c, pre, picks, q);
    let b = picks[q];
    &&& 0 <= b < c.len()
    &&& gain(c[b], ones(n), cov) >= m
    &&& forall|j: int|
        0 <= j < c.len() ==> priority(gain(#[trigger] c[j], ones(n), cov), gain(c[j], ones(n), pre), tie)
            <= priority(gain(c[b], ones(n), cov), gain(c[b], ones(n), pre), tie)
}

/// A list gains at most one per entry when every point counts once.
proof fn lemma_gain_at_most_len(list: Seq<u32>, n: nat, cov: Set<int>)
    requires
        forall|t: int| 0 <= t < list.len() ==> (#[trigger] list[t]) < n,
    ensures
        0 <= gain(list, ones(n), cov) <= list.len(),
    decreases list.len(),
{
    if list.len() > 0 {
        assert(list[list.len() - 1] < n);
        lemma_gain_at_most_len(list.drop_last(), n, cov);
    }
}

/// How many entries of `list` name a point not yet marked.
fn count_unmarked(list: &Vec<u32>, marks: &Vec<bool>) -> (r: usize)
    requires
        forall|t: int| 0 <= t < list@.len() ==> (#[trigger] list@[t]) < marks.len(),
    ensures
        r == gain(list@, ones(marks.len() as nat), marked(marks@)),
        r <= list.len(),
{
    let ghost w = ones(marks.len() as nat);
    let ghost cs = marked(marks@);
    let mut sum: usize = 0;
    let mut t: usize = 0;
    while t < list.len()
        invariant
            t <= list.len(),
            w == ones(marks.len() as nat),
            cs == marked(marks@),
            forall|t2: int| 0 <= t2 < list@.len() ==> (#[trigger] list@[t2]) < marks.len(),
            sum == gain(list@.subrange(0, t as int), w, cs),
            sum <= t,
        decreases list.len() - t,
    {
        let j = list[t] as usize;
        proof {
            let pre = list@.subrange(0, t as int + 1);
            assert(pre.drop_last() =~= list@.subrange(0, t as int));
            assert(pre.last() == j);
            assert(cs.contains(j as int) <==> marks@[j as int]);
        }
        if !marks[j] {
            sum = sum + 1;
        }
        t = t + 1;
    }
    assert(list@.subrange(0, list.len() as int) =~= list@);
    sum
}

/// The priority of a gain and a starting coverage, computed.
fn priority_of(g: usize, s: usize, tie: TieBreak) -> (r: usize)
    requires
        g * 256 + 255 <= usize::MAX,
    ensures
        r == priority(g as int, s as int, tie),
{
    let c: usize = if s < 255 {
        s
    } else {
        255
    };
    g * 256 + match tie {
        TieBreak::Dense => c,
        TieBreak::Sparse => 255 - c,
        TieBreak::Off => 0,
    }
}

/// Whether candidate `j` waits in one of the buckets `lo..=hi`.
pub open spec fn queued(bk: Seq<Vec<u32>>, j: int, lo: int, hi: int) -> bool {
    exists|b: int, t: int| lo <= b <= hi && 0 <= t < bk[b]@.len() && #[trigger] bk[b]@[t] == j
}

/// Pushing onto a bucket keeps every waiting candidate waiting.
proof fn lemma_queued_push(bk: Seq<Vec<u32>>, p: int, nb: Vec<u32>, x: u32, j: int, lo: int, hi: int)
    requires
        queued(bk, j, lo, hi),
        0 <= p < bk.len(),
        nb@ == bk[p]@.push(x),
        0 <= lo,
        hi < bk.len(),
    ensures
        queued(bk.update(p, nb), j, lo, hi),
{
    let (b, t) = choose|b: int, t: int| lo <= b <= hi && 0 <= t < bk[b]@.len() && #[trigger] bk[b]@[t] == j;
    let bk2 = bk.update(p, nb);
    if b == p {
        assert(bk2[b]@[t] == j);
    } else {
        assert(bk2[b] == bk[b]);
        assert(bk2[b]@[t] == j);
    }
}

/// Popping the last entry of a bucket keeps every other candidate waiting.
proof fn lemma_queued_pop(bk: Seq<Vec<u32>>, p: int, nb: Vec<u32>, j: int, lo: int, hi: int)
    requires
        queued(bk, j, lo, hi),
        0 <= p < bk.len(),
        bk[p]@.len() > 0,
        nb@ == bk[p]@.drop_last(),
        j != bk[p]@.last(),
        0 <= lo,
        hi < bk.len(),
    ensures
        queued(bk.update(p, nb), j, lo, hi),
{
    let (b, t) = choose|b: int, t: int| lo <= b <= hi && 0 <= t < bk[b]@.len() && #[trigger] bk[b]@[t] == j;
    let bk2 = bk.update(p, nb);
    if b == p {
        assert(t != bk[p]@.len() - 1);
        assert(bk2[b]@[t] == j);
    } else {
        assert(bk2[b] == bk[b]);
        assert(bk2[b]@[t] == j);
    }
}

/// An empty top bucket can be dropped from the range.
proof fn lemma_queued_lower(bk: Seq<Vec<u32>>, j: int, lo: int, hi: int)
    requires
        queued(bk, j, lo, hi),
        bk[hi]@.len() == 0,
    ensures
        queued(bk, j, lo, hi - 1),
{
    let (b, t) = choose|b: int, t: int| lo <= b <= hi && 0 <= t < bk[b]@.len() && #[trigger] bk[b]@[t] == j;
    assert(b != hi);
}

/// A lower floor keeps a waiting candidate waiting.
proof fn lemma_queued_floor(bk: Seq<Vec<u32>>, j: int, lo: int, lo2: int, hi: int)
    requires
        queued(bk, j, lo, hi),
        lo2 <= lo,
    ensures
        queued(bk, j, lo2, hi),
{
    let (b, t) = choose|b: int, t: int| lo <= b <= hi && 0 <= t < bk[b]@.len() && #[trigger] bk[b]@[t] == j;
}

/// The points covered before any pick: none for an empty table, else the
/// marked ones.
pub open spec fn start_marks(pre: Seq<bool>) -> Set<int> {
    if pre.len() == 0 {
        Set::empty()
    } else {
        marked(pre)
    }
}

/// The smallest useful gain: `m`, and at least one.
pub open spec fn at_least_one(m: int) -> int {
    if m <= 0 {
        1
    } else {
        m
    }
}

/// Earlier picks stay greedy picks when a pick is appended.
proof fn lemma_greedy_prefix(
    c: Seq<Seq<u32>>,
    n: nat,
    pre: Set<int>,
    m: int,
    tie: TieBreak,
    old_picks: Seq<int>,
    x: int,
)
    requires
        forall|q: int| 0 <= q < old_picks.len() ==> is_greedy_pick(c, n, pre, m, tie, old_picks, q),
    ensures
        forall|q: int| 0 <= q < old_picks.len() ==> is_greedy_pick(c, n, pre, m, tie, old_picks.push(x), q),
{
    let np = old_picks.push(x);
    assert forall|q: int| 0 <= q < old_picks.len() implies is_greedy_pick(c, n, pre, m, tie, np, q) by {
        assert(np.take(q) =~= old_picks.take(q));
        assert(np[q] == old_picks[q]);
        assert(is_greedy_pick(c, n, pre, m, tie, old_picks, q));
    }
}

/// Marks every point `list` names.
fn mark_all(marks: &mut Vec<bool>, list: &Vec<u32>)
    requires
        forall|t: int| 0 <= t < list@.len() ==> (#[trigger] list@[t]) < old(marks).len(),
    ensures
        final(marks).len() == old(marks).len(),
        marked(final(marks)@) == marked(old(marks)@).union(items_of(list@)),
{
    let ghost m0 = marked(marks@);
    let mut t: usize = 0;
    while t < list.len()
        invariant
            t <= list.len(),
            marks.len() == old(marks).len(),
            m0 == marked(old(marks)@),
            forall|t2: int| 0 <= t2 < list@.len() ==> (#[trigger] list@[t2]) < marks.len(),
            marked(marks@) == m0.union(items_of(list@.take(t as int))),
        decreases list.len() - t,
    {
        let x = list[t] as usize;
        let ghost before = marks@;
        marks.set(x, true);
        proof {
            let l0 = list@.take(t as int);
            let l1 = list@.take(t as int + 1);
            assert(l1[t as int] as int == x as int);
            assert forall|j: int| marked(marks@).contains(j) implies m0.union(items_of(l1)).contains(j) by {
                if j != x as int {
                    assert(marked(before).contains(j));
                    if items_of(l0).contains(j) {
                        let k = choose|k: int| 0 <= k < l0.len() && #[trigger] l0[k] as int == j;
                        assert(l1[k] == l0[k]);
                    }
                }
            }
            assert forall|j: int| m0.union(items_of(l1)).contains(j) implies marked(marks@).contains(j) by {
                if j != x as int {
                    if items_of(l1).contains(j) {
                        let k = choose|k: int| 0 <= k < l1.len() && #[trigger] l1[k] as int == j;
                        assert(k != t);
                        assert(l0[k] == l1[k]);
                        assert(items_of(l0).contains(j));
                    }
                    assert(marked(before).contains(j));
                }
            }
            assert(marked(marks@) =~= m0.union(items_of(l1)));
        }
        t = t + 1;
    }
    assert(list@.take(list.len() as int) =~= list@);
}

/// A priority reaching `m * 256` comes from a gain of at least `m`, and a
/// gain of at least `m` gives a priority of at least `m * 256`.
proof fn lemma_priority_floor(g: int, s: int, tie: TieBreak, m: int)
    requires
        g >= 0,
        s >= 0,
    ensures
        priority(g, s, tie) >= m * 256 ==> g >= m,
        g >= m ==> priority(g, s, tie) >= m * 256,
        g < m ==> priority(g, s, tie) < m * 256,
{
    let t = tie_rank(s, tie);
    assert(0 <= t <= 255);
    if priority(g, s, tie) >= m * 256 {
        assert(g >= m) by (nonlinear_arith)
            requires
                g * 256 + t >= m * 256,
                t <= 255,
        ;
    }
    if g < m {
        assert(g * 256 + t < m * 256) by (nonlinear_arith)
            requires
                g < m,
                t <= 255,
        ;
    }
    if g >= m {
        assert(g * 256 + t >= m * 256) by (nonlinear_arith)
            requires
                g >= m,
                t >= 0,
        ;
    }
}

/// A smaller gain gives a smaller priority.
proof fn lemma_priority_mono(g1: int, g2: int, s: int, tie: TieBreak)
    requires
        g1 <= g2,
    ensures
        priority(g1, s, tie) <= priority(g2, s, tie),
{
}

/// With every candidate of gain at least `m` waiting at or below `cur`, and
/// `cur` at least `m * 256`, no candidate's priority exceeds `cur`.
proof fn lemma_all_at_most(
    c: Seq<Seq<u32>>,
    n: nat,
    cov: Set<int>,
    pre: Set<int>,
    tie: TieBreak,
    bk: Seq<Vec<u32>>,
    cur: int,
    m: int,
)
    requires
        m * 256 <= cur,
        forall|j: int|
            0 <= j < c.len() && gain(#[trigger] c[j], ones(n), cov) >= m ==> queued(
                bk,
                j,
                priority(gain(c[j], ones(n), cov), gain(c[j], ones(n), pre), tie),
                cur,
            ),
    ensures
        forall|j: int|
            0 <= j < c.len() ==> priority(gain(#[trigger] c[j], ones(n), cov), gain(c[j], ones(n), pre), tie) <= cur,
{
    assert forall|j: int| 0 <= j < c.len() implies priority(gain(#[trigger] c[j], ones(n), cov), gain(c[j], ones(n), pre), tie) <= cur by {
        let g = gain(c[j], ones(n), cov);
        let s = gain(c[j], ones(n), pre);
        lemma_gain_monotone(c[j], ones(n), Set::empty(), cov);
        lemma_gain_monotone(c[j], ones(n), Set::empty(), pre);
        lemma_priority_floor(g, s, tie, m);
        if g >= m {
            let pr = priority(g, s, tie);
            let (b, t) = choose|b: int, t: int| pr <= b <= cur && 0 <= t < bk[b]@.len() && #[trigger] bk[b]@[t] == j;
        }
    }
}

/// Distinct indices below `n` number at most `n`.
pub proof fn lemma_distinct_bounded(s: Seq<usize>, n: int)
    requires
        0 <= n,
        s.no_duplicates(),
        forall|q: int| 0 <= q < s.len() ==> #[trigger] s[q] < n,
    ensures
        s.len() <= n,
{
    let m = s.map_values(|x: usize| x as int);
    assert(m.no_duplicates()) by {
        assert forall|a: int, b: int| 0 <= a < b < m.len() implies m[a] != m[b] by {
            assert(s[a] != s[b]);
        }
    }
    m.unique_seq_to_set();
    let rng = vstd::set_lib::set_int_range(0, n);
    vstd::set_lib::lemma_int_range(0, n);
    assert(m.to_set().subset_of(rng)) by {
        assert forall|y: int| m.to_set().contains(y) implies rng.contains(y) by {
            let w = choose|w: int| 0 <= w < m.len() && m[w] == y;
            assert(s[w] < n);
        }
    }
    vstd::set_lib::lemma_len_subset(m.to_set(), rng);
}

/// Greedy disk placement over candidates given by the points each covers:
/// repeatedly commits the candidate of highest priority (new points covered,
/// then the tie rank of the points it covered at the start), re-scoring
/// candidates lazily from an integer bucket queue, and stops once no
/// candidate would cover `m` (at least one) new points. Points marked in
/// `pre_covered` count as covered from the start; an empty table marks none.
/// `tie` orders candidates of equal gain by the points they covered at the
/// start.
pub fn bucket_greedy(
    cover: &[Vec<u32>],
    n_points: usize,
    pre_covered: &[bool],
    m: usize,
    tie: TieBreak,
) -> (r: Vec<usize>)
    requires
        pre_covered.len() == 0 || pre_covered.len() == n_points,
        items_in_range(lists(cover@), n_points as int),
        cover.len() <= u32::MAX,
        forall|i: int| 0 <= i < cover.len() ==> ((#[trigger] cover@[i])@.len() + 1) * 256 <= usize::MAX,
    ensures
        forall|q: int|
            0 <= q < r.len() ==> is_greedy_pick(
                lists(cover@),
                n_points as nat,
                start_marks(pre_covered@),
                at_least_one(m as int),
                tie,
                as_ints(r@),
                q,
            ),
        forall|j: int|
            0 <= j < cover.len() ==> gain(
                #[trigger] lists(cover@)[j],
                ones(n_points as nat),
                cover_after(lists(cover@), start_marks(pre_covered@), as_ints(r@), r.len() as int),
            ) < at_least_one(m as int),
        r@.no_duplicates(),
        r.len() <= cover.len(),
        m <= 1 ==> forall|j: int, t: int|
            0 <= j < cover.len() && 0 <= t < cover@[j]@.len() ==> cover_after(
                lists(cover@),
                start_marks(pre_covered@),
                as_ints(r@),
                r.len() as int,
            ).contains(#[trigger] cover@[j]@[t] as int),
{
    let m1: usize = if m == 0 {
        1
    } else {
        m
    };
    let ghost c = lists(cover@);
    let ghost w = ones(n_points as nat);
    let mut marks: Vec<bool> = Vec::new();
    let mut k: usize = 0;
    while k < n_points
        invariant
            k <= n_points,
            pre_covered.len() == 0 || pre_covered.len() == n_points,
            marks.len() == k,
            forall|q: int| 0 <= q < k ==> #[trigger] marks@[q] == (pre_covered.len() > 0 && pre_covered@[q]),
        decreases n_points - k,
    {
        let b = if pre_covered.len() == 0 {
            false
        } else {
            pre_covered[k]
        };
        marks.push(b);
        k = k + 1;
    }
    let ghost pre = marked(marks@);
    assert(pre =~= start_marks(pre_covered@));
    let mut stat: Vec<usize> = Vec::new();
    let mut max_gain: usize = 0;
    let mut i: usize = 0;
    while i < cover.len()
        invariant
            i <= cover.len(),
            marks.len() == n_points,
            pre == marked(marks@),
            c == lists(cover@),
            w == ones(n_points as nat),
            items_in_range(c, n_points as int),
            forall|i2: int| 0 <= i2 < cover.len() ==> ((#[trigger] cover@[i2])@.len() + 1) * 256 <= usize::MAX,
            stat.len() == i,
            forall|j: int| 0 <= j < i ==> #[trigger] stat@[j] == gain(c[j], w, pre) && stat@[j] <= max_gain,
            (max_gain + 1) * 256 <= usize::MAX,
        decreases cover.len() - i,
    {
        assert(c[i as int] == cover@[i as int]@);
        assert forall|t: int| 0 <= t < cover@[i as int]@.len() implies (#[trigger] cover@[i as int]@[t]) < marks.len() by {
            assert(c[i as int][t] == cover@[i as int]@[t]);
        }
        let g = count_unmarked(&cover[i], &marks);
        stat.push(g);
        if g > max_gain {
            max_gain = g;
        }
        i = i + 1;
    }
    if max_gain < m1 {
        proof {
            assert(as_ints(Seq::<usize>::empty()).take(0) =~= Seq::<int>::empty());
            assert(covered(c, Seq::<int>::empty()) =~= Set::<int>::empty());
            assert(cover_after(c, pre, as_ints(Seq::<usize>::empty()), 0) =~= pre);
            assert forall|j: int| 0 <= j < cover.len() implies gain(#[trigger] c[j], w, pre) < m1 by {
                assert(stat@[j] == gain(c[j], w, pre));
            }
            if m <= 1 {
                lemma_no_gain_all_covered(c, n_points as nat, pre);
                assert forall|j: int, t: int| 0 <= j < cover.len() && 0 <= t < cover@[j]@.len() implies pre.contains(
                    #[trigger] cover@[j]@[t] as int,
                ) by {
                    assert(c[j] == cover@[j]@);
                    assert(c[j][t] == cover@[j]@[t]);
                }
            }
        }
        return Vec::new();
    }
    let nb: usize = (max_gain + 1) * 256;
    let floor: usize = m1 * 256;
    let mut buckets: Vec<Vec<u32>> = Vec::new();
    while buckets.len() < nb
        invariant
            buckets.len() <= nb,
            forall|b: int| 0 <= b < buckets.len() ==> (#[trigger] buckets@[b])@.len() == 0,
        decreases nb - buckets.len(),
    {
        buckets.push(Vec::new());
    }
    let mut i: usize = 0;
    while i < cover.len()
        invariant
            i <= cover.len(),
            buckets.len() == nb,
            nb == (max_gain + 1) * 256,
            floor == m1 * 256,
            m1 >= 1,
            m1 <= max_gain,
            cover.len() <= u32::MAX,
            c == lists(cover@),
            w == ones(n_points as nat),
            stat.len() == cover.len(),
            forall|j: int| 0 <= j < cover.len() ==> #[trigger] stat@[j] == gain(c[j], w, pre) && stat@[j] <= max_gain,
            forall|b: int, t: int| 0 <= b < nb && 0 <= t < buckets@[b]@.len() ==> (#[trigger] buckets@[b]@[t]) < cover.len(),
            forall|j: int|
                0 <= j < i && gain(#[trigger] c[j], w, pre) >= m1 ==> queued(
                    buckets@,
                    j,
                    priority(gain(c[j], w, pre), gain(c[j], w, pre), tie),
                    nb - 1,
                ),
        decreases cover.len() - i,
    {
        let s = stat[i];
        if s >= m1 {
            let p = priority_of(s, s, tie);
            let ghost bk0 = buckets@;
            let ghost nbk = bk0[p as int]@.push(i as u32);
            buckets[p].push(i as u32);
            proof {
                assert(buckets@ == bk0.update(p as int, buckets@[p as int]));
                assert forall|j: int|
                    0 <= j < i + 1 && gain(#[trigger] c[j], w, pre) >= m1 implies queued(
                    buckets@,
                    j,
                    priority(gain(c[j], w, pre), gain(c[j], w, pre), tie),
                    nb - 1,
                ) by {
                    if j < i {
                        lemma_queued_push(bk0, p as int, buckets@[p as int], i as u32, j,
                            priority(gain(c[j], w, pre), gain(c[j], w, pre), tie), nb - 1);
                    } else {
                        let t = bk0[p as int]@.len() as int;
                        assert(stat@[j] == gain(c[j], w, pre));
                        assert(s <= max_gain);
                        assert(p as int <= nb - 1);
                        assert(buckets@[p as int]@ == bk0[p as int]@.push(i as u32));
                        assert(buckets@[p as int]@.len() == t + 1);
                        assert(buckets@[p as int]@[t] == i as u32);
                        assert(j == i);
                        assert(queued(buckets@, j, p as int, nb - 1));
                    }
                }
                assert forall|b: int, t: int| 0 <= b < nb && 0 <= t < buckets@[b]@.len() implies (#[trigger] buckets@[b]@[t]) < cover.len() by {
                    if b != p {
                        assert(buckets@[b] == bk0[b]);
                    } else if t < bk0[b]@.len() {
                        assert(buckets@[b]@[t] == bk0[b]@[t]);
                    }
                }
            }
        }
        i = i + 1;
    }
    proof {
        assert(as_ints(Seq::<usize>::empty()).take(0) =~= Seq::<int>::empty());
        assert(covered(c, Seq::<int>::empty()) =~= Set::<int>::empty());
        assert(cover_after(c, pre, as_ints(Seq::<usize>::empty()), 0) =~= pre);
    }
    let mut picks: Vec<usize> = Vec::new();
    let mut cur: usize = nb - 1;
    let mut done = false;
    while !done
        invariant
            buckets.len() == nb,
            nb == (max_gain + 1) * 256,
            floor == m1 * 256,
            m1 >= 1,
            m1 <= max_gain,
            floor <= cur < nb,
            c == lists(cover@),
            w == ones(n_points as nat),
            items_in_range(c, n_points as int),
            forall|i2: int| 0 <= i2 < cover.len() ==> ((#[trigger] cover@[i2])@.len() + 1) * 256 <= usize::MAX,
            marks.len() == n_points,
            stat.len() == cover.len(),
            forall|j: int| 0 <= j < cover.len() ==> #[trigger] stat@[j] == gain(c[j], w, pre) && stat@[j] <= max_gain,
            forall|b: int, t: int| 0 <= b < nb && 0 <= t < buckets@[b]@.len() ==> (#[trigger] buckets@[b]@[t]) < cover.len(),
            forall|b: int| cur < b < nb ==> (#[trigger] buckets@[b])@.len() == 0,
            marked(marks@) == cover_after(c, pre, as_ints(picks@), picks.len() as int),
            forall|q: int| 0 <= q < picks.len() ==> is_greedy_pick(c, n_points as nat, pre, m1 as int, tie, as_ints(picks@), q),
            picks@.no_duplicates(),
            forall|q: int|
                0 <= q < picks.len() ==> #[trigger] picks@[q] < cover.len() && gain(c[picks@[q] as int], w, marked(marks@)) == 0,
            forall|j: int|
                0 <= j < cover.len() && gain(#[trigger] c[j], w, marked(marks@)) >= m1 ==> queued(
                    buckets@,
                    j,
                    priority(gain(c[j], w, marked(marks@)), gain(c[j], w, pre), tie),
                    cur as int,
                ),
            done ==> buckets@[cur as int]@.len() == 0 && cur == floor,
        decreases (if done { 0int } else { 1int }) + cur, buckets@[cur as int]@.len(),
    {
        if buckets[cur].len() == 0 {
            if cur == floor {
                done = true;
            } else {
                proof {
                    assert forall|j: int|
                        0 <= j < cover.len() && gain(#[trigger] c[j], w, marked(marks@)) >= m1 implies queued(
                        buckets@,
                        j,
                        priority(gain(c[j], w, marked(marks@)), gain(c[j], w, pre), tie),
                        cur - 1,
                    ) by {
                        lemma_queued_lower(buckets@, j, priority(gain(c[j], w, marked(marks@)), gain(c[j], w, pre), tie), cur as int);
                    }
                }
                cur = cur - 1;
            }
        } else {
            let ghost bk0 = buckets@;
            let ghost cov0 = marked(marks@);
            let ghost p0 = as_ints(picks@);
            let ci32 = buckets[cur].pop().unwrap();
            let ci = ci32 as usize;
            proof {
                assert(buckets@ == bk0.update(cur as int, buckets@[cur as int]));
                assert(ci32 == bk0[cur as int]@.last());
                assert(bk0[cur as int]@[bk0[cur as int]@.len() - 1] == ci32);
                assert(c[ci as int] == cover@[ci as int]@);
            }
            assert forall|t: int| 0 <= t < cover@[ci as int]@.len() implies (#[trigger] cover@[ci as int]@[t]) < marks.len() by {
                assert(c[ci as int][t] == cover@[ci as int]@[t]);
            }
            let g = count_unmarked(&cover[ci], &marks);
            let s = stat[ci];
            let p = priority_of(g, s, tie);
            if p >= cur {
                proof {
                    lemma_all_at_most(c, n_points as nat, cov0, pre, tie, bk0, cur as int, m1 as int);
                    lemma_gain_monotone(c[ci as int], w, Set::empty(), pre);
                    lemma_priority_floor(g as int, s as int, tie, m1 as int);
                    assert(s == gain(c[ci as int], w, pre));
                }
                let ghost pk0 = picks@;
                proof {
                    assert(!pk0.contains(ci)) by {
                        if pk0.contains(ci) {
                            let q = choose|q: int| 0 <= q < pk0.len() && pk0[q] == ci;
                            assert(gain(c[pk0[q] as int], w, cov0) == 0);
                        }
                    }
                }
                mark_all(&mut marks, &cover[ci]);
                picks.push(ci);
                proof {
                    assert(picks@.no_duplicates()) by {
                        assert forall|a: int, b: int| 0 <= a < b < picks@.len() implies picks@[a] != picks@[b] by {
                            if b == pk0.len() {
                                assert(picks@[a] == pk0[a]);
                                assert(pk0.contains(pk0[a]));
                            } else {
                                assert(picks@[a] == pk0[a] && picks@[b] == pk0[b]);
                            }
                        }
                    }
                    let np = as_ints(picks@);
                    assert(np =~= p0.push(ci as int));
                    assert(p0.take(p0.len() as int) =~= p0);
                    assert(np.take(p0.len() as int) =~= p0);
                    assert(np.take(np.len() as int) =~= np);
                    lemma_covered_push(c, p0, ci as int);
                    assert(marked(marks@) =~= cover_after(c, pre, np, np.len() as int));
                    lemma_greedy_prefix(c, n_points as nat, pre, m1 as int, tie, p0, ci as int);
                    assert(cover_after(c, pre, np, p0.len() as int) == cov0);
                    assert(is_greedy_pick(c, n_points as nat, pre, m1 as int, tie, np, p0.len() as int));
                    assert forall|q: int| 0 <= q < picks.len() implies is_greedy_pick(c, n_points as nat, pre, m1 as int, tie, as_ints(picks@), q) by {
                        if q < p0.len() {
                        }
                    }
                    // The committed candidate now gains nothing.
                    assert forall|t: int| 0 <= t < c[ci as int].len() implies marked(marks@).contains(#[trigger] c[ci as int][t] as int) by {
                        assert(items_of(c[ci as int]).contains(c[ci as int][t] as int));
                    }
                    lemma_gain_zero(c[ci as int], w, marked(marks@));
                    assert forall|q: int|
                        0 <= q < picks.len() implies #[trigger] picks@[q] < cover.len() && gain(c[picks@[q] as int], w, marked(marks@)) == 0 by {
                        if q < pk0.len() {
                            assert(picks@[q] == pk0[q]);
                            lemma_gain_monotone(c[pk0[q] as int], w, cov0, marked(marks@));
                        }
                    }
                    assert forall|j: int|
                        0 <= j < cover.len() && gain(#[trigger] c[j], w, marked(marks@)) >= m1 implies queued(
                        buckets@,
                        j,
                        priority(gain(c[j], w, marked(marks@)), gain(c[j], w, pre), tie),
                        cur as int,
                    ) by {
                        lemma_gain_monotone(c[j], w, cov0, marked(marks@));
                        lemma_gain_monotone(c[j], w, Set::empty(), cov0);
                        lemma_gain_monotone(c[j], w, Set::empty(), pre);
                        let pr0 = priority(gain(c[j], w, cov0), gain(c[j], w, pre), tie);
                        let pr1 = priority(gain(c[j], w, marked(marks@)), gain(c[j], w, pre), tie);
                        lemma_priority_mono(gain(c[j], w, marked(marks@)), gain(c[j], w, cov0), gain(c[j], w, pre), tie);
                        assert(j != ci as int);
                        assert(queued(bk0, j, pr0, cur as int));
                        lemma_queued_pop(bk0, cur as int, buckets@[cur as int], j, pr0, cur as int);
                        lemma_queued_floor(buckets@, j, pr0, pr1, cur as int);
                    }
                    assert forall|b: int, t: int| 0 <= b < nb && 0 <= t < buckets@[b]@.len() implies (#[trigger] buckets@[b]@[t]) < cover.len() by {
                        if b != cur {
                            assert(buckets@[b] == bk0[b]);
                        } else {
                            assert(buckets@[b]@[t] == bk0[b]@[t]);
                        }
                    }
                    assert forall|b: int| cur < b < nb implies (#[trigger] buckets@[b])@.len() == 0 by {
                        assert(buckets@[b] == bk0[b]);
                    }
                }
            } else if g >= m1 {
                let ghost bk1 = buckets@;
                buckets[p].push(ci32);
                proof {
                    assert(buckets@ == bk1.update(p as int, buckets@[p as int]));
                    assert(buckets@[p as int]@ == bk1[p as int]@.push(ci32));
                    assert(s == gain(c[ci as int], w, pre));
                    assert forall|j: int|
                        0 <= j < cover.len() && gain(#[trigger] c[j], w, marked(marks@)) >= m1 implies queued(
                        buckets@,
                        j,
                        priority(gain(c[j], w, marked(marks@)), gain(c[j], w, pre), tie),
                        cur as int,
                    ) by {
                        lemma_gain_monotone(c[j], w, Set::empty(), cov0);
                        lemma_gain_monotone(c[j], w, Set::empty(), pre);
                        let pr = priority(gain(c[j], w, cov0), gain(c[j], w, pre), tie);
                        if j != ci as int {
                            lemma_queued_pop(bk0, cur as int, bk1[cur as int], j, pr, cur as int);
                            lemma_queued_push(bk1, p as int, buckets@[p as int], ci32, j, pr, cur as int);
                        } else {
                            let t = bk1[p as int]@.len() as int;
                            assert(buckets@[p as int]@[t] == ci32);
                            assert(queued(buckets@, j, p as int, cur as int));
                        }
                    }
                    assert forall|b: int, t: int| 0 <= b < nb && 0 <= t < buckets@[b]@.len() implies (#[trigger] buckets@[b]@[t]) < cover.len() by {
                        if b == p {
                            if t < bk1[b]@.len() {
                                assert(buckets@[b]@[t] == bk0[b]@[t]);
                            }
                        } else if b == cur {
                            assert(buckets@[b]@[t] == bk0[b]@[t]);
                        } else {
                            assert(buckets@[b] == bk0[b]);
                        }
                    }
                    assert forall|b: int| cur < b < nb implies (#[trigger] buckets@[b])@.len() == 0 by {
                        assert(buckets@[b] == bk0[b]);
                    }
                    assert(buckets@[cur as int] == bk1[cur as int]);
                }
            } else {
                proof {
                    assert forall|j: int|
                        0 <= j < cover.len() && gain(#[trigger] c[j], w, marked(marks@)) >= m1 implies queued(
                        buckets@,
                        j,
                        priority(gain(c[j], w, marked(marks@)), gain(c[j], w, pre), tie),
                        cur as int,
                    ) by {
                        lemma_gain_monotone(c[j], w, Set::empty(), cov0);
                        lemma_gain_monotone(c[j], w, Set::empty(), pre);
                        let pr = priority(gain(c[j], w, cov0), gain(c[j], w, pre), tie);
                        assert(j != ci as int);
                        lemma_queued_pop(bk0, cur as int, buckets@[cur as int], j, pr, cur as int);
                    }
                    assert forall|b: int, t: int| 0 <= b < nb && 0 <= t < buckets@[b]@.len() implies (#[trigger] buckets@[b]@[t]) < cover.len() by {
                        if b != cur {
                            assert(buckets@[b] == bk0[b]);
                        } else {
                            assert(buckets@[b]@[t] == bk0[b]@[t]);
                        }
                    }
                    assert forall|b: int| cur < b < nb implies (#[trigger] buckets@[b])@.len() == 0 by {
                        assert(buckets@[b] == bk0[b]);
                    }
                }
            }
        }
    }
    proof {
        assert forall|j: int| 0 <= j < cover.len() implies gain(#[trigger] c[j], w, marked(marks@)) < m1 by {
            if gain(c[j], w, marked(marks@)) >= m1 {
                lemma_gain_monotone(c[j], w, Set::empty(), pre);
                let pr = priority(gain(c[j], w, marked(marks@)), gain(c[j], w, pre), tie);
                lemma_priority_floor(gain(c[j], w, marked(marks@)), gain(c[j], w, pre), tie, m1 as int);
                assert(queued(buckets@, j, pr, cur as int));
                let (b, t) = choose|b: int, t: int| pr <= b <= cur && 0 <= t < buckets@[b]@.len() && #[trigger] buckets@[b]@[t] == j;
                assert(b == cur);
            }
        }
    }
    proof {
        lemma_distinct_bounded(picks@, cover.len() as int);
        if m <= 1 {
            let cov = cover_after(c, pre, as_ints(picks@), picks.len() as int);
            assert(cov == marked(marks@));
            lemma_no_gain_all_covered(c, n_points as nat, cov);
            assert forall|j: int, t: int| 0 <= j < cover.len() && 0 <= t < cover@[j]@.len() implies cov.contains(
                #[trigger] cover@[j]@[t] as int,
            ) by {
                assert(c[j] == cover@[j]@);
                assert(c[j][t] == cover@[j]@[t]);
            }
        }
    }
    picks
}

/// With no gain of one left, every point a candidate reaches is covered:
/// the greedy with a minimum gain of one leaves no reachable point
/// uncovered.
pub proof fn lemma_no_gain_all_covered(c: Seq<Seq<u32>>, n: nat, cov: Set<int>)
    requires
        items_in_range(c, n as int),
        forall|j: int| 0 <= j < c.len() ==> gain(#[trigger] c[j], ones(n), cov) < 1,
    ensures
        forall|j: int, t: int| 0 <= j < c.len() && 0 <= t < c[j].len() ==> cov.contains(#[trigger] c[j][t] as int),
{
    assert forall|j: int, t: int| 0 <= j < c.len() && 0 <= t < c[j].len() implies cov.contains(#[trigger] c[j][t] as int) by {
        assert(gain(c[j], ones(n), cov) < 1);
        assert forall|u: int| 0 <= u < c[j].len() implies (#[trigger] c[j][u]) < n by {
        }
        lemma_no_gain_list(c[j], n, cov);
    }
}

/// A list of points below `n` that gains nothing is all covered.
proof fn lemma_no_gain_list(l: Seq<u32>, n: nat, cov: Set<int>)
    requires
        forall|t: int| 0 <= t < l.len() ==> (#[trigger] l[t]) < n,
        gain(l, ones(n), cov) < 1,
    ensures
        forall|t: int| 0 <= t < l.len() ==> cov.contains(#[trigger] l[t] as int),
    decreases l.len(),
{
    if l.len() > 0 {
        let d = l.drop_last();
        lemma_gain_monotone(d, ones(n), cov, cov);
        assert(ones(n)[l.last() as int] == 1usize);
        assert(cov.contains(l.last() as int));
        assert forall|t: int| 0 <= t < d.len() implies (#[trigger] d[t]) < n by {
            assert(d[t] == l[t]);
        }
        lemma_no_gain_list(d, n, cov);
        assert forall|t: int| 0 <= t < l.len() implies cov.contains(#[trigger] l[t] as int) by {
            if t < l.len() - 1 {
                assert(l[t] == d[t]);
            }
        }
    }
}

/// The order in which a restart variant visits `n` candidates, the first
/// `points` of which are the input points: reversed for variant 1, rotated
/// to start after the points for variant 2, as given otherwise.
pub open spec fn visit_order(points: int, n: int, variant: u8) -> Seq<int> {
    let first = if points < n {
        points
    } else {
        n
    };
    Seq::new(
        n as nat,
        |i: int|
            if variant == 1 {
                n - 1 - i
            } else if variant == 2 {
                (i + first) % n
            } else {
                i
            },
    )
}

/// A restart variant visits every candidate exactly once: reversed for
/// variant 1, rotated to start after the points for variant 2, and in the
/// given order for every other variant.
pub proof fn lemma_visit_order(points: int, n: int, variant: u8)
    requires
        0 <= points,
        0 <= n,
    ensures
        visit_order(points, n, variant).len() == n,
        forall|i: int| 0 <= i < n ==> 0 <= #[trigger] visit_order(points, n, variant)[i] < n,
        visit_order(points, n, variant).no_duplicates(),
        variant == 1 ==> forall|i: int| 0 <= i < n ==> #[trigger] visit_order(points, n, variant)[i] == n - 1 - i,
        variant == 2 ==> forall|i: int|
            0 <= i < n ==> #[trigger] visit_order(points, n, variant)[i] == (if points < n { i + points } else { i + n }) % n,
        variant != 1 && variant != 2 ==> forall|i: int| 0 <= i < n ==> #[trigger] visit_order(points, n, variant)[i] == i,
{
    let vo = visit_order(points, n, variant);
    let first = if points < n { points } else { n };
    assert forall|i: int| 0 <= i < n implies 0 <= #[trigger] vo[i] < n && (variant == 2 ==> vo[i] == (if i + first < n {
        i + first
    } else {
        i + first - n
    })) by {
        if variant == 2 {
            let x = i + first;
            if x < n {
                assert(x % n == x) by (nonlinear_arith)
                    requires
                        0 <= x < n,
                ;
            } else {
                assert(x % n == x - n) by (nonlinear_arith)
                    requires
                        n <= x < 2 * n,
                ;
            }
        }
    }
    assert forall|a: int, b: int| 0 <= a < b < vo.len() implies vo[a] != vo[b] by {
        assert(0 <= vo[a] < n);
        assert(0 <= vo[b] < n);
    }
}

/// The candidate positions in the order a restart variant visits them.
pub fn candidate_order(points: usize, n: usize, variant: u8) -> (r: Vec<usize>)
    ensures
        as_ints(r@) == visit_order(points as int, n as int, variant),
        r.len() == n,
        forall|i: int| 0 <= i < n ==> #[trigger] r@[i] < n,
        r@.no_duplicates(),
        variant == 1 ==> forall|i: int| 0 <= i < n ==> #[trigger] r@[i] == n - 1 - i,
        variant == 2 ==> forall|i: int|
            0 <= i < n ==> #[trigger] r@[i] == (if points < n { i + points } else { i + n }) % (n as int),
        variant != 1 && variant != 2 ==> forall|i: int| 0 <= i < n ==> #[trigger] r@[i] == i,
{
    let first = if points < n {
        points
    } else {
        n
    };
    let mut r: Vec<usize> = Vec::new();
    let mut i: usize = 0;
    while i < n
        invariant
            i <= n,
            first <= n,
            first == (if points < n { points } else { n }),
            r.len() == i,
            forall|k: int| 0 <= k < i ==> (#[trigger] r@[k]) as int == visit_order(points as int, n as int, variant)[k],
        decreases n - i,
    {
        let v = if variant == 1 {
            n - 1 - i
        } else if variant == 2 {
            if i < n - first {
                i + first
            } else {
                i - (n - first)
            }
        } else {
            i
        };
        proof {
            if variant == 2 {
                let x = i + first;
                if x < n {
                    assert((x as int) % (n as int) == x) by (nonlinear_arith)
                        requires
                            0 <= x < n,
                    ;
                } else {
                    assert((x as int) % (n as int) == x - n) by (nonlinear_arith)
                        requires
                            n <= x < 2 * n,
                    ;
                }
            }
        }
        r.push(v);
        i = i + 1;
    }
    assert(as_ints(r@) =~= visit_order(points as int, n as int, variant));
    proof {
        let vo = visit_order(points as int, n as int, variant);
        lemma_visit_order(points as int, n as int, variant);
        assert forall|i: int| 0 <= i < n implies #[trigger] r@[i] as int == vo[i] by {
            assert(as_ints(r@)[i] == r@[i] as int);
        }
        assert forall|a: int, b: int| 0 <= a < b < r.len() implies r@[a] != r@[b] by {
            assert(r@[a] as int == vo[a]);
            assert(r@[b] as int == vo[b]);
        }
    }
    r
}

/// A pair of positions written smaller first.
pub open spec fn norm_pair(i: int, j: int) -> (int, int) {
    if i < j {
        (i, j)
    } else {
        (j, i)
    }
}

/// Whether `(a, b)` joins a point to one of its first `k` listed partners.
pub open spec fn pair_listed(nearest: Seq<Seq<u32>>, k: int, a: int, b: int) -> bool {
    exists|i: int, t: int|
        0 <= i < nearest.len() && 0 <= t < nearest[i].len() && t < k && #[trigger] norm_pair(i, nearest[i][t] as int) == (a, b)
}

/// Lexicographic order on pairs.
pub open spec fn pair_less(x: (u32, u32), y: (u32, u32)) -> bool {
    x.0 < y.0 || (x.0 == y.0 && x.1 < y.1)
}

/// Whether `(a, b)` joins a point below `i` to one of its first `k` partners.
pub open spec fn pair_listed_before(nearest: Seq<Seq<u32>>, k: int, i: int, a: int, b: int) -> bool {
    exists|i2: int, t: int|
        0 <= i2 < i && 0 <= t < nearest[i2].len() && t < k && #[trigger] norm_pair(i2, nearest[i2][t] as int) == (a, b)
}

/// The pairs joining each point to its first `k_cap` partners (partners
/// listed nearest first), each written smaller position first, in
/// increasing order and each once.
pub fn partner_pairs(nearest: &[Vec<u32>], k_cap: usize) -> (r: Vec<(u32, u32)>)
    requires
        nearest.len() <= u32::MAX,
        forall|i: int, t: int|
            0 <= i < nearest.len() && 0 <= t < nearest@[i]@.len() ==> (#[trigger] nearest@[i]@[t]) < nearest.len(),
    ensures
        forall|x: int, y: int| 0 <= x < y < r.len() ==> pair_less(#[trigger] r@[x], #[trigger] r@[y]),
        forall|a: u32, b: u32| r@.contains((a, b)) <==> pair_listed(lists(nearest@), k_cap as int, a as int, b as int),
{
    let n = nearest.len();
    let ghost ls = lists(nearest@);
    // Gather the partners of each position under the smaller end.
    let mut under: Vec<Vec<u32>> = Vec::new();
    while under.len() < n
        invariant
            under.len() <= n,
            forall|a: int| 0 <= a < under.len() ==> (#[trigger] under@[a])@.len() == 0,
        decreases n - under.len(),
    {
        under.push(Vec::new());
    }
    let mut i: usize = 0;
    while i < n
        invariant
            i <= n <= u32::MAX,
            n == nearest.len(),
            ls == lists(nearest@),
            under.len() == n,
            forall|i2: int, t: int|
                0 <= i2 < nearest.len() && 0 <= t < nearest@[i2]@.len() ==> (#[trigger] nearest@[i2]@[t]) < nearest.len(),
            forall|a: int, b: u32|
                0 <= a < n ==> (#[trigger] under@[a]@.contains(b) <==> pair_listed_before(ls, k_cap as int, i as int, a, b as int)),
        decreases n - i,
    {
        assert(ls[i as int] == nearest@[i as int]@);
        let row = &nearest[i];
        let lim = if k_cap < row.len() {
            k_cap
        } else {
            row.len()
        };
        let mut t: usize = 0;
        while t < lim
            invariant
                t <= lim <= row.len(),
                lim <= k_cap,
                i < n <= u32::MAX,
                n == nearest.len(),
                ls == lists(nearest@),
                ls[i as int] == row@,
                row == nearest@[i as int],
                under.len() == n,
                forall|i2: int, t2: int|
                    0 <= i2 < nearest.len() && 0 <= t2 < nearest@[i2]@.len() ==> (#[trigger] nearest@[i2]@[t2]) < nearest.len(),
                forall|a: int, b: u32|
                    0 <= a < n ==> (#[trigger] under@[a]@.contains(b) <==> (pair_listed_before(ls, k_cap as int, i as int, a, b as int)
                        || exists|t2: int| 0 <= t2 < t && #[trigger] norm_pair(i as int, ls[i as int][t2] as int) == (a, b as int))),
            decreases lim - t,
        {
            let j = row[t];
            assert(j < n);
            let ii = i as u32;
            let (a, b) = if ii < j {
                (ii, j)
            } else {
                (j, ii)
            };
            let ghost u0 = under@;
            under[a as usize].push(b);
            proof {
                assert(norm_pair(i as int, ls[i as int][t as int] as int) == (a as int, b as int));
                assert forall|a2: int, b2: u32| 0 <= a2 < n implies (#[trigger] under@[a2]@.contains(b2) <==> (pair_listed_before(ls, k_cap as int, i as int, a2, b2 as int)
                    || exists|t2: int| 0 <= t2 < t + 1 && #[trigger] norm_pair(i as int, ls[i as int][t2] as int) == (a2, b2 as int))) by {
                    if a2 == a as int {
                        assert(under@[a2]@ == u0[a2]@.push(b));
                        if under@[a2]@.contains(b2) && b2 != b {
                            let q = choose|q: int| 0 <= q < under@[a2]@.len() && under@[a2]@[q] == b2;
                            assert(u0[a2]@[q] == b2);
                            assert(u0[a2]@.contains(b2));
                        }
                        if u0[a2]@.contains(b2) {
                            let q = choose|q: int| 0 <= q < u0[a2]@.len() && u0[a2]@[q] == b2;
                            assert(under@[a2]@[q] == b2);
                        }
                        if b2 == b {
                            assert(under@[a2]@[u0[a2]@.len() as int] == b);
                        }
                    } else {
                        assert(under@[a2] == u0[a2]);
                    }
                }
            }
            t = t + 1;
        }
        proof {
            assert forall|a: int, b: u32| 0 <= a < n implies (#[trigger] under@[a]@.contains(b) <==> pair_listed_before(ls, k_cap as int, i as int + 1, a, b as int)) by {
                if pair_listed_before(ls, k_cap as int, i as int + 1, a, b as int) {
                    let (i2, t2) = choose|i2: int, t2: int|
                        0 <= i2 < i + 1 && 0 <= t2 < ls[i2].len() && t2 < k_cap && #[trigger] norm_pair(i2, ls[i2][t2] as int) == (a, b as int);
                    if i2 == i {
                        assert(t2 < lim);
                    } else {
                        assert(pair_listed_before(ls, k_cap as int, i as int, a, b as int));
                    }
                }
                if exists|t2: int| 0 <= t2 < t && #[trigger] norm_pair(i as int, ls[i as int][t2] as int) == (a, b as int) {
                    let t2 = choose|t2: int| 0 <= t2 < t && #[trigger] norm_pair(i as int, ls[i as int][t2] as int) == (a, b as int);
                    assert(norm_pair(i as int, ls[i as int][t2] as int) == (a, b as int));
                }
                if pair_listed_before(ls, k_cap as int, i as int, a, b as int) {
                    let (i2, t2) = choose|i2: int, t2: int|
                        0 <= i2 < i && 0 <= t2 < ls[i2].len() && t2 < k_cap && #[trigger] norm_pair(i2, ls[i2][t2] as int) == (a, b as int);
                    assert(norm_pair(i2, ls[i2][t2] as int) == (a, b as int));
                }
            }
        }
        i = i + 1;
    }
    // Emit each gathered list in increasing order under its smaller end.
    let mut out: Vec<(u32, u32)> = Vec::new();
    let mut a: usize = 0;
    while a < n
        invariant
            a <= n <= u32::MAX,
            under.len() == n,
            forall|a2: int, b: u32|
                0 <= a2 < n ==> (#[trigger] under@[a2]@.contains(b) <==> pair_listed_before(ls, k_cap as int, n as int, a2, b as int)),
            forall|x: int, y: int| 0 <= x < y < out.len() ==> pair_less(#[trigger] out@[x], #[trigger] out@[y]),
            forall|x: int| 0 <= x < out.len() ==> ((#[trigger] out@[x]).0 as int) < a,
            forall|a2: u32, b: u32| out@.contains((a2, b)) <==> (a2 < a && pair_listed_before(ls, k_cap as int, n as int, a2 as int, b as int)),
        decreases n - a,
    {
        let row = sorted_distinct(&under[a]);
        let mut q: usize = 0;
        let ghost o0 = out@;
        while q < row.len()
            invariant
                q <= row.len(),
                a < n <= u32::MAX,
                forall|x: int, y: int| 0 <= x < y < row.len() ==> row@[x] < row@[y],
                forall|x: int, y: int| 0 <= x < y < out.len() ==> pair_less(#[trigger] out@[x], #[trigger] out@[y]),
                forall|x: int| 0 <= x < o0.len() ==> ((#[trigger] o0[x]).0 as int) < a,
                out@.len() == o0.len() + q,
                forall|x: int| 0 <= x < o0.len() ==> #[trigger] out@[x] == o0[x],
                forall|x: int| o0.len() <= x < out.len() ==> #[trigger] out@[x] == (a as u32, row@[x - o0.len()]),
            decreases row.len() - q,
        {
            let ghost ob = out@;
            out.push((a as u32, row[q]));
            proof {
                assert forall|x: int, y: int| 0 <= x < y < out.len() implies pair_less(#[trigger] out@[x], #[trigger] out@[y]) by {
                    if y < ob.len() {
                        assert(out@[x] == ob[x] && out@[y] == ob[y]);
                    } else {
                        assert(out@[x] == ob[x]);
                        if x < o0.len() {
                            assert(o0[x].0 < a);
                        } else {
                            assert(ob[x] == (a as u32, row@[x - o0.len()]));
                        }
                    }
                }
            }
            q = q + 1;
        }
        proof {
            assert forall|x: int| 0 <= x < out.len() implies ((#[trigger] out@[x]).0 as int) < a + 1 by {
                if x < o0.len() {
                    assert(out@[x] == o0[x]);
                } else {
                    assert(out@[x] == (a as u32, row@[x - o0.len()]));
                }
            }
            assert forall|a2: u32, b: u32| out@.contains((a2, b)) <==> (a2 < a + 1 && pair_listed_before(ls, k_cap as int, n as int, a2 as int, b as int)) by {
                if out@.contains((a2, b)) {
                    let x = choose|x: int| 0 <= x < out@.len() && out@[x] == (a2, b);
                    if x < o0.len() {
                        assert(o0[x] == (a2, b));
                        assert(o0.contains((a2, b)));
                    } else {
                        assert(out@[x] == (a as u32, row@[x - o0.len()]));
                        assert(row@.contains(b));
                        assert(under@[a as int]@.contains(b));
                    }
                }
                if a2 < a + 1 && pair_listed_before(ls, k_cap as int, n as int, a2 as int, b as int) {
                    if a2 < a {
                        assert(o0.contains((a2, b)));
                        let x = choose|x: int| 0 <= x < o0.len() && o0[x] == (a2, b);
                        assert(out@[x] == (a2, b));
                    } else {
                        assert(under@[a as int]@.contains(b));
                        assert(row@.contains(b));
                        let y = choose|y: int| 0 <= y < row@.len() && row@[y] == b;
                        assert(out@[o0.len() + y] == (a as u32, row@[o0.len() + y - o0.len()]));
                    }
                }
            }
        }
        a = a + 1;
    }
    proof {
        assert forall|a2: u32, b: u32| out@.contains((a2, b)) <==> pair_listed(ls, k_cap as int, a2 as int, b as int) by {
            if pair_listed(ls, k_cap as int, a2 as int, b as int) {
                let (i2, t2) = choose|i2: int, t2: int|
                    0 <= i2 < ls.len() && 0 <= t2 < ls[i2].len() && t2 < k_cap && #[trigger] norm_pair(i2, ls[i2][t2] as int) == (a2 as int, b as int);
                assert(ls[i2][t2] == nearest@[i2]@[t2]);
                assert(a2 < n);
                assert(pair_listed_before(ls, k_cap as int, n as int, a2 as int, b as int));
            }
            if pair_listed_before(ls, k_cap as int, n as int, a2 as int, b as int) {
                let (i2, t2) = choose|i2: int, t2: int|
                    0 <= i2 < n && 0 <= t2 < ls[i2].len() && t2 < k_cap && #[trigger] norm_pair(i2, ls[i2][t2] as int) == (a2 as int, b as int);
                assert(norm_pair(i2, ls[i2][t2] as int) == (a2 as int, b as int));
            }
        }
    }
    out
}

} // verus!
