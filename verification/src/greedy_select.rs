//! The round-based greedy of the classic clusterer. Candidate clusters,
//! bucketed by how many points they hold, are taken from the largest bucket
//! down: in each round every candidate still holding at least `current`
//! unclaimed points is ranked by (unclaimed points, all points), and each in
//! turn claims its points unless another cluster claimed one of them first.

use vstd::prelude::*;
use crate::select::{sorted_distinct, lists};

verus! {

/// How many entries of `all` are not in `s` (an entry listed twice counts
/// twice).
pub open spec fn open_count(all: Seq<u32>, s: Set<u32>) -> nat
    decreases all.len(),
{
    if all.len() == 0 {
        0
    } else {
        open_count(all.drop_last(), s) + if s.contains(all.last()) {
            0nat
        } else {
            1nat
        }
    }
}

/// The distinct points of `all` outside `s`.
pub open spec fn fresh(all: Seq<u32>, s: Set<u32>) -> Set<u32> {
    all.to_set().difference(s)
}

/// The candidates among `ids` holding at least `th` entries outside `s`.
pub open spec fn admitted(ids: Seq<usize>, all: Seq<Seq<u32>>, s: Set<u32>, th: int) -> Seq<usize>
    decreases ids.len(),
{
    if ids.len() == 0 {
        Seq::empty()
    } else {
        let rest = admitted(ids.drop_last(), all, s, th);
        if open_count(all[ids.last() as int], s) >= th {
            rest.push(ids.last())
        } else {
            rest
        }
    }
}

/// The admitted candidates of buckets `lo..hi`, bucket by bucket.
pub open spec fn candidates(bk: Seq<Seq<usize>>, all: Seq<Seq<u32>>, s: Set<u32>, th: int, lo: int, hi: int) -> Seq<usize>
    decreases hi - lo,
{
    if hi <= lo {
        Seq::empty()
    } else {
        candidates(bk, all, s, th, lo, hi - 1) + admitted(bk[hi - 1], all, s, th)
    }
}

/// The ranking key of a candidate: its fresh points, then all its entries.
pub open spec fn rank_key(all: Seq<Seq<u32>>, s: Set<u32>, id: usize) -> (int, int) {
    (fresh(all[id as int], s).len() as int, all[id as int].len() as int)
}

/// Whether key `a` ranks strictly ahead of key `b`.
pub open spec fn ahead(a: (int, int), b: (int, int)) -> bool {
    a.0 > b.0 || (a.0 == b.0 && a.1 > b.1)
}

/// Inserts position `x` into the ranked positions `ord` of `c`, after every
/// position not ranked strictly behind it.
pub open spec fn insert_ranked(
    ord: Seq<int>,
    x: int,
    c: Seq<usize>,
    all: Seq<Seq<u32>>,
    s: Set<u32>,
) -> Seq<int>
    decreases ord.len(),
{
    if ord.len() == 0 {
        seq![x]
    } else if ahead(rank_key(all, s, c[x]), rank_key(all, s, c[ord[0]])) {
        seq![x] + ord
    } else {
        seq![ord[0]] + insert_ranked(ord.drop_first(), x, c, all, s)
    }
}

/// The positions `0..k` of `c` ranked by key, ties in position order (a
/// stable sort).
pub open spec fn ranked(c: Seq<usize>, all: Seq<Seq<u32>>, s: Set<u32>, k: int) -> Seq<int>
    decreases k,
{
    if k <= 0 {
        Seq::empty()
    } else {
        insert_ranked(ranked(c, all, s, k - 1), k - 1, c, all, s)
    }
}

/// The claimed points and chosen clusters after the first `k` ranked
/// candidates of a round that started with claims `s0`: a candidate is
/// chosen while fewer than `cap` are, when it has at least `th` points fresh
/// at the round's start and none of them is claimed yet.
pub open spec fn round_state(
    ord: Seq<int>,
    c: Seq<usize>,
    all: Seq<Seq<u32>>,
    s0: Set<u32>,
    chosen0: Seq<usize>,
    cap: int,
    th: int,
    k: int,
) -> (Set<u32>, Seq<usize>)
    decreases k,
{
    if k <= 0 {
        (s0, chosen0)
    } else {
        let (s, chosen) = round_state(ord, c, all, s0, chosen0, cap, th, k - 1);
        let id = c[ord[k - 1]];
        let u = fresh(all[id as int], s0);
        if chosen.len() < cap && u.len() >= th && u.disjoint(s) {
            (s.union(u), chosen.push(id))
        } else {
            (s, chosen)
        }
    }
}

/// The clusters chosen from round `cur` down to round `m`, starting from
/// claims `s` and choices `chosen`.
pub open spec fn greedy_from(
    bk: Seq<Seq<usize>>,
    all: Seq<Seq<u32>>,
    m: int,
    cap: int,
    cur: int,
    s: Set<u32>,
    chosen: Seq<usize>,
) -> Seq<usize>
    decreases cur + 1 - m,
{
    if cur < m || chosen.len() >= cap {
        chosen
    } else {
        let c = candidates(bk, all, s, cur, cur, bk.len() as int);
        let ord = ranked(c, all, s, c.len() as int);
        let st = round_state(ord, c, all, s, chosen, cap, cur, ord.len() as int);
        greedy_from(bk, all, m, cap, cur - 1, st.0, st.1)
    }
}

/// The clusters the greedy chooses from the buckets `bk`, in order: nothing
/// when there are no more buckets than `m`; else rounds from the top bucket
/// index down to `m`.
pub open spec fn greedy_choice(bk: Seq<Seq<usize>>, all: Seq<Seq<u32>>, m: int, cap: int) -> Seq<usize> {
    if bk.len() <= m {
        Seq::empty()
    } else {
        greedy_from(bk, all, m, cap, bk.len() - 1, Set::empty(), Seq::empty())
    }
}

/// The points a claim table marks.
pub open spec fn claimed(b: Seq<bool>) -> Set<u32> {
    Set::new(|x: u32| (x as int) < b.len() && b[x as int])
}

/// How many entries of `all` are unclaimed.
fn count_open(all: &Vec<u32>, blocked: &Vec<bool>) -> (r: usize)
    requires
        forall|t: int| 0 <= t < all@.len() ==> (#[trigger] all@[t]) < blocked.len(),
    ensures
        r == open_count(all@, claimed(blocked@)),
{
    let ghost s = claimed(blocked@);
    let mut r: usize = 0;
    let mut t: usize = 0;
    while t < all.len()
        invariant
            t <= all.len(),
            s == claimed(blocked@),
            forall|t2: int| 0 <= t2 < all@.len() ==> (#[trigger] all@[t2]) < blocked.len(),
            r == open_count(all@.take(t as int), s),
            r <= t,
        decreases all.len() - t,
    {
        let x = all[t];
        proof {
            assert(all@.take(t as int + 1).drop_last() =~= all@.take(t as int));
            assert(all@.take(t as int + 1).last() == x);
            assert(s.contains(x) <==> blocked@[x as int]);
        }
        if !blocked[x as usize] {
            r = r + 1;
        }
        t = t + 1;
    }
    assert(all@.take(all.len() as int) =~= all@);
    r
}

/// A sequence without repeats has as many distinct entries as entries.
proof fn lemma_distinct_len(v: Seq<u32>)
    requires
        v.no_duplicates(),
    ensures
        v.to_set().len() == v.len(),
{
    v.unique_seq_to_set();
}

/// The unclaimed points of `all`, in increasing order, each once.
fn fresh_list(all: &Vec<u32>, blocked: &Vec<bool>) -> (r: Vec<u32>)
    requires
        forall|t: int| 0 <= t < all@.len() ==> (#[trigger] all@[t]) < blocked.len(),
    ensures
        forall|a: int, b: int| 0 <= a < b < r.len() ==> r@[a] < r@[b],
        r@.to_set() == fresh(all@, claimed(blocked@)),
        r.len() == fresh(all@, claimed(blocked@)).len(),
{
    let d = sorted_distinct(all);
    let mut out: Vec<u32> = Vec::new();
    let mut t: usize = 0;
    while t < d.len()
        invariant
            t <= d.len(),
            forall|a: int, b: int| 0 <= a < b < d.len() ==> d@[a] < d@[b],
            forall|x: u32| d@.contains(x) <==> all@.contains(x),
            forall|t2: int| 0 <= t2 < all@.len() ==> (#[trigger] all@[t2]) < blocked.len(),
            forall|a: int, b: int| 0 <= a < b < out.len() ==> out@[a] < out@[b],
            forall|a: int| #![trigger out@[a]] 0 <= a < out.len() ==> exists|b: int| 0 <= b < t && #[trigger] d@[b] == out@[a],
            forall|x: u32| out@.contains(x) <==> (d@.take(t as int).contains(x) && !claimed(blocked@).contains(x)),
        decreases d.len() - t,
    {
        let x = d[t];
        proof {
            if d@.contains(x) {
            }
            assert(all@.contains(x));
            let q = choose|q: int| 0 <= q < all@.len() && all@[q] == x;
            assert(x < blocked.len());
        }
        let ghost ob = out@;
        if !blocked[x as usize] {
            let ghost o0 = out@;
            out.push(x);
            proof {
                assert forall|a: int, b: int| 0 <= a < b < out.len() implies out@[a] < out@[b] by {
                    if b == o0.len() {
                        let b2 = choose|b2: int| 0 <= b2 < t && #[trigger] d@[b2] == o0[a];
                        assert(d@[b2] < d@[t as int]);
                    } else {
                        assert(out@[a] == o0[a] && out@[b] == o0[b]);
                    }
                }
                assert forall|a: int| #![trigger out@[a]] 0 <= a < out.len() implies exists|b: int| 0 <= b < t + 1 && #[trigger] d@[b] == out@[a] by {
                    if a < o0.len() {
                        let b2 = choose|b2: int| 0 <= b2 < t && #[trigger] d@[b2] == o0[a];
                        assert(d@[b2] == out@[a]);
                    } else {
                        assert(d@[t as int] == out@[a]);
                    }
                }
            }
        }
        proof {
            let ta = d@.take(t as int);
            let tb = d@.take(t as int + 1);
            assert(tb[t as int] == x);
            assert(claimed(blocked@).contains(x) <==> blocked@[x as int]);
            assert forall|y: u32| out@.contains(y) <==> (tb.contains(y) && !claimed(blocked@).contains(y)) by {
                assert(ob.contains(y) <==> (ta.contains(y) && !claimed(blocked@).contains(y)));
                if !blocked@[x as int] {
                    assert(out@ == ob.push(x));
                    if out@.contains(y) && y != x {
                        let q = choose|q: int| 0 <= q < out@.len() && out@[q] == y;
                        assert(ob[q] == y);
                    }
                    if ob.contains(y) {
                        let q = choose|q: int| 0 <= q < ob.len() && ob[q] == y;
                        assert(out@[q] == y);
                    }
                    if y == x {
                        assert(out@[ob.len() as int] == x);
                    }
                } else {
                    assert(out@ == ob);
                }
                if tb.contains(y) {
                    let q = choose|q: int| 0 <= q < tb.len() && tb[q] == y;
                    if q < t {
                        assert(ta[q] == y);
                    }
                }
                if ta.contains(y) {
                    let q = choose|q: int| 0 <= q < ta.len() && ta[q] == y;
                    assert(tb[q] == y);
                }
            }
        }
        t = t + 1;
    }
    proof {
        assert(d@.take(d.len() as int) =~= d@);
        assert(out@.to_set() =~= fresh(all@, claimed(blocked@))) by {
            assert forall|x: u32| out@.to_set().contains(x) <==> fresh(all@, claimed(blocked@)).contains(x) by {
                assert(all@.to_set().contains(x) <==> all@.contains(x));
            }
        }
        assert(out@.no_duplicates()) by {
            assert forall|a: int, b: int| 0 <= a < out.len() && 0 <= b < out.len() && a != b implies out@[a] != out@[b] by {
                if a < b {
                    assert(out@[a] < out@[b]);
                } else {
                    assert(out@[b] < out@[a]);
                }
            }
        }
        lemma_distinct_len(out@);
    }
    out
}

/// Inserting at the first position ranked strictly behind `x` is what
/// `insert_ranked` does.
proof fn lemma_insert_ranked_at(ord: Seq<int>, x: int, c: Seq<usize>, all: Seq<Seq<u32>>, s: Set<u32>, pos: int)
    requires
        0 <= pos <= ord.len(),
        forall|i: int| 0 <= i < pos ==> !ahead(rank_key(all, s, c[x]), rank_key(all, s, c[#[trigger] ord[i]])),
        pos == ord.len() || ahead(rank_key(all, s, c[x]), rank_key(all, s, c[ord[pos]])),
    ensures
        insert_ranked(ord, x, c, all, s) == ord.take(pos) + seq![x] + ord.skip(pos),
    decreases ord.len(),
{
    if ord.len() == 0 {
        assert(ord.take(pos) + seq![x] + ord.skip(pos) =~= seq![x]);
    } else if pos == 0 {
        assert(ord.take(pos) + seq![x] + ord.skip(pos) =~= seq![x] + ord);
    } else {
        let rest = ord.drop_first();
        assert(!ahead(rank_key(all, s, c[x]), rank_key(all, s, c[ord[0]])));
        assert forall|i: int| 0 <= i < pos - 1 implies !ahead(rank_key(all, s, c[x]), rank_key(all, s, c[#[trigger] rest[i]])) by {
            assert(rest[i] == ord[i + 1]);
        }
        if pos < ord.len() {
            assert(rest[pos - 1] == ord[pos]);
        }
        lemma_insert_ranked_at(rest, x, c, all, s, pos - 1);
        assert(seq![ord[0]] + (rest.take(pos - 1) + seq![x] + rest.skip(pos - 1)) =~= ord.take(pos) + seq![x] + ord.skip(pos));
    }
}

/// Once `cap` clusters are chosen, the rest of a round changes nothing.
proof fn lemma_round_capped(
    ord: Seq<int>,
    c: Seq<usize>,
    all: Seq<Seq<u32>>,
    s0: Set<u32>,
    chosen0: Seq<usize>,
    cap: int,
    th: int,
    q: int,
    k: int,
)
    requires
        0 <= q <= k,
        round_state(ord, c, all, s0, chosen0, cap, th, q).1.len() >= cap,
    ensures
        round_state(ord, c, all, s0, chosen0, cap, th, k) == round_state(ord, c, all, s0, chosen0, cap, th, q),
    decreases k - q,
{
    if k > q {
        lemma_round_capped(ord, c, all, s0, chosen0, cap, th, q, k - 1);
    }
}

/// Whether no point of `list` is claimed.
fn none_claimed(list: &Vec<u32>, blocked: &Vec<bool>) -> (r: bool)
    requires
        forall|t: int| 0 <= t < list@.len() ==> (#[trigger] list@[t]) < blocked.len(),
    ensures
        r == list@.to_set().disjoint(claimed(blocked@)),
{
    let mut t: usize = 0;
    while t < list.len()
        invariant
            t <= list.len(),
            forall|t2: int| 0 <= t2 < list@.len() ==> (#[trigger] list@[t2]) < blocked.len(),
            forall|t2: int| 0 <= t2 < t ==> !claimed(blocked@).contains(#[trigger] list@[t2]),
        decreases list.len() - t,
    {
        if blocked[list[t] as usize] {
            proof {
                assert(list@.to_set().contains(list@[t as int]));
                assert(claimed(blocked@).contains(list@[t as int]));
            }
            return false;
        }
        t = t + 1;
    }
    proof {
        assert forall|x: u32| list@.to_set().contains(x) implies !claimed(blocked@).contains(x) by {
            let q = choose|q: int| 0 <= q < list@.len() && list@[q] == x;
            assert(!claimed(blocked@).contains(list@[q]));
        }
    }
    true
}

/// Claims every point of `list`.
fn claim_all(blocked: &mut Vec<bool>, list: &Vec<u32>)
    requires
        forall|t: int| 0 <= t < list@.len() ==> (#[trigger] list@[t]) < old(blocked).len(),
    ensures
        final(blocked).len() == old(blocked).len(),
        claimed(final(blocked)@) == claimed(old(blocked)@).union(list@.to_set()),
{
    let ghost b0 = claimed(blocked@);
    let mut t: usize = 0;
    while t < list.len()
        invariant
            t <= list.len(),
            blocked.len() == old(blocked).len(),
            b0 == claimed(old(blocked)@),
            forall|t2: int| 0 <= t2 < list@.len() ==> (#[trigger] list@[t2]) < blocked.len(),
            claimed(blocked@) == b0.union(list@.take(t as int).to_set()),
        decreases list.len() - t,
    {
        let x = list[t];
        let ghost before = blocked@;
        blocked.set(x as usize, true);
        proof {
            let ta = list@.take(t as int);
            let tb = list@.take(t as int + 1);
            assert(tb =~= ta.push(x));
            assert forall|y: u32| claimed(blocked@).contains(y) <==> b0.union(tb.to_set()).contains(y) by {
                assert(claimed(before).contains(y) <==> b0.union(ta.to_set()).contains(y));
                if tb.to_set().contains(y) {
                    let q = choose|q: int| 0 <= q < tb.len() && tb[q] == y;
                    if q < t {
                        assert(ta[q] == y);
                        assert(ta.to_set().contains(y));
                    }
                }
                if ta.to_set().contains(y) {
                    let q = choose|q: int| 0 <= q < ta.len() && ta[q] == y;
                    assert(tb[q] == y);
                    assert(tb.to_set().contains(y));
                }
                if y == x {
                    assert(tb[t as int] == x);
                    assert(tb.to_set().contains(y));
                }
            }
            assert(claimed(blocked@) =~= b0.union(tb.to_set()));
        }
        t = t + 1;
    }
    assert(list@.take(list.len() as int) =~= list@);
}

/// The buckets' candidate lists as sequences.
pub open spec fn bucket_lists(b: Seq<Vec<usize>>) -> Seq<Seq<usize>> {
    b.map_values(|v: Vec<usize>| v@)
}

/// Whether every fresh list of a round's candidates names exactly the
/// candidate's fresh points.
pub open spec fn fresh_lists_ok(fr: Seq<Vec<u32>>, c: Seq<usize>, all: Seq<Seq<u32>>, s: Set<u32>) -> bool {
    &&& fr.len() == c.len()
    &&& forall|p: int|
        0 <= p < c.len() ==> (#[trigger] fr[p])@.to_set() == fresh(all[c[p] as int], s) && fr[p]@.len() == fresh(
            all[c[p] as int],
            s,
        ).len()
}

/// The greedy cluster selection: buckets of candidate clusters (given by the
/// points each holds, point ids below `n`) are taken in rounds from the top
/// bucket index down to `min_points`; in each round the candidates of that
/// bucket and above that still hold at least the round's number of
/// unclaimed entries are ranked by (unclaimed distinct points, all entries),
/// ties in bucket order, and each, while fewer than `max_clusters` are
/// chosen, claims its unclaimed points when it has at least the round's
/// number of them and none was claimed earlier in the round. Returns the
/// chosen clusters in the order they were chosen.
pub fn greedy_cluster(
    all: &[Vec<u32>],
    buckets: &[Vec<usize>],
    n: usize,
    min_points: usize,
    max_clusters: usize,
) -> (r: Vec<usize>)
    requires
        min_points >= 1,
        forall|i: int, t: int| 0 <= i < all.len() && 0 <= t < all@[i]@.len() ==> (#[trigger] all@[i]@[t]) < n,
        forall|b: int, q: int|
            0 <= b < buckets.len() && 0 <= q < buckets@[b]@.len() ==> (#[trigger] buckets@[b]@[q]) < all.len(),
    ensures
        r@ == greedy_choice(bucket_lists(buckets@), lists(all@), min_points as int, max_clusters as int),
        r.len() <= max_clusters,
        buckets.len() <= min_points ==> r.len() == 0,
        exists|own: Seq<Set<u32>>, s: Set<u32>| #[trigger] claims_ok(lists(all@), r@, own, min_points as int, s),
{
    let ghost bk = bucket_lists(buckets@);
    let ghost al = lists(all@);
    let m = min_points;
    proof {
        lemma_greedy_choice_claims(bk, al, m as int, max_clusters as int);
    }
    if buckets.len() <= m {
        return Vec::new();
    }
    let mut blocked: Vec<bool> = Vec::new();
    while blocked.len() < n
        invariant
            blocked.len() <= n,
            forall|x: int| 0 <= x < blocked.len() ==> !(#[trigger] blocked@[x]),
        decreases n - blocked.len(),
    {
        blocked.push(false);
    }
    assert(claimed(blocked@) =~= Set::<u32>::empty());
    let mut chosen: Vec<usize> = Vec::new();
    let mut cur: usize = buckets.len() - 1;
    while cur >= m && chosen.len() < max_clusters
        invariant
            m >= 1,
            m == min_points,
            blocked.len() == n,
            cur < buckets.len(),
            bk == bucket_lists(buckets@),
            al == lists(all@),
            forall|i: int, t: int| 0 <= i < all.len() && 0 <= t < all@[i]@.len() ==> (#[trigger] all@[i]@[t]) < n,
            forall|b: int, q: int|
                0 <= b < buckets.len() && 0 <= q < buckets@[b]@.len() ==> (#[trigger] buckets@[b]@[q]) < all.len(),
            greedy_from(bk, al, m as int, max_clusters as int, cur as int, claimed(blocked@), chosen@) == greedy_choice(
                bk,
                al,
                m as int,
                max_clusters as int,
            ),
        decreases cur,
    {
        let ghost s0 = claimed(blocked@);
        let ghost ch0 = chosen@;
        // The round's candidates, bucket by bucket.
        let mut c: Vec<usize> = Vec::new();
        let mut fr: Vec<Vec<u32>> = Vec::new();
        let mut b: usize = cur;
        while b < buckets.len()
            invariant
                cur <= b <= buckets.len(),
                s0 == claimed(blocked@),
                blocked.len() == n,
                bk == bucket_lists(buckets@),
                al == lists(all@),
                forall|i: int, t: int| 0 <= i < all.len() && 0 <= t < all@[i]@.len() ==> (#[trigger] all@[i]@[t]) < n,
                forall|b2: int, q: int|
                    0 <= b2 < buckets.len() && 0 <= q < buckets@[b2]@.len() ==> (#[trigger] buckets@[b2]@[q]) < all.len(),
                c@ == candidates(bk, al, s0, cur as int, cur as int, b as int),
                fresh_lists_ok(fr@, c@, al, s0),
                forall|p: int| 0 <= p < c.len() ==> (#[trigger] c@[p]) < all.len(),
            decreases buckets.len() - b,
        {
            let bucket = &buckets[b];
            assert(bk[b as int] == bucket@);
            let mut q: usize = 0;
            while q < bucket.len()
                invariant
                    q <= bucket.len(),
                    cur <= b < buckets.len(),
                    bucket@ == bk[b as int],
                    s0 == claimed(blocked@),
                    blocked.len() == n,
                    bk == bucket_lists(buckets@),
                    al == lists(all@),
                    forall|i: int, t: int| 0 <= i < all.len() && 0 <= t < all@[i]@.len() ==> (#[trigger] all@[i]@[t]) < n,
                    forall|q2: int| 0 <= q2 < bucket@.len() ==> (#[trigger] bucket@[q2]) < all.len(),
                    c@ == candidates(bk, al, s0, cur as int, cur as int, b as int) + admitted(bk[b as int].take(q as int), al, s0, cur as int),
                    fresh_lists_ok(fr@, c@, al, s0),
                    forall|p: int| 0 <= p < c.len() ==> (#[trigger] c@[p]) < all.len(),
                decreases bucket.len() - q,
            {
                let id = bucket[q];
                proof {
                    assert(al[id as int] == all@[id as int]@);
                    assert forall|t: int| 0 <= t < all@[id as int]@.len() implies (#[trigger] all@[id as int]@[t]) < blocked.len() by {
                        assert(all@[id as int]@[t] < n);
                    }
                    let tb = bk[b as int].take(q as int + 1);
                    assert(tb.drop_last() =~= bk[b as int].take(q as int));
                    assert(tb.last() == id);
                }
                let cnt = count_open(&all[id], &blocked);
                if cnt >= cur {
                    let f = fresh_list(&all[id], &blocked);
                    let ghost c0 = c@;
                    let ghost fr0 = fr@;
                    c.push(id);
                    fr.push(f);
                    proof {
                        assert(c@ =~= c0.push(id));
                        assert forall|p: int| 0 <= p < c@.len() implies (#[trigger] fr@[p])@.to_set() == fresh(al[c@[p] as int], s0)
                            && fr@[p]@.len() == fresh(al[c@[p] as int], s0).len() by {
                            if p < c0.len() {
                                assert(fr@[p] == fr0[p]);
                                assert(c@[p] == c0[p]);
                            }
                        }
                        assert forall|p: int| 0 <= p < c.len() implies (#[trigger] c@[p]) < all.len() by {
                            if p < c0.len() {
                                assert(c@[p] == c0[p]);
                            }
                        }
                    }
                }
                q = q + 1;
            }
            proof {
                assert(bk[b as int].take(bucket.len() as int) =~= bk[b as int]);
            }
            b = b + 1;
        }
        // Rank the candidates.
        let mut ord: Vec<usize> = Vec::new();
        let mut k: usize = 0;
        while k < c.len()
            invariant
                k <= c.len(),
                fresh_lists_ok(fr@, c@, al, s0),
                al == lists(all@),
                forall|p: int| 0 <= p < c.len() ==> (#[trigger] c@[p]) < all.len(),
                ord@.map_values(|x: usize| x as int) == ranked(c@, al, s0, k as int),
                forall|t: int| 0 <= t < ord.len() ==> (#[trigger] ord@[t]) < k,
                ord.len() == k,
            decreases c.len() - k,
        {
            let ku = fr[k].len();
            let kl = all[c[k]].len();
            proof {
                assert(al[c@[k as int] as int] == all@[c@[k as int] as int]@);
            }
            let ghost oi = ord@.map_values(|x: usize| x as int);
            let mut pos: usize = 0;
            while pos < ord.len() && !(ku > fr[ord[pos]].len() || (ku == fr[ord[pos]].len() && kl > all[c[ord[pos]]].len()))
                invariant
                    pos <= ord.len(),
                    ord.len() == k,
                    k < c.len(),
                    fresh_lists_ok(fr@, c@, al, s0),
                    al == lists(all@),
                    forall|p: int| 0 <= p < c.len() ==> (#[trigger] c@[p]) < all.len(),
                    forall|t: int| 0 <= t < ord.len() ==> (#[trigger] ord@[t]) < k,
                    oi == ord@.map_values(|x: usize| x as int),
                    ku == fresh(al[c@[k as int] as int], s0).len(),
                    kl == al[c@[k as int] as int].len(),
                    forall|i: int| 0 <= i < pos ==> !ahead(rank_key(al, s0, c@[k as int]), rank_key(al, s0, c@[#[trigger] oi[i]])),
                decreases ord.len() - pos,
            {
                proof {
                    let o = ord@[pos as int];
                    assert(oi[pos as int] == o as int);
                    assert(al[c@[o as int] as int] == all@[c@[o as int] as int]@);
                }
                pos = pos + 1;
            }
            proof {
                if pos < ord.len() {
                    let o = ord@[pos as int];
                    assert(oi[pos as int] == o as int);
                    assert(al[c@[o as int] as int] == all@[c@[o as int] as int]@);
                }
                lemma_insert_ranked_at(oi, k as int, c@, al, s0, pos as int);
            }
            ord.insert(pos, k);
            proof {
                assert(ord@.map_values(|x: usize| x as int) =~= oi.take(pos as int) + seq![k as int] + oi.skip(pos as int));
                assert forall|t: int| 0 <= t < ord.len() implies (#[trigger] ord@[t]) < k + 1 by {
                    if t < pos {
                        assert(ord@[t] == oi[t]);
                    } else if t > pos {
                        assert(ord@[t] as int == oi[t - 1]);
                    }
                }
            }
            k = k + 1;
        }
        let ghost ordi = ord@.map_values(|x: usize| x as int);
        // Claim in rank order.
        let mut q: usize = 0;
        let mut capped = false;
        while q < ord.len() && !capped
            invariant
                q <= ord.len(),
                ord.len() == c.len(),
                ordi == ord@.map_values(|x: usize| x as int),
                ordi == ranked(c@, al, s0, c.len() as int),
                forall|t: int| 0 <= t < ord.len() ==> (#[trigger] ord@[t]) < c.len(),
                fresh_lists_ok(fr@, c@, al, s0),
                al == lists(all@),
                blocked.len() == n,
                forall|i: int, t: int| 0 <= i < all.len() && 0 <= t < all@[i]@.len() ==> (#[trigger] all@[i]@[t]) < n,
                forall|p: int| 0 <= p < c.len() ==> (#[trigger] c@[p]) < all.len(),
                (claimed(blocked@), chosen@) == round_state(ordi, c@, al, s0, ch0, max_clusters as int, cur as int, q as int),
                capped ==> chosen.len() >= max_clusters,
            decreases ord.len() - q, (if capped { 0int } else { 1int }),
        {
            if chosen.len() >= max_clusters {
                capped = true;
            } else {
                let p = ord[q];
                let id = c[p];
                proof {
                    assert(ordi[q as int] == p as int);
                    assert forall|t: int| 0 <= t < fr@[p as int]@.len() implies (#[trigger] fr@[p as int]@[t]) < blocked.len() by {
                        let x = fr@[p as int]@[t];
                        assert(fr@[p as int]@.to_set().contains(x));
                        assert(fresh(al[id as int], s0).contains(x));
                        assert(al[id as int].to_set().contains(x));
                        let w = choose|w: int| 0 <= w < al[id as int].len() && al[id as int][w] == x;
                        assert(al[id as int] == all@[id as int]@);
                        assert(all@[id as int]@[w] < n);
                    }
                }
                if fr[p].len() >= cur && none_claimed(&fr[p], &blocked) {
                    claim_all(&mut blocked, &fr[p]);
                    chosen.push(id);
                }
                q = q + 1;
            }
        }
        proof {
            if capped {
                lemma_round_capped(ordi, c@, al, s0, ch0, max_clusters as int, cur as int, q as int, ordi.len() as int);
            }
            assert(c@ == candidates(bk, al, s0, cur as int, cur as int, buckets.len() as int));
        }
        cur = cur - 1;
    }
    proof {
        lemma_greedy_choice_bounded(bk, al, m as int, max_clusters as int);
    }
    chosen
}

/// The largest of the sizes, or 0 for none.
pub open spec fn max_size(lens: Seq<usize>, k: int) -> int
    decreases k,
{
    if k <= 0 {
        0
    } else {
        let b = max_size(lens, k - 1);
        if lens[k - 1] > b {
            lens[k - 1] as int
        } else {
            b
        }
    }
}

/// Groups candidate clusters by size: bucket `b` lists, in order, the
/// clusters holding `b` points; there is one bucket per size up to the
/// largest.
pub fn bucket_by_size(lens: &[usize]) -> (r: Vec<Vec<usize>>)
    requires
        max_size(lens@, lens.len() as int) < usize::MAX,
    ensures
        r.len() == max_size(lens@, lens.len() as int) + 1,
        forall|b: int, q: int| 0 <= b < r.len() && 0 <= q < r@[b]@.len() ==> (#[trigger] r@[b]@[q]) < lens.len() && lens@[r@[b]@[q] as int] == b,
        forall|b: int, x: int, y: int| 0 <= b < r.len() && 0 <= x < y < r@[b]@.len() ==> #[trigger] r@[b]@[x] < #[trigger] r@[b]@[y],
        forall|i: int| 0 <= i < lens.len() ==> r@[lens@[i] as int]@.contains(i as usize),
{
    let mut mx: usize = 0;
    let mut i: usize = 0;
    while i < lens.len()
        invariant
            i <= lens.len(),
            mx == max_size(lens@, i as int),
            forall|j: int| 0 <= j < i ==> lens@[j] <= mx,
        decreases lens.len() - i,
    {
        if lens[i] > mx {
            mx = lens[i];
        }
        i = i + 1;
    }
    let mut r: Vec<Vec<usize>> = Vec::new();
    while r.len() < mx + 1
        invariant
            r.len() <= mx + 1,
            mx == max_size(lens@, lens.len() as int),
            mx < usize::MAX,
            forall|b: int| 0 <= b < r.len() ==> (#[trigger] r@[b])@.len() == 0,
        decreases mx + 1 - r.len(),
    {
        r.push(Vec::new());
    }
    let mut i: usize = 0;
    while i < lens.len()
        invariant
            i <= lens.len(),
            r.len() == mx + 1,
            forall|j: int| 0 <= j < lens.len() ==> lens@[j] <= mx,
            forall|b: int, q: int| 0 <= b < r.len() && 0 <= q < r@[b]@.len() ==> (#[trigger] r@[b]@[q]) < i && lens@[r@[b]@[q] as int] == b,
            forall|b: int, x: int, y: int| 0 <= b < r.len() && 0 <= x < y < r@[b]@.len() ==> #[trigger] r@[b]@[x] < #[trigger] r@[b]@[y],
            forall|j: int| 0 <= j < i ==> r@[lens@[j] as int]@.contains(j as usize),
        decreases lens.len() - i,
    {
        let b = lens[i];
        let ghost r0 = r@;
        r[b].push(i);
        proof {
            assert(r@ == r0.update(b as int, r@[b as int]));
            assert(r@[b as int]@ == r0[b as int]@.push(i));
            assert forall|b2: int, q: int| 0 <= b2 < r.len() && 0 <= q < r@[b2]@.len() implies (#[trigger] r@[b2]@[q]) < i + 1 && lens@[r@[b2]@[q] as int] == b2 by {
                if b2 != b {
                    assert(r@[b2] == r0[b2]);
                } else if q < r0[b2]@.len() {
                    assert(r@[b2]@[q] == r0[b2]@[q]);
                }
            }
            assert forall|b2: int, x: int, y: int| 0 <= b2 < r.len() && 0 <= x < y < r@[b2]@.len() implies #[trigger] r@[b2]@[x] < #[trigger] r@[b2]@[y] by {
                if b2 != b {
                    assert(r@[b2] == r0[b2]);
                } else {
                    assert(r@[b2]@[x] == r0[b2]@[x]);
                    if y < r0[b2]@.len() {
                        assert(r@[b2]@[y] == r0[b2]@[y]);
                    }
                }
            }
            assert forall|j: int| 0 <= j < i + 1 implies r@[lens@[j] as int]@.contains(j as usize) by {
                if j < i {
                    let bj = lens@[j] as int;
                    assert(r0[bj]@.contains(j as usize));
                    let w = choose|w: int| 0 <= w < r0[bj]@.len() && r0[bj]@[w] == j as usize;
                    if bj == b {
                        assert(r@[bj]@[w] == j as usize);
                    } else {
                        assert(r@[bj] == r0[bj]);
                    }
                } else {
                    assert(r@[b as int]@[r0[b as int]@.len() as int] == i);
                }
            }
        }
        i = i + 1;
    }
    r
}

/// The points of `all` that exactly one cluster covers (`coverers[x]`:
/// how many clusters cover point `x`).
pub open spec fn unique_points(all: Seq<u32>, coverers: Seq<u32>) -> Set<u32> {
    all.to_set().filter(|x: u32| coverers[x as int] == 1)
}

/// Narrows each cluster to the points it alone covers, and keeps the
/// clusters left with at least `min_points` of them. Returns, in cluster
/// order, the position of each kept cluster with its own points in
/// increasing order, each once.
pub fn update_unique(all: &[Vec<u32>], coverers: &[u32], min_points: usize) -> (r: Vec<(usize, Vec<u32>)>)
    requires
        forall|c: int, t: int| 0 <= c < all.len() && 0 <= t < all@[c]@.len() ==> (#[trigger] all@[c]@[t]) < coverers.len(),
    ensures
        forall|i: int, j: int| 0 <= i < j < r.len() ==> r@[i].0 < r@[j].0,
        forall|i: int| #![trigger r@[i]] 0 <= i < r.len() ==> {
            &&& r@[i].0 < all.len()
            &&& forall|a: int, b: int| 0 <= a < b < r@[i].1.len() ==> r@[i].1@[a] < r@[i].1@[b]
            &&& r@[i].1@.to_set() == unique_points(all@[r@[i].0 as int]@, coverers@)
            &&& r@[i].1.len() == unique_points(all@[r@[i].0 as int]@, coverers@).len()
            &&& r@[i].1.len() >= min_points
        },
        forall|c: int| #![trigger all@[c]] 0 <= c < all.len() && unique_points(all@[c]@, coverers@).len() >= min_points ==> exists|i: int|
            0 <= i < r.len() && #[trigger] r@[i].0 == c,
{
    let mut blocked: Vec<bool> = Vec::new();
    let mut x: usize = 0;
    while x < coverers.len()
        invariant
            x <= coverers.len(),
            blocked.len() == x,
            forall|y: int| 0 <= y < x ==> (blocked@[y] <==> coverers@[y] != 1),
        decreases coverers.len() - x,
    {
        blocked.push(coverers[x] != 1);
        x = x + 1;
    }
    let mut out: Vec<(usize, Vec<u32>)> = Vec::new();
    let mut c: usize = 0;
    while c < all.len()
        invariant
            c <= all.len(),
            blocked.len() == coverers.len(),
            forall|y: int| 0 <= y < coverers.len() ==> (blocked@[y] <==> coverers@[y] != 1),
            forall|c2: int, t: int| 0 <= c2 < all.len() && 0 <= t < all@[c2]@.len() ==> (#[trigger] all@[c2]@[t]) < coverers.len(),
            forall|i: int, j: int| 0 <= i < j < out.len() ==> out@[i].0 < out@[j].0,
            forall|i: int| #![trigger out@[i]] 0 <= i < out.len() ==> {
                &&& out@[i].0 < c
                &&& forall|a: int, b: int| 0 <= a < b < out@[i].1.len() ==> out@[i].1@[a] < out@[i].1@[b]
                &&& out@[i].1@.to_set() == unique_points(all@[out@[i].0 as int]@, coverers@)
                &&& out@[i].1.len() == unique_points(all@[out@[i].0 as int]@, coverers@).len()
                &&& out@[i].1.len() >= min_points
            },
            forall|c2: int| #![trigger all@[c2]] 0 <= c2 < c && unique_points(all@[c2]@, coverers@).len() >= min_points ==> exists|i: int|
                0 <= i < out.len() && #[trigger] out@[i].0 == c2,
        decreases all.len() - c,
    {
        let list = &all[c];
        let own = fresh_list(list, &blocked);
        proof {
            assert(fresh(list@, claimed(blocked@)) =~= unique_points(list@, coverers@)) by {
                assert forall|y: u32| #[trigger] fresh(list@, claimed(blocked@)).contains(y) <==> unique_points(list@, coverers@).contains(y) by {
                    if list@.to_set().contains(y) {
                        let t = choose|t: int| 0 <= t < list@.len() && list@[t] == y;
                        assert(all@[c as int]@[t] == y);
                    }
                }
            }
        }
        if own.len() >= min_points {
            let ghost o0 = out@;
            out.push((c, own));
            proof {
                assert forall|c2: int| #![trigger all@[c2]] 0 <= c2 < c + 1 && unique_points(all@[c2]@, coverers@).len() >= min_points implies exists|i: int|
                    0 <= i < out.len() && #[trigger] out@[i].0 == c2 by {
                    if c2 < c {
                        let i = choose|i: int| 0 <= i < o0.len() && #[trigger] o0[i].0 == c2;
                        assert(out@[i] == o0[i]);
                    } else {
                        assert(out@[o0.len() as int].0 == c2);
                    }
                }
                assert forall|i: int| #![trigger out@[i]] 0 <= i < out.len() implies {
                    &&& out@[i].0 < c + 1
                    &&& forall|a: int, b: int| 0 <= a < b < out@[i].1.len() ==> out@[i].1@[a] < out@[i].1@[b]
                    &&& out@[i].1@.to_set() == unique_points(all@[out@[i].0 as int]@, coverers@)
                    &&& out@[i].1.len() == unique_points(all@[out@[i].0 as int]@, coverers@).len()
                    &&& out@[i].1.len() >= min_points
                } by {
                    if i < o0.len() {
                        assert(out@[i] == o0[i]);
                    }
                }
            }
        } else {
            proof {
                assert forall|c2: int| #![trigger all@[c2]] 0 <= c2 < c + 1 && unique_points(all@[c2]@, coverers@).len() >= min_points implies exists|i: int|
                    0 <= i < out.len() && #[trigger] out@[i].0 == c2 by {
                    if c2 == c {
                        assert(all@[c2]@ == list@);
                    }
                }
            }
        }
        c = c + 1;
    }
    out
}

/// The positions of the points no chosen cluster reached, in order and at
/// most `max_to_add` of them; none when `max_to_add` is 0 or when as many
/// distinct cells were reached as there are points.
pub fn recover_missing(reached: &[bool], reached_cells: usize, max_to_add: usize) -> (r: Vec<usize>)
    ensures
        (max_to_add == 0 || reached_cells == reached.len()) ==> r@.len() == 0,
        !(max_to_add == 0 || reached_cells == reached.len()) ==> {
            let missing = Seq::new(reached.len() as nat, |i: int| i as usize).filter(|i: usize| !reached@[i as int]);
            r@ == missing.take(if missing.len() > max_to_add { max_to_add as int } else { missing.len() as int })
        },
{
    if max_to_add == 0 || reached_cells == reached.len() {
        return Vec::new();
    }
    let ghost idx = Seq::new(reached.len() as nat, |i: int| i as usize);
    let ghost pred = |i: usize| !reached@[i as int];
    let mut out: Vec<usize> = Vec::new();
    let mut i: usize = 0;
    while i < reached.len()
        invariant
            i <= reached.len(),
            idx == Seq::new(reached.len() as nat, |i: int| i as usize),
            pred == (|i: usize| !reached@[i as int]),
            out@ == idx.take(i as int).filter(pred),
        decreases reached.len() - i,
    {
        proof {
            assert(idx.take(i as int + 1) =~= idx.take(i as int).push(i));
            idx.take(i as int).lemma_filter_push(i, pred);
        }
        if !reached[i] {
            out.push(i);
        }
        i = i + 1;
    }
    assert(idx.take(reached.len() as int) =~= idx);
    let ghost missing = out@;
    if out.len() > max_to_add {
        out.truncate(max_to_add);
    }
    assert(out@ =~= missing.take(if missing.len() > max_to_add { max_to_add as int } else { missing.len() as int }));
    out
}

/// A round never chooses beyond `cap`.
proof fn lemma_round_bounded(
    ord: Seq<int>,
    c: Seq<usize>,
    all: Seq<Seq<u32>>,
    s0: Set<u32>,
    chosen0: Seq<usize>,
    cap: int,
    th: int,
    k: int,
)
    requires
        chosen0.len() <= cap,
    ensures
        round_state(ord, c, all, s0, chosen0, cap, th, k).1.len() <= cap,
    decreases k,
{
    if k > 0 {
        lemma_round_bounded(ord, c, all, s0, chosen0, cap, th, k - 1);
    }
}

proof fn lemma_greedy_from_bounded(
    bk: Seq<Seq<usize>>,
    all: Seq<Seq<u32>>,
    m: int,
    cap: int,
    cur: int,
    s: Set<u32>,
    chosen: Seq<usize>,
)
    requires
        chosen.len() <= cap,
    ensures
        greedy_from(bk, all, m, cap, cur, s, chosen).len() <= cap,
    decreases cur + 1 - m,
{
    if !(cur < m || chosen.len() >= cap) {
        let c = candidates(bk, all, s, cur, cur, bk.len() as int);
        let ord = ranked(c, all, s, c.len() as int);
        lemma_round_bounded(ord, c, all, s, chosen, cap, cur, ord.len() as int);
        let st = round_state(ord, c, all, s, chosen, cap, cur, ord.len() as int);
        lemma_greedy_from_bounded(bk, all, m, cap, cur - 1, st.0, st.1);
    }
}

/// The greedy never chooses more than `cap` clusters.
pub proof fn lemma_greedy_choice_bounded(bk: Seq<Seq<usize>>, all: Seq<Seq<u32>>, m: int, cap: int)
    requires
        cap >= 0,
    ensures
        greedy_choice(bk, all, m, cap).len() <= cap,
{
    if bk.len() > m {
        lemma_greedy_from_bounded(bk, all, m, cap, bk.len() - 1, Set::empty(), Seq::empty());
    }
}

/// Whether `own[k]` are the points chosen cluster `k` claimed: each a set
/// of at least `m` of its points, all within the claims `s`, no two
/// overlapping.
pub open spec fn claims_ok(all: Seq<Seq<u32>>, chosen: Seq<usize>, own: Seq<Set<u32>>, m: int, s: Set<u32>) -> bool {
    &&& own.len() == chosen.len()
    &&& forall|k: int|
        0 <= k < own.len() ==> {
            &&& (#[trigger] own[k]).subset_of(all[chosen[k] as int].to_set())
            &&& own[k].finite()
            &&& own[k].len() >= m
            &&& own[k].subset_of(s)
        }
    &&& forall|j: int, k: int| 0 <= j < k < own.len() ==> (#[trigger] own[j]).disjoint(#[trigger] own[k])
}

proof fn lemma_round_claims(
    ord: Seq<int>,
    c: Seq<usize>,
    all: Seq<Seq<u32>>,
    s0: Set<u32>,
    chosen0: Seq<usize>,
    own0: Seq<Set<u32>>,
    cap: int,
    th: int,
    m: int,
    k: int,
) -> (own: Seq<Set<u32>>)
    requires
        claims_ok(all, chosen0, own0, m, s0),
        th >= m,
    ensures
        claims_ok(
            all,
            round_state(ord, c, all, s0, chosen0, cap, th, k).1,
            own,
            m,
            round_state(ord, c, all, s0, chosen0, cap, th, k).0,
        ),
    decreases k,
{
    if k <= 0 {
        own0
    } else {
        let prev = lemma_round_claims(ord, c, all, s0, chosen0, own0, cap, th, m, k - 1);
        let (s, chosen) = round_state(ord, c, all, s0, chosen0, cap, th, k - 1);
        let id = c[ord[k - 1]];
        let u = fresh(all[id as int], s0);
        if chosen.len() < cap && u.len() >= th && u.disjoint(s) {
            let own = prev.push(u);
            let s2 = s.union(u);
            assert(all[id as int].to_set().finite()) by {
                all[id as int].lemma_cardinality_of_set();
            }
            vstd::set_lib::lemma_len_subset(u, all[id as int].to_set());
            assert(claims_ok(all, chosen.push(id), own, m, s2)) by {
                assert forall|kk: int| 0 <= kk < own.len() implies {
                    &&& (#[trigger] own[kk]).subset_of(all[chosen.push(id)[kk] as int].to_set())
                    &&& own[kk].finite()
                    &&& own[kk].len() >= m
                    &&& own[kk].subset_of(s2)
                } by {
                    if kk < prev.len() {
                        assert(own[kk] == prev[kk]);
                        assert(chosen.push(id)[kk] == chosen[kk]);
                    }
                }
                assert forall|j: int, kk: int| 0 <= j < kk < own.len() implies (#[trigger] own[j]).disjoint(#[trigger] own[kk]) by {
                    assert(own[j] == prev[j]);
                    if kk < prev.len() {
                        assert(own[kk] == prev[kk]);
                    } else {
                        assert(prev[j].subset_of(s));
                    }
                }
            }
            own
        } else {
            prev
        }
    }
}

proof fn lemma_greedy_claims(
    bk: Seq<Seq<usize>>,
    all: Seq<Seq<u32>>,
    m: int,
    cap: int,
    cur: int,
    s: Set<u32>,
    chosen: Seq<usize>,
    own0: Seq<Set<u32>>,
) -> (own: Seq<Set<u32>>)
    requires
        claims_ok(all, chosen, own0, m, s),
    ensures
        exists|s2: Set<u32>| #[trigger] claims_ok(all, greedy_from(bk, all, m, cap, cur, s, chosen), own, m, s2),
    decreases cur + 1 - m,
{
    if cur < m || chosen.len() >= cap {
        assert(greedy_from(bk, all, m, cap, cur, s, chosen) == chosen);
        assert(claims_ok(all, greedy_from(bk, all, m, cap, cur, s, chosen), own0, m, s));
        own0
    } else {
        let c = candidates(bk, all, s, cur, cur, bk.len() as int);
        let ord = ranked(c, all, s, c.len() as int);
        let st = round_state(ord, c, all, s, chosen, cap, cur, ord.len() as int);
        let own1 = lemma_round_claims(ord, c, all, s, chosen, own0, cap, cur, m, ord.len() as int);
        let own = lemma_greedy_claims(bk, all, m, cap, cur - 1, st.0, st.1, own1);
        assert(greedy_from(bk, all, m, cap, cur, s, chosen) == greedy_from(bk, all, m, cap, cur - 1, st.0, st.1));
        let s2 = choose|s2: Set<u32>| #[trigger] claims_ok(all, greedy_from(bk, all, m, cap, cur - 1, st.0, st.1), own, m, s2);
        assert(claims_ok(all, greedy_from(bk, all, m, cap, cur, s, chosen), own, m, s2));
        own
    }
}

/// The greedy's clusters each claim at least `m` of their own points, and
/// no point is claimed by two of them.
pub proof fn lemma_greedy_choice_claims(bk: Seq<Seq<usize>>, all: Seq<Seq<u32>>, m: int, cap: int)
    ensures
        exists|own: Seq<Set<u32>>, s: Set<u32>| #[trigger] claims_ok(all, greedy_choice(bk, all, m, cap), own, m, s),
{
    let e: Seq<Set<u32>> = Seq::empty();
    assert(claims_ok(all, Seq::<usize>::empty(), e, m, Set::<u32>::empty()));
    if bk.len() > m {
        let own = lemma_greedy_claims(bk, all, m, cap, bk.len() - 1, Set::empty(), Seq::empty(), e);
        assert(greedy_choice(bk, all, m, cap) == greedy_from(bk, all, m, cap, bk.len() - 1, Set::empty(), Seq::empty()));
        let s = choose|s2: Set<u32>|
            #[trigger] claims_ok(all, greedy_from(bk, all, m, cap, bk.len() - 1, Set::empty(), Seq::empty()), own, m, s2);
        assert(claims_ok(all, greedy_choice(bk, all, m, cap), own, m, s));
    } else {
        assert(greedy_choice(bk, all, m, cap) == Seq::<usize>::empty());
        assert(claims_ok(all, greedy_choice(bk, all, m, cap), e, m, Set::<u32>::empty()));
    }
}

/// How many entries of `near` sit in a cell still open in `open`.
pub open spec fn open_entries(near: Seq<u32>, cell_of: Seq<u32>, open: Seq<bool>) -> nat
    decreases near.len(),
{
    if near.len() == 0 {
        0
    } else {
        open_entries(near.drop_last(), cell_of, open) + if open[cell_of[near.last() as int] as int] {
            1nat
        } else {
            0nat
        }
    }
}

/// The open cells after closing every cell that an entry of `near` sits in.
pub open spec fn close_cells(near: Seq<u32>, cell_of: Seq<u32>, open: Seq<bool>) -> Seq<bool> {
    Seq::new(
        open.len(),
        |c: int| open[c] && !(exists|t: int| 0 <= t < near.len() && #[trigger] cell_of[near[t] as int] as int == c),
    )
}

/// The seeds added and the cells left open after scanning the first `k`
/// points: a point in an open cell seeds a cluster when more than `m` of
/// its neighbours sit in open cells, and those cells close.
pub open spec fn gap_scan(near: Seq<Seq<u32>>, cell_of: Seq<u32>, open: Seq<bool>, m: int, k: int) -> (Seq<usize>, Seq<bool>)
    decreases k,
{
    if k <= 0 {
        (Seq::empty(), open)
    } else {
        let (seeds, op) = gap_scan(near, cell_of, open, m, k - 1);
        let p = k - 1;
        if op[cell_of[p] as int] && open_entries(near[p], cell_of, op) > m {
            (seeds.push(p as usize), close_cells(near[p], cell_of, op))
        } else {
            (seeds, op)
        }
    }
}

/// Whether an entry of a seed's neighbour list sits in cell `c`.
pub open spec fn seeded_cell(near: Seq<Seq<u32>>, cell_of: Seq<u32>, seeds: Seq<usize>, c: int) -> bool {
    exists|i: int, t: int|
        0 <= i < seeds.len() && 0 <= t < near[seeds[i] as int].len() && #[trigger] cell_of[near[seeds[i] as int][t] as int] as int == c
}

/// Whether the gap-fill inputs are well formed: one neighbour list and one
/// cell per point, cells inside the table, neighbours among the points.
pub open spec fn gap_inputs_ok(near: Seq<Seq<u32>>, cell_of: Seq<u32>, open: Seq<bool>) -> bool {
    &&& near.len() == cell_of.len()
    &&& forall|p: int| 0 <= p < cell_of.len() ==> (#[trigger] cell_of[p]) < open.len()
    &&& forall|p: int, t: int| 0 <= p < near.len() && 0 <= t < near[p].len() ==> (#[trigger] near[p][t]) < near.len()
}

/// Closing cells never opens one: fewer open cells hold no more entries.
proof fn lemma_open_entries_mono(l: Seq<u32>, cell_of: Seq<u32>, a: Seq<bool>, b: Seq<bool>)
    requires
        forall|c: int| 0 <= c < b.len() && #[trigger] b[c] ==> a[c],
        a.len() == b.len(),
        forall|t: int| 0 <= t < l.len() ==> (#[trigger] cell_of[l[t] as int]) < b.len(),
    ensures
        open_entries(l, cell_of, b) <= open_entries(l, cell_of, a),
    decreases l.len(),
{
    if l.len() > 0 {
        let d = l.drop_last();
        assert forall|t: int| 0 <= t < d.len() implies (#[trigger] cell_of[d[t] as int]) < b.len() by {
            assert(d[t] == l[t]);
        }
        lemma_open_entries_mono(d, cell_of, a, b);
        assert(cell_of[l[l.len() - 1] as int] < b.len());
    }
}

/// What the gap scan leaves: the open cells are exactly the cells open at
/// the start that no seed's neighbour sits in; the seeds are scanned points
/// in increasing order, each in a cell open at the start; and every point
/// whose cell is still open has at most `m` neighbours in open cells (the
/// scan missed no point it should have seeded).
pub proof fn lemma_gap_scan(near: Seq<Seq<u32>>, cell_of: Seq<u32>, open: Seq<bool>, m: int, k: int)
    requires
        gap_inputs_ok(near, cell_of, open),
        0 <= k <= near.len() <= usize::MAX,
        m >= 0,
    ensures
        gap_scan(near, cell_of, open, m, k).1.len() == open.len(),
        forall|c: int|
            0 <= c < open.len() ==> (#[trigger] gap_scan(near, cell_of, open, m, k).1[c] <==> open[c] && !seeded_cell(
                near,
                cell_of,
                gap_scan(near, cell_of, open, m, k).0,
                c,
            )),
        forall|i: int|
            0 <= i < gap_scan(near, cell_of, open, m, k).0.len() ==> #[trigger] gap_scan(near, cell_of, open, m, k).0[i] < k
                && open[cell_of[gap_scan(near, cell_of, open, m, k).0[i] as int] as int],
        forall|i: int, j: int|
            0 <= i < j < gap_scan(near, cell_of, open, m, k).0.len() ==> #[trigger] gap_scan(near, cell_of, open, m, k).0[i]
                < #[trigger] gap_scan(near, cell_of, open, m, k).0[j],
        forall|p: int|
            0 <= p < k && #[trigger] gap_scan(near, cell_of, open, m, k).1[cell_of[p] as int] ==> open_entries(
                near[p],
                cell_of,
                gap_scan(near, cell_of, open, m, k).1,
            ) <= m,
    decreases k,
{
    if k > 0 {
        lemma_gap_scan(near, cell_of, open, m, k - 1);
        let (seeds, op) = gap_scan(near, cell_of, open, m, k - 1);
        let p = k - 1;
        let (seeds2, op2) = gap_scan(near, cell_of, open, m, k);
        assert forall|t: int| 0 <= t < near[p].len() implies (#[trigger] cell_of[near[p][t] as int]) < open.len() by {
            assert(near[p][t] < near.len());
        }
        if op[cell_of[p] as int] && open_entries(near[p], cell_of, op) > m {
            assert(seeds2 == seeds.push(p as usize));
            assert(op2 == close_cells(near[p], cell_of, op));
            assert forall|c: int| 0 <= c < open.len() implies (#[trigger] op2[c] <==> open[c] && !seeded_cell(near, cell_of, seeds2, c)) by {
                if seeded_cell(near, cell_of, seeds2, c) {
                    let (i, t) = choose|i: int, t: int|
                        0 <= i < seeds2.len() && 0 <= t < near[seeds2[i] as int].len() && #[trigger] cell_of[near[seeds2[i] as int][t] as int] as int == c;
                    if i < seeds.len() {
                        assert(seeds2[i] == seeds[i]);
                        assert(seeded_cell(near, cell_of, seeds, c));
                    } else {
                        assert(seeds2[i] as int == p);
                        assert(exists|w: int| 0 <= w < near[p].len() && #[trigger] cell_of[near[p][w] as int] as int == c);
                    }
                } else {
                    assert(!seeded_cell(near, cell_of, seeds, c)) by {
                        if seeded_cell(near, cell_of, seeds, c) {
                            let (i, t) = choose|i: int, t: int|
                                0 <= i < seeds.len() && 0 <= t < near[seeds[i] as int].len() && #[trigger] cell_of[near[seeds[i] as int][t] as int] as int == c;
                            assert(seeds2[i] == seeds[i]);
                        }
                    }
                    if exists|w: int| 0 <= w < near[p].len() && #[trigger] cell_of[near[p][w] as int] as int == c {
                        let w = choose|w: int| 0 <= w < near[p].len() && #[trigger] cell_of[near[p][w] as int] as int == c;
                        assert(seeds2[seeds.len() as int] as int == p);
                        assert(cell_of[near[seeds2[seeds.len() as int] as int][w] as int] as int == c);
                    }
                }
            }
            assert forall|q: int| 0 <= q < k && #[trigger] op2[cell_of[q] as int] implies open_entries(near[q], cell_of, op2) <= m by {
                assert(near[q].len() >= 0);
                assert forall|t: int| 0 <= t < near[q].len() implies (#[trigger] cell_of[near[q][t] as int]) < op2.len() by {
                    assert(near[q][t] < near.len());
                }
                lemma_open_entries_mono(near[q], cell_of, op, op2);
                if q < p {
                    assert(op[cell_of[q] as int]);
                    assert(gap_scan(near, cell_of, open, m, k - 1).1[cell_of[q] as int]);
                    assert(open_entries(near[q], cell_of, op) <= m);
                } else {
                    assert(q == p);
                    lemma_closed_entries(near[p], cell_of, op);
                    assert(open_entries(near[p], cell_of, close_cells(near[p], cell_of, op)) == 0);
                    assert(open_entries(near[q], cell_of, op2) == 0);
                }
            }
        } else {
            assert(seeds2 == seeds && op2 == op);
            assert forall|q: int| 0 <= q < k && #[trigger] op2[cell_of[q] as int] implies open_entries(near[q], cell_of, op2) <= m by {
                if q == p {
                    assert(op[cell_of[p] as int]);
                }
            }
        }
    }
}

/// The cells open at the start that no entry of the given seeds'
/// neighbour lists sits in.
pub open spec fn open_after(near: Seq<Seq<u32>>, cell_of: Seq<u32>, open: Seq<bool>, seeds: Seq<usize>) -> Seq<bool> {
    Seq::new(open.len(), |c: int| open[c] && !seeded_cell(near, cell_of, seeds, c))
}

/// Whether point `p`, in a cell still open once the seeds before it have
/// closed theirs, has more than `m` neighbours in such cells.
pub open spec fn would_seed(near: Seq<Seq<u32>>, cell_of: Seq<u32>, open: Seq<bool>, m: int, before: Seq<usize>, p: int) -> bool {
    let o = open_after(near, cell_of, open, before);
    o[cell_of[p] as int] && open_entries(near[p], cell_of, o) > m
}

/// Whether point `p` lies after seed `i - 1` (if any) and before seed `i`
/// (or before `k` past the last seed).
pub open spec fn in_gap(seeds: Seq<usize>, i: int, p: int, k: int) -> bool {
    &&& 0 <= p
    &&& (i == 0 || seeds[i - 1] < p)
    &&& if i < seeds.len() {
        p < seeds[i]
    } else {
        p < k
    }
}

/// The gap scan seeds exactly the points that should seed: each seed, with
/// the cells of the seeds before it closed, is in an open cell and has more
/// than `m` neighbours in open cells; every point passed over between two
/// seeds is not.
pub proof fn lemma_gap_scan_steps(near: Seq<Seq<u32>>, cell_of: Seq<u32>, open: Seq<bool>, m: int, k: int)
    requires
        gap_inputs_ok(near, cell_of, open),
        0 <= k <= near.len() <= usize::MAX,
        m >= 0,
    ensures
        gap_scan(near, cell_of, open, m, k).1 == open_after(near, cell_of, open, gap_scan(near, cell_of, open, m, k).0),
        forall|i: int|
            0 <= i < gap_scan(near, cell_of, open, m, k).0.len() ==> #[trigger] would_seed(
                near,
                cell_of,
                open,
                m,
                gap_scan(near, cell_of, open, m, k).0.take(i),
                gap_scan(near, cell_of, open, m, k).0[i] as int,
            ),
        forall|i: int, p: int|
            0 <= i <= gap_scan(near, cell_of, open, m, k).0.len() && #[trigger] in_gap(gap_scan(near, cell_of, open, m, k).0, i, p, k)
                ==> !would_seed(near, cell_of, open, m, gap_scan(near, cell_of, open, m, k).0.take(i), p),
    decreases k,
{
    lemma_gap_scan(near, cell_of, open, m, k);
    let (seeds2, op2) = gap_scan(near, cell_of, open, m, k);
    assert(op2 =~= open_after(near, cell_of, open, seeds2));
    if k > 0 {
        lemma_gap_scan_steps(near, cell_of, open, m, k - 1);
        lemma_gap_scan(near, cell_of, open, m, k - 1);
        let (seeds, op) = gap_scan(near, cell_of, open, m, k - 1);
        let p = k - 1;
        assert(seeds.take(seeds.len() as int) =~= seeds);
        if op[cell_of[p] as int] && open_entries(near[p], cell_of, op) > m {
            assert(seeds2 == seeds.push(p as usize));
            assert forall|i: int| 0 <= i <= seeds.len() implies #[trigger] seeds2.take(i) == seeds.take(i) by {
                assert(seeds2.take(i) =~= seeds.take(i));
            }
            assert forall|i: int| 0 <= i < seeds2.len() implies #[trigger] would_seed(near, cell_of, open, m, seeds2.take(i), seeds2[i] as int) by {
                assert(seeds2.take(i) == seeds.take(i));
                if i < seeds.len() {
                    assert(seeds2[i] == seeds[i]);
                } else {
                    assert(seeds2[i] as int == p);
                    assert(op == open_after(near, cell_of, open, seeds));
                }
            }
            assert forall|i: int, q: int| 0 <= i <= seeds2.len() && #[trigger] in_gap(seeds2, i, q, k)
                implies !would_seed(near, cell_of, open, m, seeds2.take(i), q) by {
                if i <= seeds.len() {
                    assert(seeds2.take(i) == seeds.take(i));
                    if i > 0 {
                        assert(seeds2[i - 1] == seeds[i - 1]);
                    }
                    if i < seeds.len() {
                        assert(seeds2[i] == seeds[i]);
                    } else {
                        assert(seeds2[i] as int == p);
                    }
                    assert(in_gap(seeds, i, q, k - 1));
                } else {
                    assert(seeds2[i - 1] as int == p);
                }
            }
        } else {
            assert(seeds2 == seeds && op2 == op);
            assert forall|i: int, q: int| 0 <= i <= seeds2.len() && #[trigger] in_gap(seeds2, i, q, k)
                implies !would_seed(near, cell_of, open, m, seeds2.take(i), q) by {
                if q < p || i < seeds.len() {
                    if i < seeds.len() {
                        assert(seeds[i] < k - 1);
                    }
                    assert(in_gap(seeds, i, q, k - 1));
                } else {
                    assert(q == p);
                    assert(i == seeds.len());
                    assert(op == open_after(near, cell_of, open, seeds));
                }
            }
        }
    }
}

/// Once every entry's cell is closed, no entry is in an open cell.
proof fn lemma_closed_entries(l: Seq<u32>, cell_of: Seq<u32>, op: Seq<bool>)
    requires
        forall|t: int| 0 <= t < l.len() ==> (#[trigger] cell_of[l[t] as int]) < op.len(),
    ensures
        open_entries(l, cell_of, close_cells(l, cell_of, op)) == 0,
{
    let cl = close_cells(l, cell_of, op);
    assert forall|t: int| 0 <= t < l.len() implies !(#[trigger] cl[cell_of[l[t] as int] as int]) by {
        assert(cell_of[l[t] as int] as int == cell_of[l[t] as int] as int);
    }
    lemma_no_open_entries(l, cell_of, cl);
}

/// A list none of whose entries sits in an open cell has no open entries.
proof fn lemma_no_open_entries(l: Seq<u32>, cell_of: Seq<u32>, op: Seq<bool>)
    requires
        forall|t: int| 0 <= t < l.len() ==> !(#[trigger] op[cell_of[l[t] as int] as int]),
    ensures
        open_entries(l, cell_of, op) == 0,
    decreases l.len(),
{
    if l.len() > 0 {
        let d = l.drop_last();
        assert forall|t: int| 0 <= t < d.len() implies !(#[trigger] op[cell_of[d[t] as int] as int]) by {
            assert(d[t] == l[t]);
        }
        lemma_no_open_entries(d, cell_of, op);
        assert(!op[cell_of[l[l.len() - 1] as int] as int]);
    }
}

/// Fills coverage gaps (nothing is added when `min_points` is 0): scans the
/// points in order, and each point whose
/// cell is still open seeds a new cluster when more than `min_points` of its
/// neighbours (`near[p]`, positions of points within reach, itself included)
/// sit in open cells; the cells of those neighbours then close. Returns the
/// seeds in order and the cells left open.
pub fn fill_gaps(near: &[Vec<u32>], cell_of: &[u32], open: Vec<bool>, min_points: usize) -> (r: (Vec<usize>, Vec<bool>))
    requires
        near.len() == cell_of.len(),
        forall|p: int| 0 <= p < cell_of.len() ==> (#[trigger] cell_of@[p]) < open.len(),
        forall|p: int, t: int| 0 <= p < near.len() && 0 <= t < near@[p]@.len() ==> (#[trigger] near@[p]@[t]) < near.len(),
    ensures
        min_points == 0 ==> r.0@.len() == 0 && r.1@ == open@,
        min_points > 0 ==> (r.0@, r.1@) == gap_scan(lists(near@), cell_of@, open@, min_points as int, near.len() as int),
        r.1.len() == open.len(),
        forall|c: int|
            0 <= c < open.len() ==> (#[trigger] r.1@[c] <==> open@[c] && !seeded_cell(lists(near@), cell_of@, r.0@, c)),
        forall|i: int| 0 <= i < r.0.len() ==> #[trigger] r.0@[i] < near.len() && open@[cell_of@[r.0@[i] as int] as int],
        forall|i: int, j: int| 0 <= i < j < r.0.len() ==> #[trigger] r.0@[i] < #[trigger] r.0@[j],
        min_points > 0 ==> forall|p: int|
            0 <= p < near.len() && #[trigger] r.1@[cell_of@[p] as int] ==> open_entries(near@[p]@, cell_of@, r.1@)
                <= min_points,
        min_points > 0 ==> forall|i: int|
            0 <= i < r.0.len() ==> #[trigger] would_seed(lists(near@), cell_of@, open@, min_points as int, r.0@.take(i), r.0@[i] as int),
        min_points > 0 ==> forall|i: int, p: int|
            0 <= i <= r.0.len() && #[trigger] in_gap(r.0@, i, p, near.len() as int) ==> !would_seed(
                lists(near@),
                cell_of@,
                open@,
                min_points as int,
                r.0@.take(i),
                p,
            ),
{
    if min_points == 0 {
        return (Vec::new(), open);
    }
    let ghost nl = lists(near@);
    let ghost open0 = open@;
    let mut open = open;
    let mut seeds: Vec<usize> = Vec::new();
    let mut p: usize = 0;
    while p < near.len()
        invariant
            p <= near.len(),
            near.len() == cell_of.len(),
            nl == lists(near@),
            open.len() == open0.len(),
            forall|p2: int| 0 <= p2 < cell_of.len() ==> (#[trigger] cell_of@[p2]) < open.len(),
            forall|p2: int, t: int| 0 <= p2 < near.len() && 0 <= t < near@[p2]@.len() ==> (#[trigger] near@[p2]@[t]) < near.len(),
            (seeds@, open@) == gap_scan(nl, cell_of@, open0, min_points as int, p as int),
        decreases near.len() - p,
    {
        let list = &near[p];
        assert(nl[p as int] == list@);
        if open[cell_of[p] as usize] {
            let mut cnt: usize = 0;
            let mut t: usize = 0;
            while t < list.len()
                invariant
                    t <= list.len(),
                    list@ == nl[p as int],
                    open.len() == open0.len(),
                    forall|p2: int| 0 <= p2 < cell_of.len() ==> (#[trigger] cell_of@[p2]) < open.len(),
                    forall|t2: int| 0 <= t2 < list@.len() ==> (#[trigger] list@[t2]) < cell_of.len(),
                    cnt == open_entries(list@.take(t as int), cell_of@, open@),
                    cnt <= t,
                decreases list.len() - t,
            {
                let q = list[t] as usize;
                proof {
                    assert(list@.take(t as int + 1).drop_last() =~= list@.take(t as int));
                    assert(list@.take(t as int + 1).last() == list@[t as int]);
                }
                if open[cell_of[q] as usize] {
                    cnt = cnt + 1;
                }
                t = t + 1;
            }
            assert(list@.take(list.len() as int) =~= list@);
            if cnt > min_points {
                let ghost before = open@;
                let mut t: usize = 0;
                while t < list.len()
                    invariant
                        t <= list.len(),
                        list@ == nl[p as int],
                        open.len() == before.len(),
                        forall|p2: int| 0 <= p2 < cell_of.len() ==> (#[trigger] cell_of@[p2]) < open.len(),
                        forall|t2: int| 0 <= t2 < list@.len() ==> (#[trigger] list@[t2]) < cell_of.len(),
                        open@ == close_cells(list@.take(t as int), cell_of@, before),
                    decreases list.len() - t,
                {
                    let q = list[t] as usize;
                    let c = cell_of[q] as usize;
                    let ghost o0 = open@;
                    open.set(c, false);
                    proof {
                        let ta = list@.take(t as int);
                        let tb = list@.take(t as int + 1);
                        assert(tb[t as int] == q as u32);
                        assert forall|c2: int| 0 <= c2 < open@.len() implies open@[c2] == close_cells(tb, cell_of@, before)[c2] by {
                            if exists|w: int| 0 <= w < tb.len() && #[trigger] cell_of@[tb[w] as int] as int == c2 {
                                let w = choose|w: int| 0 <= w < tb.len() && #[trigger] cell_of@[tb[w] as int] as int == c2;
                                if w < t {
                                    assert(ta[w] == tb[w]);
                                    assert(!o0[c2]);
                                }
                            }
                            if exists|w: int| 0 <= w < ta.len() && #[trigger] cell_of@[ta[w] as int] as int == c2 {
                                let w = choose|w: int| 0 <= w < ta.len() && #[trigger] cell_of@[ta[w] as int] as int == c2;
                                assert(tb[w] == ta[w]);
                            }
                        }
                        assert(open@ =~= close_cells(tb, cell_of@, before));
                    }
                    t = t + 1;
                }
                assert(list@.take(list.len() as int) =~= list@);
                seeds.push(p);
            }
        }
        p = p + 1;
    }
    proof {
        lemma_gap_scan(nl, cell_of@, open0, min_points as int, near.len() as int);
        lemma_gap_scan_steps(nl, cell_of@, open0, min_points as int, near.len() as int);
        let gs = gap_scan(nl, cell_of@, open0, min_points as int, near.len() as int);
        assert(seeds@ == gs.0 && open@ == gs.1);
        assert forall|q: int| 0 <= q < near.len() implies #[trigger] nl[q] == near@[q]@ by {}
        assert forall|i: int| 0 <= i < seeds.len() implies #[trigger] seeds@[i] < near.len() && open0[cell_of@[seeds@[i] as int] as int] by {
            assert(gs.0[i] < near.len());
        }
        assert forall|i: int, j: int| 0 <= i < j < seeds.len() implies #[trigger] seeds@[i] < #[trigger] seeds@[j] by {
            assert(gs.0[i] < gs.0[j]);
        }
    }
    (seeds, open)
}

} // verus!
