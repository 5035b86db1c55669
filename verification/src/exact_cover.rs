//! Exact minimum-cost cover of up to 128 points by candidate disks.
//!
//! Each candidate is the set of points one disk placement covers, held as a
//! bit mask. A solution picks some candidates; it costs `m` per picked disk
//! plus 1 per point no picked disk covers. The solver dedupes identical
//! masks, drops masks strictly contained in another, and runs a depth-first
//! branch and bound (branch on the lowest remaining point: cover it with each
//! candidate containing it, largest residual coverage first, or abandon it)
//! with admissible lower bounds, under a fixed node budget.

use vstd::prelude::*;
use vstd::set_lib::*;
use crate::bitset::{bit, pts, first_n, lemma_pts_finite, lemma_pts_and, lemma_pts_andnot, lemma_pts_remove, lemma_pts_zero, lemma_pts_low, lemma_pts_max, popcount, lowest_bit};
use crate::mask_prep::{listed, has_index, dominated, DOMINANCE_LIMIT, distinct_masks, undominated, kept_entries, point_lists, point_shares, max_popcount, checked_independent, lemma_inside_kept, lemma_nonzero_nonempty};

verus! {

// ---------------------------------------------------------------------------
// The optimum, as a recursion on the lowest remaining point
// ---------------------------------------------------------------------------

/// The least element of a set of integers (meaningful for finite non-empty sets).
pub open spec fn lowest(s: Set<int>) -> int {
    choose|u: int| s.contains(u) && forall|v: int| s.contains(v) ==> u <= v
}

pub open spec fn min_nat(a: nat, b: nat) -> nat {
    if a <= b {
        a
    } else {
        b
    }
}

/// Minimum cost of settling every point of `s`, with candidates `f` and
/// cost `mm` per disk: the lowest point is abandoned (cost 1) or covered by
/// some candidate containing it (cost `mm`), whichever leads to less.
pub open spec fn opt_cost(f: Seq<u128>, mm: nat, s: Set<int>) -> nat
    decreases s.len(), f.len() + 1,
    when s.finite()
{
    if s.len() == 0 {
        0
    } else {
        branch_min(f, mm, s, lowest(s), 0)
    }
}

/// The best way to settle `s` given that its point `u` is abandoned or
/// covered by one of the candidates `f[j..]`.
pub open spec fn branch_min(f: Seq<u128>, mm: nat, s: Set<int>, u: int, j: int) -> nat
    decreases s.len(), f.len() - j,
    when s.finite() && s.contains(u) && 0 <= j <= f.len()
{
    if j >= f.len() {
        1 + opt_cost(f, mm, s.remove(u))
    } else {
        let rest = branch_min(f, mm, s, u, j + 1);
        if pts(f[j]).contains(u) {
            proof {
                lemma_diff_smaller(s, pts(f[j]), u);
            }
            min_nat(mm + opt_cost(f, mm, s.difference(pts(f[j]))), rest)
        } else {
            rest
        }
    }
}

/// Removing a set that meets `s` in `u` shrinks a finite `s`.
pub proof fn lemma_diff_smaller(s: Set<int>, m: Set<int>, u: int)
    requires
        s.finite(),
        s.contains(u),
        m.contains(u),
    ensures
        s.difference(m).finite(),
        s.difference(m).len() < s.len(),
{
    lemma_len_subset(s.difference(m), s.remove(u));
}

/// The points the picked candidates `picks` cover together.
pub open spec fn covered_by(f: Seq<u128>, picks: Seq<int>) -> Set<int> {
    Set::new(|x: int| exists|k: int| 0 <= k < picks.len() && pts(f[picks[k]]).contains(x))
}

/// Whether every pick names a candidate.
pub open spec fn valid_picks(f: Seq<u128>, picks: Seq<int>) -> bool {
    forall|k: int| 0 <= k < picks.len() ==> 0 <= #[trigger] picks[k] < f.len()
}

/// Cost of a solution for the points `s`: `mm` per pick plus one per point
/// of `s` that no pick covers.
pub open spec fn strategy_cost(f: Seq<u128>, mm: nat, picks: Seq<int>, s: Set<int>) -> nat {
    mm * picks.len() + s.difference(covered_by(f, picks)).len()
}

/// A finite non-empty set of integers has a least element.
pub proof fn lemma_lowest(s: Set<int>)
    requires
        s.finite(),
        s.len() > 0,
    ensures
        s.contains(lowest(s)),
        forall|v: int| s.contains(v) ==> lowest(s) <= v,
    decreases s.len(),
{
    let x = s.choose();
    assert(s.contains(x)) by {
        lemma_set_empty_equivalency_len(s);
    }
    let t = s.remove(x);
    if t.len() == 0 {
        lemma_set_empty_equivalency_len(t);
        assert forall|v: int| s.contains(v) implies x <= v by {
            if v != x {
                assert(t.contains(v));
            }
        }
    } else {
        lemma_lowest(t);
        let y = lowest(t);
        if x < y {
            assert forall|v: int| s.contains(v) implies x <= v by {
                if v != x {
                    assert(t.contains(v));
                }
            }
        } else {
            assert forall|v: int| s.contains(v) implies y <= v by {
                if v != x {
                    assert(t.contains(v));
                }
            }
        }
    }
}

/// What `branch_min` is: no worse than each of its options, and equal to one.
pub proof fn lemma_branch(f: Seq<u128>, mm: nat, s: Set<int>, u: int, j: int)
    requires
        s.finite(),
        s.contains(u),
        0 <= j <= f.len(),
    ensures
        branch_min(f, mm, s, u, j) <= 1 + opt_cost(f, mm, s.remove(u)),
        forall|k: int|
            j <= k < f.len() && #[trigger] pts(f[k]).contains(u) ==> branch_min(f, mm, s, u, j)
                <= mm + opt_cost(f, mm, s.difference(pts(f[k]))),
        branch_min(f, mm, s, u, j) == 1 + opt_cost(f, mm, s.remove(u)) || exists|k: int|
            j <= k < f.len() && #[trigger] pts(f[k]).contains(u) && branch_min(f, mm, s, u, j)
                == mm + opt_cost(f, mm, s.difference(pts(f[k]))),
    decreases f.len() - j,
{
    if j < f.len() {
        lemma_branch(f, mm, s, u, j + 1);
        if pts(f[j]).contains(u) {
            lemma_diff_smaller(s, pts(f[j]), u);
        }
    }
}

/// The recursion for a non-empty set, in the form callers use.
pub proof fn lemma_opt_step(f: Seq<u128>, mm: nat, s: Set<int>)
    requires
        s.finite(),
        s.len() > 0,
    ensures
        s.contains(lowest(s)),
        forall|v: int| s.contains(v) ==> lowest(s) <= v,
        opt_cost(f, mm, s) <= 1 + opt_cost(f, mm, s.remove(lowest(s))),
        forall|k: int|
            0 <= k < f.len() && #[trigger] pts(f[k]).contains(lowest(s)) ==> opt_cost(f, mm, s)
                <= mm + opt_cost(f, mm, s.difference(pts(f[k]))),
        opt_cost(f, mm, s) == 1 + opt_cost(f, mm, s.remove(lowest(s))) || exists|k: int|
            0 <= k < f.len() && #[trigger] pts(f[k]).contains(lowest(s)) && opt_cost(f, mm, s)
                == mm + opt_cost(f, mm, s.difference(pts(f[k]))),
{
    lemma_lowest(s);
    lemma_branch(f, mm, s, lowest(s), 0);
}

/// Picks without the `k`-th one, together with it, cover what all the picks cover.
pub proof fn lemma_covered_remove(f: Seq<u128>, picks: Seq<int>, k: int)
    requires
        0 <= k < picks.len(),
    ensures
        covered_by(f, picks) == covered_by(f, picks.remove(k)).union(pts(f[picks[k]])),
        valid_picks(f, picks) ==> valid_picks(f, picks.remove(k)),
{
    let rest = picks.remove(k);
    assert forall|q: int| 0 <= q < rest.len() implies rest[q] == (if q < k {
        picks[q]
    } else {
        picks[q + 1]
    }) by {}
    let c = covered_by(f, picks);
    let c2 = covered_by(f, rest).union(pts(f[picks[k]]));
    assert forall|x: int| c.contains(x) implies c2.contains(x) by {
        let q = choose|q: int| 0 <= q < picks.len() && pts(f[picks[q]]).contains(x);
        if q < k {
            assert(pts(f[rest[q]]).contains(x));
        } else if q > k {
            assert(pts(f[rest[q - 1]]).contains(x));
        }
    }
    assert forall|x: int| c2.contains(x) implies c.contains(x) by {
        if !pts(f[picks[k]]).contains(x) {
            let q = choose|q: int| 0 <= q < rest.len() && pts(f[rest[q]]).contains(x);
            if q < k {
                assert(pts(f[picks[q]]).contains(x));
            } else {
                assert(pts(f[picks[q + 1]]).contains(x));
            }
        }
    }
    assert(c =~= c2);
}

/// The optimum is no worse than any particular solution.
pub proof fn lemma_opt_le_strategy(f: Seq<u128>, mm: nat, s: Set<int>, picks: Seq<int>)
    requires
        s.finite(),
        valid_picks(f, picks),
    ensures
        opt_cost(f, mm, s) <= strategy_cost(f, mm, picks, s),
    decreases s.len(),
{
    if s.len() > 0 {
        lemma_opt_step(f, mm, s);
        let u = lowest(s);
        let c = covered_by(f, picks);
        if exists|k: int| 0 <= k < picks.len() && pts(f[picks[k]]).contains(u) {
            let k = choose|k: int| 0 <= k < picks.len() && pts(f[picks[k]]).contains(u);
            let m = pts(f[picks[k]]);
            let rest = picks.remove(k);
            let s2 = s.difference(m);
            lemma_diff_smaller(s, m, u);
            lemma_covered_remove(f, picks, k);
            lemma_opt_le_strategy(f, mm, s2, rest);
            let c2 = covered_by(f, rest);
            assert(s2.difference(c2) =~= s.difference(c));
            assert(mm * picks.len() == mm + mm * rest.len()) by (nonlinear_arith)
                requires
                    picks.len() == rest.len() + 1,
            ;
        } else {
            let s2 = s.remove(u);
            lemma_opt_le_strategy(f, mm, s2, picks);
            assert(s.difference(c).contains(u));
            assert(s2.difference(c) =~= s.difference(c).remove(u));
        }
    }
}

/// A solution achieving [`opt_cost`], following the same recursion.
pub open spec fn opt_witness(f: Seq<u128>, mm: nat, s: Set<int>) -> Seq<int>
    decreases s.len(), f.len() + 1,
    when s.finite()
{
    if s.len() == 0 {
        Seq::empty()
    } else {
        branch_witness(f, mm, s, lowest(s), 0)
    }
}

/// A solution achieving [`branch_min`].
pub open spec fn branch_witness(f: Seq<u128>, mm: nat, s: Set<int>, u: int, j: int) -> Seq<int>
    decreases s.len(), f.len() - j,
    when s.finite() && s.contains(u) && 0 <= j <= f.len()
{
    if j >= f.len() {
        opt_witness(f, mm, s.remove(u))
    } else if pts(f[j]).contains(u) && mm + opt_cost(f, mm, s.difference(pts(f[j]))) <= branch_min(
        f,
        mm,
        s,
        u,
        j + 1,
    ) {
        proof {
            lemma_diff_smaller(s, pts(f[j]), u);
        }
        seq![j] + opt_witness(f, mm, s.difference(pts(f[j])))
    } else {
        branch_witness(f, mm, s, u, j + 1)
    }
}

/// Whether every pick names a candidate covering at least one point.
pub open spec fn useful_picks(f: Seq<u128>, picks: Seq<int>) -> bool {
    valid_picks(f, picks) && forall|k: int|
        0 <= k < picks.len() ==> nonempty_mask(#[trigger] f[picks[k]])
}

/// Whether a mask covers at least one point.
pub open spec fn nonempty_mask(m: u128) -> bool {
    exists|x: int| #[trigger] pts(m).contains(x)
}

/// Leaving out the first pick of a solution.
proof fn lemma_covered_first(f: Seq<u128>, j: int, rest: Seq<int>)
    ensures
        covered_by(f, seq![j] + rest) == pts(f[j]).union(covered_by(f, rest)),
{
    let w = seq![j] + rest;
    assert(w.remove(0) =~= rest);
    lemma_covered_remove(f, w, 0);
    assert(covered_by(f, rest).union(pts(f[j])) =~= pts(f[j]).union(covered_by(f, rest)));
}

/// Prepending a useful pick keeps a solution useful.
proof fn lemma_useful_cons(f: Seq<u128>, j: int, rest: Seq<int>, u: int)
    requires
        useful_picks(f, rest),
        0 <= j < f.len(),
        pts(f[j]).contains(u),
    ensures
        useful_picks(f, seq![j] + rest),
{
    let w = seq![j] + rest;
    assert forall|k: int| 0 <= k < w.len() implies 0 <= #[trigger] w[k] < f.len() by {
        if k > 0 {
            assert(w[k] == rest[k - 1]);
        }
    }
    assert forall|k: int| 0 <= k < w.len() implies nonempty_mask(#[trigger] f[w[k]]) by {
        if k == 0 {
            assert(pts(f[w[k]]).contains(u));
        } else {
            let r = rest[k - 1];
            assert(w[k] == r);
            assert(nonempty_mask(f[r]));
        }
    }
}

/// The witness achieves the optimum.
pub proof fn lemma_witness(f: Seq<u128>, mm: nat, s: Set<int>)
    requires
        s.finite(),
    ensures
        useful_picks(f, opt_witness(f, mm, s)),
        strategy_cost(f, mm, opt_witness(f, mm, s), s) <= opt_cost(f, mm, s),
    decreases s.len(), f.len() + 1,
{
    if s.len() > 0 {
        lemma_lowest(s);
        lemma_branch_witness(f, mm, s, lowest(s), 0);
        assert(opt_witness(f, mm, s) == branch_witness(f, mm, s, lowest(s), 0));
        assert(opt_cost(f, mm, s) == branch_min(f, mm, s, lowest(s), 0));
    } else {
        let w = opt_witness(f, mm, s);
        assert(w.len() == 0);
        assert(s.difference(covered_by(f, w)).len() == 0) by {
            lemma_len_subset(s.difference(covered_by(f, w)), s);
        }
        assert(mm * w.len() == 0) by (nonlinear_arith)
            requires
                w.len() == 0,
        ;
    }
}

/// The branch witness achieves the branch minimum.
pub proof fn lemma_branch_witness(f: Seq<u128>, mm: nat, s: Set<int>, u: int, j: int)
    requires
        s.finite(),
        s.contains(u),
        0 <= j <= f.len(),
    ensures
        useful_picks(f, branch_witness(f, mm, s, u, j)),
        strategy_cost(f, mm, branch_witness(f, mm, s, u, j), s) <= branch_min(f, mm, s, u, j),
    decreases s.len(), f.len() - j,
{
    let w = branch_witness(f, mm, s, u, j);
    if j >= f.len() {
        let s2 = s.remove(u);
        lemma_witness(f, mm, s2);
        let c = covered_by(f, w);
        if c.contains(u) {
            assert(s.difference(c) =~= s2.difference(c));
        } else {
            assert(s.difference(c) =~= s2.difference(c).insert(u));
        }
    } else if pts(f[j]).contains(u) && mm + opt_cost(f, mm, s.difference(pts(f[j]))) <= branch_min(
        f,
        mm,
        s,
        u,
        j + 1,
    ) {
        let m = pts(f[j]);
        let s2 = s.difference(m);
        lemma_diff_smaller(s, m, u);
        lemma_witness(f, mm, s2);
        let rest = opt_witness(f, mm, s2);
        lemma_covered_first(f, j, rest);
        assert(w == seq![j] + rest);
        assert(s.difference(covered_by(f, w)) =~= s2.difference(covered_by(f, rest)));
        assert(mm * w.len() == mm + mm * rest.len()) by (nonlinear_arith)
            requires
                w.len() == rest.len() + 1,
        ;
        lemma_useful_cons(f, j, rest, u);
    } else {
        lemma_branch_witness(f, mm, s, u, j + 1);
    }
}

/// Settling fewer points never costs more.
pub proof fn lemma_opt_monotone(f: Seq<u128>, mm: nat, a: Set<int>, b: Set<int>)
    requires
        b.finite(),
        a.subset_of(b),
    ensures
        a.finite(),
        opt_cost(f, mm, a) <= opt_cost(f, mm, b),
{
    lemma_len_subset(a, b);
    lemma_witness(f, mm, b);
    let w = opt_witness(f, mm, b);
    lemma_opt_le_strategy(f, mm, a, w);
    let c = covered_by(f, w);
    lemma_len_subset(a.difference(c), b.difference(c));
}

/// Whether `x` is one of the masks of `f`.
pub open spec fn member(f: Seq<u128>, x: u128) -> bool {
    exists|i: int| 0 <= i < f.len() && f[i] == x
}

/// Two candidate families have the same optimum when every member of `g` is
/// a member of `f` and every non-empty member of `f` lies inside a member of `g`.
pub proof fn lemma_opt_family(f: Seq<u128>, g: Seq<u128>, mm: nat, s: Set<int>)
    requires
        s.finite(),
        forall|j: int| 0 <= j < g.len() ==> member(f, #[trigger] g[j]),
        forall|i: int|
            #![trigger f[i]]
            0 <= i < f.len() && nonempty_mask(f[i]) ==> exists|j: int|
                0 <= j < g.len() && pts(f[i]).subset_of(#[trigger] pts(g[j])),
    ensures
        opt_cost(f, mm, s) == opt_cost(g, mm, s),
{
    // f is no worse: map g's best solution into f.
    lemma_witness(g, mm, s);
    let wg = opt_witness(g, mm, s);
    let to_f = wg.map_values(|j: int| choose|i: int| 0 <= i < f.len() && f[i] == g[j]);
    assert forall|k: int| 0 <= k < wg.len() implies 0 <= to_f[k] < f.len() && f[to_f[k]] == g[wg[k]] by {
        assert(0 <= wg[k] < g.len());
    }
    assert(covered_by(f, to_f) =~= covered_by(g, wg)) by {
        assert forall|x: int| covered_by(g, wg).contains(x) implies covered_by(f, to_f).contains(x) by {
            let k = choose|k: int| 0 <= k < wg.len() && pts(g[wg[k]]).contains(x);
            assert(pts(f[to_f[k]]).contains(x));
        }
        assert forall|x: int| covered_by(f, to_f).contains(x) implies covered_by(g, wg).contains(x) by {
            let k = choose|k: int| 0 <= k < to_f.len() && pts(f[to_f[k]]).contains(x);
            assert(pts(g[wg[k]]).contains(x));
        }
    }
    lemma_opt_le_strategy(f, mm, s, to_f);
    // g is no worse: replace each of f's best picks by a member of g containing it.
    lemma_witness(f, mm, s);
    let wf = opt_witness(f, mm, s);
    let to_g = wf.map_values(
        |i: int| choose|j: int| 0 <= j < g.len() && pts(f[i]).subset_of(pts(g[j])),
    );
    assert forall|k: int| 0 <= k < wf.len() implies 0 <= to_g[k] < g.len() && pts(f[wf[k]]).subset_of(
        pts(g[to_g[k]]),
    ) by {
        assert(0 <= wf[k] < f.len());
        let x = choose|x: int| pts(f[wf[k]]).contains(x);
        assert(pts(f[wf[k]]).contains(x));
    }
    assert(covered_by(f, wf).subset_of(covered_by(g, to_g))) by {
        assert forall|x: int| covered_by(f, wf).contains(x) implies covered_by(g, to_g).contains(x) by {
            let k = choose|k: int| 0 <= k < wf.len() && pts(f[wf[k]]).contains(x);
            assert(pts(g[to_g[k]]).contains(x));
        }
    }
    lemma_opt_le_strategy(g, mm, s, to_g);
    lemma_len_subset(s.difference(covered_by(g, to_g)), s.difference(covered_by(f, wf)));
}

// ---------------------------------------------------------------------------
// Admissible lower bounds
// ---------------------------------------------------------------------------

/// Cost of covering `p` points with `k` disks of at most `c` points each and
/// abandoning the rest.
pub open spec fn k_disk_cost(p: int, k: int, c: int, mm: int) -> int {
    k * mm + if p > k * c {
        p - k * c
    } else {
        0
    }
}

/// The least cost of `0..=k` disks for `p` points at `c` points a disk.
pub open spec fn min_disk_cost(p: int, c: int, mm: int, k: int) -> int
    decreases k,
{
    if k <= 0 {
        k_disk_cost(p, 0, c, mm)
    } else {
        let a = min_disk_cost(p, c, mm, k - 1);
        let b = k_disk_cost(p, k, c, mm);
        if b < a {
            b
        } else {
            a
        }
    }
}

/// The disk-count bound: the least cost over any number of disks (more
/// than `p` disks never pay).
pub open spec fn disk_count_bound(p: int, c: int, mm: int) -> int {
    min_disk_cost(p, c, mm, p)
}

/// `min_disk_cost` is at most each term and equal to one of them.
proof fn lemma_min_disk_cost(p: int, c: int, mm: int, k: int)
    requires
        k >= 0,
    ensures
        forall|kk: int| 0 <= kk <= k ==> min_disk_cost(p, c, mm, k) <= #[trigger] k_disk_cost(p, kk, c, mm),
        exists|kk: int| 0 <= kk <= k && min_disk_cost(p, c, mm, k) == #[trigger] k_disk_cost(p, kk, c, mm),
    decreases k,
{
    if k > 0 {
        lemma_min_disk_cost(p, c, mm, k - 1);
        let kk = choose|kk: int| 0 <= kk <= k - 1 && min_disk_cost(p, c, mm, k - 1) == #[trigger] k_disk_cost(p, kk, c, mm);
        if k_disk_cost(p, k, c, mm) < min_disk_cost(p, c, mm, k - 1) {
            assert(min_disk_cost(p, c, mm, k) == k_disk_cost(p, k, c, mm));
        } else {
            assert(min_disk_cost(p, c, mm, k) == k_disk_cost(p, kk, c, mm));
        }
    } else {
        assert(min_disk_cost(p, c, mm, 0) == k_disk_cost(p, 0, c, mm));
    }
}

/// Rounded-up quotient.
pub open spec fn ceil_div(a: int, b: int) -> int {
    (a + b - 1) / b
}

/// Every candidate covers at most `c` points.
pub open spec fn masks_at_most(f: Seq<u128>, c: int) -> bool {
    forall|j: int| 0 <= j < f.len() ==> (#[trigger] pts(f[j])).len() <= c
}

/// Global bound: with no disk covering more than `c` points, some number of
/// disks `k` explains the cost.
pub proof fn lemma_global_bound(f: Seq<u128>, mm: nat, s: Set<int>, c: int)
    requires
        s.finite(),
        c >= 1,
        masks_at_most(f, c),
    ensures
        exists|k: int| k >= 0 && #[trigger] k_disk_cost(s.len() as int, k, c, mm as int) <= opt_cost(f, mm, s),
    decreases s.len(),
{
    let p = s.len() as int;
    if p == 0 {
        assert(k_disk_cost(p, 0, c, mm as int) == 0);
    } else {
        lemma_opt_step(f, mm, s);
        let u = lowest(s);
        if opt_cost(f, mm, s) == 1 + opt_cost(f, mm, s.remove(u)) {
            let s2 = s.remove(u);
            lemma_global_bound(f, mm, s2, c);
            let k = choose|k: int| k >= 0 && #[trigger] k_disk_cost(s2.len() as int, k, c, mm as int) <= opt_cost(f, mm, s2);
            assert(k_disk_cost(p, k, c, mm as int) <= 1 + k_disk_cost(p - 1, k, c, mm as int));
        } else {
            let j = choose|j: int| 0 <= j < f.len() && #[trigger] pts(f[j]).contains(u) && opt_cost(f, mm, s)
                == mm + opt_cost(f, mm, s.difference(pts(f[j])));
            let m = pts(f[j]);
            let s2 = s.difference(m);
            lemma_diff_smaller(s, m, u);
            lemma_global_bound(f, mm, s2, c);
            let k = choose|k: int| k >= 0 && #[trigger] k_disk_cost(s2.len() as int, k, c, mm as int) <= opt_cost(f, mm, s2);
            lemma_pts_finite(f[j]);
            lemma_len_intersect(m, s);
            assert(s.intersect(m) =~= m.intersect(s));
            assert(s.len() == s2.len() + s.intersect(m).len()) by {
                lemma_set_difference_len(s, m);
            }
            let p2 = s2.len() as int;
            assert(p2 >= p - c);
            assert(k_disk_cost(p, k + 1, c, mm as int) <= mm + k_disk_cost(p2, k, c, mm as int)) by (nonlinear_arith)
                requires
                    p2 >= p - c,
                    k >= 0,
                    c >= 1,
            ;
        }
    }
}

/// The lowest `k` disk-count cost is at most the optimum.
pub proof fn lemma_global_bound_use(f: Seq<u128>, mm: nat, s: Set<int>, c: int, b: int)
    requires
        s.finite(),
        c >= 1,
        masks_at_most(f, c),
        forall|k: int| k >= 0 ==> b <= #[trigger] k_disk_cost(s.len() as int, k, c, mm as int),
    ensures
        b <= opt_cost(f, mm, s),
{
    lemma_global_bound(f, mm, s, c);
    let k = choose|k: int| k >= 0 && #[trigger] k_disk_cost(s.len() as int, k, c, mm as int) <= opt_cost(f, mm, s);
    assert(b <= k_disk_cost(s.len() as int, k, c, mm as int));
}

/// Every candidate holds at most one point of `is`.
pub open spec fn conflict_free(f: Seq<u128>, is: Set<int>) -> bool {
    forall|j: int| 0 <= j < f.len() ==> (#[trigger] pts(f[j])).intersect(is).len() <= 1
}

/// Independent-set bound: no disk covers two points of `is`, so each costs
/// at least one.
pub proof fn lemma_conflict_bound(f: Seq<u128>, mm: nat, s: Set<int>, is: Set<int>)
    requires
        s.finite(),
        mm >= 1,
        conflict_free(f, is),
    ensures
        s.intersect(is).len() <= opt_cost(f, mm, s),
    decreases s.len(),
{
    lemma_len_intersect(s, is);
    if s.len() > 0 {
        lemma_opt_step(f, mm, s);
        let u = lowest(s);
        if opt_cost(f, mm, s) == 1 + opt_cost(f, mm, s.remove(u)) {
            let s2 = s.remove(u);
            lemma_conflict_bound(f, mm, s2, is);
            if is.contains(u) {
                assert(s2.intersect(is) =~= s.intersect(is).remove(u));
            } else {
                assert(s2.intersect(is) =~= s.intersect(is));
            }
        } else {
            let j = choose|j: int| 0 <= j < f.len() && #[trigger] pts(f[j]).contains(u) && opt_cost(f, mm, s)
                == mm + opt_cost(f, mm, s.difference(pts(f[j])));
            let m = pts(f[j]);
            let s2 = s.difference(m);
            lemma_diff_smaller(s, m, u);
            lemma_conflict_bound(f, mm, s2, is);
            lemma_pts_finite(f[j]);
            let a = s2.intersect(is);
            let b = m.intersect(is);
            lemma_len_intersect(m, is);
            lemma_len_intersect(s2, is);
            assert(s.intersect(is).subset_of(a.union(b)));
            lemma_len_union(a, b);
            lemma_len_subset(s.intersect(is), a.union(b));
        }
    }
}

/// Sum of `share[i]` over the points `i < k` of `t`.
pub open spec fn share_sum(share: Seq<u64>, t: Set<int>, k: int) -> int
    decreases k,
{
    if k <= 0 {
        0
    } else {
        share_sum(share, t, k - 1) + if t.contains(k - 1) {
            share[k - 1] as int
        } else {
            0
        }
    }
}

/// Number of points `i < k` of `t`.
pub open spec fn count_below(t: Set<int>, k: int) -> int
    decreases k,
{
    if k <= 0 {
        0
    } else {
        count_below(t, k - 1) + if t.contains(k - 1) {
            1int
        } else {
            0
        }
    }
}

proof fn lemma_share_sum_split(share: Seq<u64>, t: Set<int>, m: Set<int>, k: int)
    ensures
        share_sum(share, t, k) == share_sum(share, t.intersect(m), k) + share_sum(share, t.difference(m), k),
    decreases k,
{
    if k > 0 {
        lemma_share_sum_split(share, t, m, k - 1);
    }
}

proof fn lemma_share_sum_remove(share: Seq<u64>, t: Set<int>, x: int, k: int)
    requires
        t.contains(x),
        0 <= x < k,
    ensures
        share_sum(share, t, k) == share[x] + share_sum(share, t.remove(x), k),
    decreases k,
{
    if k - 1 > x {
        lemma_share_sum_remove(share, t, x, k - 1);
    } else {
        assert(share_sum(share, t, k - 1) == share_sum(share, t.remove(x), k - 1)) by {
            lemma_share_sum_same(share, t, t.remove(x), k - 1);
        }
    }
}

proof fn lemma_share_sum_same(share: Seq<u64>, t: Set<int>, t2: Set<int>, k: int)
    requires
        forall|i: int| 0 <= i < k ==> (t.contains(i) <==> t2.contains(i)),
    ensures
        share_sum(share, t, k) == share_sum(share, t2, k),
    decreases k,
{
    if k > 0 {
        lemma_share_sum_same(share, t, t2, k - 1);
    }
}

proof fn lemma_share_sum_bounded(share: Seq<u64>, t: Set<int>, k: int, c: int, b: int)
    requires
        c >= 0,
        forall|i: int| 0 <= i < k && t.contains(i) ==> c * (share[i] as int) <= b,
    ensures
        c * share_sum(share, t, k) <= count_below(t, k) * b,
        share_sum(share, t, k) >= 0,
        count_below(t, k) >= 0,
    decreases k,
{
    if k > 0 {
        lemma_share_sum_bounded(share, t, k - 1, c, b);
        let x = if t.contains(k - 1) { share[k - 1] as int } else { 0 };
        let y = if t.contains(k - 1) { 1int } else { 0 };
        assert(c * x <= y * b);
        assert(c * share_sum(share, t, k) == c * share_sum(share, t, k - 1) + c * x) by (nonlinear_arith)
            requires
                share_sum(share, t, k) == share_sum(share, t, k - 1) + x,
        ;
        assert(count_below(t, k) * b == count_below(t, k - 1) * b + y * b) by (nonlinear_arith)
            requires
                count_below(t, k) == count_below(t, k - 1) + y,
        ;
    }
}

proof fn lemma_count_below_len(t: Set<int>, k: int)
    requires
        k >= 0,
        t.subset_of(first_n(k)),
    ensures
        t.finite(),
        count_below(t, k) == t.len(),
    decreases k,
{
    if k == 0 {
        assert(t =~= Set::<int>::empty());
    } else {
        let t2 = t.remove(k - 1);
        lemma_count_below_len(t2, k - 1);
        lemma_count_below_same(t, t2, k - 1);
        if t.contains(k - 1) {
            assert(t =~= t2.insert(k - 1));
        } else {
            assert(t =~= t2);
        }
    }
}

proof fn lemma_count_below_same(t: Set<int>, t2: Set<int>, k: int)
    requires
        forall|i: int| 0 <= i < k ==> (t.contains(i) <==> t2.contains(i)),
    ensures
        count_below(t, k) == count_below(t2, k),
    decreases k,
{
    if k > 0 {
        lemma_count_below_same(t, t2, k - 1);
    }
}

/// The per-point shares fit every candidate: a point's share times the size
/// of any candidate covering it is at most one disk's cost.
pub open spec fn shares_fit(f: Seq<u128>, share: Seq<u64>, mm: nat, scale: int) -> bool {
    &&& forall|i: int| 0 <= i < share.len() ==> (#[trigger] share[i]) <= scale
    &&& forall|j: int, i: int|
        0 <= j < f.len() && 0 <= i < share.len() && #[trigger] pts(f[j]).contains(i) ==> pts(f[j]).len()
            * (#[trigger] share[i] as int) <= mm * scale
}

/// Dual-fitting bound: settling `s` costs at least its points' total share.
pub proof fn lemma_share_bound(f: Seq<u128>, mm: nat, s: Set<int>, share: Seq<u64>, scale: int)
    requires
        s.subset_of(first_n(share.len() as int)),
        scale >= 0,
        shares_fit(f, share, mm, scale),
    ensures
        s.finite(),
        share_sum(share, s, share.len() as int) <= scale * opt_cost(f, mm, s),
    decreases s.len(),
{
    let n = share.len() as int;
    lemma_count_below_len(s, n);
    if s.len() == 0 {
        assert(share_sum(share, s, n) == 0) by {
            lemma_share_sum_same(share, s, Set::<int>::empty(), n);
            lemma_share_sum_bounded(share, Set::<int>::empty(), n, 1, 0);
            lemma_count_below_len(Set::<int>::empty(), n);
        }
    } else {
        lemma_opt_step(f, mm, s);
        let u = lowest(s);
        if opt_cost(f, mm, s) == 1 + opt_cost(f, mm, s.remove(u)) {
            let s2 = s.remove(u);
            lemma_share_bound(f, mm, s2, share, scale);
            lemma_share_sum_remove(share, s, u, n);
            assert(scale * opt_cost(f, mm, s) == scale + scale * opt_cost(f, mm, s2)) by (nonlinear_arith)
                requires
                    opt_cost(f, mm, s) == 1 + opt_cost(f, mm, s2),
            ;
        } else {
            let j = choose|j: int| 0 <= j < f.len() && #[trigger] pts(f[j]).contains(u) && opt_cost(f, mm, s)
                == mm + opt_cost(f, mm, s.difference(pts(f[j])));
            let m = pts(f[j]);
            let s2 = s.difference(m);
            lemma_diff_smaller(s, m, u);
            lemma_share_bound(f, mm, s2, share, scale);
            lemma_share_sum_split(share, s, m, n);
            let t = s.intersect(m);
            let c = m.len() as int;
            lemma_pts_finite(f[j]);
            assert(m.len() > 0) by {
                lemma_set_empty_equivalency_len(m);
            }
            assert forall|i: int| 0 <= i < n && t.contains(i) implies c * (share[i] as int) <= mm * scale by {
                assert(pts(f[j]).contains(i));
            }
            lemma_share_sum_bounded(share, t, n, c, mm * scale);
            lemma_count_below_len(t, n);
            lemma_len_intersect(m, s);
            assert(t =~= m.intersect(s));
            let st = share_sum(share, t, n);
            let ct = t.len() as int;
            assert(st <= mm * scale) by (nonlinear_arith)
                requires
                    c * st <= ct * (mm * scale),
                    ct <= c,
                    c >= 1,
                    mm * scale >= 0,
                    st >= 0,
            ;
            assert(scale * opt_cost(f, mm, s) == scale * mm + scale * opt_cost(f, mm, s2)) by (nonlinear_arith)
                requires
                    opt_cost(f, mm, s) == mm + opt_cost(f, mm, s2),
            ;
        }
    }
}

// ---------------------------------------------------------------------------
// Branch and bound
// ---------------------------------------------------------------------------

/// Largest window the solver accepts (one bit per point of a `u128`).
pub const MAX_EXACT_POINTS: usize = 128;
/// Largest window of the single-bound variant.
pub const MAX_EXACT_POINTS_BASIC: usize = 64;
/// Node budget: past it the search gives up.
pub const MAX_NODES: usize = 200000;
/// Fixed-point scale of the per-point shares (2^20).
pub const SHARE_SCALE: u64 = 1048576;

/// Most nodes a search tree can hold below `d` unsettled points when each
/// node tries at most `b` candidates and one abandonment.
pub open spec fn tree_size(b: nat, d: nat) -> nat
    decreases d,
{
    if d == 0 {
        1
    } else {
        1 + (b + 1) * tree_size(b, (d - 1) as nat)
    }
}

/// The tree bound grows with depth and with branching.
proof fn lemma_tree_size_mono(b: nat, b2: nat, d: nat, d2: nat)
    requires
        b <= b2,
        d <= d2,
    ensures
        tree_size(b, d) <= tree_size(b2, d2),
        tree_size(b, d) >= 1,
    decreases d2,
{
    if d2 > 0 {
        if d == d2 {
            lemma_tree_size_mono(b, b2, (d - 1) as nat, (d2 - 1) as nat);
            let t = tree_size(b, (d - 1) as nat);
            let t2 = tree_size(b2, (d2 - 1) as nat);
            assert((b + 1) * t <= (b2 + 1) * t2) by (nonlinear_arith)
                requires
                    b <= b2,
                    t <= t2,
                    t >= 0,
            ;
        } else {
            lemma_tree_size_mono(b, b2, d, (d2 - 1) as nat);
            let t2 = tree_size(b2, (d2 - 1) as nat);
            assert(t2 <= 1 + (b2 + 1) * t2) by (nonlinear_arith)
                requires
                    t2 >= 0,
            ;
        }
    }
}

/// A strictly increasing list of values below `k` has at most `k` entries.
proof fn lemma_increasing_bounded(l: Seq<u32>, k: int)
    requires
        0 <= k,
        forall|a: int, b: int| 0 <= a < b < l.len() ==> l[a] < l[b],
        forall|a: int| 0 <= a < l.len() ==> (l[a] as int) < k,
    ensures
        l.len() <= k,
    decreases l.len(),
{
    if l.len() > 0 {
        let last = l[l.len() - 1] as int;
        let d = l.drop_last();
        assert forall|a: int| 0 <= a < d.len() implies (d[a] as int) < last by {
            assert(l[a] < l[l.len() - 1]);
        }
        lemma_increasing_bounded(d, last);
        assert(last < k);
    }
}

/// The picks as integers.
pub open spec fn picks_of(v: Seq<u32>) -> Seq<int> {
    v.map_values(|x: u32| x as int)
}

/// The search's lower bound on settling the points `s`: the disk-count
/// bound for disks of at most `c` points, and with `full` also the
/// rounded-up sum of the points' shares and the number of points of `s` in
/// `is`.
pub open spec fn settle_bound(s: Set<int>, c: int, mm: int, full: bool, share: Seq<u64>, is: Set<int>) -> int {
    let d = disk_count_bound(s.len() as int, c, mm);
    if !full {
        d
    } else {
        let dual = ceil_div(share_sum(share, s, share.len() as int), SHARE_SCALE as int);
        let apart = s.intersect(is).len() as int;
        let a = if dual > d { dual } else { d };
        if apart > a { apart } else { a }
    }
}

/// The search's lower bound is admissible: it never exceeds the least cost
/// of settling `s`, so pruning on it never cuts off an optimal branch. It
/// is at most the number of points, and nothing for no points.
pub proof fn lemma_settle_bound_admissible(
    f: Seq<u128>,
    mm: nat,
    s: Set<int>,
    c: int,
    full: bool,
    share: Seq<u64>,
    is: Set<int>,
)
    requires
        s.finite(),
        c >= 1,
        mm >= 1,
        masks_at_most(f, c),
        full ==> s.subset_of(first_n(share.len() as int)),
        full ==> shares_fit(f, share, mm, SHARE_SCALE as int),
        full ==> conflict_free(f, is),
    ensures
        settle_bound(s, c, mm as int, full, share, is) <= opt_cost(f, mm, s),
        settle_bound(s, c, mm as int, full, share, is) <= s.len(),
        s.len() == 0 ==> settle_bound(s, c, mm as int, full, share, is) == 0,
{
    let p = s.len() as int;
    let o = opt_cost(f, mm, s) as int;
    lemma_global_bound(f, mm, s, c);
    let k = choose|k: int| k >= 0 && #[trigger] k_disk_cost(p, k, c, mm as int) <= opt_cost(f, mm, s);
    lemma_min_disk_cost(p, c, mm as int, p);
    if k <= p {
        assert(disk_count_bound(p, c, mm as int) <= k_disk_cost(p, k, c, mm as int));
    } else {
        assert(k_disk_cost(p, p, c, mm as int) <= k_disk_cost(p, k, c, mm as int)) by (nonlinear_arith)
            requires
                k > p,
                p >= 0,
                c >= 1,
                mm >= 1,
        ;
        assert(disk_count_bound(p, c, mm as int) <= k_disk_cost(p, p, c, mm as int));
    }
    lemma_opt_le_strategy(f, mm, s, Seq::<int>::empty());
    assert(s.difference(covered_by(f, Seq::<int>::empty())) =~= s);
    assert(o <= p);
    if p == 0 {
        assert(k_disk_cost(0, 0, c, mm as int) == 0);
        assert(disk_count_bound(0, c, mm as int) == 0);
    }
    if full {
        lemma_share_bound(f, mm, s, share, SHARE_SCALE as int);
        let sum = share_sum(share, s, share.len() as int);
        assert(ceil_div(sum, SHARE_SCALE as int) <= o) by (nonlinear_arith)
            requires
                sum <= SHARE_SCALE * o,
                SHARE_SCALE == 1048576,
        ;
        lemma_conflict_bound(f, mm, s, is);
        lemma_len_intersect(s, is);
        if p == 0 {
            assert(s =~= Set::<int>::empty());
            lemma_share_sum_bounded(share, s, share.len() as int, 1, 0);
            lemma_count_below_len(s, share.len() as int);
            assert(ceil_div(0, SHARE_SCALE as int) == 0) by (nonlinear_arith);
        }
    }
}

/// The search state. The candidate data is fixed for a run; the search
/// moves `nodes`, `best_cost`, `best_choice` and `stack`.
struct Bb<'a> {
    m: usize,
    n: usize,
    masks: &'a [u128],
    /// For each point, the candidates covering it, in candidate order.
    by_point: &'a [Vec<u32>],
    /// Scaled dual-fitting share per point.
    share: &'a [u64],
    /// Points that pairwise never share a candidate.
    is_mask: u128,
    maxcov: u32,
    /// Whether the share and independent-set bounds are used besides the
    /// global one.
    full_bounds: bool,
    nodes: usize,
    best_cost: usize,
    best_choice: Vec<u32>,
    stack: Vec<u32>,
    /// The cost a solution must beat to be recorded.
    ceiling: Ghost<nat>,
}

impl<'a> Bb<'a> {
    spec fn fam(&self) -> Seq<u128> {
        self.masks@
    }

    spec fn full(&self) -> Set<int> {
        first_n(self.n as int)
    }

    /// The fixed candidate data is consistent.
    spec fn setup_ok(&self) -> bool {
        &&& 1 <= self.n <= 128
        &&& 1 <= self.m
        &&& self.m * 1024 <= usize::MAX
        &&& self.m < 0x1000_0000_0000
        &&& self.masks@.len() <= u32::MAX
        &&& 1 <= self.maxcov <= 128
        &&& masks_at_most(self.fam(), self.maxcov as int)
        &&& self.by_point@.len() == self.n
        &&& forall|i: int| 0 <= i < self.n ==> (#[trigger] self.by_point@[i])@.len() <= self.masks@.len()
        &&& forall|i: int, q: int|
            #![trigger self.by_point@[i]@[q]]
            0 <= i < self.n && 0 <= q < self.by_point@[i]@.len() ==> {
                &&& (self.by_point@[i]@[q] as int) < self.masks@.len()
                &&& bit(self.masks@[self.by_point@[i]@[q] as int], i)
            }
        &&& forall|i: int, j: int|
            0 <= i < self.n && 0 <= j < self.masks@.len() && #[trigger] bit(self.masks@[j], i)
                ==> self.by_point@[i]@.contains(j as u32)
        &&& self.full_bounds ==> {
            &&& self.share@.len() == self.n
            &&& shares_fit(self.fam(), self.share@, self.m as nat, SHARE_SCALE as int)
            &&& conflict_free(self.fam(), pts(self.is_mask))
        }
    }

    /// The recorded best is consistent.
    spec fn best_ok(&self) -> bool {
        &&& self.best_cost <= self.ceiling@
        &&& valid_picks(self.fam(), picks_of(self.best_choice@))
        &&& self.best_cost < self.ceiling@ ==> strategy_cost(
            self.fam(),
            self.m as nat,
            picks_of(self.best_choice@),
            self.full(),
        ) <= self.best_cost
        &&& valid_picks(self.fam(), picks_of(self.stack@))
    }

    spec fn inv(&self) -> bool {
        self.setup_ok() && self.best_ok()
    }

    spec fn same_setup(&self, other: &Bb<'a>) -> bool {
        &&& self.m == other.m
        &&& self.n == other.n
        &&& self.masks == other.masks
        &&& self.by_point == other.by_point
        &&& self.share == other.share
        &&& self.is_mask == other.is_mask
        &&& self.maxcov == other.maxcov
        &&& self.full_bounds == other.full_bounds
        &&& self.ceiling == other.ceiling
    }

    /// The path so far (picks `stack`, points `rem` still unsettled) costs at
    /// least what its picks and abandoned points are worth.
    spec fn path_ok(&self, rem: u128, cost: usize) -> bool {
        &&& pts(rem).subset_of(self.full())
        &&& cost <= self.m * (self.n - pts(rem).len())
        &&& self.m * self.stack@.len() + self.full().difference(pts(rem)).difference(
            covered_by(self.fam(), picks_of(self.stack@)),
        ).len() <= cost
    }

    /// The largest of the bounds on settling `rem`: the disk-count bound,
    /// and with the full bounds also the rounded-up sum of the points'
    /// shares and the number of pairwise-apart points left.
    spec fn lb_value(&self, rem: u128) -> int {
        settle_bound(pts(rem), self.maxcov as int, self.m as int, self.full_bounds, self.share@, pts(self.is_mask))
    }

    /// Admissible lower bound on the cost of settling `rem`.
    fn lb(&self, rem: u128) -> (r: usize)
        requires
            self.setup_ok(),
            pts(rem).subset_of(self.full()),
        ensures
            r <= opt_cost(self.fam(), self.m as nat, pts(rem)),
            r <= 128,
            r == self.lb_value(rem),
            r <= pts(rem).len(),
            rem == 0 ==> r == 0,
    {
        proof {
            lemma_pts_finite(rem);
            lemma_opt_le_strategy(self.fam(), self.m as nat, pts(rem), Seq::<int>::empty());
            assert(pts(rem).difference(covered_by(self.fam(), Seq::<int>::empty())) =~= pts(rem));
            if rem == 0 {
                lemma_pts_zero();
            }
        }
        let p = popcount(rem) as usize;
        if p == 0 {
            proof {
                assert(min_disk_cost(0, self.maxcov as int, self.m as int, 0) == 0);
                if self.full_bounds {
                    assert(pts(rem) =~= Set::<int>::empty());
                    lemma_share_sum_bounded(self.share@, pts(rem), self.n as int, 1, 0);
                    assert(pts(rem).intersect(pts(self.is_mask)) =~= Set::<int>::empty());
                    assert(ceil_div(0, SHARE_SCALE as int) == 0) by (nonlinear_arith);
                }
            }
            return 0;
        }
        let maxcov = self.maxcov as usize;
        let ghost c = maxcov as int;
        let ghost mm = self.m as int;
        // (a) k disks cover at most k·maxcov points; the rest are abandoned.
        let mut best = p;
        let mut k: usize = 1;
        assert(k_disk_cost(p as int, 0, c, mm) == p);
        while (k - 1) * maxcov < p
            invariant
                1 <= maxcov <= 128,
                1 <= p <= 128,
                c == maxcov,
                mm == self.m,
                1 <= self.m,
                self.m * 1024 <= usize::MAX,
                1 <= k <= p + 1,
                (k - 1) * maxcov <= 256,
                best <= p,
                forall|kk: int| 0 <= kk < k ==> best <= #[trigger] k_disk_cost(p as int, kk, c, mm),
                exists|kk: int| 0 <= kk < k && kk <= p && best == #[trigger] k_disk_cost(p as int, kk, c, mm),
            decreases p - (k - 1),
        {
            assert((k - 1) * maxcov >= k - 1) by (nonlinear_arith)
                requires
                    maxcov >= 1,
                    k >= 1,
            ;
            assert(k * maxcov <= 129 * 128) by (nonlinear_arith)
                requires
                    maxcov <= 128,
                    k <= 129,
            ;
            assert(k * self.m <= 129 * self.m) by (nonlinear_arith)
                requires
                    k <= 129,
            ;
            assert(k * maxcov == (k - 1) * maxcov + maxcov) by (nonlinear_arith)
                requires
                    k >= 1,
            ;
            let km = k * maxcov;
            let covered = if km < p {
                km
            } else {
                p
            };
            let cand = k * self.m + (p - covered);
            assert(cand == k_disk_cost(p as int, k as int, c, mm));
            if cand < best {
                best = cand;
            }
            k = k + 1;
        }
        proof {
            assert forall|kk: int| kk >= 0 implies best <= #[trigger] k_disk_cost(p as int, kk, c, mm) by {
                if kk >= k {
                    assert(kk * c >= (k - 1) * c) by (nonlinear_arith)
                        requires
                            kk >= k - 1,
                            c >= 1,
                    ;
                    assert(kk * mm >= (k - 1) * mm) by (nonlinear_arith)
                        requires
                            kk >= k - 1,
                            mm >= 1,
                    ;
                    assert(k_disk_cost(p as int, k - 1, c, mm) == (k - 1) * mm);
                }
            }
            lemma_global_bound_use(self.fam(), self.m as nat, pts(rem), c, best as int);
            lemma_min_disk_cost(p as int, c, mm, p as int);
            let kk = choose|kk: int| 0 <= kk < k && kk <= p && best == #[trigger] k_disk_cost(p as int, kk, c, mm);
            let kb = choose|kb: int| 0 <= kb <= p && min_disk_cost(p as int, c, mm, p as int) == #[trigger] k_disk_cost(p as int, kb, c, mm);
            assert(min_disk_cost(p as int, c, mm, p as int) <= k_disk_cost(p as int, kk, c, mm));
            assert(best <= k_disk_cost(p as int, kb, c, mm));
            assert(best == disk_count_bound(pts(rem).len() as int, c, mm));
        }
        if !self.full_bounds {
            return best;
        }
        // (b) every covered point pays its share of a disk, every abandoned one 1.
        let ghost n = self.n as int;
        let mut sum: u64 = 0;
        let mut r = rem;
        proof {
            lemma_pts_finite(r);
            lemma_share_sum_bounded(self.share@, pts(rem), n, 1, SHARE_SCALE as int);
            lemma_count_below_len(pts(rem), n);
        }
        while r != 0
            invariant
                self.setup_ok(),
                self.full_bounds,
                n == self.n,
                pts(r).subset_of(pts(rem)),
                pts(rem).subset_of(first_n(n)),
                sum + share_sum(self.share@, pts(r), n) == share_sum(self.share@, pts(rem), n),
                share_sum(self.share@, pts(rem), n) <= 128 * SHARE_SCALE,
                share_sum(self.share@, pts(r), n) >= 0,
            decreases pts(r).len(),
        {
            proof {
                lemma_pts_finite(r);
            }
            let t = lowest_bit(r);
            assert(pts(r).contains(t as int));
            let ghost r0 = r;
            proof {
                lemma_share_sum_remove(self.share@, pts(r), t as int, n);
                lemma_pts_remove(r, t as u128);
                lemma_share_sum_bounded(self.share@, pts(r).remove(t as int), n, 1, SHARE_SCALE as int);
            }
            sum = sum + self.share[t as usize];
            r = r & !(1u128 << t);
            assert(pts(r) == pts(r0).remove(t as int));
        }
        proof {
            lemma_pts_zero();
            lemma_share_sum_bounded(self.share@, Set::<int>::empty(), n, 1, 0);
            lemma_share_bound(self.fam(), self.m as nat, pts(rem), self.share@, SHARE_SCALE as int);
        }
        let dual = ((sum + SHARE_SCALE - 1) / SHARE_SCALE) as usize;
        proof {
            let o = opt_cost(self.fam(), self.m as nat, pts(rem)) as int;
            assert(dual <= o) by (nonlinear_arith)
                requires
                    dual == (sum + SHARE_SCALE - 1) / (SHARE_SCALE as int),
                    sum <= SHARE_SCALE * o,
                    SHARE_SCALE == 1048576,
            ;
            assert(dual <= 128) by (nonlinear_arith)
                requires
                    dual == (sum + SHARE_SCALE - 1) / (SHARE_SCALE as int),
                    sum <= 128 * SHARE_SCALE,
                    SHARE_SCALE == 1048576,
            ;
        }
        // (c) points pairwise beyond a disk's reach each cost at least 1.
        let is_cnt = popcount(rem & self.is_mask) as usize;
        proof {
            lemma_pts_and(rem, self.is_mask);
            lemma_conflict_bound(self.fam(), self.m as nat, pts(rem), pts(self.is_mask));
            lemma_len_intersect(pts(rem), pts(self.is_mask));
        }
        let mut out = best;
        if dual > out {
            out = dual;
        }
        if is_cnt > out {
            out = is_cnt;
        }
        out
    }
}

/// A copy of a list of indices.
pub(crate) fn copy_u32s(v: &Vec<u32>) -> (r: Vec<u32>)
    ensures
        r@ == v@,
{
    let mut r: Vec<u32> = Vec::new();
    let mut i: usize = 0;
    while i < v.len()
        invariant
            i <= v.len(),
            r@ == v@.subrange(0, i as int),
        decreases v.len() - i,
    {
        r.push(v[i]);
        i = i + 1;
        assert(r@ =~= v@.subrange(0, i as int));
    }
    assert(v@.subrange(0, v.len() as int) =~= v@);
    r
}

impl<'a> Bb<'a> {
    /// The candidates covering point `u`, largest residual coverage of `rem`
    /// first, lower candidate index first among equals.
    fn covering_order(&self, rem: u128, u: usize) -> (r: Vec<u32>)
        requires
            self.setup_ok(),
            u < self.n,
        ensures
            forall|x: u32| r@.contains(x) <==> self.by_point@[u as int]@.contains(x),
            r.len() == self.by_point@[u as int]@.len(),
    {
        let list = &self.by_point[u];
        let mut counts: Vec<u32> = Vec::new();
        let mut order: Vec<u32> = Vec::new();
        let mut i: usize = 0;
        while i < list.len()
            invariant
                self.setup_ok(),
                u < self.n,
                list@ == self.by_point@[u as int]@,
                i <= list.len(),
                counts.len() == order.len(),
                order.len() == i,
                forall|x: u32| order@.contains(x) <==> list@.subrange(0, i as int).contains(x),
            decreases list.len() - i,
        {
            let ci = list[i];
            assert(self.by_point@[u as int]@[i as int] == ci);
            let cnt = popcount(self.masks[ci as usize] & rem);
            let mut pos: usize = 0;
            while pos < order.len() && (counts[pos] > cnt || (counts[pos] == cnt && order[pos] < ci))
                invariant
                    pos <= order.len(),
                    counts.len() == order.len(),
                decreases order.len() - pos,
            {
                pos = pos + 1;
            }
            let ghost before = order@;
            counts.insert(pos, cnt);
            order.insert(pos, ci);
            i = i + 1;
            assert forall|x: u32| order@.contains(x) <==> list@.subrange(0, i as int).contains(x) by {
                if order@.contains(x) {
                    let q = choose|q: int| 0 <= q < order@.len() && order@[q] == x;
                    if q < pos {
                        assert(before[q] == x);
                        assert(before.contains(x));
                    } else if q > pos {
                        assert(before[q - 1] == x);
                        assert(before.contains(x));
                    }
                    if x != ci {
                        let q2 = choose|q2: int| 0 <= q2 < i - 1 && #[trigger] list@.subrange(0, i - 1)[q2] == x;
                        assert(list@.subrange(0, i as int)[q2] == x);
                    } else {
                        assert(list@.subrange(0, i as int)[i - 1] == x);
                    }
                }
                if list@.subrange(0, i as int).contains(x) {
                    let q = choose|q: int| 0 <= q < i && #[trigger] list@.subrange(0, i as int)[q] == x;
                    if q == i - 1 {
                        assert(order@[pos as int] == x);
                    } else {
                        assert(list@.subrange(0, i - 1)[q] == x);
                        assert(before.contains(x));
                        let t = choose|t: int| 0 <= t < before.len() && before[t] == x;
                        if t < pos {
                            assert(order@[t] == x);
                        } else {
                            assert(order@[t + 1] == x);
                        }
                    }
                }
            }
        }
        assert(list@.subrange(0, list.len() as int) =~= list@);
        order
    }

    /// Depth-first search below the path `stack`, with points `rem` left to
    /// settle at cost `cost` so far. Once the node budget is exceeded it
    /// unwinds without further claims; otherwise on return the best cost is
    /// the better of what it was and the best completion of this path.
    fn search(&mut self, rem: u128, cost: usize)
        requires
            old(self).inv(),
            old(self).nodes <= MAX_NODES,
            old(self).path_ok(rem, cost),
        ensures
            final(self).inv(),
            final(self).same_setup(old(self)),
            final(self).stack@ == old(self).stack@,
            old(self).nodes < final(self).nodes <= MAX_NODES + 1,
            final(self).best_cost <= old(self).best_cost,
            final(self).nodes <= MAX_NODES ==> final(self).best_cost == min_nat(
                old(self).best_cost as nat,
                (cost + opt_cost(old(self).fam(), old(self).m as nat, pts(rem))) as nat,
            ),
            final(self).nodes <= old(self).nodes + tree_size(old(self).masks@.len() as nat, pts(rem).len()),
        decreases pts(rem).len(),
    {
        let ghost f = self.fam();
        let ghost mm = self.m as nat;
        let ghost full = self.full();
        let ghost best0 = self.best_cost;
        let ghost nodes0 = self.nodes;
        let ghost stack0 = self.stack@;
        let ghost bw = self.masks@.len() as nat;
        proof {
            lemma_pts_finite(rem);
            lemma_tree_size_mono(bw, bw, pts(rem).len(), pts(rem).len());
        }
        self.nodes = self.nodes + 1;
        if self.nodes > MAX_NODES {
            return ;
        }
        if rem == 0 {
            proof {
                lemma_pts_zero();
                assert(full.difference(pts(rem)) =~= full);
            }
            if cost < self.best_cost {
                self.best_cost = cost;
                self.best_choice = copy_u32s(&self.stack);
            }
            return ;
        }
        let lbv = self.lb(rem);
        proof {
            lemma_int_range(0, self.n as int);
            lemma_len_subset(pts(rem), full);
            assert(cost + 128 <= self.m * 1024) by (nonlinear_arith)
                requires
                    cost <= self.m * (self.n - pts(rem).len()),
                    self.n <= 128,
                    pts(rem).len() >= 0,
                    self.m >= 1,
            ;
        }
        if cost + lbv >= self.best_cost {
            return ;
        }
        let u = lowest_bit(rem);
        let ghost r = pts(rem);
        proof {
            assert(r.contains(u as int));
            assert(r.len() > 0) by {
                lemma_set_empty_equivalency_len(r);
            }
            lemma_opt_step(f, mm, r);
            let l = lowest(r);
            assert(bit(rem, l));
            if l < u {
                assert(!bit(rem, l));
            }
            assert(u as int == lowest(r));
        }
        let covering = self.covering_order(rem, u as usize);
        let ghost tt = tree_size(bw, (r.len() - 1) as nat);
        proof {
            assert(tree_size(bw, r.len()) == 1 + (bw + 1) * tt);
            assert(covering.len() <= bw);
        }
        let mut idx: usize = 0;
        while idx < covering.len()
            invariant
                self.inv(),
                self.same_setup(old(self)),
                f == self.fam(),
                mm == self.m,
                full == self.full(),
                r == pts(rem),
                r.finite(),
                r.contains(u as int),
                u as int == lowest(r),
                u < self.n,
                self.path_ok(rem, cost),
                self.stack@ == stack0,
                stack0 == old(self).stack@,
                nodes0 == old(self).nodes,
                best0 == old(self).best_cost,
                nodes0 < self.nodes <= MAX_NODES,
                bw == self.masks@.len(),
                tt == tree_size(bw, (r.len() - 1) as nat),
                r.len() >= 1,
                covering.len() <= bw,
                idx <= covering.len(),
                self.nodes <= nodes0 + 1 + idx * tt,
                self.best_cost <= best0,
                self.best_cost >= min_nat(best0 as nat, (cost + opt_cost(f, mm, r)) as nat),
                forall|x: u32| covering@.contains(x) <==> self.by_point@[u as int]@.contains(x),
                forall|q: int|
                    0 <= q < idx ==> self.best_cost <= cost + mm + opt_cost(
                        f,
                        mm,
                        r.difference(pts(f[#[trigger] covering@[q] as int])),
                    ),
            decreases covering.len() - idx,
        {
            let ci = covering[idx];
            assert(covering@.contains(ci));
            assert(self.by_point@[u as int]@.contains(ci));
            assert((ci as int) < f.len() && bit(f[ci as int], u as int));
            let mask = self.masks[ci as usize];
            let ghost mset = pts(mask);
            proof {
                lemma_opt_step(f, mm, r);
                assert(mset.contains(u as int));
                lemma_pts_andnot(rem, mask);
                lemma_diff_smaller(r, mset, u as int);
                lemma_path_child(self, rem, cost, ci);
            }
            self.stack.push(ci);
            let ghost nodes_b = self.nodes;
            self.search(rem & !mask, cost + self.m);
            proof {
                lemma_tree_size_mono(bw, bw, r.difference(mset).len(), (r.len() - 1) as nat);
                assert(self.nodes <= nodes0 + 1 + (idx + 1) * tt) by (nonlinear_arith)
                    requires
                        self.nodes <= nodes_b + tt,
                        nodes_b <= nodes0 + 1 + idx * tt,
                ;
                assert(nodes0 + 1 + (idx + 1) * tt <= nodes0 + 1 + (bw + 1) * tt) by (nonlinear_arith)
                    requires
                        idx + 1 <= bw,
                        tt >= 0,
                ;
            }
            proof {
                assert(pts(f[ci as int]).contains(lowest(r)));
                assert(opt_cost(f, mm, r) <= mm + opt_cost(f, mm, r.difference(mset)));
            }
            self.stack.pop();
            assert(self.stack@ =~= stack0);
            if self.nodes > MAX_NODES {
                return ;
            }
            idx = idx + 1;
        }
        proof {
            lemma_pts_remove(rem, u as u128);
            lemma_path_abandon(self, rem, cost, u as int);
        }
        let ghost nodes_b = self.nodes;
        proof {
            assert(nodes_b <= nodes0 + 1 + bw * tt) by (nonlinear_arith)
                requires
                    nodes_b <= nodes0 + 1 + idx * tt,
                    idx <= bw,
                    tt >= 0,
            ;
        }
        self.search(rem & !(1u128 << u), cost + 1);
        proof {
            lemma_tree_size_mono(bw, bw, r.remove(u as int).len(), (r.len() - 1) as nat);
            assert(self.nodes <= nodes0 + 1 + (bw + 1) * tt) by (nonlinear_arith)
                requires
                    self.nodes <= nodes_b + tt,
                    nodes_b <= nodes0 + 1 + bw * tt,
            ;
        }
        proof {
            if self.nodes <= MAX_NODES {
                if opt_cost(f, mm, r) != 1 + opt_cost(f, mm, r.remove(u as int)) {
                    let j = choose|j: int| 0 <= j < f.len() && #[trigger] pts(f[j]).contains(u as int)
                        && opt_cost(f, mm, r) == mm + opt_cost(f, mm, r.difference(pts(f[j])));
                    assert(bit(f[j], u as int));
                    assert(self.by_point@[u as int]@.contains(j as u32));
                    assert(covering@.contains(j as u32));
                    let q = choose|q: int| 0 <= q < covering@.len() && covering@[q] == j as u32;
                    assert(covering@[q] as int == j);
                }
            }
        }
    }
}

/// Picks of a path extended by one candidate.
proof fn lemma_picks_push(v: Seq<u32>, ci: u32)
    ensures
        picks_of(v.push(ci)) == picks_of(v).push(ci as int),
{
    assert(picks_of(v.push(ci)) =~= picks_of(v).push(ci as int));
}

/// Covering `u` with candidate `ci` keeps the path's accounting sound.
proof fn lemma_path_child<'a>(bb: &Bb<'a>, rem: u128, cost: usize, ci: u32)
    requires
        bb.inv(),
        bb.path_ok(rem, cost),
        (ci as int) < bb.masks@.len(),
        exists|u: int| pts(rem).contains(u) && #[trigger] bit(bb.masks@[ci as int], u),
    ensures
        cost + bb.m <= usize::MAX,
        valid_picks(bb.fam(), picks_of(bb.stack@.push(ci))),
        ({
            let rem2 = rem & !bb.masks@[ci as int];
            &&& pts(rem2).subset_of(bb.full())
            &&& cost + bb.m <= bb.m * (bb.n - pts(rem2).len())
            &&& bb.m * bb.stack@.push(ci).len() + bb.full().difference(pts(rem2)).difference(
                covered_by(bb.fam(), picks_of(bb.stack@.push(ci))),
            ).len() <= cost + bb.m
        }),
{
    let u = choose|u: int| pts(rem).contains(u) && #[trigger] bit(bb.masks@[ci as int], u);
    let f = bb.fam();
    let mask = bb.masks@[ci as int];
    let r = pts(rem);
    let m = pts(mask);
    let rem2 = rem & !mask;
    lemma_pts_andnot(rem, mask);
    lemma_pts_finite(rem);
    lemma_diff_smaller(r, m, u);
    let old_picks = picks_of(bb.stack@);
    let new_picks = picks_of(bb.stack@.push(ci));
    lemma_picks_push(bb.stack@, ci);
    assert(new_picks.remove(new_picks.len() - 1) =~= old_picks);
    lemma_covered_remove(f, new_picks, new_picks.len() - 1);
    let c = covered_by(f, old_picks);
    let c2 = covered_by(f, new_picks);
    let full = bb.full();
    lemma_int_range(0, bb.n as int);
    let a = full.difference(pts(rem2)).difference(c2);
    let b = full.difference(r).difference(c);
    assert(a.subset_of(b));
    lemma_len_subset(b, full);
    lemma_len_subset(a, b);
    assert(bb.m * bb.stack@.push(ci).len() == bb.m * bb.stack@.len() + bb.m) by (nonlinear_arith)
        requires
            bb.stack@.push(ci).len() == bb.stack@.len() + 1,
    ;
    let k = pts(rem2).len() as int;
    let kr = r.len() as int;
    lemma_len_subset(r, full);
    assert(cost + bb.m <= bb.m * (bb.n - k)) by (nonlinear_arith)
        requires
            cost <= bb.m * (bb.n - kr),
            k < kr,
            kr <= bb.n,
            bb.m >= 1,
    ;
    assert(bb.m * (bb.n - k) <= bb.m * 1024) by (nonlinear_arith)
        requires
            0 <= bb.n - k <= 1024,
            bb.m >= 1,
    ;
}

/// Abandoning `u` keeps the path's accounting sound.
proof fn lemma_path_abandon<'a>(bb: &Bb<'a>, rem: u128, cost: usize, u: int)
    requires
        bb.inv(),
        bb.path_ok(rem, cost),
        pts(rem).contains(u),
        0 <= u < 128,
    ensures
        cost + 1 <= usize::MAX,
        ({
            let rem2 = rem & !(1u128 << (u as u128));
            &&& pts(rem2).subset_of(bb.full())
            &&& cost + 1 <= bb.m * (bb.n - pts(rem2).len())
            &&& bb.m * bb.stack@.len() + bb.full().difference(pts(rem2)).difference(
                covered_by(bb.fam(), picks_of(bb.stack@)),
            ).len() <= cost + 1
        }),
{
    let r = pts(rem);
    let rem2 = rem & !(1u128 << (u as u128));
    lemma_pts_remove(rem, u as u128);
    lemma_pts_finite(rem);
    let full = bb.full();
    lemma_int_range(0, bb.n as int);
    let c = covered_by(bb.fam(), picks_of(bb.stack@));
    let a = full.difference(pts(rem2)).difference(c);
    let b = full.difference(r).difference(c);
    lemma_len_subset(b, full);
    if c.contains(u) {
        assert(a =~= b);
    } else {
        assert(a =~= b.insert(u));
    }
    let k = pts(rem2).len() as int;
    let kr = r.len() as int;
    lemma_len_subset(r, full);
    assert(cost + 1 <= bb.m * (bb.n - k)) by (nonlinear_arith)
        requires
            cost <= bb.m * (bb.n - kr),
            k == kr - 1,
            kr <= bb.n,
            bb.m >= 1,
    ;
    assert(bb.m * (bb.n - kr) <= bb.m * 1024) by (nonlinear_arith)
        requires
            0 <= bb.n - kr <= 1024,
            bb.m >= 1,
    ;
}

/// Solutions naming candidates with equal masks, pick by pick, cover the
/// same points.
proof fn lemma_covered_same(f: Seq<u128>, p: Seq<int>, g: Seq<u128>, q: Seq<int>)
    requires
        p.len() == q.len(),
        forall|k: int| 0 <= k < p.len() ==> f[p[k]] == g[q[k]],
    ensures
        covered_by(f, p) == covered_by(g, q),
{
    assert forall|x: int| covered_by(f, p).contains(x) implies covered_by(g, q).contains(x) by {
        let k = choose|k: int| 0 <= k < p.len() && pts(f[p[k]]).contains(x);
        assert(pts(g[q[k]]).contains(x));
    }
    assert forall|x: int| covered_by(g, q).contains(x) implies covered_by(f, p).contains(x) by {
        let k = choose|k: int| 0 <= k < q.len() && pts(g[q[k]]).contains(x);
        assert(pts(f[p[k]]).contains(x));
    }
    assert(covered_by(f, p) =~= covered_by(g, q));
}

/// The kept masks have the optimum of all the masks: each is one of them,
/// and every non-empty mask lies inside a kept one.
proof fn lemma_kept_family(
    masks: Seq<u128>,
    d: Seq<u128>,
    src: Seq<usize>,
    keep: Seq<bool>,
    kept: Seq<u128>,
    at: Seq<usize>,
    limit: usize,
    mm: nat,
    s: Set<int>,
)
    requires
        s.finite(),
        crate::mask_prep::first_meetings(masks, d, src, masks.len() as int),
        forall|i: int| 0 <= i < masks.len() && masks[i] != 0 ==> listed(d, #[trigger] masks[i]),
        keep.len() == d.len(),
        forall|i: int|
            0 <= i < d.len() ==> #[trigger] keep[i] == (d.len() > limit || !dominated(d, d[i])),
        crate::mask_prep::picked_from(d, keep, kept, at, d.len() as int),
        forall|i: int| 0 <= i < d.len() && #[trigger] keep[i] ==> has_index(at, i),
    ensures
        opt_cost(masks, mm, s) == opt_cost(kept, mm, s),
{
    assert forall|j: int| 0 <= j < kept.len() implies member(masks, #[trigger] kept[j]) by {
        let a = at[j] as int;
        assert(kept[j] == d[a]);
        assert(0 <= src[a] < masks.len() && masks[src[a] as int] == d[a]);
        assert(masks[src[a] as int] == kept[j]);
    }
    assert forall|i: int|
        #![trigger masks[i]]
        0 <= i < masks.len() && nonempty_mask(masks[i]) implies exists|j: int|
            0 <= j < kept.len() && pts(masks[i]).subset_of(#[trigger] pts(kept[j])) by {
        if masks[i] == 0 {
            lemma_pts_zero();
            let x = choose|x: int| #[trigger] pts(masks[i]).contains(x);
            assert(false);
        }
        assert(listed(d, masks[i]));
        let k = choose|k: int| 0 <= k < d.len() && d[k] == masks[i];
        lemma_inside_kept(d, keep, limit, k);
        let kj = choose|kj: int| 0 <= kj < d.len() && keep[kj] && pts(d[k]).subset_of(#[trigger] pts(d[kj]));
        assert(has_index(at, kj));
        let k2 = choose|k2: int| 0 <= k2 < at.len() && at[k2] == kj;
        assert(kept[k2] == d[kj]);
    }
    lemma_opt_family(masks, kept, mm, s);
}

/// Cost of one disk: `m`, counted as 1 where `m` is 0.
pub open spec fn disk_cost(m: usize) -> nat {
    if m == 0 {
        1
    } else {
        m as nat
    }
}

/// Picks as integers.
pub open spec fn index_picks(v: Seq<usize>) -> Seq<int> {
    v.map_values(|x: usize| x as int)
}

/// Exact minimum-cost cover of the points `0..n` by the candidate masks
/// `masks`: each picked mask costs `m` (1 where `m` is 0), each point no
/// picked mask covers costs 1. `is_mask` names points that pairwise no
/// candidate covers together (it is ignored where a candidate does).
///
/// Returns the optimal cost and the indices of the picked masks (the first
/// of equal masks) where the search finishes within its node budget and
/// beats `incumbent`; `None` for an empty or oversized window, when no mask
/// covers anything, when `incumbent` is not beaten, and when the budget runs
/// out. The budget cannot run out when [`tree_size`] of the candidate count
/// and the window size is within [`MAX_NODES`], as on small windows.
pub fn solve_window_exact(masks: &[u128], n: usize, m: usize, incumbent: usize, is_mask: u128) -> (r: Option<(usize, Vec<usize>)>)
    requires
        masks.len() <= u32::MAX,
        m < 0x1000_0000_0000,
        m * 1024 <= usize::MAX,
    ensures
        n == 0 || n > MAX_EXACT_POINTS ==> r is None,
        (forall|i: int| 0 <= i < masks.len() ==> masks@[i] == 0) ==> r is None,
        1 <= n <= MAX_EXACT_POINTS && opt_cost(masks@, disk_cost(m), first_n(n as int)) >= incumbent ==> r is None,
        r is Some ==> {
            let (cost, picks) = r->0;
            &&& 1 <= n <= MAX_EXACT_POINTS
            &&& cost == opt_cost(masks@, disk_cost(m), first_n(n as int))
            &&& cost < incumbent
            &&& valid_picks(masks@, index_picks(picks@))
            &&& strategy_cost(masks@, disk_cost(m), index_picks(picks@), first_n(n as int)) == cost
        },
        1 <= n <= MAX_EXACT_POINTS && (exists|i: int| 0 <= i < masks.len() && masks@[i] != 0) && opt_cost(
            masks@,
            disk_cost(m),
            first_n(n as int),
        ) < incumbent && tree_size(masks.len() as nat, n as nat) <= MAX_NODES ==> r is Some,
{
    solve_masks(masks, n, m, incumbent, is_mask, true, DOMINANCE_LIMIT, MAX_EXACT_POINTS)
}

/// The exact search shared by both window solvers: `full_bounds` switches
/// the share and independent-set bounds on, `limit` caps the dominance
/// prune, `max_points` the window.
pub(crate) fn solve_masks(
    masks: &[u128],
    n: usize,
    m: usize,
    incumbent: usize,
    is_mask: u128,
    full_bounds: bool,
    limit: usize,
    max_points: usize,
) -> (r: Option<(usize, Vec<usize>)>)
    requires
        masks.len() <= u32::MAX,
        m < 0x1000_0000_0000,
        m * 1024 <= usize::MAX,
        max_points <= MAX_EXACT_POINTS,
    ensures
        n == 0 || n > max_points ==> r is None,
        (forall|i: int| 0 <= i < masks.len() ==> masks@[i] == 0) ==> r is None,
        1 <= n <= max_points && opt_cost(masks@, disk_cost(m), first_n(n as int)) >= incumbent ==> r is None,
        r is Some ==> {
            let (cost, picks) = r->0;
            &&& 1 <= n <= max_points
            &&& cost == opt_cost(masks@, disk_cost(m), first_n(n as int))
            &&& cost < incumbent
            &&& valid_picks(masks@, index_picks(picks@))
            &&& strategy_cost(masks@, disk_cost(m), index_picks(picks@), first_n(n as int)) == cost
        },
        1 <= n <= max_points && (exists|i: int| 0 <= i < masks.len() && masks@[i] != 0) && opt_cost(
            masks@,
            disk_cost(m),
            first_n(n as int),
        ) < incumbent && tree_size(masks.len() as nat, n as nat) <= MAX_NODES ==> r is Some,
{
    if n == 0 || n > max_points {
        return None;
    }
    let ghost s = first_n(n as int);
    let ghost mm = disk_cost(m);
    proof {
        lemma_int_range(0, n as int);
    }
    let (d, src) = distinct_masks(masks);
    let keep = undominated(d.as_slice(), limit);
    let (kept, at) = kept_entries(d.as_slice(), keep.as_slice());
    if kept.len() == 0 {
        proof {
            if exists|i: int| 0 <= i < masks.len() && masks@[i] != 0 {
                let i = choose|i: int| 0 <= i < masks.len() && masks@[i] != 0;
                assert(listed(d@, masks@[i]));
                let k = choose|k: int| 0 <= k < d.len() && d@[k] == masks@[i];
                lemma_inside_kept(d@, keep@, limit, k);
                let kj = choose|kj: int| 0 <= kj < d.len() && keep@[kj] && pts(d@[k]).subset_of(#[trigger] pts(d@[kj]));
                assert(has_index(at@, kj));
            }
        }
        return None;
    }
    proof {
        lemma_kept_family(masks@, d@, src@, keep@, kept@, at@, limit, mm, s);
    }
    let by_point = point_lists(kept.as_slice(), n);
    proof {
        assert forall|i: int| 0 <= i < n implies (#[trigger] by_point@[i])@.len() <= kept@.len() by {
            lemma_increasing_bounded(by_point@[i]@, kept@.len() as int);
        }
    }
    let m_eff: usize = if m == 0 {
        1
    } else {
        m
    };
    let share = if full_bounds {
        point_shares(kept.as_slice(), n, m_eff)
    } else {
        Vec::new()
    };
    let is_ok = if full_bounds {
        checked_independent(kept.as_slice(), is_mask)
    } else {
        0
    };
    let maxcov = max_popcount(kept.as_slice());
    proof {
        let j = choose|j: int| 0 <= j < kept.len() && maxcov == #[trigger] pts(kept@[j]).len();
        let a = at@[j] as int;
        assert(kept@[j] == d@[a]);
        lemma_nonzero_nonempty(kept@[j]);
    }
    let full: u128 = if n == MAX_EXACT_POINTS {
        u128::MAX
    } else {
        let nn = n as u128;
        assert(1u128 << nn >= 1u128) by (bit_vector)
            requires
                nn < 128,
        ;
        (1u128 << nn) - 1
    };
    proof {
        if n == MAX_EXACT_POINTS {
            lemma_pts_max();
        } else {
            lemma_pts_low(n as u128);
        }
        assert(pts(full) == s);
        assert(s.difference(pts(full)) =~= Set::<int>::empty());
    }
    let mut bb = Bb {
        m: m_eff,
        n,
        masks: kept.as_slice(),
        by_point: by_point.as_slice(),
        share: share.as_slice(),
        is_mask: is_ok,
        maxcov,
        full_bounds,
        nodes: 0,
        best_cost: incumbent,
        best_choice: Vec::new(),
        stack: Vec::new(),
        ceiling: Ghost(incumbent as nat),
    };
    assert(bb.stack@.len() == 0);
    assert(bb.m * (bb.n - pts(full).len()) == 0) by (nonlinear_arith)
        requires
            pts(full).len() == bb.n,
    ;
    assert(bb.full().difference(pts(full)).difference(covered_by(bb.fam(), picks_of(bb.stack@))) =~= Set::<int>::empty());
    bb.search(full, 0);
    proof {
        lemma_tree_size_mono(kept@.len() as nat, masks@.len() as nat, n as nat, n as nat);
        if tree_size(masks.len() as nat, n as nat) <= MAX_NODES {
            assert(bb.nodes <= MAX_NODES);
        }
    }
    if bb.nodes > MAX_NODES || bb.best_cost >= incumbent {
        return None;
    }
    proof {
        lemma_opt_le_strategy(kept@, mm, s, picks_of(bb.best_choice@));
    }
    let mut out: Vec<usize> = Vec::new();
    let mut k: usize = 0;
    while k < bb.best_choice.len()
        invariant
            k <= bb.best_choice.len(),
            out.len() == k,
            valid_picks(kept@, picks_of(bb.best_choice@)),
            kept@ == bb.masks@,
            crate::mask_prep::first_meetings(masks@, d@, src@, masks.len() as int),
            crate::mask_prep::picked_from(d@, keep@, kept@, at@, d.len() as int),
            forall|q: int|
                0 <= q < k ==> (#[trigger] out@[q]) < masks.len() && masks@[out@[q] as int]
                    == kept@[bb.best_choice@[q] as int],
        decreases bb.best_choice.len() - k,
    {
        let ci = bb.best_choice[k] as usize;
        assert(picks_of(bb.best_choice@)[k as int] == ci);
        let a = at[ci];
        let o = src[a];
        out.push(o);
        k = k + 1;
    }
    proof {
        let p = index_picks(out@);
        let q = picks_of(bb.best_choice@);
        assert forall|kk: int| 0 <= kk < p.len() implies masks@[p[kk]] == kept@[q[kk]] by {
            assert(out@[kk] < masks.len());
        }
        lemma_covered_same(masks@, p, kept@, q);
        assert(valid_picks(masks@, p)) by {
            assert forall|kk: int| 0 <= kk < p.len() implies 0 <= #[trigger] p[kk] < masks.len() by {
                assert(out@[kk] < masks.len());
            }
        }
    }
    Some((bb.best_cost, out))
}

} // verus!
