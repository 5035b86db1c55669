//! Enforcing a cluster cap when clusters cover grid cells: items are the
//! cells holding input points, weighted by how many points each holds; a
//! cluster covers the cells of its neighbourhood. Keeps the best clusters by
//! greedy marginal gain polished by interchange, in their input order.

use vstd::prelude::*;
use crate::select::{
    lists, gain, items_in_range, greedy_from, as_ints, clean_list, total_weight, sum_to, list_sum,
    lemma_sum_diff, select_max_coverage, improve_by_swap, sorted_distinct, lemma_increasing_distinct,
    covered, best_index, lemma_best_index, swap_run, swap_rounds,
};
use crate::utils::{keep_indices, flagged, selected};

verus! {

/// Dense indices of cells, in order of first appearance; backed by a
/// `hashbrown::HashMap<u64, u32>`.
#[verifier::external_body]
pub struct CellIndex {
    map: hashbrown::HashMap<u64, u32>,
}

/// The cell/index pairs a [`CellIndex`] holds.
pub uninterp spec fn cell_contents(s: CellIndex) -> Map<u64, u32>;

/// `hashbrown::HashMap::new`: no cells.
#[verifier::external_body]
fn cells_new() -> (r: CellIndex)
    ensures
        forall|k: u64| !cell_contents(r).dom().contains(k),
{
    CellIndex { map: hashbrown::HashMap::new() }
}

/// `hashbrown::HashMap::get`: the index of cell `k`, if it has one.
#[verifier::external_body]
fn cells_get(s: &CellIndex, k: u64) -> (r: Option<u32>)
    ensures
        r == (if cell_contents(*s).dom().contains(k) {
            Some(cell_contents(*s)[k])
        } else {
            None::<u32>
        }),
{
    s.map.get(&k).copied()
}

/// `hashbrown::HashMap::insert`: cell `k` gets index `v`; other cells keep
/// theirs.
#[verifier::external_body]
fn cells_insert(s: &mut CellIndex, k: u64, v: u32)
    ensures
        cell_contents(*final(s)) == cell_contents(*old(s)).insert(k, v),
{
    s.map.insert(k, v);
}

/// The gain over what is covered is the list sum of the weights outside it.
pub(crate) proof fn lemma_gain_as_sum(list: Seq<u32>, w: Seq<usize>, cov: Set<int>)
    ensures
        gain(list, w, cov) == list_sum(list, |j: int| if cov.contains(j) { 0 } else { w[j] as int }),
    decreases list.len(),
{
    if list.len() > 0 {
        lemma_gain_as_sum(list.drop_last(), w, cov);
    }
}

/// Greedy picks name candidates, and there are at most `cap` of them.
pub(crate) proof fn lemma_greedy_picks(c: Seq<Seq<u32>>, w: Seq<usize>, cap: int, kept: Seq<int>)
    requires
        kept.len() <= cap,
        forall|q: int| 0 <= q < kept.len() ==> 0 <= #[trigger] kept[q] < c.len(),
    ensures
        greedy_from(c, w, cap, kept).len() <= cap,
        forall|q: int|
            0 <= q < greedy_from(c, w, cap, kept).len() ==> 0 <= #[trigger] greedy_from(c, w, cap, kept)[q] < c.len(),
    decreases cap - kept.len(),
{
    if kept.len() < cap && c.len() > 0 {
        let cov = crate::select::covered(c, kept);
        crate::select::lemma_best_index(c, w, cov, c.len() as int);
        let b = crate::select::best_index(c, w, cov, c.len() as int);
        if gain(c[b], w, cov) > 0 {
            let k2 = kept.push(b);
            assert forall|q: int| 0 <= q < k2.len() implies 0 <= #[trigger] k2[q] < c.len() by {
                if q < kept.len() {
                    assert(k2[q] == kept[q]);
                }
            }
            lemma_greedy_picks(c, w, cap, k2);
        }
    }
}

/// The distinct cells of the first `p` points, in order of first appearance.
pub open spec fn cell_order(pc: Seq<u64>, p: int) -> Seq<u64>
    decreases p,
{
    if p <= 0 {
        Seq::empty()
    } else {
        let prev = cell_order(pc, p - 1);
        if prev.contains(pc[p - 1]) {
            prev
        } else {
            prev.push(pc[p - 1])
        }
    }
}

/// How many of the first `p` points lie in cell `x`.
pub open spec fn points_in(pc: Seq<u64>, x: u64, p: int) -> nat
    decreases p,
{
    if p <= 0 {
        0
    } else {
        points_in(pc, x, p - 1) + if pc[p - 1] == x {
            1nat
        } else {
            0nat
        }
    }
}

/// The weight of each occupied cell: the points it holds.
pub open spec fn cell_weights(pc: Seq<u64>) -> Seq<usize> {
    let order = cell_order(pc, pc.len() as int);
    Seq::new(order.len(), |k: int| points_in(pc, order[k], pc.len() as int) as usize)
}

/// Whether `cl[i]` lists, in increasing order, the occupied cells (by
/// position in `order`) that cluster `i` covers.
pub open spec fn cover_indices(cl: Seq<Seq<u32>>, order: Seq<u64>, cover_cells: Seq<Vec<u64>>) -> bool {
    &&& cl.len() == cover_cells.len()
    &&& forall|i: int, a: int, b: int| 0 <= i < cl.len() && 0 <= a < b < cl[i].len() ==> #[trigger] cl[i][a] < #[trigger] cl[i][b]
    &&& forall|i: int, k: int|
        0 <= i < cl.len() && 0 <= k < order.len() ==> (#[trigger] cl[i].contains(k as u32) <==> cover_cells[i]@.contains(
            order[k],
        ))
    &&& forall|i: int, t: int| 0 <= i < cl.len() && 0 <= t < cl[i].len() ==> (#[trigger] cl[i][t] as int) < order.len()
}

/// Whether `x` is the index of one of the first `t` cells that has one.
pub open spec fn index_from(x: u32, cells: Seq<u64>, t: int, m: Map<u64, u32>) -> bool {
    exists|tt: int| 0 <= tt < t && m.dom().contains(cells[tt]) && x == m[cells[tt]]
}

/// The picks the interchange makes of greedy picks `g` over lists `cl`.
pub open spec fn polished(cl: Seq<Seq<u32>>, w: Seq<usize>, g: Seq<usize>) -> Seq<usize> {
    if 0 < g.len() < cl.len() {
        swap_run(cl, w, g, cl.len() as int, swap_rounds(g.len() as int))
    } else {
        g
    }
}

/// Picks as indices.
pub open spec fn as_indices(v: Seq<int>) -> Seq<usize> {
    v.map_values(|x: int| x as usize)
}

/// The clusters kept under the cap, given the cover lists `cl` and cell
/// weights `w`: the greedy picks polished by interchange, in input order;
/// the first `cap` clusters when the greedy picks nothing.
pub open spec fn capped<T>(clusters: Seq<T>, cl: Seq<Seq<u32>>, w: Seq<usize>, cap: int) -> Seq<T> {
    let g = greedy_from(cl, w, cap, Seq::empty());
    if g.len() == 0 {
        clusters.take(cap)
    } else {
        flagged(
            clusters,
            Seq::new(clusters.len(), |i: int| selected(polished(cl, w, as_indices(g)), i)),
            clusters.len() as int,
        )
    }
}

/// The cell order lists each point's cell once, and a cell it misses
/// holds no point.
proof fn lemma_cell_order(pc: Seq<u64>, p: int)
    requires
        0 <= p <= pc.len(),
    ensures
        cell_order(pc, p).no_duplicates(),
        forall|x: u64| !cell_order(pc, p).contains(x) ==> #[trigger] points_in(pc, x, p) == 0,
        forall|x: u64| #[trigger] cell_order(pc, p).contains(x) ==> exists|i: int| 0 <= i < p && pc[i] == x,
    decreases p,
{
    if p > 0 {
        lemma_cell_order(pc, p - 1);
        let prev = cell_order(pc, p - 1);
        let cur = cell_order(pc, p);
        let y = pc[p - 1];
        if prev.contains(y) {
            assert(cur == prev);
        } else {
            assert(cur == prev.push(y));
            assert(cur[prev.len() as int] == y);
        }
        assert(cur.contains(y));
        assert forall|x: u64| !cur.contains(x) implies #[trigger] points_in(pc, x, p) == 0 by {
            if prev.contains(x) {
                let i = choose|i: int| 0 <= i < prev.len() && prev[i] == x;
                assert(cur[i] == x);
            }
            assert(points_in(pc, x, p - 1) == 0);
            assert(x != y);
        }
        assert forall|x: u64| #[trigger] cur.contains(x) implies exists|i: int| 0 <= i < p && pc[i] == x by {
            let j = choose|j: int| 0 <= j < cur.len() && cur[j] == x;
            if j < prev.len() {
                assert(prev[j] == x);
                assert(prev.contains(x));
                let i = choose|i: int| 0 <= i < p - 1 && pc[i] == x;
                assert(0 <= i < p && pc[i] == x);
            } else {
                assert(x == y);
                assert(pc[p - 1] == x);
            }
        }
    }
}

/// A candidate already picked adds nothing.
proof fn lemma_gain_covered(list: Seq<u32>, w: Seq<usize>, cov: Set<int>)
    requires
        forall|t: int| 0 <= t < list.len() ==> cov.contains(#[trigger] list[t] as int),
    ensures
        gain(list, w, cov) == 0,
    decreases list.len(),
{
    if list.len() > 0 {
        lemma_gain_covered(list.drop_last(), w, cov);
        assert(cov.contains(list[list.len() - 1] as int));
    }
}

/// Greedy picks never repeat.
pub(crate) proof fn lemma_greedy_distinct(c: Seq<Seq<u32>>, w: Seq<usize>, cap: int, kept: Seq<int>)
    requires
        kept.no_duplicates(),
    ensures
        greedy_from(c, w, cap, kept).no_duplicates(),
    decreases cap - kept.len(),
{
    if kept.len() < cap && c.len() > 0 {
        let cov = covered(c, kept);
        lemma_best_index(c, w, cov, c.len() as int);
        let b = best_index(c, w, cov, c.len() as int);
        if gain(c[b], w, cov) > 0 {
            if kept.contains(b) {
                let q = choose|q: int| 0 <= q < kept.len() && kept[q] == b;
                assert forall|t: int| 0 <= t < c[b].len() implies cov.contains(#[trigger] c[b][t] as int) by {
                    assert(c[kept[q]][t] as int == c[b][t] as int);
                }
                lemma_gain_covered(c[b], w, cov);
            }
            let k2 = kept.push(b);
            assert(k2.no_duplicates()) by {
                assert forall|x: int, y: int| 0 <= x < y < k2.len() implies k2[x] != k2[y] by {
                    if y == kept.len() {
                        assert(kept.contains(k2[x]));
                    }
                }
            }
            lemma_greedy_distinct(c, w, cap, k2);
        }
    }
}

/// Keeps at most `cap` of `clusters` (in input order) for the most point
/// coverage: `point_cells[p]` is the cell of input point `p`, and
/// `cover_cells[k]` the cells cluster `k` covers. Clusters within the cap are
/// kept as they are; with no points the first `cap` are kept.
pub fn cap_cells<T: Copy>(clusters: Vec<T>, point_cells: &[u64], cover_cells: &[Vec<u64>], cap: usize) -> (r: Vec<T>)
    requires
        cover_cells.len() == clusters.len(),
        clusters.len() <= u32::MAX,
        point_cells.len() <= u32::MAX,
    ensures
        clusters.len() <= cap ==> r@ == clusters@,
        clusters.len() > cap && point_cells.len() == 0 ==> r@ == clusters@.take(cap as int),
        clusters.len() > cap && point_cells.len() > 0 ==> exists|cl: Seq<Seq<u32>>|
            cover_indices(cl, cell_order(point_cells@, point_cells.len() as int), cover_cells@) && r@ == #[trigger] capped(
                clusters@,
                cl,
                cell_weights(point_cells@),
                cap as int,
            ),
{
    let mut clusters = clusters;
    if clusters.len() <= cap {
        return clusters;
    }
    if point_cells.len() == 0 {
        clusters.truncate(cap);
        return clusters;
    }
    // One item per occupied cell, weighted by its points.
    let mut index = cells_new();
    let mut weights: Vec<usize> = Vec::new();
    let mut p: usize = 0;
    assert(total_weight(weights@) == 0);
    let ghost pc = point_cells@;
    while p < point_cells.len()
        invariant
            p <= point_cells.len() <= u32::MAX,
            pc == point_cells@,
            weights.len() <= p,
            forall|k: u64| cell_contents(index).dom().contains(k) ==> (#[trigger] cell_contents(index)[k]) < weights.len(),
            total_weight(weights@) == p,
            weights.len() == cell_order(pc, p as int).len(),
            forall|k: int|
                0 <= k < weights.len() ==> cell_contents(index).dom().contains(#[trigger] cell_order(pc, p as int)[k])
                    && cell_contents(index)[cell_order(pc, p as int)[k]] == k,
            forall|x: u64| #[trigger] cell_contents(index).dom().contains(x) ==> cell_order(pc, p as int).contains(x),
            forall|k: int| 0 <= k < weights.len() ==> #[trigger] weights@[k] == points_in(pc, cell_order(pc, p as int)[k], p as int),
        decreases point_cells.len() - p,
    {
        let id = point_cells[p];
        let ghost w0 = weights@;
        let ghost o0 = cell_order(pc, p as int);
        proof {
            lemma_cell_order(pc, p as int);
        }
        match cells_get(&index, id) {
            Some(k) => {
                let k = k as usize;
                proof {
                    lemma_entry_le_total(weights@, k as int, weights.len() as int);
                }
                weights.set(k, weights[k] + 1);
                proof {
                    let f = |j: int| weights@[j] as int;
                    let g = |j: int| w0[j] as int;
                    let h = |j: int| if j == k { 1int } else { 0int };
                    assert forall|j: int| 0 <= j < w0.len() implies #[trigger] f(j) - g(j) == h(j) - (|j: int| 0int)(j) by {}
                    lemma_sum_diff(f, g, h, |j: int| 0int, w0.len() as int);
                    lemma_sum_unit(k as int, w0.len() as int);
                    lemma_sum_zero_fn(w0.len() as int);
                    assert(o0.contains(id));
                    assert(cell_order(pc, p as int + 1) == o0);
                    assert forall|kk: int| 0 <= kk < weights.len() implies #[trigger] weights@[kk] == points_in(
                        pc,
                        cell_order(pc, p as int + 1)[kk],
                        p as int + 1,
                    ) by {
                        let j = choose|j: int| 0 <= j < o0.len() && o0[j] == id;
                        assert(cell_contents(index)[o0[j]] == j);
                        if kk != k {
                            assert(o0[kk] != id);
                        }
                    }
                }
            },
            None => {
                cells_insert(&mut index, id, weights.len() as u32);
                weights.push(1);
                proof {
                    let f = |j: int| weights@[j] as int;
                    let g = |j: int| w0[j] as int;
                    assert forall|j: int| 0 <= j < w0.len() implies #[trigger] f(j) - g(j) == (|j: int| 0int)(j) - (|j: int| 0int)(j) by {}
                    lemma_sum_diff(f, g, |j: int| 0int, |j: int| 0int, w0.len() as int);
                    assert(!o0.contains(id));
                    let o1 = cell_order(pc, p as int + 1);
                    assert(o1 == o0.push(id));
                    assert forall|kk: int| 0 <= kk < weights.len() implies #[trigger] weights@[kk] == points_in(
                        pc,
                        o1[kk],
                        p as int + 1,
                    ) by {
                        if kk < w0.len() {
                            assert(o0[kk] != id);
                            assert(weights@[kk] == w0[kk]);
                            assert(o1[kk] == o0[kk]);
                        } else {
                            assert(points_in(pc, id, p as int) == 0);
                            assert(o1[kk] == id);
                        }
                    }
                    assert forall|kk: int| 0 <= kk < weights.len() implies cell_contents(index).dom().contains(#[trigger] o1[kk])
                        && cell_contents(index)[o1[kk]] == kk by {
                        if kk < w0.len() {
                            assert(o0[kk] != id);
                        }
                    }
                    assert forall|x: u64| #[trigger] cell_contents(index).dom().contains(x) implies o1.contains(x) by {
                        if x == id {
                            assert(o1[o0.len() as int] == id);
                        } else {
                            let j = choose|j: int| 0 <= j < o0.len() && o0[j] == x;
                            assert(o1[j] == x);
                        }
                    }
                }
            },
        }
        p = p + 1;
    }
    let n = weights.len();
    let ghost order = cell_order(pc, pc.len() as int);
    proof {
        assert(weights@ =~= cell_weights(pc));
    }
    // Each cluster's cells that hold points, as sorted distinct indices.
    let mut cover: Vec<Vec<u32>> = Vec::new();
    let mut k: usize = 0;
    while k < cover_cells.len()
        invariant
            k <= cover_cells.len(),
            cover.len() == k,
            n == weights.len() == order.len(),
            n <= u32::MAX,
            forall|kk: u64| cell_contents(index).dom().contains(kk) ==> (#[trigger] cell_contents(index)[kk]) < n,
            forall|i: int| 0 <= i < k ==> clean_list(#[trigger] cover@[i]@, n as int),
            forall|kk: int|
                0 <= kk < n ==> cell_contents(index).dom().contains(#[trigger] order[kk]) && cell_contents(index)[order[kk]] == kk,
            forall|x: u64| #[trigger] cell_contents(index).dom().contains(x) ==> order.contains(x),
            forall|i: int, a: int, b: int| 0 <= i < k && 0 <= a < b < cover@[i]@.len() ==> #[trigger] cover@[i]@[a] < #[trigger] cover@[i]@[b],
            forall|i: int, kk: int|
                0 <= i < k && 0 <= kk < n ==> (#[trigger] cover@[i]@.contains(kk as u32) <==> cover_cells@[i]@.contains(order[kk])),
        decreases cover_cells.len() - k,
    {
        let cells = &cover_cells[k];
        let mut raw: Vec<u32> = Vec::new();
        let mut t: usize = 0;
        while t < cells.len()
            invariant
                t <= cells.len(),
                forall|kk: u64| cell_contents(index).dom().contains(kk) ==> (#[trigger] cell_contents(index)[kk]) < n,
                forall|q: int| 0 <= q < raw.len() ==> (#[trigger] raw@[q]) < n,
                forall|q: int| 0 <= q < raw.len() ==> index_from(#[trigger] raw@[q], cells@, t as int, cell_contents(index)),
                forall|tt: int|
                    0 <= tt < t && cell_contents(index).dom().contains(#[trigger] cells@[tt]) ==> raw@.contains(
                        cell_contents(index)[cells@[tt]],
                    ),
            decreases cells.len() - t,
        {
            let ghost r0 = raw@;
            if let Some(x) = cells_get(&index, cells[t]) {
                raw.push(x);
                proof {
                    assert(raw@[r0.len() as int] == x);
                    assert forall|tt: int|
                        0 <= tt < t + 1 && cell_contents(index).dom().contains(#[trigger] cells@[tt]) implies raw@.contains(
                            cell_contents(index)[cells@[tt]],
                        ) by {
                        if tt < t {
                            let q = choose|q: int| 0 <= q < r0.len() && r0[q] == cell_contents(index)[cells@[tt]];
                            assert(raw@[q] == r0[q]);
                        }
                    }
                    assert forall|q: int| 0 <= q < raw.len() implies index_from(#[trigger] raw@[q], cells@, t + 1, cell_contents(index)) by {
                        if q < r0.len() {
                            assert(raw@[q] == r0[q]);
                            assert(index_from(r0[q], cells@, t as int, cell_contents(index)));
                            let tt = choose|tt: int|
                                0 <= tt < t && cell_contents(index).dom().contains(cells@[tt]) && r0[q] == cell_contents(index)[cells@[tt]];
                        } else {
                            assert(raw@[q] == cell_contents(index)[cells@[t as int]]);
                        }
                    }
                }
            } else {
                proof {
                    assert forall|q: int| 0 <= q < raw.len() implies index_from(#[trigger] raw@[q], cells@, t + 1, cell_contents(index)) by {
                        assert(index_from(raw@[q], cells@, t as int, cell_contents(index)));
                        let tt = choose|tt: int|
                            0 <= tt < t && cell_contents(index).dom().contains(cells@[tt]) && raw@[q] == cell_contents(index)[cells@[tt]];
                    }
                }
            }
            t = t + 1;
        }
        let list = sorted_distinct(&raw);
        proof {
            lemma_increasing_distinct(list@);
            assert forall|q: int| 0 <= q < list@.len() implies (#[trigger] list@[q]) < n by {
                assert(list@.contains(list@[q]));
                assert(raw@.contains(list@[q]));
            }
            assert forall|kk: int| 0 <= kk < n implies (#[trigger] list@.contains(kk as u32) <==> cells@.contains(order[kk])) by {
                if list@.contains(kk as u32) {
                    assert(raw@.contains(kk as u32));
                    let q = choose|q: int| 0 <= q < raw.len() && raw@[q] == kk as u32;
                    assert(index_from(raw@[q], cells@, cells.len() as int, cell_contents(index)));
                    let tt = choose|tt: int|
                        0 <= tt < cells.len() && cell_contents(index).dom().contains(cells@[tt]) && raw@[q]
                            == cell_contents(index)[cells@[tt]];
                    let x = cells@[tt];
                    assert(order.contains(x));
                    let j = choose|j: int| 0 <= j < order.len() && order[j] == x;
                    assert(cell_contents(index)[order[j]] == j);
                    assert(j == kk);
                    assert(cells@[tt] == order[kk]);
                }
                if cells@.contains(order[kk]) {
                    let tt = choose|tt: int| 0 <= tt < cells.len() && cells@[tt] == order[kk];
                    assert(cell_contents(index).dom().contains(cells@[tt]));
                    assert(raw@.contains(cell_contents(index)[cells@[tt]]));
                }
            }
        }
        let ghost c0 = cover@;
        cover.push(list);
        assert forall|i: int| 0 <= i < k + 1 implies clean_list(#[trigger] cover@[i]@, n as int) by {
            if i < k {
                assert(cover@[i] == c0[i]);
            }
        }
        assert forall|i: int, a: int, b: int| 0 <= i < k + 1 && 0 <= a < b < cover@[i]@.len() implies #[trigger] cover@[i]@[a] < #[trigger] cover@[i]@[b] by {
            if i < k {
                assert(cover@[i] == c0[i]);
            }
        }
        assert forall|i: int, kk: int|
            0 <= i < k + 1 && 0 <= kk < n implies (#[trigger] cover@[i]@.contains(kk as u32) <==> cover_cells@[i]@.contains(order[kk])) by {
            if i < k {
                assert(cover@[i] == c0[i]);
            }
        }
        k = k + 1;
    }
    let ghost c = lists(cover@);
    proof {
        assert forall|i: int, t: int| 0 <= i < c.len() && 0 <= t < c[i].len() implies (#[trigger] c[i][t]) < n by {
            assert(clean_list(cover@[i]@, n as int));
        }
        assert forall|i: int| 0 <= i < cover.len() implies gain(#[trigger] cover@[i]@, weights@, Set::empty()) <= usize::MAX by {
            lemma_gain_as_sum(cover@[i]@, weights@, Set::empty());
            crate::select::lemma_clean_list_sum_bound(cover@[i]@, |j: int| if Set::<int>::empty().contains(j) { 0 } else { weights@[j] as int }, weights@);
        }
        assert(cover_indices(c, order, cover_cells@)) by {
            assert forall|i: int, t: int| 0 <= i < c.len() && 0 <= t < c[i].len() implies (#[trigger] c[i][t] as int) < order.len() by {
                assert(clean_list(cover@[i]@, n as int));
            }
        }
    }
    let sel = select_max_coverage(cover.as_slice(), weights.as_slice(), cap);
    proof {
        lemma_greedy_picks(c, weights@, cap as int, Seq::empty());
        lemma_greedy_distinct(c, weights@, cap as int, Seq::empty());
        assert forall|q: int| 0 <= q < sel.len() implies #[trigger] sel@[q] < cover.len() by {
            assert(as_ints(sel@)[q] == sel@[q] as int);
        }
        let g = greedy_from(c, weights@, cap as int, Seq::empty());
        assert(sel@ =~= as_indices(g)) by {
            assert forall|q: int| 0 <= q < sel.len() implies sel@[q] == as_indices(g)[q] by {
                assert(as_ints(sel@)[q] == sel@[q] as int);
            }
        }
        assert(sel@.no_duplicates()) by {
            assert forall|a: int, b: int| 0 <= a < b < sel.len() implies sel@[a] != sel@[b] by {
                assert(as_ints(sel@)[a] == sel@[a] as int);
                assert(as_ints(sel@)[b] == sel@[b] as int);
            }
        }
    }
    let kept = improve_by_swap(sel, cover.as_slice(), weights.as_slice());
    proof {
        let g = greedy_from(c, weights@, cap as int, Seq::empty());
        assert(kept@ == polished(c, weights@, as_indices(g)));
        assert(kept.len() == g.len());
    }
    let r = keep_indices(clusters, kept, cap);
    proof {
        let g = greedy_from(c, weights@, cap as int, Seq::empty());
        assert(r@ == capped(clusters@, c, weights@, cap as int));
    }
    r
}

proof fn lemma_sum_unit(k: int, n: int)
    requires
        0 <= k < n,
    ensures
        sum_to(|j: int| if j == k { 1int } else { 0int }, n) == 1,
    decreases n,
{
    if n - 1 > k {
        lemma_sum_unit(k, n - 1);
    } else {
        lemma_sum_zero_fn(n - 1);
        lemma_sum_diff(
            |j: int| if j == k { 1int } else { 0int },
            |j: int| 0int,
            |j: int| 0int,
            |j: int| 0int,
            n - 1,
        );
    }
}

proof fn lemma_sum_zero_fn(n: int)
    ensures
        sum_to(|j: int| 0int, n) == 0,
    decreases n,
{
    if n > 0 {
        lemma_sum_zero_fn(n - 1);
    }
}

/// Weights are non-negative, so each is at most their total.
proof fn lemma_entry_le_total(w: Seq<usize>, k: int, n: int)
    requires
        0 <= n <= w.len(),
    ensures
        0 <= sum_to(|j: int| w[j] as int, n),
        0 <= k < n ==> w[k] <= sum_to(|j: int| w[j] as int, n),
    decreases n,
{
    if n > 0 {
        lemma_entry_le_total(w, k, n - 1);
    }
}

} // verus!
