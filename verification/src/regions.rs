//! Region growing over occupied grid cells: cells are visited in key order,
//! and each cell not yet in a region seeds one that repeatedly absorbs the
//! first (in key order) unclaimed occupied neighbour the caller's `fits`
//! test accepts, until it accepts none.

use vstd::prelude::*;
use crate::select::sorted_distinct;

verus! {

/// Lexicographic order on cell keys.
pub open spec fn key_less(a: (i32, i32), b: (i32, i32)) -> bool {
    a.0 < b.0 || (a.0 == b.0 && a.1 < b.1)
}

/// Whether `b` is one of the eight cells around `a`.
pub open spec fn adjacent(a: (i32, i32), b: (i32, i32)) -> bool {
    &&& -1 <= b.0 - a.0 <= 1
    &&& -1 <= b.1 - a.1 <= 1
    &&& a != b
}

/// Whether the keys are in strictly increasing order.
pub open spec fn strictly_sorted(keys: Seq<(i32, i32)>) -> bool {
    forall|i: int, j: int| 0 <= i < j < keys.len() ==> key_less(#[trigger] keys[i], #[trigger] keys[j])
}

/// The position of `k` among the sorted `keys`, if it is there.
fn find_cell(keys: &[(i32, i32)], k: (i32, i32)) -> (r: Option<usize>)
    requires
        strictly_sorted(keys@),
    ensures
        match r {
            Some(i) => i < keys.len() && keys@[i as int] == k,
            None => forall|i: int| 0 <= i < keys.len() ==> keys@[i] != k,
        },
{
    let mut lo: usize = 0;
    let mut hi: usize = keys.len();
    while lo < hi
        invariant
            lo <= hi <= keys.len(),
            strictly_sorted(keys@),
            forall|i: int| 0 <= i < lo ==> key_less(#[trigger] keys@[i], k),
            forall|i: int| hi <= i < keys.len() ==> key_less(k, #[trigger] keys@[i]),
        decreases hi - lo,
    {
        let mid = lo + (hi - lo) / 2;
        let m = keys[mid];
        if m.0 == k.0 && m.1 == k.1 {
            return Some(mid);
        } else if m.0 < k.0 || (m.0 == k.0 && m.1 < k.1) {
            proof {
                assert forall|i: int| 0 <= i < mid + 1 implies key_less(#[trigger] keys@[i], k) by {
                    if i < mid {
                        assert(key_less(keys@[i], keys@[mid as int]));
                    }
                }
            }
            lo = mid + 1;
        } else {
            proof {
                assert forall|i: int| mid <= i < keys.len() implies key_less(k, #[trigger] keys@[i]) by {
                    if i > mid {
                        assert(key_less(keys@[mid as int], keys@[i]));
                    }
                }
            }
            hi = mid;
        }
    }
    proof {
        assert forall|i: int| 0 <= i < keys.len() implies keys@[i] != k by {
            if i < lo {
                assert(key_less(keys@[i], k));
            } else {
                assert(key_less(k, keys@[i]));
            }
        }
    }
    None
}

/// Whether position `j` holds an unclaimed cell next to a cell of `grp`.
pub open spec fn open_next_to(keys: Seq<(i32, i32)>, grp: Seq<usize>, claimed: Seq<bool>, j: int) -> bool {
    &&& 0 <= j < keys.len()
    &&& !claimed[j]
    &&& exists|u: int| 0 <= u < grp.len() && #[trigger] adjacent(keys[grp[u] as int], keys[j])
}

/// The unclaimed cells next to the cells of `grp`, in increasing position.
fn open_neighbours(keys: &[(i32, i32)], grp: &Vec<usize>, claimed: &Vec<bool>) -> (r: Vec<usize>)
    requires
        strictly_sorted(keys@),
        keys.len() <= u32::MAX,
        claimed.len() == keys.len(),
        forall|t: int| 0 <= t < grp.len() ==> (#[trigger] grp@[t]) < keys.len(),
        forall|i: int|
            0 <= i < keys.len() ==> i32::MIN < (#[trigger] keys@[i]).0 < i32::MAX && i32::MIN < keys@[i].1 < i32::MAX,
    ensures
        forall|a: int, b: int| 0 <= a < b < r.len() ==> r@[a] < r@[b],
        forall|j: int| 0 <= j < r.len() ==> open_next_to(keys@, grp@, claimed@, #[trigger] r@[j] as int),
        forall|j: int| open_next_to(keys@, grp@, claimed@, j) ==> r@.contains(j as usize),
{
    let mut found: Vec<u32> = Vec::new();
    let mut u: usize = 0;
    while u < grp.len()
        invariant
            u <= grp.len(),
            strictly_sorted(keys@),
            keys.len() <= u32::MAX,
            claimed.len() == keys.len(),
            forall|t: int| 0 <= t < grp.len() ==> (#[trigger] grp@[t]) < keys.len(),
            forall|i: int|
                0 <= i < keys.len() ==> i32::MIN < (#[trigger] keys@[i]).0 < i32::MAX && i32::MIN < keys@[i].1 < i32::MAX,
            forall|x: u32| #[trigger] found@.contains(x) ==> open_next_to(keys@, grp@, claimed@, x as int),
            forall|j: int|
                0 <= j < keys.len() && !claimed@[j] && (exists|u2: int| 0 <= u2 < u && #[trigger] adjacent(keys@[grp@[u2] as int], keys@[j]))
                    ==> found@.contains(j as u32),
        decreases grp.len() - u,
    {
        let cell = keys[grp[u]];
        let nb = crate::grid::neighbours(cell);
        let mut w: usize = 0;
        while w < 8
            invariant
                w <= 8,
                u < grp.len(),
                cell == keys@[grp@[u as int] as int],
                nb@ == seq![
                    ((cell.0 - 1) as i32, (cell.1 - 1) as i32),
                    ((cell.0 - 1) as i32, cell.1),
                    ((cell.0 - 1) as i32, (cell.1 + 1) as i32),
                    (cell.0, (cell.1 - 1) as i32),
                    (cell.0, (cell.1 + 1) as i32),
                    ((cell.0 + 1) as i32, (cell.1 - 1) as i32),
                    ((cell.0 + 1) as i32, cell.1),
                    ((cell.0 + 1) as i32, (cell.1 + 1) as i32),
                ],
                i32::MIN < cell.0 < i32::MAX && i32::MIN < cell.1 < i32::MAX,
                strictly_sorted(keys@),
                keys.len() <= u32::MAX,
                claimed.len() == keys.len(),
                forall|t: int| 0 <= t < grp.len() ==> (#[trigger] grp@[t]) < keys.len(),
                forall|x: u32| #[trigger] found@.contains(x) ==> open_next_to(keys@, grp@, claimed@, x as int),
                forall|j: int|
                    0 <= j < keys.len() && !claimed@[j] && (exists|u2: int| 0 <= u2 < u && #[trigger] adjacent(keys@[grp@[u2] as int], keys@[j]))
                        ==> found@.contains(j as u32),
                forall|j: int|
                    0 <= j < keys.len() && !claimed@[j] && (exists|w2: int| 0 <= w2 < w && nb@[w2] == #[trigger] keys@[j])
                        ==> found@.contains(j as u32),
            decreases 8 - w,
        {
            let k = nb[w];
            let ghost f0 = found@;
            match find_cell(keys, k) {
                Some(j) => {
                    if !claimed[j] {
                        found.push(j as u32);
                        proof {
                            assert(adjacent(keys@[grp@[u as int] as int], keys@[j as int]));
                            assert(open_next_to(keys@, grp@, claimed@, j as int));
                            assert forall|x: u32| #[trigger] found@.contains(x) implies open_next_to(keys@, grp@, claimed@, x as int) by {
                                if x != j as u32 {
                                    let q = choose|q: int| 0 <= q < found@.len() && found@[q] == x;
                                    assert(f0[q] == x);
                                    assert(f0.contains(x));
                                }
                            }
                            assert forall|j2: int|
                                0 <= j2 < keys.len() && !claimed@[j2] && (exists|u2: int| 0 <= u2 < u && #[trigger] adjacent(keys@[grp@[u2] as int], keys@[j2]))
                                implies found@.contains(j2 as u32) by {
                                assert(f0.contains(j2 as u32));
                                let q = choose|q: int| 0 <= q < f0.len() && f0[q] == j2 as u32;
                                assert(found@[q] == j2 as u32);
                            }
                            assert forall|j2: int|
                                0 <= j2 < keys.len() && !claimed@[j2] && (exists|w2: int| 0 <= w2 < w + 1 && nb@[w2] == #[trigger] keys@[j2])
                                implies found@.contains(j2 as u32) by {
                                let w2 = choose|w2: int| 0 <= w2 < w + 1 && nb@[w2] == keys@[j2];
                                if w2 < w {
                                    assert(f0.contains(j2 as u32));
                                    let q = choose|q: int| 0 <= q < f0.len() && f0[q] == j2 as u32;
                                    assert(found@[q] == j2 as u32);
                                } else {
                                    assert(keys@[j2] == keys@[j as int]);
                                    if j2 != j as int {
                                        if j2 < j as int {
                                            assert(key_less(keys@[j2], keys@[j as int]));
                                        } else {
                                            assert(key_less(keys@[j as int], keys@[j2]));
                                        }
                                    }
                                    assert(found@[f0.len() as int] == j as u32);
                                }
                            }
                        }
                    } else {
                        proof {
                            assert forall|j2: int|
                                0 <= j2 < keys.len() && !claimed@[j2] && (exists|w2: int| 0 <= w2 < w + 1 && nb@[w2] == #[trigger] keys@[j2])
                                implies found@.contains(j2 as u32) by {
                                let w2 = choose|w2: int| 0 <= w2 < w + 1 && nb@[w2] == keys@[j2];
                                if w2 == w {
                                    assert(keys@[j2] == keys@[j as int]);
                                    if j2 != j as int {
                                        if j2 < j as int {
                                            assert(key_less(keys@[j2], keys@[j as int]));
                                        } else {
                                            assert(key_less(keys@[j as int], keys@[j2]));
                                        }
                                    }
                                }
                            }
                        }
                    }
                },
                None => {
                    proof {
                        assert forall|j2: int|
                            0 <= j2 < keys.len() && !claimed@[j2] && (exists|w2: int| 0 <= w2 < w + 1 && nb@[w2] == #[trigger] keys@[j2])
                            implies found@.contains(j2 as u32) by {
                            let w2 = choose|w2: int| 0 <= w2 < w + 1 && nb@[w2] == keys@[j2];
                            if w2 == w {
                                assert(keys@[j2] != k);
                            }
                        }
                    }
                },
            }
            w = w + 1;
        }
        proof {
            assert forall|j: int|
                0 <= j < keys.len() && !claimed@[j] && (exists|u2: int| 0 <= u2 < u + 1 && #[trigger] adjacent(keys@[grp@[u2] as int], keys@[j]))
                implies found@.contains(j as u32) by {
                let u2 = choose|u2: int| 0 <= u2 < u + 1 && #[trigger] adjacent(keys@[grp@[u2] as int], keys@[j]);
                if u2 == u {
                    let kj = keys@[j];
                    let w2: int = if kj.0 == cell.0 - 1 {
                        if kj.1 == cell.1 - 1 { 0 } else if kj.1 == cell.1 { 1 } else { 2 }
                    } else if kj.0 == cell.0 {
                        if kj.1 == cell.1 - 1 { 3 } else { 4 }
                    } else {
                        if kj.1 == cell.1 - 1 { 5 } else if kj.1 == cell.1 { 6 } else { 7 }
                    };
                    assert(nb@[w2] == keys@[j]);
                }
            }
        }
        u = u + 1;
    }
    let s = sorted_distinct(&found);
    let mut r: Vec<usize> = Vec::new();
    let mut t: usize = 0;
    while t < s.len()
        invariant
            t <= s.len(),
            r.len() == t,
            forall|a: int, b: int| 0 <= a < b < s.len() ==> s@[a] < s@[b],
            forall|x: u32| s@.contains(x) <==> found@.contains(x),
            forall|a: int| 0 <= a < t ==> (#[trigger] r@[a]) as int == s@[a] as int,
        decreases s.len() - t,
    {
        r.push(s[t] as usize);
        t = t + 1;
    }
    proof {
        assert forall|j: int| 0 <= j < r.len() implies open_next_to(keys@, grp@, claimed@, #[trigger] r@[j] as int) by {
            assert(s@.contains(s@[j]));
            assert(found@.contains(s@[j]));
        }
        assert forall|j: int| open_next_to(keys@, grp@, claimed@, j) implies r@.contains(j as usize) by {
            let u2 = choose|u2: int| 0 <= u2 < grp.len() && #[trigger] adjacent(keys@[grp@[u2] as int], keys@[j]);
            assert(found@.contains(j as u32));
            assert(s@.contains(j as u32));
            let q = choose|q: int| 0 <= q < s@.len() && s@[q] == j as u32;
            assert(r@[q] as int == j);
        }
    }
    r
}

/// Whether `fits` can answer `b` for the cell list `s`.
pub open spec fn answered<F: Fn(&Vec<usize>) -> bool>(fits: F, s: Seq<usize>, b: bool) -> bool {
    exists|v: Vec<usize>| v@ == s && call_ensures(fits, (&v,), b)
}

/// Whether position `j` belongs to one of the regions `prev`.
pub open spec fn in_any(prev: Seq<Seq<usize>>, j: int) -> bool {
    exists|h: int, t: int| 0 <= h < prev.len() && 0 <= t < prev[h].len() && #[trigger] prev[h][t] == j
}

/// The claim table while the region `grp` has its first `t` cells, after
/// the regions `prev`.
pub open spec fn claims(n: nat, prev: Seq<Seq<usize>>, grp: Seq<usize>, t: int) -> Seq<bool> {
    Seq::new(n, |j: int| in_any(prev, j) || grp.take(t).contains(j as usize))
}

/// Whether `grp` is the region grown after the regions `prev`: its seed is
/// the first unclaimed cell; each further cell is the first unclaimed
/// neighbour `fits` accepted, every earlier unclaimed neighbour having been
/// refused; and `fits` refused every unclaimed neighbour of the whole region.
pub open spec fn grown<F: Fn(&Vec<usize>) -> bool>(
    keys: Seq<(i32, i32)>,
    fits: F,
    prev: Seq<Seq<usize>>,
    grp: Seq<usize>,
) -> bool {
    let n = keys.len();
    &&& grp.len() >= 1
    &&& grp[0] < n
    &&& !in_any(prev, grp[0] as int)
    &&& forall|j: int| 0 <= j < grp[0] ==> #[trigger] in_any(prev, j)
    &&& forall|t: int|
        1 <= t < grp.len() ==> {
            &&& open_next_to(keys, grp.take(t), claims(n, prev, grp, t), #[trigger] grp[t] as int)
            &&& answered(fits, grp.take(t + 1), true)
            &&& forall|j: int|
                0 <= j < grp[t] && open_next_to(keys, grp.take(t), claims(n, prev, grp, t), j) ==> answered(
                    fits,
                    #[trigger] grp.take(t).push(j as usize),
                    false,
                )
        }
    &&& forall|j: int|
        open_next_to(keys, grp, claims(n, prev, grp, grp.len() as int), j) ==> answered(
            fits,
            #[trigger] grp.push(j as usize),
            false,
        )
}

/// The regions' cell lists as sequences.
pub open spec fn region_lists(r: Seq<Vec<usize>>) -> Seq<Seq<usize>> {
    r.map_values(|v: Vec<usize>| v@)
}

/// No cell sits in two places of the regions.
pub open spec fn all_distinct(rl: Seq<Seq<usize>>) -> bool {
    forall|g: int, t: int, h: int, u: int|
        0 <= g < rl.len() && 0 <= t < rl[g].len() && 0 <= h < rl.len() && 0 <= u < rl[h].len() && (g != h || t != u)
            ==> #[trigger] rl[g][t] != #[trigger] rl[h][u]
}

/// A copy of a list of positions.
fn copy_positions(v: &Vec<usize>) -> (r: Vec<usize>)
    ensures
        r@ == v@,
{
    let mut r: Vec<usize> = Vec::new();
    let mut i: usize = 0;
    while i < v.len()
        invariant
            i <= v.len(),
            r@ == v@.take(i as int),
        decreases v.len() - i,
    {
        r.push(v[i]);
        proof {
            assert(v@.take(i as int + 1) =~= v@.take(i as int).push(v@[i as int]));
        }
        i = i + 1;
    }
    assert(v@.take(v.len() as int) =~= v@);
    r
}

/// Grows regions over the occupied cells `keys` (in strictly increasing key
/// order): each cell not yet in a region seeds one, which absorbs the first
/// unclaimed neighbouring cell (in key order) that `fits` accepts for the
/// region's cells plus that cell, again and again, until `fits` accepts
/// none. Regions are returned in seed order, each listing its cells in the
/// order they joined.
pub fn grow_regions<F: Fn(&Vec<usize>) -> bool>(keys: &[(i32, i32)], fits: F) -> (r: Vec<Vec<usize>>)
    requires
        strictly_sorted(keys@),
        keys.len() <= u32::MAX,
        forall|i: int|
            0 <= i < keys.len() ==> i32::MIN < (#[trigger] keys@[i]).0 < i32::MAX && i32::MIN < keys@[i].1 < i32::MAX,
        forall|v: &Vec<usize>| #[trigger] fits.requires((v,)),
    ensures
        forall|g: int| 0 <= g < r.len() ==> grown(keys@, fits, region_lists(r@).take(g), #[trigger] r@[g]@),
        forall|i: int| 0 <= i < keys.len() ==> #[trigger] in_any(region_lists(r@), i),
        forall|g: int, t: int| 0 <= g < r.len() && 0 <= t < r@[g]@.len() ==> #[trigger] r@[g]@[t] < keys.len(),
        all_distinct(region_lists(r@)),
{
    let n = keys.len();
    let mut claimed: Vec<bool> = Vec::new();
    while claimed.len() < n
        invariant
            claimed.len() <= n,
            forall|j: int| 0 <= j < claimed.len() ==> !(#[trigger] claimed@[j]),
        decreases n - claimed.len(),
    {
        claimed.push(false);
    }
    let mut groups: Vec<Vec<usize>> = Vec::new();
    proof {
        assert(claimed@ =~= claims(n as nat, region_lists(groups@), Seq::empty(), 0));
    }
    let mut i: usize = 0;
    while i < n
        invariant
            i <= n,
            n == keys.len(),
            strictly_sorted(keys@),
            keys.len() <= u32::MAX,
            forall|i2: int|
                0 <= i2 < keys.len() ==> i32::MIN < (#[trigger] keys@[i2]).0 < i32::MAX && i32::MIN < keys@[i2].1 < i32::MAX,
            forall|v: &Vec<usize>| #[trigger] fits.requires((v,)),
            claimed.len() == n,
            forall|j: int| 0 <= j < n ==> #[trigger] claimed@[j] == in_any(region_lists(groups@), j),
            forall|g: int| 0 <= g < groups.len() ==> grown(keys@, fits, region_lists(groups@).take(g), #[trigger] groups@[g]@),
            forall|j: int| 0 <= j < i ==> #[trigger] claimed@[j],
            forall|g: int, t: int| 0 <= g < groups.len() && 0 <= t < groups@[g]@.len() ==> #[trigger] groups@[g]@[t] < n,
            all_distinct(region_lists(groups@)),
        decreases n - i,
    {
        if !claimed[i] {
            let ghost prev = region_lists(groups@);
            claimed.set(i, true);
            let mut grp: Vec<usize> = Vec::new();
            grp.push(i);
            proof {
                assert(grp@.take(1) =~= grp@);
                assert forall|j: int| 0 <= j < n implies claimed@[j] == (in_any(prev, j) || grp@.take(1).contains(j as usize)) by {
                    if j == i as int {
                        assert(grp@.take(1)[0] == i);
                    } else if grp@.take(1).contains(j as usize) {
                        let w = choose|w: int| 0 <= w < grp@.take(1).len() && grp@.take(1)[w] == j as usize;
                        assert(w == 0);
                    }
                }
                assert(claimed@ =~= claims(n as nat, prev, grp@, 1));
                assert forall|j: int| 0 <= j < grp@[0] implies #[trigger] in_any(prev, j) by {
                    assert(claimed@[j] || j == i as int);
                }
            }
            let mut done = false;
            while !done
                invariant
                    n == keys.len(),
                    strictly_sorted(keys@),
                    keys.len() <= u32::MAX,
                    forall|i2: int|
                        0 <= i2 < keys.len() ==> i32::MIN < (#[trigger] keys@[i2]).0 < i32::MAX && i32::MIN < keys@[i2].1 < i32::MAX,
                    forall|v: &Vec<usize>| #[trigger] fits.requires((v,)),
                    claimed.len() == n,
                    prev == region_lists(groups@),
                    claimed@ == claims(n as nat, prev, grp@, grp.len() as int),
                    grp.len() >= 1,
                    grp@[0] == i,
                    i < n,
                    !in_any(prev, i as int),
                    forall|j: int| 0 <= j < grp@[0] ==> #[trigger] in_any(prev, j),
                    forall|t: int| 0 <= t < grp.len() ==> #[trigger] grp@[t] < n,
                    forall|t: int| 0 <= t < grp.len() ==> !in_any(prev, #[trigger] grp@[t] as int),
                    grp@.no_duplicates(),
                    forall|t: int|
                        1 <= t < grp.len() ==> {
                            &&& open_next_to(keys@, grp@.take(t), claims(n as nat, prev, grp@, t), #[trigger] grp@[t] as int)
                            &&& answered(fits, grp@.take(t + 1), true)
                            &&& forall|j: int|
                                0 <= j < grp@[t] && open_next_to(keys@, grp@.take(t), claims(n as nat, prev, grp@, t), j) ==> answered(
                                    fits,
                                    #[trigger] grp@.take(t).push(j as usize),
                                    false,
                                )
                        },
                    done ==> forall|j: int|
                        open_next_to(keys@, grp@, claims(n as nat, prev, grp@, grp.len() as int), j) ==> answered(
                            fits,
                            #[trigger] grp@.push(j as usize),
                            false,
                        ),
                decreases (if done { 0int } else { 1int }) + n - grp.len(),
            {
                proof {
                    crate::chunk_greedy::lemma_distinct_bounded(grp@, n as int);
                }
                let cands = open_neighbours(keys, &grp, &claimed);
                let mut q: usize = 0;
                let mut pick: usize = cands.len();
                while q < cands.len() && pick == cands.len()
                    invariant
                        q <= cands.len(),
                        pick == cands.len() || (pick < q && q == pick + 1),
                        forall|v: &Vec<usize>| #[trigger] fits.requires((v,)),
                        forall|q2: int| 0 <= q2 < q && q2 != pick ==> answered(fits, #[trigger] grp@.push(cands@[q2]), false),
                        pick < cands.len() ==> answered(fits, grp@.push(cands@[pick as int]), true),
                    decreases cands.len() - q,
                {
                    let mut trial = copy_positions(&grp);
                    trial.push(cands[q]);
                    let ok = fits(&trial);
                    proof {
                        assert(trial@ == grp@.push(cands@[q as int]));
                        assert(call_ensures(fits, (&trial,), ok));
                    }
                    if ok {
                        pick = q;
                    }
                    q = q + 1;
                }
                if pick == cands.len() {
                    proof {
                        assert forall|j: int|
                            open_next_to(keys@, grp@, claims(n as nat, prev, grp@, grp.len() as int), j) implies answered(
                            fits,
                            #[trigger] grp@.push(j as usize),
                            false,
                        ) by {
                            assert(cands@.contains(j as usize));
                            let q2 = choose|q2: int| 0 <= q2 < cands@.len() && cands@[q2] == j as usize;
                            assert(answered(fits, grp@.push(cands@[q2]), false));
                        }
                    }
                    done = true;
                } else {
                    let c = cands[pick];
                    let ghost g0 = grp@;
                    let ghost cl0 = claimed@;
                    proof {
                        assert(open_next_to(keys@, g0, cl0, c as int));
                    }
                    claimed.set(c, true);
                    grp.push(c);
                    proof {
                        let t0 = g0.len() as int;
                        assert(g0.take(t0) =~= g0);
                        assert(grp@.take(t0) =~= g0);
                        assert(grp@.take(t0 + 1) =~= grp@);
                        assert(claims(n as nat, prev, grp@, t0) =~= cl0) by {
                            assert(grp@.take(t0) =~= g0.take(t0));
                        }
                        assert(claimed@ =~= claims(n as nat, prev, grp@, grp.len() as int)) by {
                            assert forall|j: int| 0 <= j < n implies claimed@[j] == (in_any(prev, j) || grp@.take(grp.len() as int).contains(j as usize)) by {
                                if grp@.contains(j as usize) && j != c as int {
                                    let w = choose|w: int| 0 <= w < grp@.len() && grp@[w] == j as usize;
                                    assert(g0[w] == j as usize);
                                    assert(g0.take(t0).contains(j as usize));
                                }
                                if g0.take(t0).contains(j as usize) {
                                    let w = choose|w: int| 0 <= w < g0.take(t0).len() && g0.take(t0)[w] == j as usize;
                                    assert(grp@[w] == j as usize);
                                }
                                if j == c as int {
                                    assert(grp@[t0] == c);
                                }
                            }
                        }
                        assert forall|t: int|
                            1 <= t < grp.len() implies {
                                &&& open_next_to(keys@, grp@.take(t), claims(n as nat, prev, grp@, t), #[trigger] grp@[t] as int)
                                &&& answered(fits, grp@.take(t + 1), true)
                                &&& forall|j: int|
                                    0 <= j < grp@[t] && open_next_to(keys@, grp@.take(t), claims(n as nat, prev, grp@, t), j) ==> answered(
                                        fits,
                                        #[trigger] grp@.take(t).push(j as usize),
                                        false,
                                    )
                            } by {
                            if t < t0 {
                                assert(grp@.take(t) =~= g0.take(t));
                                assert(grp@.take(t + 1) =~= g0.take(t + 1));
                                assert(grp@[t] == g0[t]);
                                assert(claims(n as nat, prev, grp@, t) =~= claims(n as nat, prev, g0, t));
                            } else {
                                assert(grp@[t] == c);
                                assert forall|j: int|
                                    0 <= j < grp@[t] && open_next_to(keys@, grp@.take(t), claims(n as nat, prev, grp@, t), j) implies answered(
                                    fits,
                                    #[trigger] grp@.take(t).push(j as usize),
                                    false,
                                ) by {
                                    assert(cands@.contains(j as usize));
                                    let q2 = choose|q2: int| 0 <= q2 < cands@.len() && cands@[q2] == j as usize;
                                    if q2 >= pick {
                                        if q2 > pick {
                                            assert(cands@[pick as int] < cands@[q2]);
                                        }
                                    }
                                    assert(answered(fits, g0.push(cands@[q2]), false));
                                }
                            }
                        }
                        assert(grp@.no_duplicates()) by {
                            assert forall|a: int, b: int| 0 <= a < b < grp@.len() implies grp@[a] != grp@[b] by {
                                if b == t0 {
                                    assert(grp@[a] == g0[a]);
                                    assert(g0.take(t0).contains(g0[a]));
                                    assert(cl0[c as int] == false);
                                } else {
                                    assert(grp@[a] == g0[a] && grp@[b] == g0[b]);
                                }
                            }
                        }
                        assert forall|t: int| 0 <= t < grp.len() implies !in_any(prev, #[trigger] grp@[t] as int) by {
                            if t < t0 {
                                assert(grp@[t] == g0[t]);
                            }
                        }
                        assert forall|t: int| 0 <= t < grp.len() implies #[trigger] grp@[t] < n by {
                            if t < t0 {
                                assert(grp@[t] == g0[t]);
                            }
                        }
                    }
                }
            }
            let ghost gfinal = grp@;
            groups.push(grp);
            proof {
                let rl = region_lists(groups@);
                assert(rl =~= prev.push(gfinal));
                assert(rl.take(prev.len() as int) =~= prev);
                assert(grp@.take(grp.len() as int) =~= gfinal) by {
                    assert(gfinal.take(gfinal.len() as int) =~= gfinal);
                }
                assert(grown(keys@, fits, rl.take(prev.len() as int), gfinal)) by {
                    assert(gfinal.take(gfinal.len() as int) =~= gfinal);
                }
                assert forall|g: int| 0 <= g < groups.len() implies grown(keys@, fits, rl.take(g), #[trigger] groups@[g]@) by {
                    if g < prev.len() {
                        assert(rl.take(g) =~= prev.take(g));
                        assert(groups@[g]@ == prev[g]);
                    }
                }
                assert forall|j: int| 0 <= j < n implies #[trigger] claimed@[j] == in_any(rl, j) by {
                    if in_any(rl, j) {
                        let (h, t) = choose|h: int, t: int| 0 <= h < rl.len() && 0 <= t < rl[h].len() && #[trigger] rl[h][t] == j;
                        if h < prev.len() {
                            assert(prev[h][t] == j);
                            assert(in_any(prev, j));
                        } else {
                            assert(gfinal[t] == j);
                            assert(gfinal.take(gfinal.len() as int).contains(j as usize));
                        }
                    }
                    if claimed@[j] {
                        if in_any(prev, j) {
                            let (h, t) = choose|h: int, t: int| 0 <= h < prev.len() && 0 <= t < prev[h].len() && #[trigger] prev[h][t] == j;
                            assert(rl[h][t] == j);
                        } else {
                            assert(gfinal.take(gfinal.len() as int).contains(j as usize));
                            let w = choose|w: int| 0 <= w < gfinal.take(gfinal.len() as int).len() && gfinal.take(gfinal.len() as int)[w] == j as usize;
                            assert(rl[prev.len() as int][w] == j);
                        }
                    }
                }
                assert forall|g: int, t: int| 0 <= g < groups.len() && 0 <= t < groups@[g]@.len() implies #[trigger] groups@[g]@[t] < n by {
                    if g < prev.len() {
                        assert(groups@[g]@ == prev[g]);
                    }
                }
                assert(all_distinct(rl)) by {
                    assert forall|g: int, t: int, h: int, u: int|
                        0 <= g < rl.len() && 0 <= t < rl[g].len() && 0 <= h < rl.len() && 0 <= u < rl[h].len() && (g != h || t != u)
                        implies #[trigger] rl[g][t] != #[trigger] rl[h][u] by {
                        let pl = prev.len() as int;
                        if g < pl && h < pl {
                            assert(rl[g] == prev[g] && rl[h] == prev[h]);
                        } else if g == pl && h == pl {
                            assert(rl[g] == gfinal);
                        } else if g == pl {
                            assert(rl[g] == gfinal && rl[h] == prev[h]);
                            assert(!in_any(prev, gfinal[t] as int));
                        } else {
                            assert(rl[h] == gfinal && rl[g] == prev[g]);
                            assert(!in_any(prev, gfinal[u] as int));
                        }
                    }
                }
            }
        }
        i = i + 1;
    }
    proof {
        assert forall|j: int| 0 <= j < keys.len() implies #[trigger] in_any(region_lists(groups@), j) by {
            assert(claimed@[j]);
        }
    }
    groups
}

} // verus!
