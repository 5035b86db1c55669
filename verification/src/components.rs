//! Connected components over cells: cells are joined along links with a
//! union-find, and each component gathers the members of its cells.

use vstd::prelude::*;
use crate::union_find::{UnionFind, lemma_roots_least};
use crate::select::sorted_distinct;
use crate::mask_prep::{SeenMasks, seen_contents, seen_new, seen_insert};

verus! {

/// The roots after joining `a` and `b`: the larger of their two roots is
/// renamed to the smaller everywhere.
pub open spec fn relabel(r: Seq<int>, a: int, b: int) -> Seq<int> {
    let ra = r[a];
    let rb = r[b];
    let lo = if ra < rb {
        ra
    } else {
        rb
    };
    let hi = if ra < rb {
        rb
    } else {
        ra
    };
    Seq::new(r.len(), |x: int| if r[x] == hi { lo } else { r[x] })
}

/// The root of each of `n` cells after joining along `links` in order.
pub open spec fn roots_after(n: nat, links: Seq<(u32, u32)>) -> Seq<int>
    decreases links.len(),
{
    if links.len() == 0 {
        Seq::new(n, |i: int| i)
    } else {
        relabel(roots_after(n, links.drop_last()), links.last().0 as int, links.last().1 as int)
    }
}

/// Joins `n` cells along `links`, in order.
pub fn link_all(n: usize, links: &[(u32, u32)]) -> (uf: UnionFind)
    requires
        n <= u32::MAX,
        forall|k: int| 0 <= k < links.len() ==> (#[trigger] links@[k]).0 < n && links@[k].1 < n,
    ensures
        uf.wf(),
        uf@ == roots_after(n as nat, links@),
{
    let mut uf = UnionFind::new(n);
    let mut k: usize = 0;
    assert(links@.take(0) =~= Seq::<(u32, u32)>::empty());
    while k < links.len()
        invariant
            k <= links.len(),
            n <= u32::MAX,
            forall|kk: int| 0 <= kk < links.len() ==> (#[trigger] links@[kk]).0 < n && links@[kk].1 < n,
            uf.wf(),
            uf@ == roots_after(n as nat, links@.take(k as int)),
            uf@.len() == n,
        decreases links.len() - k,
    {
        let (a, b) = links[k];
        let ghost r0 = uf@;
        uf.union(a, b);
        proof {
            assert(links@.take(k as int + 1).drop_last() =~= links@.take(k as int));
            assert(links@.take(k as int + 1).last() == links@[k as int]);
            assert(uf@ =~= relabel(r0, a as int, b as int));
        }
        k = k + 1;
    }
    assert(links@.take(links.len() as int) =~= links@);
    uf
}

/// Joining along links leaves both ends of every link with one root, and
/// every root is the smallest cell it names.
pub proof fn lemma_links_joined(n: nat, links: Seq<(u32, u32)>)
    requires
        forall|k: int| 0 <= k < links.len() ==> (#[trigger] links[k]).0 < n && links[k].1 < n,
    ensures
        roots_after(n, links).len() == n,
        forall|k: int|
            0 <= k < links.len() ==> roots_after(n, links)[(#[trigger] links[k]).0 as int] == roots_after(
                n,
                links,
            )[links[k].1 as int],
        forall|x: int|
            0 <= x < n ==> 0 <= #[trigger] roots_after(n, links)[x] <= x && roots_after(n, links)[roots_after(
                n,
                links,
            )[x]] == roots_after(n, links)[x],
    decreases links.len(),
{
    if links.len() > 0 {
        let l2 = links.drop_last();
        assert forall|k: int| 0 <= k < l2.len() implies (#[trigger] l2[k]).0 < n && l2[k].1 < n by {
            assert(l2[k] == links[k]);
        }
        lemma_links_joined(n, l2);
        let r = roots_after(n, l2);
        let r2 = roots_after(n, links);
        assert forall|k: int| 0 <= k < links.len() implies r2[(#[trigger] links[k]).0 as int] == r2[links[k].1 as int] by {
            if k < l2.len() {
                assert(l2[k] == links[k]);
            }
        }
    }
}

/// Whether no position before `p` holds the cell at `p`.
pub open spec fn is_first(cells: Seq<u64>, p: int) -> bool {
    forall|i: int| 0 <= i < p ==> #[trigger] cells[i] != cells[p]
}

/// Whether some listed position at or before `i` holds the cell at `i`.
pub open spec fn represented(cells: Seq<u64>, r: Seq<usize>, i: int) -> bool {
    exists|j: int| 0 <= j < r.len() && r[j] <= i && cells[#[trigger] r[j] as int] == cells[i]
}

/// Whether `r` lists, in increasing order, exactly the positions of `cells`
/// below `upto` whose cell has not occurred earlier.
pub open spec fn first_occurrences(cells: Seq<u64>, r: Seq<usize>, upto: int) -> bool {
    &&& forall|j: int, k: int| 0 <= j < k < r.len() ==> #[trigger] r[j] < #[trigger] r[k]
    &&& forall|j: int| 0 <= j < r.len() ==> (#[trigger] r[j]) < upto && is_first(cells, r[j] as int)
    &&& forall|i: int| 0 <= i < upto ==> #[trigger] represented(cells, r, i)
}

/// Keeps the first position of each cell, in input order: two entries of one
/// cell stand for one point, and the first is its representative.
pub fn dedupe_cells(cells: &[u64]) -> (r: Vec<usize>)
    ensures
        first_occurrences(cells@, r@, cells.len() as int),
{
    let mut seen: SeenMasks = seen_new();
    let mut r: Vec<usize> = Vec::new();
    let mut i: usize = 0;
    while i < cells.len()
        invariant
            i <= cells.len(),
            first_occurrences(cells@, r@, i as int),
            forall|k: u128|
                #[trigger] seen_contents(seen).dom().contains(k) <==> exists|i2: int| 0 <= i2 < i && cells@[i2] as u128 == k,
        decreases cells.len() - i,
    {
        let cell = cells[i];
        let ghost before = seen_contents(seen);
        let ghost r0 = r@;
        let prev = seen_insert(&mut seen, cell as u128, 0);
        proof {
            assert forall|k: u128|
                #[trigger] seen_contents(seen).dom().contains(k) <==> exists|i2: int| 0 <= i2 < i + 1 && cells@[i2] as u128 == k by {
                if k != cell as u128 && exists|i2: int| 0 <= i2 < i + 1 && cells@[i2] as u128 == k {
                    let i2 = choose|i2: int| 0 <= i2 < i + 1 && cells@[i2] as u128 == k;
                    assert(i2 < i);
                }
            }
        }
        if prev.is_none() {
            r.push(i);
            proof {
                assert forall|i2: int| 0 <= i2 < i implies #[trigger] cells@[i2] != cells@[i as int] by {
                    if cells@[i2] == cells@[i as int] {
                        assert(before.dom().contains(cells@[i2] as u128));
                    }
                }
                assert(is_first(cells@, i as int));
                assert forall|j: int, k: int| 0 <= j < k < r@.len() implies #[trigger] r@[j] < #[trigger] r@[k] by {
                    assert(r@[j] == r0[j]);
                    if k < r0.len() {
                        assert(r@[k] == r0[k]);
                    }
                }
                assert forall|j: int| 0 <= j < r@.len() implies (#[trigger] r@[j]) < i + 1 && is_first(cells@, r@[j] as int) by {
                    if j < r0.len() {
                        assert(r@[j] == r0[j]);
                    }
                }
                assert forall|i2: int| 0 <= i2 < i + 1 implies #[trigger] represented(cells@, r@, i2) by {
                    if i2 < i {
                        assert(represented(cells@, r0, i2));
                        let j = choose|j: int| 0 <= j < r0.len() && r0[j] <= i2 && cells@[r0[j] as int] == cells@[i2];
                        assert(r@[j] == r0[j]);
                    } else {
                        assert(r@[r0.len() as int] == i);
                    }
                }
            }
        } else {
            proof {
                assert(before.dom().contains(cell as u128));
                let i2 = choose|i2: int| 0 <= i2 < i && cells@[i2] as u128 == cell as u128;
                assert(cells@[i2] == cell);
                assert(represented(cells@, r@, i2));
                let j = choose|j: int| 0 <= j < r@.len() && r@[j] <= i2 && cells@[r@[j] as int] == cells@[i2];
                assert(cells@[r@[j] as int] == cells@[i as int]);
                assert(represented(cells@, r@, i as int));
            }
        }
        i = i + 1;
    }
    r
}

/// Members gathered per root; backed by a `hashbrown::HashMap<u32, Vec<u32>>`.
#[verifier::external_body]
pub struct Groups {
    map: hashbrown::HashMap<u32, Vec<u32>>,
}

/// The member lists a [`Groups`] holds, by root.
pub uninterp spec fn group_contents(g: Groups) -> Map<u32, Seq<u32>>;

/// `hashbrown::HashMap::new`: no groups.
#[verifier::external_body]
fn groups_new() -> (r: Groups)
    ensures
        forall|k: u32| !group_contents(r).dom().contains(k),
{
    Groups { map: hashbrown::HashMap::new() }
}

/// `hashbrown::HashMap::entry` with `or_default`, then `extend`: the list
/// under `k` (empty where there was none) gains `items` at its end; the other
/// lists stay.
#[verifier::external_body]
fn groups_extend(g: &mut Groups, k: u32, items: &Vec<u32>)
    ensures
        group_contents(*final(g)) == group_contents(*old(g)).insert(
            k,
            (if group_contents(*old(g)).dom().contains(k) {
                group_contents(*old(g))[k]
            } else {
                Seq::<u32>::empty()
            }) + items@,
        ),
{
    g.map.entry(k).or_default().extend_from_slice(items);
}

/// `hashbrown::HashMap::into_iter`, split into roots and lists: one entry
/// per root, in an order the source leaves open.
#[verifier::external_body]
fn groups_entries(g: Groups) -> (r: (Vec<u32>, Vec<Vec<u32>>))
    ensures
        r.0.len() == r.1.len(),
        r.0@.no_duplicates(),
        forall|i: int|
            0 <= i < r.0.len() ==> group_contents(g).dom().contains(#[trigger] r.0@[i]) && r.1@[i]@
                == group_contents(g)[r.0@[i]],
        forall|k: u32| group_contents(g).dom().contains(k) ==> r.0@.contains(k),
{
    g.map.into_iter().unzip()
}

/// The members of the cells whose root is `k`.
pub open spec fn members_of_root(members: Seq<Seq<u32>>, roots: Seq<int>, k: int) -> Set<u32> {
    Set::new(|x: u32| exists|i: int| 0 <= i < members.len() && roots[i] == k && members[i].contains(x))
}

/// Whether `list` names exactly the members of the cells whose root is `k`.
pub open spec fn is_component(list: Seq<u32>, members: Seq<Seq<u32>>, roots: Seq<int>, k: int) -> bool {
    forall|x: u32| list.contains(x) <==> #[trigger] members_of_root(members, roots, k).contains(x)
}

/// Whether `list` names exactly the members of the cells of some root.
pub open spec fn is_some_component(list: Seq<u32>, members: Seq<Seq<u32>>, roots: Seq<int>) -> bool {
    exists|k: int| 0 <= k < members.len() && #[trigger] is_component(list, members, roots, k)
}

/// Every list names exactly the members of the cells of one root.
pub open spec fn each_a_component(r: Seq<Vec<u32>>, members: Seq<Seq<u32>>, roots: Seq<int>) -> bool {
    forall|g: int| 0 <= g < r.len() ==> #[trigger] is_some_component(r[g]@, members, roots)
}

/// Whether list `g` names exactly the members of the cells of root
/// `ks[g]`, no root named twice.
pub open spec fn components_by_root(r: Seq<Vec<u32>>, members: Seq<Seq<u32>>, roots: Seq<int>, ks: Seq<int>) -> bool {
    &&& ks.len() == r.len()
    &&& ks.no_duplicates()
    &&& forall|g: int| 0 <= g < r.len() ==> 0 <= ks[g] < members.len() && #[trigger] is_component(r[g]@, members, roots, ks[g])
}

/// Whether the roots `ks` increase, and each is the least cell of its
/// component: a cell whose root is itself, below every other cell of that
/// root.
pub open spec fn least_cells_in_order(ks: Seq<int>, roots: Seq<int>) -> bool {
    &&& forall|g: int, h: int| 0 <= g < h < ks.len() ==> #[trigger] ks[g] < #[trigger] ks[h]
    &&& forall|g: int| 0 <= g < ks.len() ==> roots[#[trigger] ks[g]] == ks[g]
    &&& forall|g: int, i: int| 0 <= g < ks.len() && 0 <= i < roots.len() && #[trigger] roots[i] == #[trigger] ks[g] ==> ks[g] <= i
}

/// The member lists as sequences.
pub open spec fn member_lists(m: Seq<Vec<u32>>) -> Seq<Seq<u32>> {
    m.map_values(|v: Vec<u32>| v@)
}

/// Groups the members of cells into components: cells joined along
/// `links` (directly or through other cells) form one component. Each
/// component lists its members in increasing order, and components come in
/// order of their smallest cell (cells are given in increasing cell id
/// order, so this is the order of their smallest cell id).
pub fn group_components(members: &[Vec<u32>], links: &[(u32, u32)]) -> (r: Vec<Vec<u32>>)
    requires
        members.len() <= u32::MAX,
        forall|k: int| 0 <= k < links.len() ==> (#[trigger] links@[k]).0 < members.len() && links@[k].1 < members.len(),
        forall|i: int| 0 <= i < members.len() ==> (#[trigger] members@[i])@.len() > 0,
    ensures
        forall|g: int|
            0 <= g < r.len() ==> (#[trigger] r@[g])@.len() > 0 && forall|a: int, b: int|
                0 <= a < b < r@[g]@.len() ==> r@[g]@[a] < r@[g]@[b],
        each_a_component(r@, member_lists(members@), roots_after(members.len() as nat, links@)),
        exists|ks: Seq<int>|
            #[trigger] components_by_root(r@, member_lists(members@), roots_after(members.len() as nat, links@), ks)
                && least_cells_in_order(ks, roots_after(members.len() as nat, links@)),
        cells_disjoint(member_lists(members@)) ==> lists_disjoint(r@),
        forall|i: int, x: u32|
            0 <= i < members.len() && #[trigger] members@[i]@.contains(x) ==> exists|g: int|
                0 <= g < r.len() && #[trigger] r@[g]@.contains(x),
{
    let n = members.len();
    let mut uf = link_all(n, links);
    let ghost roots = roots_after(n as nat, links@);
    let ghost ml = member_lists(members@);
    proof {
        lemma_links_joined(n as nat, links@);
    }
    let mut groups = groups_new();
    let mut i: usize = 0;
    while i < n
        invariant
            i <= n == members.len() <= u32::MAX,
            uf.wf(),
            uf@ == roots,
            roots.len() == n,
            ml == member_lists(members@),
            forall|x: int| 0 <= x < n ==> 0 <= #[trigger] roots[x] <= x,
            forall|k: u32|
                #[trigger] group_contents(groups).dom().contains(k) ==> exists|j: int| 0 <= j < i && roots[j] == k,
            forall|k: u32, x: u32|
                group_contents(groups).dom().contains(k) ==> (#[trigger] group_contents(groups)[k].contains(x)
                    <==> exists|j: int| 0 <= j < i && roots[j] == k && ml[j].contains(x)),
            forall|j: int| 0 <= j < i ==> group_contents(groups).dom().contains(#[trigger] roots[j] as u32),
            forall|k: u32| #[trigger] group_contents(groups).dom().contains(k) ==> group_contents(groups)[k].len() > 0,
            forall|j: int| 0 <= j < members.len() ==> (#[trigger] members@[j])@.len() > 0,
        decreases n - i,
    {
        let root = uf.find(i as u32);
        let ghost g0 = group_contents(groups);
        assert(ml[i as int] == members@[i as int]@);
        groups_extend(&mut groups, root, &members[i]);
        proof {
            let g1 = group_contents(groups);
            assert forall|k: u32, x: u32| g1.dom().contains(k) implies (#[trigger] g1[k].contains(x) <==> exists|j: int|
                0 <= j < i + 1 && roots[j] == k && ml[j].contains(x)) by {
                if k == root {
                    let prev = if g0.dom().contains(k) { g0[k] } else { Seq::<u32>::empty() };
                    assert(g1[k] == prev + members@[i as int]@);
                    if g1[k].contains(x) {
                        let t = choose|t: int| 0 <= t < g1[k].len() && g1[k][t] == x;
                        if t < prev.len() {
                            assert(prev[t] == x);
                            assert(g0[k].contains(x));
                        } else {
                            assert(members@[i as int]@[t - prev.len()] == x);
                            assert(ml[i as int].contains(x));
                        }
                    }
                    if exists|j: int| 0 <= j < i + 1 && roots[j] == k && ml[j].contains(x) {
                        let j = choose|j: int| 0 <= j < i + 1 && roots[j] == k && ml[j].contains(x);
                        if j < i {
                            assert(g0.dom().contains(k));
                            assert(g0[k].contains(x));
                            let t = choose|t: int| 0 <= t < g0[k].len() && g0[k][t] == x;
                            assert(g1[k][t] == x);
                        } else {
                            let t = choose|t: int| 0 <= t < ml[j].len() && ml[j][t] == x;
                            assert(g1[k][prev.len() + t] == x);
                        }
                    }
                } else {
                    assert(g1[k] == g0[k]);
                    if exists|j: int| 0 <= j < i + 1 && roots[j] == k && ml[j].contains(x) {
                        let j = choose|j: int| 0 <= j < i + 1 && roots[j] == k && ml[j].contains(x);
                        assert(j != i);
                    }
                }
            }
            assert forall|k: u32| #[trigger] g1.dom().contains(k) implies exists|j: int| 0 <= j < i + 1 && roots[j] == k by {
                if k != root {
                    let j = choose|j: int| 0 <= j < i && roots[j] == k;
                }
            }
            assert forall|k: u32| #[trigger] g1.dom().contains(k) implies g1[k].len() > 0 by {
                if k != root {
                    assert(g1[k] == g0[k]);
                }
            }
            assert forall|j: int| 0 <= j < i + 1 implies g1.dom().contains(#[trigger] roots[j] as u32) by {
                if j < i {
                    assert(g0.dom().contains(roots[j] as u32));
                }
            }
        }
        i = i + 1;
    }
    let ghost gc = group_contents(groups);
    let (keys, comps) = groups_entries(groups);
    let ghost ks = keys@;
    proof {
        assert forall|t: int| 0 <= t < comps.len() implies {
            &&& 0 <= (#[trigger] ks[t]) < n
            &&& comps@[t]@.len() > 0
            &&& is_component(comps@[t]@, ml, roots, ks[t] as int)
        } by {
            let k = ks[t];
            assert(gc.dom().contains(k));
            let j = choose|j: int| 0 <= j < n && roots[j] == k;
            assert(roots[j] <= j);
            assert forall|x: u32| comps@[t]@.contains(x) <==> #[trigger] members_of_root(ml, roots, k as int).contains(x) by {
                assert(gc[k].contains(x) <==> exists|j: int| 0 <= j < n && roots[j] == k && ml[j].contains(x));
            }
        }
    }
    // Each component's members in increasing order.
    let mut sorted: Vec<Vec<u32>> = Vec::new();
    let mut q: usize = 0;
    while q < comps.len()
        invariant
            q <= comps.len(),
            ks.len() == comps.len(),
            sorted.len() == q,
            forall|t: int|
                #![trigger sorted@[t]]
                0 <= t < q ==> {
                    &&& sorted@[t]@.len() > 0
                    &&& forall|a: int, b: int| 0 <= a < b < sorted@[t]@.len() ==> sorted@[t]@[a] < sorted@[t]@[b]
                    &&& 0 <= ks[t] < n
                    &&& is_component(sorted@[t]@, ml, roots, ks[t] as int)
                    &&& forall|x: u32| sorted@[t]@.contains(x) <==> comps@[t]@.contains(x)
                },
            forall|t: int|
                0 <= t < comps.len() ==> {
                    &&& 0 <= (#[trigger] ks[t]) < n
                    &&& comps@[t]@.len() > 0
                    &&& is_component(comps@[t]@, ml, roots, ks[t] as int)
                },
        decreases comps.len() - q,
    {
        let s = sorted_distinct(&comps[q]);
        proof {
            assert(0 <= ks[q as int] < n);
            assert(comps@[q as int]@[0] == comps@[q as int]@[0]);
            assert(comps@[q as int]@.contains(comps@[q as int]@[0]));
            assert(s@.contains(comps@[q as int]@[0]));
            assert forall|x: u32| s@.contains(x) <==> #[trigger] members_of_root(ml, roots, ks[q as int] as int).contains(x) by {
                assert(comps@[q as int]@.contains(x) <==> members_of_root(ml, roots, ks[q as int] as int).contains(x));
            }
        }
        let ghost s0 = sorted@;
        sorted.push(s);
        assert forall|t: int|
            #![trigger sorted@[t]]
            0 <= t < q + 1 implies {
                &&& sorted@[t]@.len() > 0
                &&& forall|a: int, b: int| 0 <= a < b < sorted@[t]@.len() ==> sorted@[t]@[a] < sorted@[t]@[b]
                &&& 0 <= ks[t] < n
                &&& is_component(sorted@[t]@, ml, roots, ks[t] as int)
                &&& forall|x: u32| sorted@[t]@.contains(x) <==> comps@[t]@.contains(x)
            } by {
            if t < q {
                assert(sorted@[t] == s0[t]);
            }
        }
        q = q + 1;
    }
    proof {
        lemma_roots_least(&uf);
    }
    // Components in order of their smallest cell, which is their root.
    let mut used: Vec<bool> = Vec::new();
    let mut t: usize = 0;
    while t < sorted.len()
        invariant
            t <= sorted.len(),
            used.len() == t,
            forall|u: int| 0 <= u < t ==> !(#[trigger] used@[u]),
        decreases sorted.len() - t,
    {
        used.push(false);
        t = t + 1;
    }
    let mut out: Vec<Vec<u32>> = Vec::new();
    let ghost mut picked: Seq<int> = Seq::empty();
    let mut round: usize = 0;
    while round < sorted.len()
        invariant
            round <= sorted.len(),
            sorted.len() == comps.len(),
            ks.len() == comps.len(),
            used.len() == sorted.len(),
            out.len() == round,
            picked.len() == round,
            picked.no_duplicates(),
            forall|u: int| 0 <= u < round ==> 0 <= #[trigger] picked[u] < sorted.len() && out@[u]@ == sorted@[picked[u]]@,
            forall|v: int| 0 <= v < sorted.len() ==> (#[trigger] used@[v] <==> picked.contains(v)),
            forall|t: int|
                #![trigger sorted@[t]]
                0 <= t < sorted.len() ==> {
                    &&& sorted@[t]@.len() > 0
                    &&& forall|a: int, b: int| 0 <= a < b < sorted@[t]@.len() ==> sorted@[t]@[a] < sorted@[t]@[b]
                    &&& 0 <= ks[t] < n
                    &&& is_component(sorted@[t]@, ml, roots, ks[t] as int)
                    &&& forall|x: u32| sorted@[t]@.contains(x) <==> comps@[t]@.contains(x)
                },
            ks == keys@,
            forall|a: int, b: int|
                #![trigger picked[a], picked[b]]
                0 <= a < b < round ==> ks[picked[a]] <= ks[picked[b]],
            forall|u: int, v: int|
                #![trigger picked[u], used@[v]]
                0 <= u < round && 0 <= v < sorted.len() && !used@[v] ==> ks[picked[u]] <= ks[v],
        decreases sorted.len() - round,
    {
        let mut best: usize = sorted.len();
        let mut v: usize = 0;
        while v < sorted.len()
            invariant
                v <= sorted.len(),
                used.len() == sorted.len(),
                best == sorted.len() || (best < v && !used@[best as int]),
                forall|t: int| #![trigger sorted@[t]] 0 <= t < sorted.len() ==> sorted@[t]@.len() > 0,
                best == sorted.len() ==> forall|u: int| 0 <= u < v ==> #[trigger] used@[u],
                keys.len() == sorted.len(),
                best < sorted.len() ==> forall|w: int|
                    0 <= w < v && !(#[trigger] used@[w]) ==> keys@[best as int] <= keys@[w],
            decreases sorted.len() - v,
        {
            if !used[v] {
                if best == sorted.len() || keys[v] < keys[best] {
                    best = v;
                }
            }
            v = v + 1;
        }
        if best == sorted.len() {
            proof {
                assert forall|u: int| 0 <= u < sorted.len() implies picked.contains(u) by {
                    assert(used@[u]);
                }
                lemma_picked_all(picked, sorted.len() as int);
            }
        }
        let ghost u0 = used@;
        let ghost o0 = out@;
        used.set(best, true);
        out.push(copy_list(&sorted[best]));
        proof {
            assert(!picked.contains(best as int));
            let p0 = picked;
            picked = picked.push(best as int);
            assert forall|u: int| 0 <= u < round + 1 implies 0 <= #[trigger] picked[u] < sorted.len() && out@[u]@
                == sorted@[picked[u]]@ by {
                if u < round {
                    assert(out@[u] == o0[u]);
                    assert(picked[u] == p0[u]);
                }
            }
            assert(picked.no_duplicates()) by {
                assert forall|a: int, b: int| 0 <= a < b < picked.len() implies picked[a] != picked[b] by {
                    if b == p0.len() {
                        assert(p0.contains(picked[a]) || picked[a] != best);
                    }
                }
            }
            assert forall|v: int| 0 <= v < sorted.len() implies (#[trigger] used@[v] <==> picked.contains(v)) by {
                if v != best {
                    assert(used@[v] == u0[v]);
                    if picked.contains(v) {
                        let w = choose|w: int| 0 <= w < picked.len() && picked[w] == v;
                        assert(p0[w] == v);
                    }
                    if p0.contains(v) {
                        let w = choose|w: int| 0 <= w < p0.len() && p0[w] == v;
                        assert(picked[w] == v);
                    }
                } else {
                    assert(picked[picked.len() - 1] == v);
                }
            }
            assert(out@[round as int]@ == sorted@[best as int]@);
            assert forall|a: int, b: int|
                #![trigger picked[a], picked[b]]
                0 <= a < b < round + 1 implies ks[picked[a]] <= ks[picked[b]] by {
                assert(picked[a] == p0[a]);
                if b < round {
                    assert(picked[b] == p0[b]);
                } else {
                    assert(!u0[best as int]);
                    assert(ks[p0[a]] <= ks[best as int]);
                }
            }
            assert forall|u: int, v: int|
                #![trigger picked[u], used@[v]]
                0 <= u < round + 1 && 0 <= v < sorted.len() && !used@[v] implies ks[picked[u]] <= ks[v] by {
                assert(v != best);
                assert(!u0[v]);
                if u < round {
                    assert(picked[u] == p0[u]);
                    assert(ks[p0[u]] <= ks[v]);
                } else {
                    assert(picked[u] == best);
                }
            }
        }
        round = round + 1;
    }
    proof {
        picked.unique_seq_to_set();
        assert forall|v: int| 0 <= v < sorted.len() implies picked.contains(v) by {
            let rng = vstd::set_lib::set_int_range(0, sorted.len() as int);
            vstd::set_lib::lemma_int_range(0, sorted.len() as int);
            assert(picked.to_set().subset_of(rng)) by {
                assert forall|y: int| picked.to_set().contains(y) implies rng.contains(y) by {
                    let w = choose|w: int| 0 <= w < picked.len() && picked[w] == y;
                }
            }
            vstd::set_lib::lemma_subset_equality(picked.to_set(), rng);
            assert(rng.contains(v));
            assert(picked.to_set().contains(v));
        }
        assert forall|i: int, x: u32|
            0 <= i < members.len() && #[trigger] members@[i]@.contains(x) implies exists|g: int|
                0 <= g < out.len() && #[trigger] out@[g]@.contains(x) by {
            let k = roots[i] as u32;
            assert(gc.dom().contains(k));
            assert(ks.contains(k));
            let t = choose|t: int| 0 <= t < ks.len() && ks[t] == k;
            assert(ml[i] == members@[i]@);
            assert(gc[k].contains(x));
            assert(comps@[t]@.contains(x));
            assert(sorted@[t]@.contains(x));
            assert(picked.contains(t));
            let u = choose|u: int| 0 <= u < picked.len() && picked[u] == t;
            assert(out@[u]@ == sorted@[t]@);
        }
        assert forall|g: int| 0 <= g < out@.len() implies #[trigger] is_some_component(out@[g]@, ml, roots) by {
            let t = picked[g];
            assert(out@[g]@ == sorted@[t]@);
            assert(0 <= ks[t] < n);
            assert(is_component(out@[g]@, ml, roots, ks[t] as int));
        }
        assert forall|g: int|
            0 <= g < out.len() implies (#[trigger] out@[g])@.len() > 0 && forall|a: int, b: int|
                0 <= a < b < out@[g]@.len() ==> out@[g]@[a] < out@[g]@[b] by {
            let t = picked[g];
            assert(out@[g]@ == sorted@[t]@);
        }
        let kr = Seq::new(out.len() as nat, |g: int| ks[picked[g]] as int);
        assert forall|a: int, b: int| 0 <= a < b < kr.len() implies kr[a] != kr[b] by {
            assert(picked[a] != picked[b]);
            assert(ks[picked[a]] != ks[picked[b]]);
        }
        assert forall|g: int| 0 <= g < out@.len() implies 0 <= kr[g] < members.len() && #[trigger] is_component(out@[g]@, ml, roots, kr[g]) by {
            let t = picked[g];
            assert(out@[g]@ == sorted@[t]@);
            assert(0 <= ks[t] < n);
        }
        assert(components_by_root(out@, ml, roots, kr));
        assert forall|g: int, h: int| 0 <= g < h < kr.len() implies #[trigger] kr[g] < #[trigger] kr[h] by {
            assert(picked[g] != picked[h]);
            assert(ks[picked[g]] <= ks[picked[h]]);
            assert(ks[picked[g]] != ks[picked[h]]);
        }
        assert forall|g: int| 0 <= g < kr.len() implies roots[#[trigger] kr[g]] == kr[g] by {
            let k = ks[picked[g]];
            assert(gc.dom().contains(k));
            let j = choose|j: int| 0 <= j < n && roots[j] == k;
        }
        assert forall|g: int, i: int| 0 <= g < kr.len() && 0 <= i < roots.len() && #[trigger] roots[i] == #[trigger] kr[g]
            implies kr[g] <= i by {
            assert(roots[i] <= i);
        }
        assert(least_cells_in_order(kr, roots));
        lemma_components_disjoint(out@, ml, roots, kr);
    }
    out
}

/// Whether no member is listed in two cells.
pub open spec fn cells_disjoint(members: Seq<Seq<u32>>) -> bool {
    forall|i: int, j: int, x: u32| 0 <= i < j < members.len() && #[trigger] members[i].contains(x) ==> !#[trigger] members[j].contains(x)
}

/// Whether no member is named by two lists.
pub open spec fn lists_disjoint(r: Seq<Vec<u32>>) -> bool {
    forall|g: int, h: int, x: u32| 0 <= g < h < r.len() && #[trigger] r[g]@.contains(x) ==> !#[trigger] r[h]@.contains(x)
}

/// Components of distinct roots share no member when no member sits in
/// two cells.
pub proof fn lemma_components_disjoint(r: Seq<Vec<u32>>, members: Seq<Seq<u32>>, roots: Seq<int>, ks: Seq<int>)
    requires
        components_by_root(r, members, roots, ks),
    ensures
        cells_disjoint(members) ==> lists_disjoint(r),
{
    if cells_disjoint(members) {
        assert forall|g: int, h: int, x: u32| 0 <= g < h < r.len() && #[trigger] r[g]@.contains(x) implies !#[trigger] r[h]@.contains(x) by {
            if r[h]@.contains(x) {
                assert(is_component(r[g]@, members, roots, ks[g]));
                assert(is_component(r[h]@, members, roots, ks[h]));
                assert(members_of_root(members, roots, ks[g]).contains(x));
                assert(members_of_root(members, roots, ks[h]).contains(x));
                let i = choose|i: int| 0 <= i < members.len() && roots[i] == ks[g] && members[i].contains(x);
                let j = choose|j: int| 0 <= j < members.len() && roots[j] == ks[h] && members[j].contains(x);
                assert(ks[g] != ks[h]);
                assert(i != j);
                if i < j {
                    assert(!members[j].contains(x));
                } else {
                    assert(!members[i].contains(x));
                }
            }
        }
    }
}

/// A list that names every index of `0..n` has at least `n` entries.
pub(crate) proof fn lemma_picked_all(picked: Seq<int>, n: int)
    requires
        0 <= n,
        forall|u: int| 0 <= u < n ==> picked.contains(u),
    ensures
        picked.len() >= n,
{
    let s = Set::new(|u: int| 0 <= u < n);
    vstd::set_lib::lemma_int_range(0, n);
    assert(s =~= vstd::set_lib::set_int_range(0, n));
    assert(s.subset_of(picked.to_set()));
    picked.lemma_cardinality_of_set();
    vstd::set_lib::lemma_len_subset(s, picked.to_set());
}

/// A copy of a list.
fn copy_list(v: &Vec<u32>) -> (r: Vec<u32>)
    ensures
        r@ == v@,
{
    crate::exact_cover::copy_u32s(v)
}

} // verus!
