//! The comb visiting order over lattice rows: down the even rows, back up
//! the odd ones, each row emitted forwards or backwards. The emitted route
//! is a permutation of the rows' points.

use vstd::prelude::*;
use vstd::seq_lib::*;
use vstd::multiset::Multiset;

verus! {

broadcast use group_to_multiset_ensures;

/// Row `i` of the comb order over `n` rows: the even rows ascending, then
/// the odd rows descending.
pub open spec fn comb_row(n: int, i: int) -> int {
    let evens = (n + 1) / 2;
    let last_odd = if n % 2 == 0 {
        n - 1
    } else {
        n - 2
    };
    if i < evens {
        2 * i
    } else {
        last_odd - 2 * (i - evens)
    }
}

/// Whether `idx` lists each of `0..n` exactly once.
pub open spec fn is_permutation(idx: Seq<usize>, n: int) -> bool {
    &&& idx.len() == n
    &&& idx.no_duplicates()
    &&& forall|k: int| 0 <= k < idx.len() ==> #[trigger] idx[k] < n
}

/// The comb visiting order of `n` rows: `0, 2, 4, …` then the odd rows
/// from the last one back to `1`. It visits every row exactly once.
pub fn comb_visit_order(n: usize) -> (r: Vec<usize>)
    ensures
        r@ == Seq::new(n as nat, |i: int| comb_row(n as int, i) as usize),
        is_permutation(r@, n as int),
{
    let mut r: Vec<usize> = Vec::new();
    let evens: usize = n / 2 + n % 2;
    proof {
        assert(evens as int == (n as int + 1) / 2);
    }
    let mut k: usize = 0;
    while k < evens
        invariant
            k <= evens,
            evens as int == (n as int + 1) / 2,
            r.len() == k,
            forall|q: int| 0 <= q < k ==> #[trigger] r@[q] == 2 * q,
            forall|q: int| 0 <= q < r.len() ==> (#[trigger] r@[q]) < n,
        decreases evens - k,
    {
        r.push(2 * k);
        k = k + 1;
    }
    let odds: usize = n - evens;
    let mut t: usize = 0;
    while t < odds
        invariant
            t <= odds,
            odds == n - evens,
            evens as int == (n as int + 1) / 2,
            r.len() == evens + t,
            forall|q: int| 0 <= q < evens ==> #[trigger] r@[q] == 2 * q,
            forall|q: int| evens <= q < r.len() ==> #[trigger] r@[q] == comb_row(n as int, q),
            forall|q: int| 0 <= q < r.len() ==> (#[trigger] r@[q]) < n,
        decreases odds - t,
    {
        r.push(n - 1 - n % 2 - 2 * t);
        t = t + 1;
    }
    proof {
        assert(r@ =~= Seq::new(n as nat, |i: int| comb_row(n as int, i) as usize));
        assert(r@.no_duplicates()) by {
            assert forall|a: int, b: int| 0 <= a < r.len() && 0 <= b < r.len() && a != b implies r@[a] != r@[b] by {
                if a < evens && b < evens {
                } else if a >= evens && b >= evens {
                } else if a < evens {
                    assert(r@[a] % 2 == 0);
                    assert(r@[b] % 2 == 1);
                } else {
                    assert(r@[b] % 2 == 0);
                    assert(r@[a] % 2 == 1);
                }
            }
        }
    }
    r
}

/// The rows' points in row order.
pub open spec fn flat<T>(rows: Seq<Seq<T>>) -> Seq<T>
    decreases rows.len(),
{
    if rows.len() == 0 {
        Seq::empty()
    } else {
        flat(rows.drop_last()) + rows.last()
    }
}

/// Row `r`, backwards when `back` holds.
pub open spec fn oriented<T>(r: Seq<T>, back: bool) -> Seq<T> {
    if back {
        r.reverse()
    } else {
        r
    }
}

/// The points of the first `k` visits: visit `q` emits row `order[q]`,
/// backwards when `back[q]` holds.
pub open spec fn emitted<T>(rows: Seq<Seq<T>>, order: Seq<usize>, back: Seq<bool>, k: int) -> Seq<T>
    decreases k,
{
    if k <= 0 {
        Seq::empty()
    } else {
        emitted(rows, order, back, k - 1) + oriented(rows[order[k - 1] as int], back[k - 1])
    }
}

/// The rows as sequences.
pub open spec fn row_seqs<T>(rows: Seq<Vec<T>>) -> Seq<Seq<T>> {
    rows.map_values(|v: Vec<T>| v@)
}

/// Emits row `order[q]` for each visit `q`, backwards where `back[q]` holds.
pub fn emit_rows<T: Copy>(rows: &[Vec<T>], order: &[usize], back: &[bool]) -> (r: Vec<T>)
    requires
        order.len() == back.len(),
        forall|q: int| 0 <= q < order.len() ==> #[trigger] order@[q] < rows.len(),
    ensures
        r@ == emitted(row_seqs(rows@), order@, back@, order.len() as int),
        is_permutation(order@, rows.len() as int) ==> r@.to_multiset() == flat(row_seqs(rows@)).to_multiset(),
{
    let ghost rs = row_seqs(rows@);
    let mut out: Vec<T> = Vec::new();
    let mut q: usize = 0;
    while q < order.len()
        invariant
            q <= order.len(),
            order.len() == back.len(),
            rs == row_seqs(rows@),
            forall|q2: int| 0 <= q2 < order.len() ==> #[trigger] order@[q2] < rows.len(),
            out@ == emitted(rs, order@, back@, q as int),
        decreases order.len() - q,
    {
        let row = &rows[order[q]];
        assert(rs[order@[q as int] as int] == row@);
        let ghost o0 = out@;
        let n = row.len();
        let mut t: usize = 0;
        while t < n
            invariant
                t <= n,
                n == row@.len(),
                out@ == o0 + oriented(row@, back@[q as int]).take(t as int),
                q < back.len(),
            decreases n - t,
        {
            let x = if back[q] {
                row[n - 1 - t]
            } else {
                row[t]
            };
            proof {
                assert(oriented(row@, back@[q as int])[t as int] == x);
                assert(oriented(row@, back@[q as int]).take(t as int + 1) =~= oriented(row@, back@[q as int]).take(t as int).push(x));
            }
            out.push(x);
            t = t + 1;
        }
        proof {
            assert(oriented(row@, back@[q as int]).take(n as int) =~= oriented(row@, back@[q as int]));
        }
        q = q + 1;
    }
    proof {
        if is_permutation(order@, rows.len() as int) {
            lemma_emit_is_permutation(rs, order@, back@);
        }
    }
    out
}

/// A reversed sequence holds the same points.
pub proof fn lemma_reverse_multiset<T>(s: Seq<T>)
    ensures
        s.reverse().to_multiset() == s.to_multiset(),
    decreases s.len(),
{
    if s.len() > 0 {
        let d = s.drop_last();
        lemma_reverse_multiset(d);
        assert(s.reverse() =~= seq![s.last()] + d.reverse());
        assert(s =~= d.push(s.last()));
        lemma_multiset_commutative(seq![s.last()], d.reverse());
        assert(seq![s.last()] =~= Seq::<T>::empty().push(s.last()));
        assert(s.reverse().to_multiset() =~= s.to_multiset());
    } else {
        assert(s.reverse() =~= s);
    }
}

/// The points of the rows visited in `idx`, as a multiset.
pub open spec fn visit_points<T>(rows: Seq<Seq<T>>, idx: Seq<usize>) -> Multiset<T>
    decreases idx.len(),
{
    if idx.len() == 0 {
        Multiset::empty()
    } else {
        visit_points(rows, idx.drop_last()).add(rows[idx.last() as int].to_multiset())
    }
}

/// Taking out one visit takes out its row's points.
proof fn lemma_visit_remove<T>(rows: Seq<Seq<T>>, idx: Seq<usize>, p: int)
    requires
        0 <= p < idx.len(),
    ensures
        visit_points(rows, idx) == visit_points(rows, idx.remove(p)).add(rows[idx[p] as int].to_multiset()),
    decreases idx.len(),
{
    if p == idx.len() - 1 {
        assert(idx.remove(p) =~= idx.drop_last());
    } else {
        let d = idx.drop_last();
        lemma_visit_remove(rows, d, p);
        assert(idx.remove(p).drop_last() =~= d.remove(p));
        assert(idx.remove(p).last() == idx.last());
        let a = visit_points(rows, d.remove(p));
        let b = rows[idx[p] as int].to_multiset();
        let c = rows[idx.last() as int].to_multiset();
        assert(visit_points(rows, idx) =~= visit_points(rows, idx.remove(p)).add(b)) by {
            assert(visit_points(rows, idx) == a.add(b).add(c));
            assert(visit_points(rows, idx.remove(p)) == a.add(c));
        }
    }
}

/// The rows `0..n` in order.
pub open spec fn rows_upto(n: int) -> Seq<usize> {
    Seq::new(n as nat, |i: int| i as usize)
}

/// Visiting every row once, in any order, gives the same points.
proof fn lemma_visit_permutation<T>(rows: Seq<Seq<T>>, idx: Seq<usize>, n: int)
    requires
        0 <= n <= usize::MAX,
        is_permutation(idx, n),
    ensures
        visit_points(rows, idx) == visit_points(rows, rows_upto(n)),
    decreases n,
{
    if n > 0 {
        let target = (n - 1) as usize;
        assert(idx.contains(target)) by {
            let m = idx.map_values(|x: usize| x as int);
            assert(m.no_duplicates()) by {
                assert forall|a: int, b: int| 0 <= a < b < m.len() implies m[a] != m[b] by {
                    assert(idx[a] != idx[b]);
                }
            }
            m.unique_seq_to_set();
            let rng = vstd::set_lib::set_int_range(0, n);
            vstd::set_lib::lemma_int_range(0, n);
            assert(m.to_set().subset_of(rng)) by {
                assert forall|y: int| m.to_set().contains(y) implies rng.contains(y) by {
                    let w = choose|w: int| 0 <= w < m.len() && m[w] == y;
                    assert(idx[w] < n);
                }
            }
            vstd::set_lib::lemma_subset_equality(m.to_set(), rng);
            assert(rng.contains(n - 1));
            let w = choose|w: int| 0 <= w < m.len() && m[w] == n - 1;
            assert(idx[w] == target);
        }
        let p = choose|p: int| 0 <= p < idx.len() && idx[p] == target;
        let idx2 = idx.remove(p);
        assert(is_permutation(idx2, n - 1)) by {
            assert(idx2.no_duplicates()) by {
                assert forall|a: int, b: int| 0 <= a < b < idx2.len() implies idx2[a] != idx2[b] by {
                    let a1 = if a < p { a } else { a + 1 };
                    let b1 = if b < p { b } else { b + 1 };
                    assert(idx2[a] == idx[a1] && idx2[b] == idx[b1]);
                }
            }
            assert forall|k: int| 0 <= k < idx2.len() implies #[trigger] idx2[k] < n - 1 by {
                let k1 = if k < p { k } else { k + 1 };
                assert(idx2[k] == idx[k1]);
                assert(k1 != p);
                assert(idx[k1] != idx[p]);
            }
        }
        lemma_visit_permutation(rows, idx2, n - 1);
        lemma_visit_remove(rows, idx, p);
        assert(rows_upto(n).drop_last() =~= rows_upto(n - 1));
    } else {
        assert(idx =~= Seq::<usize>::empty());
        assert(rows_upto(n) =~= Seq::<usize>::empty());
    }
}

/// The points emitted are those of the visited rows, orientation aside.
proof fn lemma_emitted_points<T>(rows: Seq<Seq<T>>, order: Seq<usize>, back: Seq<bool>, k: int)
    requires
        0 <= k <= order.len(),
    ensures
        emitted(rows, order, back, k).to_multiset() == visit_points(rows, order.take(k)),
    decreases k,
{
    if k > 0 {
        lemma_emitted_points(rows, order, back, k - 1);
        let row = rows[order[k - 1] as int];
        lemma_multiset_commutative(emitted(rows, order, back, k - 1), oriented(row, back[k - 1]));
        if back[k - 1] {
            lemma_reverse_multiset(row);
        }
        assert(order.take(k).drop_last() =~= order.take(k - 1));
        assert(order.take(k).last() == order[k - 1]);
    } else {
        assert(order.take(0) =~= Seq::<usize>::empty());
    }
}

/// The rows' points, as a multiset, are those of visiting every row in order.
proof fn lemma_flat_points<T>(rows: Seq<Seq<T>>)
    requires
        rows.len() <= usize::MAX,
    ensures
        flat(rows).to_multiset() == visit_points(rows, rows_upto(rows.len() as int)),
    decreases rows.len(),
{
    if rows.len() > 0 {
        let d = rows.drop_last();
        lemma_flat_points(d);
        lemma_multiset_commutative(flat(d), rows.last());
        let u = rows_upto(rows.len() as int);
        assert(u.drop_last() =~= rows_upto(d.len() as int));
        assert(u.last() == (rows.len() - 1) as usize);
        assert forall|i: int| 0 <= i < d.len() implies #[trigger] d[i] == rows[i] by {}
        lemma_visit_same_rows(rows, d, rows_upto(d.len() as int));
        assert(visit_points(rows, u) == visit_points(rows, u.drop_last()).add(rows[rows.len() - 1].to_multiset()));
        assert(flat(rows) == flat(d) + rows.last());
    } else {
        assert(rows_upto(0) =~= Seq::<usize>::empty());
    }
}

/// Visits of rows that two row lists agree on give the same points.
proof fn lemma_visit_same_rows<T>(rows: Seq<Seq<T>>, other: Seq<Seq<T>>, idx: Seq<usize>)
    requires
        forall|k: int| 0 <= k < idx.len() ==> (#[trigger] idx[k]) < other.len() && other.len() <= rows.len(),
        forall|i: int| 0 <= i < other.len() ==> #[trigger] other[i] == rows[i],
    ensures
        visit_points(rows, idx) == visit_points(other, idx),
    decreases idx.len(),
{
    if idx.len() > 0 {
        let d = idx.drop_last();
        assert forall|k: int| 0 <= k < d.len() implies (#[trigger] d[k]) < other.len() && other.len() <= rows.len() by {
            assert(d[k] == idx[k]);
        }
        lemma_visit_same_rows(rows, other, d);
        assert(idx.last() == idx[idx.len() - 1]);
    }
}

/// Emitting every row exactly once, each in either direction, gives back
/// exactly the rows' points: the result is a permutation of them.
pub proof fn lemma_emit_is_permutation<T>(rows: Seq<Seq<T>>, order: Seq<usize>, back: Seq<bool>)
    requires
        rows.len() <= usize::MAX,
        is_permutation(order, rows.len() as int),
        back.len() == order.len(),
    ensures
        emitted(rows, order, back, order.len() as int).to_multiset() == flat(rows).to_multiset(),
{
    lemma_emitted_points(rows, order, back, order.len() as int);
    assert(order.take(order.len() as int) =~= order);
    lemma_visit_permutation(rows, order, rows.len() as int);
    lemma_flat_points(rows);
}

} // verus!
