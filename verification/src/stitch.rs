//! Stitching routes: each route is rotated to start at a chosen point, and
//! the routes are joined end to end.

use vstd::prelude::*;
use vstd::seq_lib::*;
use crate::comb::{flat, row_seqs};

verus! {

broadcast use group_to_multiset_ensures;

/// `s` rotated left by `m`.
pub open spec fn rotated<T>(s: Seq<T>, m: int) -> Seq<T> {
    s.skip(m) + s.take(m)
}

/// The first `k` routes, each rotated by its shift, joined.
pub open spec fn stitched<T>(routes: Seq<Seq<T>>, shifts: Seq<usize>, k: int) -> Seq<T>
    decreases k,
{
    if k <= 0 {
        Seq::empty()
    } else {
        stitched(routes, shifts, k - 1) + rotated(routes[k - 1], shifts[k - 1] as int)
    }
}

/// Joins the routes, each rotated left so that its entry at `shifts[k]`
/// comes first. No point is added or lost: the result holds exactly the
/// routes' points.
pub fn stitch<T: Copy>(routes: &[Vec<T>], shifts: &[usize]) -> (r: Vec<T>)
    requires
        shifts.len() == routes.len(),
        forall|k: int| 0 <= k < routes.len() ==> #[trigger] shifts@[k] <= routes@[k]@.len(),
    ensures
        r@ == stitched(row_seqs(routes@), shifts@, routes.len() as int),
        r@.to_multiset() == flat(row_seqs(routes@)).to_multiset(),
        r.len() == flat(row_seqs(routes@)).len(),
{
    let ghost rs = row_seqs(routes@);
    let mut out: Vec<T> = Vec::new();
    let mut k: usize = 0;
    while k < routes.len()
        invariant
            k <= routes.len(),
            shifts.len() == routes.len(),
            rs == row_seqs(routes@),
            forall|k2: int| 0 <= k2 < routes.len() ==> #[trigger] shifts@[k2] <= routes@[k2]@.len(),
            out@ == stitched(rs, shifts@, k as int),
            out@.to_multiset() == flat(rs.take(k as int)).to_multiset(),
        decreases routes.len() - k,
    {
        let route = &routes[k];
        let m = shifts[k];
        let n = route.len();
        assert(rs[k as int] == route@);
        let ghost o0 = out@;
        let mut t: usize = 0;
        while t < n
            invariant
                t <= n,
                n == route@.len(),
                m <= n,
                out@ == o0 + rotated(route@, m as int).take(t as int),
            decreases n - t,
        {
            let x = if t < n - m {
                route[m + t]
            } else {
                route[t - (n - m)]
            };
            proof {
                assert(rotated(route@, m as int)[t as int] == x);
                assert(rotated(route@, m as int).take(t as int + 1) =~= rotated(route@, m as int).take(t as int).push(x));
            }
            out.push(x);
            t = t + 1;
        }
        proof {
            let rot = rotated(route@, m as int);
            assert(rot.take(n as int) =~= rot);
            lemma_multiset_commutative(o0, rot);
            lemma_multiset_commutative(route@.skip(m as int), route@.take(m as int));
            lemma_multiset_commutative(route@.take(m as int), route@.skip(m as int));
            assert(route@.take(m as int) + route@.skip(m as int) =~= route@);
            let tk = rs.take(k as int + 1);
            assert(tk.drop_last() =~= rs.take(k as int));
            assert(tk.last() == route@);
            lemma_multiset_commutative(flat(rs.take(k as int)), route@);
            assert(flat(tk) == flat(rs.take(k as int)) + route@);
        }
        k = k + 1;
    }
    proof {
        assert(rs.take(routes.len() as int) =~= rs);
        assert(out@.to_multiset().len() == out@.len());
        assert(flat(rs).to_multiset().len() == flat(rs).len());
    }
    out
}

} // verus!
