//! Preparing candidate masks for the exact cover search: dropping empty and
//! repeated masks, dropping masks strictly inside another, and the per-point
//! tables the search bounds read.

use vstd::prelude::*;
use vstd::set_lib::*;
use crate::bitset::{bit, pts, lemma_pts_finite, lemma_pts_and, lemma_pts_or, lemma_pts_single, lemma_pts_zero, lemma_pts_injective, popcount};
use crate::exact_cover::{SHARE_SCALE, shares_fit, conflict_free, masks_at_most};

verus! {

/// Above this many distinct masks the quadratic dominance prune is skipped.
pub const DOMINANCE_LIMIT: usize = 4096;

/// Masks already met, each with the position it was stored at; backed by a
/// `hashbrown::HashMap<u128, u32>`.
#[verifier::external_body]
pub struct SeenMasks {
    map: hashbrown::HashMap<u128, u32>,
}

/// The key/value pairs a [`SeenMasks`] holds.
pub uninterp spec fn seen_contents(s: SeenMasks) -> Map<u128, u32>;

/// `hashbrown::HashMap::new`: a map holding nothing.
#[verifier::external_body]
pub(crate) fn seen_new() -> (r: SeenMasks)
    ensures
        forall|k: u128| !seen_contents(r).dom().contains(k),
{
    SeenMasks { map: hashbrown::HashMap::new() }
}

/// `hashbrown::HashMap::insert`: afterwards `k` maps to `v` and every other
/// key keeps its value; the result is the value `k` had before, or `None`
/// where `k` was absent.
#[verifier::external_body]
pub(crate) fn seen_insert(s: &mut SeenMasks, k: u128, v: u32) -> (r: Option<u32>)
    ensures
        seen_contents(*final(s)) == seen_contents(*old(s)).insert(k, v),
        r == (if seen_contents(*old(s)).dom().contains(k) {
            Some(seen_contents(*old(s))[k])
        } else {
            None::<u32>
        }),
{
    s.map.insert(k, v)
}

/// Whether `x` occurs in `d`.
pub open spec fn listed(d: Seq<u128>, x: u128) -> bool {
    exists|k: int| 0 <= k < d.len() && d[k] == x
}

/// `d[k]` is a non-zero mask first met at index `src[k] < i` of `masks`,
/// and the indices `src` increase.
pub open spec fn first_meetings(masks: Seq<u128>, d: Seq<u128>, src: Seq<usize>, i: int) -> bool {
    &&& d.len() == src.len()
    &&& forall|k: int|
        #![trigger d[k]]
        #![trigger src[k]]
        0 <= k < d.len() ==> {
            &&& src[k] < i
            &&& masks[src[k] as int] == d[k]
            &&& d[k] != 0
            &&& forall|i2: int| 0 <= i2 < src[k] ==> masks[i2] != d[k]
        }
    &&& forall|k1: int, k2: int| 0 <= k1 < k2 < src.len() ==> src[k1] < src[k2]
}

proof fn lemma_listed_push(d: Seq<u128>, x: u128, y: u128)
    ensures
        listed(d.push(x), y) <==> (listed(d, y) || y == x),
{
    if listed(d, y) {
        let k = choose|k: int| 0 <= k < d.len() && d[k] == y;
        assert(d.push(x)[k] == y);
    }
    if y == x {
        assert(d.push(x)[d.len() as int] == y);
    }
    if listed(d.push(x), y) && y != x {
        let k = choose|k: int| 0 <= k < d.push(x).len() && d.push(x)[k] == y;
        assert(d[k] == y);
    }
}

proof fn lemma_first_meetings_push(masks: Seq<u128>, d: Seq<u128>, src: Seq<usize>, i: usize)
    requires
        first_meetings(masks, d, src, i as int),
        i < masks.len(),
        masks[i as int] != 0,
        forall|i2: int| 0 <= i2 < i ==> masks[i2] != masks[i as int],
    ensures
        first_meetings(masks, d.push(masks[i as int]), src.push(i), i + 1),
{
    let d2 = d.push(masks[i as int]);
    let s2 = src.push(i);
    assert forall|k: int| #![trigger d2[k]] 0 <= k < d2.len() implies {
        &&& s2[k] < i + 1
        &&& masks[s2[k] as int] == d2[k]
        &&& d2[k] != 0
        &&& forall|i2: int| 0 <= i2 < s2[k] ==> masks[i2] != d2[k]
    } by {
        if k < d.len() {
            assert(d2[k] == d[k]);
            assert(s2[k] == src[k]);
        }
    }
    assert forall|k1: int, k2: int| 0 <= k1 < k2 < s2.len() implies s2[k1] < s2[k2] by {
        assert(s2[k1] == src[k1]);
        if k2 < src.len() {
            assert(s2[k2] == src[k2]);
        }
    }
}

/// The non-zero masks of `masks`, each once, in order of first appearance,
/// with the index of that first appearance.
pub fn distinct_masks(masks: &[u128]) -> (r: (Vec<u128>, Vec<usize>))
    ensures
        first_meetings(masks@, r.0@, r.1@, masks.len() as int),
        r.0.len() <= masks.len(),
        forall|i: int| 0 <= i < masks.len() && masks@[i] != 0 ==> listed(r.0@, #[trigger] masks@[i]),
{
    let mut seen = seen_new();
    let mut d: Vec<u128> = Vec::new();
    let mut src: Vec<usize> = Vec::new();
    let mut i: usize = 0;
    while i < masks.len()
        invariant
            i <= masks.len(),
            d.len() <= i,
            forall|x: u128| seen_contents(seen).dom().contains(x) <==> listed(d@, x),
            first_meetings(masks@, d@, src@, i as int),
            forall|i2: int| 0 <= i2 < i && masks@[i2] != 0 ==> listed(d@, #[trigger] masks@[i2]),
        decreases masks.len() - i,
    {
        let mask = masks[i];
        if mask != 0 {
            let ghost before = seen_contents(seen);
            let ghost d0 = d@;
            let prev = seen_insert(&mut seen, mask, d.len() as u32);
            if prev.is_none() {
                proof {
                    assert forall|i2: int| 0 <= i2 < i implies masks@[i2] != masks@[i as int] by {
                        if masks@[i2] == mask {
                            assert(listed(d0, masks@[i2]));
                        }
                    }
                    lemma_first_meetings_push(masks@, d@, src@, i);
                }
                d.push(mask);
                src.push(i);
                proof {
                    assert forall|x: u128| seen_contents(seen).dom().contains(x) <==> listed(d@, x) by {
                        lemma_listed_push(d0, mask, x);
                    }
                    assert forall|i2: int| 0 <= i2 < i + 1 && masks@[i2] != 0 implies listed(
                        d@,
                        #[trigger] masks@[i2],
                    ) by {
                        lemma_listed_push(d0, mask, masks@[i2]);
                    }
                }
            } else {
                proof {
                    assert(seen_contents(seen).dom() =~= before.dom());
                }
            }
        }
        i = i + 1;
    }
    (d, src)
}

/// Whether mask `a` lies strictly inside some other mask of `d`.
pub open spec fn dominated(d: Seq<u128>, a: u128) -> bool {
    exists|j: int| 0 <= j < d.len() && #[trigger] d[j] != a && (a & d[j]) == a
}

/// Which masks of `d` to keep: those strictly inside no other mask of `d`,
/// or all of them when there are more than `limit` masks (the pairwise
/// check is quadratic).
pub fn undominated(d: &[u128], limit: usize) -> (keep: Vec<bool>)
    ensures
        keep.len() == d.len(),
        forall|i: int|
            0 <= i < d.len() ==> #[trigger] keep@[i] == (d.len() > limit || !dominated(
                d@,
                d@[i],
            )),
{
    let big = d.len() > limit;
    let mut keep: Vec<bool> = Vec::new();
    let mut i: usize = 0;
    while i < d.len()
        invariant
            i <= d.len(),
            big == (d.len() > limit),
            keep.len() == i,
            forall|k: int|
                0 <= k < i ==> #[trigger] keep@[k] == (big || !dominated(d@, d@[k])),
        decreases d.len() - i,
    {
        let a = d[i];
        let mut dom = false;
        if !big {
            let mut j: usize = 0;
            while j < d.len()
                invariant
                    j <= d.len(),
                    a == d@[i as int],
                    dom <==> exists|jj: int| 0 <= jj < j && #[trigger] d@[jj] != a && (a & d@[jj]) == a,
                decreases d.len() - j,
            {
                let b = d[j];
                if b != a && (a & b) == a {
                    dom = true;
                }
                j = j + 1;
            }
        }
        keep.push(!dom);
        i = i + 1;
    }
    keep
}

/// A non-zero mask stands for a non-empty set.
pub proof fn lemma_nonzero_nonempty(m: u128)
    requires
        m != 0,
    ensures
        pts(m).len() > 0,
        exists|x: int| #[trigger] pts(m).contains(x),
{
    lemma_pts_finite(m);
    lemma_pts_zero();
    if pts(m).len() == 0 {
        assert(pts(m) =~= pts(0u128)) by {
            lemma_set_empty_equivalency_len(pts(m));
        }
        lemma_pts_injective(m, 0u128);
    }
    assert(pts(m).contains(pts(m).choose())) by {
        lemma_set_empty_equivalency_len(pts(m));
    }
}

/// Every mask of `d` lies inside some kept mask: a dropped mask lies
/// strictly inside a larger one, and sizes cannot grow past 128.
pub proof fn lemma_inside_kept(d: Seq<u128>, keep: Seq<bool>, limit: usize, a: int)
    requires
        keep.len() == d.len(),
        0 <= a < d.len(),
        forall|i: int|
            0 <= i < d.len() ==> #[trigger] keep[i] == (d.len() > limit || !dominated(d, d[i])),
    ensures
        exists|j: int| 0 <= j < d.len() && keep[j] && pts(d[a]).subset_of(#[trigger] pts(d[j])),
    decreases 129 - pts(d[a]).len(),
{
    lemma_pts_finite(d[a]);
    if keep[a] {
        assert(pts(d[a]).subset_of(pts(d[a])));
    } else {
        let j = choose|j: int| 0 <= j < d.len() && #[trigger] d[j] != d[a] && (d[a] & d[j]) == d[a];
        lemma_pts_and(d[a], d[j]);
        lemma_pts_finite(d[j]);
        assert(pts(d[a]).subset_of(pts(d[j])));
        if pts(d[a]).len() == pts(d[j]).len() {
            lemma_subset_equality(pts(d[a]), pts(d[j]));
            lemma_pts_injective(d[a], d[j]);
        }
        lemma_len_subset(pts(d[a]), pts(d[j]));
        lemma_inside_kept(d, keep, limit, j);
        let k = choose|k: int| 0 <= k < d.len() && keep[k] && pts(d[j]).subset_of(#[trigger] pts(d[k]));
        assert(pts(d[a]).subset_of(pts(d[k])));
    }
}

/// Whether `i` occurs in `at`.
pub open spec fn has_index(at: Seq<usize>, i: int) -> bool {
    exists|k: int| 0 <= k < at.len() && at[k] == i
}

/// `out[k]` is `v[at[k]]` for increasing positions `at[k] < i` whose flag is set.
pub open spec fn picked_from(v: Seq<u128>, keep: Seq<bool>, out: Seq<u128>, at: Seq<usize>, i: int) -> bool {
    &&& out.len() == at.len()
    &&& forall|k: int|
        #![trigger out[k]]
        #![trigger at[k]]
        0 <= k < out.len() ==> at[k] < i && keep[at[k] as int] && v[at[k] as int] == out[k]
    &&& forall|k1: int, k2: int| 0 <= k1 < k2 < at.len() ==> at[k1] < at[k2]
}

proof fn lemma_picked_push(v: Seq<u128>, keep: Seq<bool>, out: Seq<u128>, at: Seq<usize>, i: usize)
    requires
        picked_from(v, keep, out, at, i as int),
        i < v.len(),
        i < keep.len(),
        keep[i as int],
    ensures
        picked_from(v, keep, out.push(v[i as int]), at.push(i), i + 1),
        forall|x: int| has_index(at.push(i), x) <==> (has_index(at, x) || x == i),
{
    let o2 = out.push(v[i as int]);
    let a2 = at.push(i);
    assert forall|k: int| 0 <= k < o2.len() implies a2[k] < i + 1 && keep[a2[k] as int] && v[a2[k] as int]
        == o2[k] by {
        if k < out.len() {
            assert(o2[k] == out[k]);
            assert(a2[k] == at[k]);
        }
    }
    assert forall|k1: int, k2: int| 0 <= k1 < k2 < a2.len() implies a2[k1] < a2[k2] by {
        assert(a2[k1] == at[k1]);
        assert(o2[k1] == out[k1]);
        if k2 < at.len() {
            assert(a2[k2] == at[k2]);
        }
    }
    assert forall|x: int| has_index(a2, x) <==> (has_index(at, x) || x == i) by {
        if has_index(at, x) {
            let k = choose|k: int| 0 <= k < at.len() && at[k] == x;
            assert(a2[k] == x);
        }
        if x == i {
            assert(a2[at.len() as int] == x);
        }
        if has_index(a2, x) && x != i {
            let k = choose|k: int| 0 <= k < a2.len() && a2[k] == x;
            assert(at[k] == x);
        }
    }
}

/// The entries of `v` whose flag in `keep` is set, in order, with their
/// positions in `v`.
pub fn kept_entries(v: &[u128], keep: &[bool]) -> (r: (Vec<u128>, Vec<usize>))
    requires
        keep.len() == v.len(),
    ensures
        picked_from(v@, keep@, r.0@, r.1@, v.len() as int),
        r.0.len() <= v.len(),
        forall|i: int| 0 <= i < v.len() && #[trigger] keep@[i] ==> has_index(r.1@, i),
{
    let mut out: Vec<u128> = Vec::new();
    let mut at: Vec<usize> = Vec::new();
    let mut i: usize = 0;
    while i < v.len()
        invariant
            i <= v.len(),
            keep.len() == v.len(),
            out.len() <= i,
            picked_from(v@, keep@, out@, at@, i as int),
            forall|i2: int| 0 <= i2 < i && #[trigger] keep@[i2] ==> has_index(at@, i2),
        decreases v.len() - i,
    {
        if keep[i] {
            let ghost at0 = at@;
            proof {
                lemma_picked_push(v@, keep@, out@, at@, i);
            }
            out.push(v[i]);
            at.push(i);
            assert(at@ == at0.push(i));
            assert forall|i2: int| 0 <= i2 < i + 1 && #[trigger] keep@[i2] implies has_index(at@, i2) by {
                assert(has_index(at0.push(i), i2) <==> (has_index(at0, i2) || i2 == i));
            }
        }
        i = i + 1;
    }
    (out, at)
}

/// For each point `i < n`, the indices of the masks containing it, in
/// increasing order.
pub fn point_lists(kept: &[u128], n: usize) -> (r: Vec<Vec<u32>>)
    requires
        n <= 128,
        kept.len() <= u32::MAX,
    ensures
        r.len() == n,
        forall|i: int, q: int|
            #![trigger r@[i]@[q]]
            0 <= i < n && 0 <= q < r@[i]@.len() ==> {
                &&& (r@[i]@[q] as int) < kept.len()
                &&& bit(kept@[r@[i]@[q] as int], i)
            },
        forall|i: int, q1: int, q2: int|
            0 <= i < n && 0 <= q1 < q2 < r@[i]@.len() ==> r@[i]@[q1] < r@[i]@[q2],
        forall|i: int, j: int|
            0 <= i < n && 0 <= j < kept.len() && #[trigger] bit(kept@[j], i) ==> r@[i]@.contains(
                j as u32,
            ),
{
    let mut r: Vec<Vec<u32>> = Vec::new();
    let mut i: usize = 0;
    while i < n
        invariant
            i <= n <= 128,
            kept.len() <= u32::MAX,
            r.len() == i,
            forall|i2: int, q: int|
                #![trigger r@[i2]@[q]]
                0 <= i2 < i && 0 <= q < r@[i2]@.len() ==> {
                    &&& (r@[i2]@[q] as int) < kept.len()
                    &&& bit(kept@[r@[i2]@[q] as int], i2)
                },
            forall|i2: int, q1: int, q2: int|
                0 <= i2 < i && 0 <= q1 < q2 < r@[i2]@.len() ==> r@[i2]@[q1] < r@[i2]@[q2],
            forall|i2: int, j: int|
                0 <= i2 < i && 0 <= j < kept.len() && #[trigger] bit(kept@[j], i2) ==> r@[i2]@.contains(
                    j as u32,
                ),
        decreases n - i,
    {
        let mut list: Vec<u32> = Vec::new();
        let mut j: usize = 0;
        while j < kept.len()
            invariant
                i < n <= 128,
                j <= kept.len() <= u32::MAX,
                forall|q: int| 0 <= q < list@.len() ==> (list@[q] as int) < j && bit(kept@[list@[q] as int], i as int),
                forall|q1: int, q2: int| 0 <= q1 < q2 < list@.len() ==> list@[q1] < list@[q2],
                forall|jj: int| 0 <= jj < j && #[trigger] bit(kept@[jj], i as int) ==> list@.contains(jj as u32),
            decreases kept.len() - j,
        {
            if (kept[j] >> (i as u128)) & 1u128 == 1u128 {
                let ghost l0 = list@;
                list.push(j as u32);
                assert(list@[list@.len() - 1] == j as u32);
                assert forall|jj: int| 0 <= jj < j + 1 && #[trigger] bit(kept@[jj], i as int) implies list@.contains(
                    jj as u32,
                ) by {
                    if jj < j {
                        let q = choose|q: int| 0 <= q < l0.len() && l0[q] == jj as u32;
                        assert(list@[q] == jj as u32);
                    }
                }
            }
            j = j + 1;
        }
        let ghost r0 = r@;
        r.push(list);
        assert forall|i2: int, q: int|
            #![trigger r@[i2]@[q]]
            0 <= i2 < i + 1 && 0 <= q < r@[i2]@.len() implies {
                &&& (r@[i2]@[q] as int) < kept.len()
                &&& bit(kept@[r@[i2]@[q] as int], i2)
            } by {
            if i2 < i {
                assert(r@[i2] == r0[i2]);
            }
        }
        assert forall|i2: int, q1: int, q2: int|
            0 <= i2 < i + 1 && 0 <= q1 < q2 < r@[i2]@.len() implies r@[i2]@[q1] < r@[i2]@[q2] by {
            if i2 < i {
                assert(r@[i2] == r0[i2]);
            }
        }
        assert forall|i2: int, j2: int|
            0 <= i2 < i + 1 && 0 <= j2 < kept.len() && #[trigger] bit(kept@[j2], i2) implies r@[i2]@.contains(
                j2 as u32,
            ) by {
            if i2 < i {
                assert(r@[i2] == r0[i2]);
            }
        }
        i = i + 1;
    }
    r
}

/// The largest size among the masks of `f[..k]` containing point `i`
/// (0 where there is none).
pub open spec fn cover_upto(f: Seq<u128>, i: int, k: int) -> nat
    decreases k,
{
    if k <= 0 {
        0
    } else {
        let prev = cover_upto(f, i, k - 1);
        if bit(f[k - 1], i) && pts(f[k - 1]).len() > prev {
            pts(f[k - 1]).len()
        } else {
            prev
        }
    }
}

/// A point's share of a disk: `mm` spread over the largest mask containing
/// it, scaled by [`SHARE_SCALE`], and never above one abandoned point.
pub open spec fn share_of(mm: nat, c: nat) -> int {
    let q = (mm * SHARE_SCALE) / (if c == 0 {
        1
    } else {
        c
    }) as int;
    if q < SHARE_SCALE {
        q
    } else {
        SHARE_SCALE as int
    }
}

/// The share of each point `i < n`, from the largest mask containing it.
pub fn point_shares(kept: &[u128], n: usize, mm: usize) -> (r: Vec<u64>)
    requires
        n <= 128,
        1 <= mm < 0x1000_0000_0000,
    ensures
        r.len() == n,
        forall|i: int| 0 <= i < n ==> r@[i] == share_of(mm as nat, #[trigger] cover_upto(kept@, i, kept.len() as int)),
        shares_fit(kept@, r@, mm as nat, SHARE_SCALE as int),
{
    let mut r: Vec<u64> = Vec::new();
    let mut i: usize = 0;
    while i < n
        invariant
            i <= n <= 128,
            1 <= mm < 0x1000_0000_0000,
            r.len() == i,
            forall|i2: int| 0 <= i2 < i ==> r@[i2] == share_of(mm as nat, #[trigger] cover_upto(kept@, i2, kept.len() as int)),
            forall|i2: int| 0 <= i2 < i ==> (#[trigger] r@[i2]) <= SHARE_SCALE,
            forall|j: int, i2: int|
                0 <= j < kept.len() && 0 <= i2 < i && #[trigger] pts(kept@[j]).contains(i2) ==> pts(kept@[j]).len()
                    * (#[trigger] r@[i2] as int) <= mm * SHARE_SCALE,
        decreases n - i,
    {
        let mut c: u32 = 0;
        let mut j: usize = 0;
        while j < kept.len()
            invariant
                i < n <= 128,
                j <= kept.len(),
                c == cover_upto(kept@, i as int, j as int),
                c <= 128,
                forall|jj: int| 0 <= jj < j && #[trigger] bit(kept@[jj], i as int) ==> pts(kept@[jj]).len() <= c,
            decreases kept.len() - j,
        {
            proof {
                lemma_pts_finite(kept@[j as int]);
            }
            if (kept[j] >> (i as u128)) & 1u128 == 1u128 {
                let pc = popcount(kept[j]);
                if pc > c {
                    c = pc;
                }
            }
            j = j + 1;
        }
        let c1: u64 = if c == 0 {
            1
        } else {
            c as u64
        };
        let q = (mm as u64) * SHARE_SCALE / c1;
        let sh = if q < SHARE_SCALE {
            q
        } else {
            SHARE_SCALE
        };
        proof {
            assert forall|j: int| 0 <= j < kept.len() && #[trigger] pts(kept@[j]).contains(i as int) implies pts(
                kept@[j],
            ).len() * (sh as int) <= mm * SHARE_SCALE by {
                assert(bit(kept@[j], i as int));
                let a = pts(kept@[j]).len() as int;
                assert(a * (sh as int) <= mm * SHARE_SCALE) by (nonlinear_arith)
                    requires
                        0 <= a <= c1,
                        c1 >= 1,
                        0 <= sh <= q,
                        q == (mm * SHARE_SCALE) / (c1 as int),
                        mm * SHARE_SCALE >= 0,
                ;
            }
        }
        let ghost r0 = r@;
        r.push(sh);
        assert forall|j: int, i2: int|
            0 <= j < kept.len() && 0 <= i2 < i + 1 && #[trigger] pts(kept@[j]).contains(i2) implies pts(
                kept@[j],
            ).len() * (#[trigger] r@[i2] as int) <= mm * SHARE_SCALE by {
            if i2 < i {
                assert(r@[i2] == r0[i2]);
            }
        }
        assert forall|i2: int| 0 <= i2 < i + 1 implies r@[i2] == share_of(mm as nat, #[trigger] cover_upto(kept@, i2, kept.len() as int)) by {
            if i2 < i {
                assert(r@[i2] == r0[i2]);
            }
        }
        i = i + 1;
    }
    r
}

/// The size of the largest mask (1 where there is no mask).
pub fn max_popcount(kept: &[u128]) -> (r: u32)
    ensures
        masks_at_most(kept@, r as int),
        r <= 128,
        kept.len() == 0 ==> r == 1,
        kept.len() > 0 ==> exists|j: int| 0 <= j < kept.len() && r == #[trigger] pts(kept@[j]).len(),
{
    if kept.len() == 0 {
        return 1;
    }
    proof {
        lemma_pts_finite(kept@[0]);
    }
    let mut best = popcount(kept[0]);
    let mut j: usize = 1;
    while j < kept.len()
        invariant
            1 <= j <= kept.len(),
            best <= 128,
            exists|jj: int| 0 <= jj < j && best == #[trigger] pts(kept@[jj]).len(),
            forall|jj: int| 0 <= jj < j ==> (#[trigger] pts(kept@[jj])).len() <= best,
        decreases kept.len() - j,
    {
        proof {
            lemma_pts_finite(kept@[j as int]);
        }
        let pc = popcount(kept[j]);
        if pc > best {
            best = pc;
        }
        j = j + 1;
    }
    best
}

/// `is_mask` where no mask holds two of its points, else the empty mask.
pub fn checked_independent(kept: &[u128], is_mask: u128) -> (r: u128)
    ensures
        r == (if conflict_free(kept@, pts(is_mask)) {
            is_mask
        } else {
            0u128
        }),
        conflict_free(kept@, pts(r)),
{
    let mut j: usize = 0;
    while j < kept.len()
        invariant
            j <= kept.len(),
            forall|jj: int| 0 <= jj < j ==> (#[trigger] pts(kept@[jj])).intersect(pts(is_mask)).len() <= 1,
        decreases kept.len() - j,
    {
        proof {
            lemma_pts_and(kept@[j as int], is_mask);
        }
        if popcount(kept[j] & is_mask) > 1 {
            proof {
                lemma_pts_zero();
                assert forall|jj: int| 0 <= jj < kept.len() implies (#[trigger] pts(kept@[jj])).intersect(
                    pts(0u128),
                ).len() <= 1 by {
                    assert(pts(kept@[jj]).intersect(pts(0u128)) =~= Set::<int>::empty());
                }
            }
            return 0;
        }
        j = j + 1;
    }
    is_mask
}

/// The rows of a table as sequences.
pub open spec fn rows(t: Seq<Vec<bool>>) -> Seq<Seq<bool>> {
    t.map_values(|v: Vec<bool>| v@)
}

/// The points a greedy pass over `0..i` picks: a point joins when it is far
/// (`far[i][j]`) from every point picked before it.
pub open spec fn greedy_picked(far: Seq<Seq<bool>>, i: int) -> Set<int>
    decreases i,
{
    if i <= 0 {
        Set::empty()
    } else {
        let prev = greedy_picked(far, i - 1);
        if forall|j: int| #[trigger] prev.contains(j) ==> far[i - 1][j] {
            prev.insert(i - 1)
        } else {
            prev
        }
    }
}

proof fn lemma_greedy_below(far: Seq<Seq<bool>>, i: int)
    ensures
        forall|j: int| #[trigger] greedy_picked(far, i).contains(j) ==> 0 <= j < i,
    decreases i,
{
    if i > 0 {
        lemma_greedy_below(far, i - 1);
        let prev = greedy_picked(far, i - 1);
        assert forall|j: int| #[trigger] greedy_picked(far, i).contains(j) implies 0 <= j < i by {
            if j != i - 1 {
                assert(prev.contains(j));
            }
        }
    }
}

/// Points that pairwise lie too far apart to share a disk, picked greedily
/// in index order from the table `far` (`far[i][j]`: points `i` and `j`
/// are farther apart than one disk spans).
pub fn greedy_independent(far: &[Vec<bool>], n: usize) -> (r: u128)
    requires
        n <= 128,
        far.len() >= n,
        forall|i: int| 0 <= i < n ==> (#[trigger] far@[i])@.len() >= n,
    ensures
        pts(r) == greedy_picked(rows(far@), n as int),
{
    let ghost t = rows(far@);
    let mut is: u128 = 0;
    proof {
        lemma_pts_zero();
        assert(pts(is) =~= greedy_picked(t, 0));
    }
    let mut i: usize = 0;
    while i < n
        invariant
            i <= n <= 128,
            far.len() >= n,
            forall|i2: int| 0 <= i2 < n ==> (#[trigger] far@[i2])@.len() >= n,
            t == rows(far@),
            pts(is) == greedy_picked(t, i as int),
        decreases n - i,
    {
        proof {
            lemma_greedy_below(t, i as int);
        }
        let row = &far[i];
        assert(row@ == t[i as int]);
        let mut all = true;
        let mut j: usize = 0;
        while j < i
            invariant
                j <= i < n <= 128,
                row@.len() >= n,
                row@ == t[i as int],
                all <==> forall|jj: int| 0 <= jj < j && #[trigger] bit(is, jj) ==> t[i as int][jj],
            decreases i - j,
        {
            let b = (is >> (j as u128)) & 1u128 == 1u128;
            assert(b == bit(is, j as int));
            let ghost all0 = all;
            if b && !row[j] {
                all = false;
            }
            assert(all <==> forall|jj: int| 0 <= jj < j + 1 && #[trigger] bit(is, jj) ==> t[i as int][jj]) by {
                if all {
                    assert forall|jj: int| 0 <= jj < j + 1 && #[trigger] bit(is, jj) implies t[i as int][jj] by {
                        if jj == j {
                            assert(row@[jj] == t[i as int][jj]);
                        }
                    }
                }
                if !all {
                    if all0 {
                        assert(bit(is, j as int) && !t[i as int][j as int]);
                    } else {
                        let jj = choose|jj: int| !(0 <= jj < j && #[trigger] bit(is, jj) ==> t[i as int][jj]);
                        assert(!(0 <= jj < j + 1 && bit(is, jj) ==> t[i as int][jj]));
                    }
                }
            }
            j = j + 1;
        }
        let ghost prev = greedy_picked(t, i as int);
        assert(all <==> forall|jj: int| #[trigger] prev.contains(jj) ==> t[i as int][jj]) by {
            if all {
                assert forall|jj: int| #[trigger] prev.contains(jj) implies t[i as int][jj] by {
                    assert(pts(is).contains(jj));
                    assert(bit(is, jj));
                }
            } else {
                let jj = choose|jj: int| !(0 <= jj < i && #[trigger] bit(is, jj) ==> t[i as int][jj]);
                assert(pts(is).contains(jj));
                assert(prev.contains(jj));
            }
        }
        if all {
            proof {
                lemma_pts_or(is, 1u128 << (i as u128));
                lemma_pts_single(i as u128);
                assert(pts(is | (1u128 << (i as u128))) =~= prev.insert(i as int));
            }
            is = is | (1u128 << (i as u128));
        }
        i = i + 1;
    }
    is
}

} // verus!
