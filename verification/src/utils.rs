//! Reordering and filtering cluster lists by positions.

use vstd::prelude::*;

verus! {

/// The last position whose flag is set, or 0 when none is.
pub open spec fn last_flagged(flags: Seq<bool>, k: int) -> int
    decreases k,
{
    if k <= 0 {
        0
    } else if flags[k - 1] {
        k - 1
    } else {
        last_flagged(flags, k - 1)
    }
}

proof fn lemma_last_flagged(flags: Seq<bool>, k: int)
    requires
        0 <= k <= flags.len(),
    ensures
        0 <= last_flagged(flags, k) <= if k == 0 {
            0
        } else {
            k - 1
        },
    decreases k,
{
    if k > 0 {
        lemma_last_flagged(flags, k - 1);
    }
}

/// Rotates `clusters` left so that the last one flagged as best comes first
/// (no rotation when none is flagged); nothing is lost or reordered otherwise.
pub fn rotate_to_best<T>(clusters: Vec<T>, best: &[bool]) -> (r: Vec<T>)
    requires
        best.len() == clusters.len(),
    ensures
        ({
            let k = last_flagged(best@, best.len() as int);
            r@ == clusters@.skip(k) + clusters@.take(k)
        }),
{
    let mut rotate_count: usize = 0;
    let mut i: usize = 0;
    while i < best.len()
        invariant
            i <= best.len(),
            rotate_count == last_flagged(best@, i as int),
        decreases best.len() - i,
    {
        proof {
            lemma_last_flagged(best@, i as int);
        }
        if best[i] {
            rotate_count = i;
        }
        i = i + 1;
    }
    proof {
        lemma_last_flagged(best@, best.len() as int);
    }
    let mut head = clusters;
    let ghost all = head@;
    let mut tail = head.split_off(rotate_count);
    tail.append(&mut head);
    assert(tail@ =~= all.skip(rotate_count as int) + all.take(rotate_count as int));
    tail
}

/// The entries of `s[..k]` whose flag is set, in order.
pub open spec fn flagged<T>(s: Seq<T>, flags: Seq<bool>, k: int) -> Seq<T>
    decreases k,
{
    if k <= 0 {
        Seq::empty()
    } else if flags[k - 1] {
        flagged(s, flags, k - 1).push(s[k - 1])
    } else {
        flagged(s, flags, k - 1)
    }
}

/// Whether `i` is one of the selected positions.
pub open spec fn selected(kept: Seq<usize>, i: int) -> bool {
    exists|q: int| 0 <= q < kept.len() && kept[q] == i
}

/// The clusters at the selected positions `kept`, in input order;
/// when nothing is selected, the first `cap` clusters.
pub fn keep_indices<T: Copy>(clusters: Vec<T>, kept: Vec<usize>, cap: usize) -> (r: Vec<T>)
    requires
        forall|q: int| 0 <= q < kept.len() ==> #[trigger] kept@[q] < clusters.len(),
    ensures
        kept.len() == 0 ==> r@ == clusters@.take(
            if cap < clusters.len() {
                cap as int
            } else {
                clusters.len() as int
            },
        ),
        kept.len() > 0 ==> r@ == flagged(
            clusters@,
            Seq::new(clusters.len() as nat, |i: int| selected(kept@, i)),
            clusters.len() as int,
        ),
{
    let mut clusters = clusters;
    if kept.len() == 0 {
        clusters.truncate(cap);
        return clusters;
    }
    let n = clusters.len();
    let ghost flags = Seq::new(n as nat, |i: int| selected(kept@, i));
    let mut keep: Vec<bool> = Vec::new();
    let mut i: usize = 0;
    while i < n
        invariant
            i <= n,
            keep.len() == i,
            forall|k: int| 0 <= k < i ==> !(#[trigger] keep@[k]),
        decreases n - i,
    {
        keep.push(false);
        i = i + 1;
    }
    let mut q: usize = 0;
    while q < kept.len()
        invariant
            q <= kept.len(),
            keep.len() == n,
            n == clusters.len(),
            forall|q2: int| 0 <= q2 < kept.len() ==> #[trigger] kept@[q2] < n,
            forall|k: int| 0 <= k < n ==> (#[trigger] keep@[k] <==> exists|q2: int| 0 <= q2 < q && kept@[q2] == k),
        decreases kept.len() - q,
    {
        let idx = kept[q];
        let ghost k0 = keep@;
        keep.set(idx, true);
        assert forall|k: int| 0 <= k < n implies (#[trigger] keep@[k] <==> exists|q2: int|
            0 <= q2 < q + 1 && kept@[q2] == k) by {
            if k != idx {
                assert(keep@[k] == k0[k]);
                if exists|q2: int| 0 <= q2 < q + 1 && kept@[q2] == k {
                    let q2 = choose|q2: int| 0 <= q2 < q + 1 && kept@[q2] == k;
                    assert(q2 != q);
                }
            } else {
                assert(kept@[q as int] == k);
            }
        }
        q = q + 1;
    }
    assert(keep@ =~= flags);
    let mut out: Vec<T> = Vec::new();
    let mut j: usize = 0;
    while j < n
        invariant
            j <= n,
            n == clusters.len(),
            keep@ == flags,
            flags.len() == n,
            out@ == flagged(clusters@, flags, j as int),
        decreases n - j,
    {
        if keep[j] {
            out.push(clusters[j]);
        }
        j = j + 1;
    }
    out
}

} // verus!
