//! Dropping candidates whose cover lists are empty or repeat an earlier
//! kept candidate's list: lists are bucketed by hash and compared in full
//! within a bucket, so a hash collision can only keep a candidate, never
//! drop one whose list differs from every kept list.

use vstd::prelude::*;
use std::collections::hash_map::DefaultHasher;
use std::hash::Hasher;
use vstd::std_specs::hash::DefaultHasherAdditionalSpecFns;

verus! {

/// Kept candidate indices by the hash of their cover lists; backed by a
/// `hashbrown::HashMap<u64, Vec<u32>>`.
#[verifier::external_body]
pub struct HashBuckets {
    map: hashbrown::HashMap<u64, Vec<u32>>,
}

/// The buckets a [`HashBuckets`] holds.
pub uninterp spec fn bucket_contents(b: HashBuckets) -> Map<u64, Seq<u32>>;

/// `hashbrown::HashMap::new`: no buckets.
#[verifier::external_body]
fn buckets_new() -> (r: HashBuckets)
    ensures
        forall|h: u64| !bucket_contents(r).dom().contains(h),
{
    HashBuckets { map: hashbrown::HashMap::new() }
}

/// `hashbrown::HashMap::get`: a copy of the bucket under `h`, empty where
/// there is none.
#[verifier::external_body]
fn bucket_of(b: &HashBuckets, h: u64) -> (r: Vec<u32>)
    ensures
        r@ == (if bucket_contents(*b).dom().contains(h) {
            bucket_contents(*b)[h]
        } else {
            Seq::<u32>::empty()
        }),
{
    b.map.get(&h).cloned().unwrap_or_default()
}

/// `hashbrown::HashMap::entry` with `or_default`, then a push: the bucket
/// under `h` (empty where there was none) gains `i` at its end; the other
/// buckets stay.
#[verifier::external_body]
fn bucket_push(b: &mut HashBuckets, h: u64, i: u32)
    ensures
        bucket_contents(*final(b)) == bucket_contents(*old(b)).insert(
            h,
            (if bucket_contents(*old(b)).dom().contains(h) {
                bucket_contents(*old(b))[h]
            } else {
                Seq::<u32>::empty()
            }).push(i),
        ),
{
    b.map.entry(h).or_default().push(i);
}

/// The little-endian bytes of `x`.
pub open spec fn le_bytes(x: u32) -> Seq<u8> {
    seq![(x % 256) as u8, ((x / 256) % 256) as u8, ((x / 65536) % 256) as u8, (x / 16777216) as u8]
}

/// The writes that hash a list: each entry's little-endian bytes in turn.
pub open spec fn list_writes(list: Seq<u32>) -> Seq<Seq<u8>> {
    Seq::new(list.len(), |t: int| le_bytes(list[t]))
}

/// The hash of a list: what a fresh `DefaultHasher` finishes with after
/// those writes.
pub open spec fn list_hash(list: Seq<u32>) -> u64 {
    DefaultHasher::spec_finish(list_writes(list))
}

/// Hashes a list with a fresh `DefaultHasher`, entry by entry.
fn hash_list(list: &Vec<u32>) -> (h: u64)
    ensures
        h == list_hash(list@),
{
    let mut hasher = DefaultHasher::new();
    let mut t: usize = 0;
    while t < list.len()
        invariant
            t <= list.len(),
            hasher@ == list_writes(list@.take(t as int)),
        decreases list.len() - t,
    {
        let x = list[t];
        let bytes: Vec<u8> = vec![(x % 256) as u8, ((x / 256) % 256) as u8, ((x / 65536) % 256) as u8, (x / 16777216) as u8];
        assert(bytes@ == le_bytes(x));
        hasher.write(bytes.as_slice());
        assert(list_writes(list@.take(t as int + 1)) =~= list_writes(list@.take(t as int)).push(le_bytes(x)));
        t = t + 1;
    }
    assert(list@.take(list.len() as int) =~= list@);
    hasher.finish()
}

/// Whether two lists hold the same entries in the same order.
fn same_list(a: &Vec<u32>, b: &Vec<u32>) -> (r: bool)
    ensures
        r == (a@ == b@),
{
    if a.len() != b.len() {
        return false;
    }
    let mut t: usize = 0;
    while t < a.len()
        invariant
            t <= a.len() == b.len(),
            forall|q: int| 0 <= q < t ==> a@[q] == b@[q],
        decreases a.len() - t,
    {
        if a[t] != b[t] {
            return false;
        }
        t = t + 1;
    }
    assert(a@ =~= b@);
    true
}

/// Whether list `i` is non-empty and equals no list before it.
pub open spec fn first_of_its_list(lists: Seq<Vec<u32>>, i: int) -> bool {
    lists[i]@.len() > 0 && forall|j: int| 0 <= j < i ==> lists[j]@ != lists[i]@
}

/// Which candidates to keep: those whose cover list is non-empty and
/// repeats no earlier list. Lists are bucketed by hash and compared in full
/// within a bucket, so a hash collision can only cost a comparison.
pub fn distinct_cover_lists(all_lists: &[Vec<u32>]) -> (keep: Vec<bool>)
    requires
        all_lists.len() <= u32::MAX,
    ensures
        keep.len() == all_lists.len(),
        forall|i: int| 0 <= i < keep.len() ==> (#[trigger] keep@[i] <==> first_of_its_list(all_lists@, i)),
        forall|i: int|
            0 <= i < all_lists.len() && (#[trigger] all_lists@[i])@.len() > 0 ==> exists|j: int|
                0 <= j <= i && keep@[j] && all_lists@[j]@ == all_lists@[i]@,
{
    let mut keep: Vec<bool> = Vec::new();
    let mut k: usize = 0;
    while k < all_lists.len()
        invariant
            k <= all_lists.len(),
            keep.len() == k,
            forall|q: int| 0 <= q < k ==> !(#[trigger] keep@[q]),
        decreases all_lists.len() - k,
    {
        keep.push(false);
        k = k + 1;
    }
    let mut buckets = buckets_new();
    let mut i: usize = 0;
    while i < all_lists.len()
        invariant
            i <= all_lists.len() <= u32::MAX,
            keep.len() == all_lists.len(),
            forall|q: int| i <= q < keep.len() ==> !(#[trigger] keep@[q]),
            forall|q: int| 0 <= q < i ==> (#[trigger] keep@[q] <==> first_of_its_list(all_lists@, q)),
            forall|h: u64, t: int|
                bucket_contents(buckets).dom().contains(h) && 0 <= t < bucket_contents(buckets)[h].len() ==> {
                    let x = #[trigger] bucket_contents(buckets)[h][t] as int;
                    &&& x < i
                    &&& keep@[x]
                    &&& list_hash(all_lists@[x]@) == h
                },
            forall|q: int|
                0 <= q < i && #[trigger] keep@[q] ==> bucket_contents(buckets).dom().contains(list_hash(all_lists@[q]@))
                    && bucket_contents(buckets)[list_hash(all_lists@[q]@)].contains(q as u32),
            forall|q: int|
                0 <= q < i && (#[trigger] all_lists@[q])@.len() > 0 ==> exists|j: int|
                    0 <= j <= q && keep@[j] && all_lists@[j]@ == all_lists@[q]@,
        decreases all_lists.len() - i,
    {
        let list = &all_lists[i];
        let ghost kb = keep@;
        if list.len() > 0 {
            let h = hash_list(list);
            let bucket = bucket_of(&buckets, h);
            let mut fresh = true;
            let mut t: usize = 0;
            while t < bucket.len() && fresh
                invariant
                    t <= bucket.len(),
                    bucket@ == (if bucket_contents(buckets).dom().contains(h) {
                        bucket_contents(buckets)[h]
                    } else {
                        Seq::<u32>::empty()
                    }),
                    i < all_lists.len(),
                    list@ == all_lists@[i as int]@,
                    forall|hh: u64, tt: int|
                        bucket_contents(buckets).dom().contains(hh) && 0 <= tt < bucket_contents(buckets)[hh].len() ==> {
                            let x = #[trigger] bucket_contents(buckets)[hh][tt] as int;
                            &&& x < i
                            &&& keep@[x]
                            &&& list_hash(all_lists@[x]@) == hh
                        },
                    fresh ==> forall|tt: int| 0 <= tt < t ==> all_lists@[#[trigger] bucket@[tt] as int]@ != list@,
                    !fresh ==> exists|j: int| 0 <= j < i && keep@[j] && all_lists@[j]@ == all_lists@[i as int]@,
                decreases bucket.len() - t + if fresh { 1int } else { 0int },
            {
                let prev = bucket[t] as usize;
                assert(bucket_contents(buckets).dom().contains(h));
                assert(bucket_contents(buckets)[h][t as int] as int == prev as int);
                if same_list(&all_lists[prev], list) {
                    fresh = false;
                }
                t = t + 1;
            }
            proof {
                if fresh {
                    assert forall|j: int| 0 <= j < i implies all_lists@[j]@ != list@ by {
                        if all_lists@[j]@ == list@ {
                            assert(all_lists@[j]@.len() > 0);
                            let j2 = choose|j2: int| 0 <= j2 <= j && kb[j2] && all_lists@[j2]@ == all_lists@[j]@;
                            assert(keep@[j2]);
                            assert(list_hash(all_lists@[j2]@) == h);
                            let bk = bucket_contents(buckets)[h];
                            assert(bk.contains(j2 as u32));
                            let tt = choose|tt: int| 0 <= tt < bk.len() && bk[tt] == j2 as u32;
                            assert(bucket@[tt] as int == j2);
                            assert(false);
                        }
                    }
                    assert(first_of_its_list(all_lists@, i as int));
                } else {
                    assert(!first_of_its_list(all_lists@, i as int));
                }
            }
            if fresh {
                let ghost b0 = bucket_contents(buckets);
                bucket_push(&mut buckets, h, i as u32);
                let ghost k0 = keep@;
                keep.set(i, true);
                assert forall|hh: u64, tt: int|
                    bucket_contents(buckets).dom().contains(hh) && 0 <= tt < bucket_contents(buckets)[hh].len() implies {
                        let x = #[trigger] bucket_contents(buckets)[hh][tt] as int;
                        &&& x < i + 1
                        &&& keep@[x]
                        &&& list_hash(all_lists@[x]@) == hh
                    } by {
                    if hh != h {
                        assert(bucket_contents(buckets)[hh] == b0[hh]);
                        let x = b0[hh][tt] as int;
                        assert(k0[x]);
                    } else if tt < bucket.len() {
                        assert(bucket_contents(buckets)[hh][tt] == bucket@[tt]);
                        let x = bucket@[tt] as int;
                        assert(b0.dom().contains(h));
                        assert(b0[h][tt] == bucket@[tt]);
                        assert(k0[x]);
                    }
                }
                assert forall|q: int|
                    0 <= q < i + 1 && #[trigger] keep@[q] implies bucket_contents(buckets).dom().contains(list_hash(all_lists@[q]@))
                        && bucket_contents(buckets)[list_hash(all_lists@[q]@)].contains(q as u32) by {
                    let hq = list_hash(all_lists@[q]@);
                    if q == i {
                        let nb = bucket_contents(buckets)[h];
                        assert(nb[nb.len() - 1] == i as u32);
                    } else {
                        assert(k0[q]);
                        assert(b0.dom().contains(hq));
                        let t2 = choose|t2: int| 0 <= t2 < b0[hq].len() && b0[hq][t2] == q as u32;
                        if hq == h {
                            assert(bucket_contents(buckets)[h][t2] == q as u32);
                        } else {
                            assert(bucket_contents(buckets)[hq] == b0[hq]);
                        }
                    }
                }
            }
            assert forall|q: int|
                0 <= q < i + 1 && (#[trigger] all_lists@[q])@.len() > 0 implies exists|j: int|
                    0 <= j <= q && keep@[j] && all_lists@[j]@ == all_lists@[q]@ by {
                if q < i {
                    let j = choose|j: int| 0 <= j <= q && kb[j] && all_lists@[j]@ == all_lists@[q]@;
                    assert(keep@[j]);
                } else if fresh {
                    assert(keep@[q]);
                } else {
                    let j = choose|j: int| 0 <= j < i && kb[j] && all_lists@[j]@ == all_lists@[i as int]@;
                    assert(keep@[j]);
                }
            }
        } else {
            proof {
                assert(!first_of_its_list(all_lists@, i as int));
            }
        }
        i = i + 1;
    }
    keep
}

} // verus!
