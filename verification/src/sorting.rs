//! Route orderings that need no geometry: a fixed-seed shuffle.

use vstd::prelude::*;
use rand::rngs::SmallRng;
use rand::SeedableRng;
use rand::seq::SliceRandom;

verus! {

#[verifier::external_type_specification]
#[verifier::external_body]
pub struct ExSmallRng(SmallRng);

/// `SmallRng::seed_from_u64`: a generator whose every output is fixed by
/// `seed`; nothing is stated about those outputs.
#[verifier::external_body]
fn seeded_rng(seed: u64) -> (r: SmallRng) {
    SmallRng::seed_from_u64(seed)
}

/// `SliceRandom::shuffle`: reorders the entries of `v` in place (a
/// Fisher-Yates pass of swaps; a list of at most one entry is left alone).
/// Which permutation comes out depends on the generator's state and is not
/// stated.
#[verifier::external_body]
fn shuffle_in_place<T>(v: &mut Vec<T>, rng: &mut SmallRng)
    ensures
        final(v)@.to_multiset() == old(v)@.to_multiset(),
        final(v)@.len() == old(v)@.len(),
        old(v)@.len() <= 1 ==> final(v)@ == old(v)@,
{
    v.shuffle(rng);
}

/// Seed of the route shuffle, so that a run can be repeated.
pub const SHUFFLE_SEED: u64 = 42;

/// A reproducible pseudo-random order.
pub trait SortRandom: Sized {
    /// The entries in shuffled order.
    fn sort_random(self) -> Self;

    /// Shuffles the entries in place.
    fn sort_random_mut(&mut self);
}

impl<T> SortRandom for Vec<T> {
    fn sort_random(self) -> (r: Self)
        ensures
            r@.to_multiset() == self@.to_multiset(),
            r@.len() == self@.len(),
            self@.len() <= 1 ==> r@ == self@,
    {
        let mut v = self;
        v.sort_random_mut();
        v
    }

    fn sort_random_mut(&mut self)
        ensures
            final(self)@.to_multiset() == old(self)@.to_multiset(),
            final(self)@.len() == old(self)@.len(),
            old(self)@.len() <= 1 ==> final(self)@ == old(self)@,
    {
        let mut rng = seeded_rng(SHUFFLE_SEED);
        shuffle_in_place(self, &mut rng);
    }
}

/// Whether position `a` comes before position `b` when ordering by key:
/// a smaller key, or an equal key and a lower position.
pub open spec fn key_before(keys: Seq<u64>, a: usize, b: usize) -> bool {
    keys[a as int] < keys[b as int] || (keys[a as int] == keys[b as int] && a < b)
}

/// The positions `0..keys.len()` ordered by their keys, equal keys in
/// position order (a stable sort by key, as by cell id or by an
/// order-preserving encoding of a geohash).
pub fn order_by_keys(keys: &[u64]) -> (r: Vec<usize>)
    ensures
        r.len() == keys.len(),
        r@.no_duplicates(),
        forall|q: int| 0 <= q < r.len() ==> #[trigger] r@[q] < keys.len(),
        forall|a: int, b: int| 0 <= a < b < r.len() ==> key_before(keys@, #[trigger] r@[a], #[trigger] r@[b]),
{
    let mut out: Vec<usize> = Vec::new();
    let mut i: usize = 0;
    while i < keys.len()
        invariant
            i <= keys.len(),
            out.len() == i,
            out@.no_duplicates(),
            forall|q: int| 0 <= q < out.len() ==> #[trigger] out@[q] < i,
            forall|a: int, b: int| 0 <= a < b < out.len() ==> key_before(keys@, #[trigger] out@[a], #[trigger] out@[b]),
        decreases keys.len() - i,
    {
        let k = keys[i];
        let mut pos: usize = 0;
        while pos < out.len() && keys[out[pos]] <= k
            invariant
                pos <= out.len(),
                forall|q: int| 0 <= q < out.len() ==> #[trigger] out@[q] < i,
                i < keys.len(),
                k == keys@[i as int],
                forall|q: int| 0 <= q < pos ==> keys@[#[trigger] out@[q] as int] <= k,
            decreases out.len() - pos,
        {
            pos = pos + 1;
        }
        let ghost o0 = out@;
        proof {
            if pos < o0.len() {
                assert(keys@[o0[pos as int] as int] > k);
                assert forall|q: int| pos <= q < o0.len() implies keys@[#[trigger] o0[q] as int] > k by {
                    if q > pos {
                        assert(key_before(keys@, o0[pos as int], o0[q]));
                    }
                }
            }
        }
        out.insert(pos, i);
        proof {
            assert forall|q: int| 0 <= q < out.len() implies #[trigger] out@[q] < i + 1 by {
                if q < pos {
                    assert(out@[q] == o0[q]);
                } else if q > pos {
                    assert(out@[q] == o0[q - 1]);
                }
            }
            assert(out@.no_duplicates()) by {
                assert forall|a: int, b: int| 0 <= a < b < out.len() implies out@[a] != out@[b] by {
                    if a == pos {
                        assert(out@[b] == o0[b - 1]);
                    } else if b == pos {
                        assert(out@[a] == o0[a]);
                    } else {
                        let a0 = if a < pos { a } else { a - 1 };
                        let b0 = if b < pos { b } else { b - 1 };
                        assert(out@[a] == o0[a0] && out@[b] == o0[b0]);
                    }
                }
            }
            assert forall|a: int, b: int| 0 <= a < b < out.len() implies key_before(keys@, #[trigger] out@[a], #[trigger] out@[b]) by {
                if a == pos {
                    assert(out@[b] == o0[b - 1]);
                } else if b == pos {
                    assert(out@[a] == o0[a]);
                } else {
                    let a0 = if a < pos { a } else { a - 1 };
                    let b0 = if b < pos { b } else { b - 1 };
                    assert(out@[a] == o0[a0] && out@[b] == o0[b0]);
                    assert(key_before(keys@, o0[a0], o0[b0]));
                }
            }
        }
        i = i + 1;
    }
    out
}

} // verus!
