//! Bit sets over at most 128 points, held in a `u128`: bit `i` set means
//! point `i` belongs to the set. Spec functions give the set each mask
//! stands for; the lemmas relate the bitwise operators to set operations.

use vstd::prelude::*;
use vstd::set_lib::*;

verus! {

/// Whether bit `i` of `m` is set (false outside `0..128`).
pub open spec fn bit(m: u128, i: int) -> bool {
    0 <= i < 128 && (m >> (i as u128)) & 1u128 == 1u128
}

/// The set of point indices a mask stands for.
pub open spec fn pts(m: u128) -> Set<int> {
    Set::new(|i: int| bit(m, i))
}

/// The indices a mask can hold: `0..128`.
pub open spec fn universe() -> Set<int> {
    set_int_range(0, 128)
}

/// The indices `0..n`.
pub open spec fn first_n(n: int) -> Set<int> {
    set_int_range(0, n)
}

/// Every set of mask indices is a finite subset of `0..128`.
pub proof fn lemma_pts_finite(m: u128)
    ensures
        pts(m).subset_of(universe()),
        pts(m).finite(),
        pts(m).len() <= 128,
{
    lemma_int_range(0, 128);
    lemma_len_subset(pts(m), universe());
}

proof fn lemma_bit_and_raw(a: u128, b: u128, i: u128)
    by (bit_vector)
    requires
        i < 128,
    ensures
        ((a & b) >> i) & 1u128 == 1u128 <==> ((a >> i) & 1u128 == 1u128 && (b >> i) & 1u128
            == 1u128),
{
}

proof fn lemma_bit_or_raw(a: u128, b: u128, i: u128)
    by (bit_vector)
    requires
        i < 128,
    ensures
        ((a | b) >> i) & 1u128 == 1u128 <==> ((a >> i) & 1u128 == 1u128 || (b >> i) & 1u128
            == 1u128),
{
}

proof fn lemma_bit_andnot_raw(a: u128, b: u128, i: u128)
    by (bit_vector)
    requires
        i < 128,
    ensures
        ((a & !b) >> i) & 1u128 == 1u128 <==> ((a >> i) & 1u128 == 1u128 && (b >> i) & 1u128
            != 1u128),
{
}

proof fn lemma_bit_single_raw(u: u128, i: u128)
    by (bit_vector)
    requires
        i < 128,
        u < 128,
    ensures
        ((1u128 << u) >> i) & 1u128 == 1u128 <==> i == u,
{
}

proof fn lemma_bit_zero_raw(i: u128)
    by (bit_vector)
    requires
        i < 128,
    ensures
        (0u128 >> i) & 1u128 != 1u128,
{
}

proof fn lemma_bit_full_raw(n: u128, i: u128)
    by (bit_vector)
    requires
        i < 128,
        n < 128,
    ensures
        ((((1u128 << n) - 1u128) as u128) >> i) & 1u128 == 1u128 <==> i < n,
{
}

proof fn lemma_bit_max_raw(i: u128)
    by (bit_vector)
    requires
        i < 128,
    ensures
        (0xffff_ffff_ffff_ffff_ffff_ffff_ffff_ffffu128 >> i) & 1u128 == 1u128,
{
}

proof fn lemma_bits_agree(a: u128, b: u128, i: u128)
    requires
        i < 128,
        bit(a, i as int) == bit(b, i as int),
    ensures
        (a >> i) & 1u128 == (b >> i) & 1u128,
{
    assert(((i as int) as u128) == i);
    lemma_bits_agree_raw(a, b, i);
}

proof fn lemma_bits_agree_raw(a: u128, b: u128, i: u128)
    by (bit_vector)
    requires
        i < 128,
        ((a >> i) & 1u128 == 1u128) == ((b >> i) & 1u128 == 1u128),
    ensures
        (a >> i) & 1u128 == (b >> i) & 1u128,
{
}

proof fn lemma_eq_from_bits(a: u128, b: u128)
    by (bit_vector)
    requires
            (a >> 0u128) & 1u128 == (b >> 0u128) & 1u128,
            (a >> 1u128) & 1u128 == (b >> 1u128) & 1u128,
            (a >> 2u128) & 1u128 == (b >> 2u128) & 1u128,
            (a >> 3u128) & 1u128 == (b >> 3u128) & 1u128,
            (a >> 4u128) & 1u128 == (b >> 4u128) & 1u128,
            (a >> 5u128) & 1u128 == (b >> 5u128) & 1u128,
            (a >> 6u128) & 1u128 == (b >> 6u128) & 1u128,
            (a >> 7u128) & 1u128 == (b >> 7u128) & 1u128,
            (a >> 8u128) & 1u128 == (b >> 8u128) & 1u128,
            (a >> 9u128) & 1u128 == (b >> 9u128) & 1u128,
            (a >> 10u128) & 1u128 == (b >> 10u128) & 1u128,
            (a >> 11u128) & 1u128 == (b >> 11u128) & 1u128,
            (a >> 12u128) & 1u128 == (b >> 12u128) & 1u128,
            (a >> 13u128) & 1u128 == (b >> 13u128) & 1u128,
            (a >> 14u128) & 1u128 == (b >> 14u128) & 1u128,
            (a >> 15u128) & 1u128 == (b >> 15u128) & 1u128,
            (a >> 16u128) & 1u128 == (b >> 16u128) & 1u128,
            (a >> 17u128) & 1u128 == (b >> 17u128) & 1u128,
            (a >> 18u128) & 1u128 == (b >> 18u128) & 1u128,
            (a >> 19u128) & 1u128 == (b >> 19u128) & 1u128,
            (a >> 20u128) & 1u128 == (b >> 20u128) & 1u128,
            (a >> 21u128) & 1u128 == (b >> 21u128) & 1u128,
            (a >> 22u128) & 1u128 == (b >> 22u128) & 1u128,
            (a >> 23u128) & 1u128 == (b >> 23u128) & 1u128,
            (a >> 24u128) & 1u128 == (b >> 24u128) & 1u128,
            (a >> 25u128) & 1u128 == (b >> 25u128) & 1u128,
            (a >> 26u128) & 1u128 == (b >> 26u128) & 1u128,
            (a >> 27u128) & 1u128 == (b >> 27u128) & 1u128,
            (a >> 28u128) & 1u128 == (b >> 28u128) & 1u128,
            (a >> 29u128) & 1u128 == (b >> 29u128) & 1u128,
            (a >> 30u128) & 1u128 == (b >> 30u128) & 1u128,
            (a >> 31u128) & 1u128 == (b >> 31u128) & 1u128,
            (a >> 32u128) & 1u128 == (b >> 32u128) & 1u128,
            (a >> 33u128) & 1u128 == (b >> 33u128) & 1u128,
            (a >> 34u128) & 1u128 == (b >> 34u128) & 1u128,
            (a >> 35u128) & 1u128 == (b >> 35u128) & 1u128,
            (a >> 36u128) & 1u128 == (b >> 36u128) & 1u128,
            (a >> 37u128) & 1u128 == (b >> 37u128) & 1u128,
            (a >> 38u128) & 1u128 == (b >> 38u128) & 1u128,
            (a >> 39u128) & 1u128 == (b >> 39u128) & 1u128,
            (a >> 40u128) & 1u128 == (b >> 40u128) & 1u128,
            (a >> 41u128) & 1u128 == (b >> 41u128) & 1u128,
            (a >> 42u128) & 1u128 == (b >> 42u128) & 1u128,
            (a >> 43u128) & 1u128 == (b >> 43u128) & 1u128,
            (a >> 44u128) & 1u128 == (b >> 44u128) & 1u128,
            (a >> 45u128) & 1u128 == (b >> 45u128) & 1u128,
            (a >> 46u128) & 1u128 == (b >> 46u128) & 1u128,
            (a >> 47u128) & 1u128 == (b >> 47u128) & 1u128,
            (a >> 48u128) & 1u128 == (b >> 48u128) & 1u128,
            (a >> 49u128) & 1u128 == (b >> 49u128) & 1u128,
            (a >> 50u128) & 1u128 == (b >> 50u128) & 1u128,
            (a >> 51u128) & 1u128 == (b >> 51u128) & 1u128,
            (a >> 52u128) & 1u128 == (b >> 52u128) & 1u128,
            (a >> 53u128) & 1u128 == (b >> 53u128) & 1u128,
            (a >> 54u128) & 1u128 == (b >> 54u128) & 1u128,
            (a >> 55u128) & 1u128 == (b >> 55u128) & 1u128,
            (a >> 56u128) & 1u128 == (b >> 56u128) & 1u128,
            (a >> 57u128) & 1u128 == (b >> 57u128) & 1u128,
            (a >> 58u128) & 1u128 == (b >> 58u128) & 1u128,
            (a >> 59u128) & 1u128 == (b >> 59u128) & 1u128,
            (a >> 60u128) & 1u128 == (b >> 60u128) & 1u128,
            (a >> 61u128) & 1u128 == (b >> 61u128) & 1u128,
            (a >> 62u128) & 1u128 == (b >> 62u128) & 1u128,
            (a >> 63u128) & 1u128 == (b >> 63u128) & 1u128,
            (a >> 64u128) & 1u128 == (b >> 64u128) & 1u128,
            (a >> 65u128) & 1u128 == (b >> 65u128) & 1u128,
            (a >> 66u128) & 1u128 == (b >> 66u128) & 1u128,
            (a >> 67u128) & 1u128 == (b >> 67u128) & 1u128,
            (a >> 68u128) & 1u128 == (b >> 68u128) & 1u128,
            (a >> 69u128) & 1u128 == (b >> 69u128) & 1u128,
            (a >> 70u128) & 1u128 == (b >> 70u128) & 1u128,
            (a >> 71u128) & 1u128 == (b >> 71u128) & 1u128,
            (a >> 72u128) & 1u128 == (b >> 72u128) & 1u128,
            (a >> 73u128) & 1u128 == (b >> 73u128) & 1u128,
            (a >> 74u128) & 1u128 == (b >> 74u128) & 1u128,
            (a >> 75u128) & 1u128 == (b >> 75u128) & 1u128,
            (a >> 76u128) & 1u128 == (b >> 76u128) & 1u128,
            (a >> 77u128) & 1u128 == (b >> 77u128) & 1u128,
            (a >> 78u128) & 1u128 == (b >> 78u128) & 1u128,
            (a >> 79u128) & 1u128 == (b >> 79u128) & 1u128,
            (a >> 80u128) & 1u128 == (b >> 80u128) & 1u128,
            (a >> 81u128) & 1u128 == (b >> 81u128) & 1u128,
            (a >> 82u128) & 1u128 == (b >> 82u128) & 1u128,
            (a >> 83u128) & 1u128 == (b >> 83u128) & 1u128,
            (a >> 84u128) & 1u128 == (b >> 84u128) & 1u128,
            (a >> 85u128) & 1u128 == (b >> 85u128) & 1u128,
            (a >> 86u128) & 1u128 == (b >> 86u128) & 1u128,
            (a >> 87u128) & 1u128 == (b >> 87u128) & 1u128,
            (a >> 88u128) & 1u128 == (b >> 88u128) & 1u128,
            (a >> 89u128) & 1u128 == (b >> 89u128) & 1u128,
            (a >> 90u128) & 1u128 == (b >> 90u128) & 1u128,
            (a >> 91u128) & 1u128 == (b >> 91u128) & 1u128,
            (a >> 92u128) & 1u128 == (b >> 92u128) & 1u128,
            (a >> 93u128) & 1u128 == (b >> 93u128) & 1u128,
            (a >> 94u128) & 1u128 == (b >> 94u128) & 1u128,
            (a >> 95u128) & 1u128 == (b >> 95u128) & 1u128,
            (a >> 96u128) & 1u128 == (b >> 96u128) & 1u128,
            (a >> 97u128) & 1u128 == (b >> 97u128) & 1u128,
            (a >> 98u128) & 1u128 == (b >> 98u128) & 1u128,
            (a >> 99u128) & 1u128 == (b >> 99u128) & 1u128,
            (a >> 100u128) & 1u128 == (b >> 100u128) & 1u128,
            (a >> 101u128) & 1u128 == (b >> 101u128) & 1u128,
            (a >> 102u128) & 1u128 == (b >> 102u128) & 1u128,
            (a >> 103u128) & 1u128 == (b >> 103u128) & 1u128,
            (a >> 104u128) & 1u128 == (b >> 104u128) & 1u128,
            (a >> 105u128) & 1u128 == (b >> 105u128) & 1u128,
            (a >> 106u128) & 1u128 == (b >> 106u128) & 1u128,
            (a >> 107u128) & 1u128 == (b >> 107u128) & 1u128,
            (a >> 108u128) & 1u128 == (b >> 108u128) & 1u128,
            (a >> 109u128) & 1u128 == (b >> 109u128) & 1u128,
            (a >> 110u128) & 1u128 == (b >> 110u128) & 1u128,
            (a >> 111u128) & 1u128 == (b >> 111u128) & 1u128,
            (a >> 112u128) & 1u128 == (b >> 112u128) & 1u128,
            (a >> 113u128) & 1u128 == (b >> 113u128) & 1u128,
            (a >> 114u128) & 1u128 == (b >> 114u128) & 1u128,
            (a >> 115u128) & 1u128 == (b >> 115u128) & 1u128,
            (a >> 116u128) & 1u128 == (b >> 116u128) & 1u128,
            (a >> 117u128) & 1u128 == (b >> 117u128) & 1u128,
            (a >> 118u128) & 1u128 == (b >> 118u128) & 1u128,
            (a >> 119u128) & 1u128 == (b >> 119u128) & 1u128,
            (a >> 120u128) & 1u128 == (b >> 120u128) & 1u128,
            (a >> 121u128) & 1u128 == (b >> 121u128) & 1u128,
            (a >> 122u128) & 1u128 == (b >> 122u128) & 1u128,
            (a >> 123u128) & 1u128 == (b >> 123u128) & 1u128,
            (a >> 124u128) & 1u128 == (b >> 124u128) & 1u128,
            (a >> 125u128) & 1u128 == (b >> 125u128) & 1u128,
            (a >> 126u128) & 1u128 == (b >> 126u128) & 1u128,
            (a >> 127u128) & 1u128 == (b >> 127u128) & 1u128,
    ensures
        a == b,
{
}

/// `a & b` stands for the intersection.
pub proof fn lemma_pts_and(a: u128, b: u128)
    ensures
        pts(a & b) == pts(a).intersect(pts(b)),
{
    assert forall|i: int| pts(a & b).contains(i) == pts(a).intersect(pts(b)).contains(i) by {
        if 0 <= i < 128 {
            lemma_bit_and_raw(a, b, i as u128);
        }
    }
    assert(pts(a & b) =~= pts(a).intersect(pts(b)));
}

/// `a | b` stands for the union.
pub proof fn lemma_pts_or(a: u128, b: u128)
    ensures
        pts(a | b) == pts(a).union(pts(b)),
{
    assert forall|i: int| pts(a | b).contains(i) == pts(a).union(pts(b)).contains(i) by {
        if 0 <= i < 128 {
            lemma_bit_or_raw(a, b, i as u128);
        }
    }
    assert(pts(a | b) =~= pts(a).union(pts(b)));
}

/// `a & !b` stands for the difference.
pub proof fn lemma_pts_andnot(a: u128, b: u128)
    ensures
        pts(a & !b) == pts(a).difference(pts(b)),
{
    assert forall|i: int| pts(a & !b).contains(i) == pts(a).difference(pts(b)).contains(i) by {
        if 0 <= i < 128 {
            lemma_bit_andnot_raw(a, b, i as u128);
        }
    }
    assert(pts(a & !b) =~= pts(a).difference(pts(b)));
}

/// `1 << u` stands for the singleton `{u}`.
pub proof fn lemma_pts_single(u: u128)
    requires
        u < 128,
    ensures
        pts(1u128 << u) == Set::<int>::empty().insert(u as int),
{
    assert forall|i: int| pts(1u128 << u).contains(i) == Set::<int>::empty().insert(
        u as int,
    ).contains(i) by {
        if 0 <= i < 128 {
            lemma_bit_single_raw(u, i as u128);
        }
    }
    assert(pts(1u128 << u) =~= Set::<int>::empty().insert(u as int));
}

/// `a & !(1 << u)` stands for `a` without `u`.
pub proof fn lemma_pts_remove(a: u128, u: u128)
    requires
        u < 128,
    ensures
        pts(a & !(1u128 << u)) == pts(a).remove(u as int),
{
    lemma_pts_andnot(a, 1u128 << u);
    lemma_pts_single(u);
    assert(pts(a).difference(Set::<int>::empty().insert(u as int)) =~= pts(a).remove(u as int));
}

/// The zero mask is the empty set.
pub proof fn lemma_pts_zero()
    ensures
        pts(0u128) == Set::<int>::empty(),
{
    assert forall|i: int| !pts(0u128).contains(i) by {
        if 0 <= i < 128 {
            lemma_bit_zero_raw(i as u128);
        }
    }
    assert(pts(0u128) =~= Set::<int>::empty());
}

/// `(1 << n) - 1` stands for `0..n`.
pub proof fn lemma_pts_low(n: u128)
    requires
        n < 128,
    ensures
        pts(((1u128 << n) - 1u128) as u128) == first_n(n as int),
{
    assert forall|i: int| pts(((1u128 << n) - 1u128) as u128).contains(i) == first_n(
        n as int,
    ).contains(i) by {
        if 0 <= i < 128 {
            lemma_bit_full_raw(n, i as u128);
        }
    }
    assert(pts(((1u128 << n) - 1u128) as u128) =~= first_n(n as int));
}

/// `u128::MAX` stands for `0..128`.
pub proof fn lemma_pts_max()
    ensures
        pts(u128::MAX) == first_n(128),
{
    assert forall|i: int| pts(u128::MAX).contains(i) == first_n(128).contains(i) by {
        if 0 <= i < 128 {
            lemma_bit_max_raw(i as u128);
        }
    }
    assert(pts(u128::MAX) =~= first_n(128));
}

/// Two masks standing for the same set are the same mask.
pub proof fn lemma_pts_injective(a: u128, b: u128)
    requires
        pts(a) == pts(b),
    ensures
        a == b,
{
    assert forall|i: int| #![trigger bit(a, i)] 0 <= i < 128 implies bit(a, i) == bit(b, i) by {
        assert(pts(a).contains(i) == bit(a, i));
        assert(pts(b).contains(i) == bit(b, i));
        assert(pts(a).contains(i) == pts(b).contains(i));
    }
    assert forall|i: u128| i < 128 implies #[trigger] ((a >> i) & 1u128) == (b >> i) & 1u128 by {
        lemma_bits_agree(a, b, i);
    }
    lemma_eq_from_bits(a, b);
}

/// Bit `j` of the low half of a mask is bit `j` of the mask.
proof fn lemma_low_half_bit(m: u128, j: u64)
    by (bit_vector)
    requires
        j < 64,
    ensures
        ((m >> (j as u128)) & 1u128 == 1u128) <==> (((m as u64) >> j) & 1u64 == 1u64),
{
}

/// Bit `j` of the high half of a mask is bit `64 + j` of the mask.
proof fn lemma_high_half_bit(m: u128, j: u64)
    by (bit_vector)
    requires
        j < 64,
    ensures
        ((m >> ((j + 64) as u128)) & 1u128 == 1u128) <==> ((((m >> 64u128) as u64) >> j) & 1u64 == 1u64),
{
}

/// A mask whose halves are both zero is zero.
proof fn lemma_halves_zero(m: u128)
    by (bit_vector)
    ensures
        (m as u64 == 0u64 && (m >> 64u128) as u64 == 0u64) <==> m == 0u128,
{
}

/// The index of the lowest set bit, or 128 for the zero mask, from the
/// trailing zeros of the mask's two halves.
pub(crate) fn lowest_bit(m: u128) -> (r: u32)
    ensures
        m == 0 ==> r == 128,
        m != 0 ==> r < 128 && bit(m, r as int) && forall|i: int| 0 <= i < r ==> !bit(m, i),
{
    broadcast use vstd::std_specs::bits::axiom_u64_trailing_zeros;
    proof {
        lemma_halves_zero(m);
    }
    let lo = #[verifier::truncate] (m as u64);
    if lo != 0 {
        let t = lo.trailing_zeros();
        proof {
            assert(t < 64);
            lemma_low_half_bit(m, t as u64);
            assert forall|i: int| 0 <= i < t implies !bit(m, i) by {
                lemma_low_half_bit(m, i as u64);
                assert((lo >> (i as u64)) & 1u64 == 0u64);
            }
        }
        t
    } else {
        let hi = #[verifier::truncate] ((m >> 64u128) as u64);
        if hi == 0 {
            128
        } else {
            let t = hi.trailing_zeros();
            proof {
                assert(t < 64);
                lemma_high_half_bit(m, t as u64);
                assert(((t as u64) + 64) as u128 == (64 + t) as u32 as int as u128);
                assert forall|i: int| 0 <= i < 64 + t implies !bit(m, i) by {
                    if i < 64 {
                        let j = i as u64;
                        lemma_low_half_bit(m, j);
                        assert((lo >> j) & 1u64 == 0u64) by (bit_vector)
                            requires
                                lo == 0u64,
                        ;
                    } else {
                        lemma_high_half_bit(m, (i - 64) as u64);
                        assert((hi >> ((i - 64) as u64)) & 1u64 == 0u64);
                        assert((((i - 64) as u64) + 64) as u128 == i as u128);
                    }
                }
            }
            64 + t
        }
    }
}

/// The number of set bits of a mask: the size of the set it stands for.
/// Clears the lowest set bit until none is left.
pub(crate) fn popcount(m: u128) -> (r: u32)
    ensures
        r == pts(m).len(),
{
    let mut rest = m;
    let mut c: u32 = 0;
    proof {
        lemma_pts_finite(m);
    }
    while rest != 0
        invariant
            pts(m).finite(),
            pts(m).len() <= 128,
            pts(rest).finite(),
            c + pts(rest).len() == pts(m).len(),
        decreases pts(rest).len(),
    {
        proof {
            lemma_pts_finite(rest);
        }
        let t = lowest_bit(rest);
        proof {
            lemma_pts_remove(rest, t as u128);
            assert(pts(rest).contains(t as int));
        }
        let ghost before = rest;
        rest = rest & !(1u128 << t);
        proof {
            assert(pts(rest) == pts(before).remove(t as int));
            lemma_pts_finite(rest);
        }
        c = c + 1;
    }
    proof {
        lemma_pts_zero();
    }
    c
}

} // verus!
