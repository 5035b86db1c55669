//! SplitMix64: a stateless 64-bit mixer, used to derive index-keyed jitter.

use vstd::prelude::*;

verus! {

/// `x` reduced modulo 2^64.
pub open spec fn mod64(x: int) -> u64 {
    (x % 0x1_0000_0000_0000_0000) as u64
}

/// The SplitMix64 finalizer of `x`, with every sum and product taken
/// modulo 2^64.
pub open spec fn splitmix64_spec(x: u64) -> u64 {
    let z1 = mod64(x + 0x9E37_79B9_7F4A_7C15);
    let z2 = mod64((z1 ^ (z1 >> 30u64)) * 0xBF58_476D_1CE4_E5B9);
    let z3 = mod64((z2 ^ (z2 >> 27u64)) * 0x94D0_49BB_1331_11EB);
    z3 ^ (z3 >> 31u64)
}

/// SplitMix64 of `x`.
pub fn splitmix64(x: u64) -> (r: u64)
    ensures
        r == splitmix64_spec(x),
{
    let mut z = x.wrapping_add(0x9E37_79B9_7F4A_7C15);
    assert(z == mod64(x + 0x9E37_79B9_7F4A_7C15));
    z = (z ^ (z >> 30)).wrapping_mul(0xBF58_476D_1CE4_E5B9);
    z = (z ^ (z >> 27)).wrapping_mul(0x94D0_49BB_1331_11EB);
    z ^ (z >> 31)
}

} // verus!
