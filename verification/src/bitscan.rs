//! Locating the most significant set bit of a word: what the bit
//! manipulation computes, and why that is the largest power of two in the
//! word.

use vstd::arithmetic::power2::{lemma2_to64, pow2};
use vstd::prelude::*;

verus! {

/// `p` is one of the powers of two `2^0 .. 2^31`.
pub open spec fn is_power_of_two(p: int) -> bool {
    exists|k: nat| k < 32 && p == #[trigger] pow2(k)
}

/// The value that flooding the lower bits and isolating the top bit yields.
pub open spec fn flood_top(x: u32) -> u32 {
    let a = x | (x >> 1);
    let b = a | (a >> 2);
    let c = b | (b >> 4);
    let d = c | (c >> 8);
    let e = d | (d >> 16);
    e ^ (e >> 1)
}

/// A non-zero word with a single set bit is a power of two.
proof fn lemma_single_bit(r: u32)
    requires
        r != 0,
        r & ((r - 1) as u32) == 0,
    ensures
        is_power_of_two(r as int),
{
    assert(r == 0x1 || r == 0x2 || r == 0x4 || r == 0x8 || r == 0x10 || r == 0x20 || r == 0x40
        || r == 0x80 || r == 0x100 || r == 0x200 || r == 0x400 || r == 0x800 || r == 0x1000 || r
        == 0x2000 || r == 0x4000 || r == 0x8000 || r == 0x10000 || r == 0x20000 || r == 0x40000
        || r == 0x80000 || r == 0x100000 || r == 0x200000 || r == 0x400000 || r == 0x800000 || r
        == 0x1000000 || r == 0x2000000 || r == 0x4000000 || r == 0x8000000 || r == 0x10000000
        || r == 0x20000000 || r == 0x40000000 || r == 0x80000000) by (bit_vector)
        requires
            r != 0,
            r & ((r - 1) as u32) == 0,
    ;
    lemma2_to64();
}

/// Flooding and isolating yields the largest power of two in `x`: a power
/// of two that is at most `x` and more than half of it, and zero only for
/// zero.
pub proof fn lemma_flood_top(x: u32)
    ensures
        (flood_top(x) == 0) <==> (x == 0),
        x != 0 ==> is_power_of_two(flood_top(x) as int),
        flood_top(x) <= x,
        x != 0 ==> x < 2 * flood_top(x),
{
    let r = flood_top(x);
    assert((r == 0) <==> (x == 0)) by (bit_vector)
        requires
            r == flood_top(x),
    ;
    assert(r <= x) by (bit_vector)
        requires
            r == flood_top(x),
    ;
    assert(x != 0 ==> (x as u64) < 2 * (r as u64)) by (bit_vector)
        requires
            r == flood_top(x),
    ;
    if x != 0 {
        assert(r & ((r - 1) as u32) == 0) by (bit_vector)
            requires
                r == flood_top(x),
                r != 0,
        ;
        lemma_single_bit(r);
    }
}

} // verus!
