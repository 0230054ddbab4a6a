//! The digit loop of the integer encoders.
//!
//! Every integer encoder finds the weight above its first digit in its own
//! width and then runs this loop, which works in 128 bits.

use crate::builder::EncodingPolicy;
use crate::laws::{lemma_budget_covers, lemma_csd_width};
use crate::recode::{
    csd_width, encodable_i128, lemma_next_residual, lemma_recode_bounded_flush,
    lemma_recode_bounded_same_when_spent, lemma_recode_bounded_step, magnitude, next_residual,
    pick_digit, recode, recode_bounded,
};
use crate::recoder::{Adjust, Comparison, Recoder};
use vstd::arithmetic::power2::{
    lemma2_to64, lemma2_to64_rest, lemma_pow2_adds, lemma_pow2_pos, lemma_pow2_strictly_increases,
    lemma_pow2_unfold, pow2,
};
use vstd::prelude::*;

verus! {

/// `2^127`, the first power of two beyond `i128`.
pub proof fn lemma_pow2_127()
    ensures
        pow2(127) == 0x8000_0000_0000_0000_0000_0000_0000_0000,
{
    lemma2_to64();
    lemma2_to64_rest();
    lemma_pow2_adds(64, 63);
    assert(pow2(64) * pow2(63) == 0x8000_0000_0000_0000_0000_0000_0000_0000) by (nonlinear_arith)
        requires
            pow2(64) == 0x10000000000000000,
            pow2(63) == 0x8000000000000000,
    ;
}

/// A number that can be encoded in 128 bits has fewer than 127 digits.
pub proof fn lemma_width_small(v: int)
    requires
        v != 0,
        encodable_i128(v),
    ensures
        csd_width(v) < 127,
{
    lemma_csd_width(v);
    lemma_pow2_127();
    if csd_width(v) > 127 {
        lemma_pow2_strictly_increases(127, csd_width(v));
    }
}

/// The exponent of a power of two below `2^127`.
fn exponent_of(p: i128, Ghost(k): Ghost<nat>) -> (e: u32)
    requires
        p == pow2(k),
        k < 127,
    ensures
        e == k,
{
    let mut rest: i128 = p;
    let mut e: u32 = 0;
    proof {
        lemma_pow2_pos(k);
    }
    while rest > 1
        invariant
            e <= k < 127,
            rest == pow2((k - e) as nat),
        decreases rest,
    {
        proof {
            lemma2_to64();
            if e == k {
                assert(rest == 1);
            }
            lemma_pow2_unfold((k - e) as nat);
        }
        rest = rest / 2;
        e = e + 1;
    }
    proof {
        lemma2_to64();
        if e < k {
            lemma_pow2_unfold((k - e) as nat);
            lemma_pow2_pos((k - e - 1) as nat);
        }
    }
    e
}

/// The digits of a non-zero number, of which at most `budget` are non-zero,
/// written from the weight `seed` down.
///
/// The residual is kept here and compared with the weights; the recoder
/// decides what is written.
pub(crate) fn recode_from(
    value: i128,
    seed: i128,
    Ghost(digits): Ghost<nat>,
    budget: u32,
) -> (csd: String)
    requires
        value != 0,
        encodable_i128(value as int),
        seed == pow2(digits),
        digits == csd_width(value as int),
    ensures
        csd@ == recode_bounded(value as int, csd_width(value as int), budget as nat),
{
    proof {
        lemma_width_small(value as int);
        lemma_csd_width(value as int);
    }
    let width = exponent_of(seed, Ghost(digits));
    let ghost target = recode_bounded(value as int, width as nat, budget as nat);
    let mut recoder = Recoder::new(width, EncodingPolicy::MaxNonZeros(budget));
    let mut p2n: i128 = seed;
    let mut residual: i128 = value;
    let ghost mut k: nat = width as nat;
    proof {
        lemma2_to64();
        assert(width > 0);
        assert(recoder.text() + target =~= target);
    }
    while p2n > 1
        invariant
            p2n == pow2(k),
            1 <= p2n <= i128::MAX,
            encodable_i128(value as int),
            magnitude(residual as int) <= magnitude(value as int),
            recoder.well_formed(),
            recoder.policy() == EncodingPolicy::MaxNonZeros(budget),
            recoder.exponent() == k,
            recoder.spent() <= budget,
            recoder.text() + recode_bounded(
                residual as int,
                k,
                (budget - recoder.spent()) as nat,
            ) == target,
        decreases p2n,
    {
        let half: i128 = p2n / 2;
        let det: i128 = 3 * residual;
        let ghost before = recoder.text();
        let ghost r0 = residual as int;
        let ghost b0 = (budget - recoder.spent()) as nat;
        proof {
            lemma2_to64();
            lemma_pow2_unfold(k);
            lemma_next_residual(r0, k);
        }
        let outcome = if det > p2n {
            Comparison::Above
        } else if det < -p2n {
            Comparison::Below
        } else {
            Comparison::Within
        };
        match recoder.push(outcome) {
            Adjust::Subtract => {
                residual = residual - half;
            },
            Adjust::Add => {
                residual = residual + half;
            },
            Adjust::Keep => {},
            Adjust::Clear => {
                residual = 0;
            },
        }
        p2n = half;
        proof {
            let b1 = (budget - recoder.spent()) as nat;
            if b0 > 0 {
                lemma_recode_bounded_step(r0, k, b0);
                assert(recoder.text() =~= before + seq![pick_digit(r0, k)]);
                if b1 == 0 {
                    lemma_recode_bounded_same_when_spent(
                        next_residual(r0, k),
                        residual as int,
                        (k - 1) as nat,
                    );
                }
            } else {
                lemma_recode_bounded_flush(r0, residual as int, k);
                assert(recoder.text() =~= before + seq!['0']);
            }
            assert(recoder.text() + recode_bounded(residual as int, (k - 1) as nat, b1)
                =~= before + recode_bounded(r0, k, b0));
            k = (k - 1) as nat;
        }
    }
    proof {
        lemma2_to64();
        lemma_pow2_pos(k);
        if k > 0 {
            lemma_pow2_unfold(k);
        }
        assert(k == 0);
        assert(recoder.text() + recode_bounded(
            residual as int,
            0,
            (budget - recoder.spent()) as nat,
        ) =~= recoder.text());
        assert(recoder.text() + Seq::<char>::empty() =~= recoder.text());
    }
    recoder.finish()
}

/// The digits of a non-zero number, all of them, written from the weight
/// `seed` down: the loop runs with a budget that cannot run out.
pub(crate) fn recode_all(value: i128, seed: i128, Ghost(digits): Ghost<nat>) -> (csd: String)
    requires
        value != 0,
        encodable_i128(value as int),
        seed == pow2(digits),
        digits == csd_width(value as int),
    ensures
        csd@ == recode(value as int, csd_width(value as int)),
{
    proof {
        lemma_width_small(value as int);
        lemma_budget_covers(value as int, csd_width(value as int), u32::MAX as nat);
    }
    recode_from(value, seed, Ghost(digits), u32::MAX)
}

} // verus!
