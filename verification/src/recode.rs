//! The digit-recoding rule, as mathematics.
//!
//! Digits are produced from the most significant position down.  At a
//! position of weight `h` the residual `r` is compared with two thirds of
//! `h`: above it the digit is `+` and `h` leaves the residual, below minus two
//! thirds of `h` the digit is `-` and `h` is added, otherwise the digit is `0`.
//! The comparisons are made on `3 * r` against `2 * h` so that they stay in
//! the integers.

use crate::model::digit_value;
use vstd::arithmetic::power2::{lemma2_to64, lemma_pow2_pos, lemma_pow2_unfold, pow2};
use vstd::prelude::*;

verus! {

/// The absolute value of `v`.
pub open spec fn magnitude(v: int) -> int {
    if v < 0 {
        -v
    } else {
        v
    }
}

/// The digit that the rule picks for residual `r` at a position of weight
/// `2^(k - 1)`, the most significant of `k` positions.
pub open spec fn pick_digit(r: int, k: nat) -> char {
    if 3 * r > pow2(k) {
        '+'
    } else if 3 * r < -pow2(k) {
        '-'
    } else {
        '0'
    }
}

/// The residual that is left once `pick_digit(r, k)` has been written.
pub open spec fn next_residual(r: int, k: nat) -> int {
    r - digit_value(pick_digit(r, k)) * pow2((k - 1) as nat)
}

/// The `k` digits that the rule writes for residual `r`.
pub open spec fn recode(r: int, k: nat) -> Seq<char>
    decreases k,
{
    if k == 0 {
        Seq::empty()
    } else {
        seq![pick_digit(r, k)] + recode(next_residual(r, k), (k - 1) as nat)
    }
}

/// `k` zero digits.
pub open spec fn zeros(k: nat) -> Seq<char> {
    Seq::new(k, |i: int| '0')
}

/// The `k` digits that the rule writes for residual `r` when at most `budget`
/// of them may be non-zero.
///
/// While the budget lasts the digits are those of `recode`; each non-zero
/// digit uses up one unit.  Once it is spent, every remaining position is
/// filled with `0`.
pub open spec fn recode_bounded(r: int, k: nat, budget: nat) -> Seq<char>
    decreases k,
{
    if k == 0 {
        Seq::empty()
    } else if budget == 0 {
        zeros(k)
    } else {
        let d = pick_digit(r, k);
        let left = if digit_value(d) != 0 {
            (budget - 1) as nat
        } else {
            budget
        };
        seq![d] + recode_bounded(next_residual(r, k), (k - 1) as nat, left)
    }
}

/// The exponent of the largest power of two that is at most `n`; zero for
/// `n` below two.
pub open spec fn floor_log2(n: int) -> nat
    decreases n,
{
    if n <= 1 {
        0
    } else {
        1 + floor_log2(n / 2)
    }
}

/// How many digits the canonical form of a non-zero `v` has.
pub open spec fn csd_width(v: int) -> nat {
    floor_log2(3 * magnitude(v))
}

/// The canonical signed digit string of the integer `v`.
pub open spec fn csd_of(v: int) -> Seq<char> {
    if v == 0 {
        seq!['0']
    } else {
        recode(v, csd_width(v))
    }
}

/// The signed digit string of `v` with at most `budget` non-zero digits.
pub open spec fn csdnnz_of(v: int, budget: nat) -> Seq<char> {
    if v == 0 {
        seq!['0']
    } else {
        recode_bounded(v, csd_width(v), budget)
    }
}

/// `s` with every digit behind its first `budget` non-zero digits replaced
/// by `0`.
pub open spec fn keep_leading(s: Seq<char>, budget: nat) -> Seq<char>
    decreases s.len(),
{
    if s.len() == 0 {
        s
    } else if budget == 0 {
        zeros(s.len())
    } else if digit_value(s[0]) != 0 {
        seq![s[0]] + keep_leading(s.drop_first(), (budget - 1) as nat)
    } else {
        seq![s[0]] + keep_leading(s.drop_first(), budget)
    }
}

/// Three times the magnitude of `v` fits in an `i32`, so that the encoder's
/// comparisons can be made in 32 bits.
pub open spec fn encodable_i32(v: int) -> bool {
    -i32::MAX <= 3 * v <= i32::MAX
}

/// Three times the magnitude of `v` fits in an `i128`.
pub open spec fn encodable_i128(v: int) -> bool {
    -i128::MAX <= 3 * v <= i128::MAX
}

/// The bounded rule, one step unfolded, with budget to spare.
pub proof fn lemma_recode_bounded_step(r: int, k: nat, budget: nat)
    requires
        k > 0,
        budget > 0,
    ensures
        recode_bounded(r, k, budget) == seq![pick_digit(r, k)] + recode_bounded(
            next_residual(r, k),
            (k - 1) as nat,
            if digit_value(pick_digit(r, k)) != 0 {
                (budget - 1) as nat
            } else {
                budget
            },
        ),
{
}

/// With the budget spent, the bounded rule writes a zero and goes on writing
/// zeros, whatever the residual.
pub proof fn lemma_recode_bounded_flush(r: int, r2: int, k: nat)
    requires
        k > 0,
    ensures
        recode_bounded(r, k, 0) == seq!['0'] + recode_bounded(r2, (k - 1) as nat, 0),
{
    assert(zeros(k) =~= seq!['0'] + zeros((k - 1) as nat));
    if k - 1 == 0 {
        assert(zeros(0) =~= Seq::<char>::empty());
    }
}

/// With the budget spent, the residual no longer matters.
pub proof fn lemma_recode_bounded_same_when_spent(r: int, r2: int, k: nat)
    ensures
        recode_bounded(r, k, 0) == recode_bounded(r2, k, 0),
{
}

/// The three cases of one step: the weight leaves the residual, joins it, or
/// the residual stays.
pub proof fn lemma_next_residual(r: int, k: nat)
    requires
        k > 0,
    ensures
        3 * r > pow2(k) ==> pick_digit(r, k) == '+' && next_residual(r, k) == r - pow2(
            (k - 1) as nat,
        ),
        3 * r < -pow2(k) ==> pick_digit(r, k) == '-' && next_residual(r, k) == r + pow2(
            (k - 1) as nat,
        ),
        -pow2(k) <= 3 * r <= pow2(k) ==> pick_digit(r, k) == '0' && next_residual(r, k) == r,
        pow2(k) == 2 * pow2((k - 1) as nat),
        pow2((k - 1) as nat) >= 1,
{
    lemma_pow2_unfold(k);
    lemma_pow2_pos((k - 1) as nat);
    let h = pow2((k - 1) as nat) as int;
    assert(1 * h == h);
    assert((-1) * h == -h);
    assert(0 * h == 0);
}

/// `floor_log2(n)` is the exponent `k` with `2^k <= n < 2^(k + 1)`.
pub proof fn lemma_floor_log2(n: int)
    requires
        n >= 1,
    ensures
        pow2(floor_log2(n)) <= n < 2 * pow2(floor_log2(n)),
    decreases n,
{
    if n <= 1 {
        lemma2_to64();
    } else {
        lemma_floor_log2(n / 2);
        lemma_pow2_unfold(floor_log2(n));
    }
}

/// Only one exponent `k` has `2^k <= n < 2^(k + 1)`.
pub proof fn lemma_floor_log2_unique(n: int, k: nat)
    requires
        pow2(k) <= n < 2 * pow2(k),
    ensures
        floor_log2(n) == k,
    decreases k,
{
    lemma_pow2_pos(k);
    if k == 0 {
        lemma2_to64();
    } else {
        lemma_pow2_unfold(k);
        lemma_floor_log2_unique(n / 2, (k - 1) as nat);
    }
}

} // verus!
