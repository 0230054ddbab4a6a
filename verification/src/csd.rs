//! Conversions between integers and canonical signed digit strings.

use crate::bitscan::{flood_top, is_power_of_two, lemma_flood_top};
use crate::digit_loop::{recode_all, recode_from};
use crate::laws::{law_csd_canonical, law_csd_value, law_csdnnz_budget, law_csdnnz_naf};
use crate::model::{
    all_digits, count_nonzero, first_point, fits_i32, integral_run, is_digit, is_naf,
    lemma_first_point, lemma_first_point_is, lemma_prefix_fits, lemma_value_push, value_of,
};
use crate::recode::{
    csd_of, csd_width, csdnnz_of, encodable_i32, lemma_floor_log2_unique, magnitude,
};
use crate::text::byte_len;
use vstd::arithmetic::power2::{lemma_pow2_unfold, pow2};
use vstd::prelude::*;

verus! {

/// The largest power of two that is at most `x`, or zero where `x` is zero.
///
/// The bits below the most significant set bit are flooded with ones and the
/// top bit is then isolated, so the function takes the same steps on every
/// input and never branches.
pub fn highest_power_of_two_in(x: u32) -> (r: u32)
    ensures
        (r == 0) <==> (x == 0),
        x != 0 ==> is_power_of_two(r as int),
        r <= x,
        x != 0 ==> x < 2 * r,
{
    let a: u32 = x | (x >> 1);
    let b: u32 = a | (a >> 2);
    let c: u32 = b | (b >> 4);
    let d: u32 = c | (c >> 8);
    let e: u32 = d | (d >> 16);
    let r: u32 = e ^ (e >> 1);
    proof {
        assert(flood_top(x) == r);
        lemma_flood_top(x);
    }
    r
}

/// The accumulator after one more digit: twice the old value plus the digit.
fn shift_in(
    acc: i32,
    c: char,
    Ghost(seen): Ghost<Seq<char>>,
    Ghost(rest): Ghost<Seq<char>>,
) -> (r: i32)
    requires
        acc == value_of(seen),
        is_digit(c),
        fits_i32(value_of(seen.push(c) + rest)),
    ensures
        r == value_of(seen.push(c)),
{
    proof {
        lemma_value_push(seen, c);
        lemma_prefix_fits(seen.push(c), rest);
    }
    let wide: i64 = 2 * (acc as i64) + (if c == '+' {
        1i64
    } else if c == '-' {
        -1i64
    } else {
        0i64
    });
    wide as i32
}

/// The integer that a signed-digit string denotes.
///
/// The string is read from its most significant digit: each digit doubles
/// what was read so far and adds its own value.
pub fn to_decimal_i(csd: &str) -> (r: i32)
    requires
        all_digits(csd@),
        fits_i32(value_of(csd@)),
    ensures
        r == value_of(csd@),
{
    let mut acc: i32 = 0;
    for c in it: csd.chars()
        invariant
            it.seq() == csd@,
            all_digits(csd@),
            fits_i32(value_of(csd@)),
            acc == value_of(csd@.take(it.index() as int)),
    {
        let ghost seen = csd@.take(it.index() as int);
        let ghost rest = csd@.skip(it.index() + 1);
        proof {
            assert(seen.push(c) + rest =~= csd@);
            assert(seen.push(c) =~= csd@.take(it.index() + 1));
        }
        acc = shift_in(acc, c, Ghost(seen), Ghost(rest));
    }
    proof {
        assert(csd@.take(csd@.len() as int) =~= csd@);
    }
    acc
}

/// The integral part of a signed-digit string, and where its fraction starts.
///
/// Reading stops at the first decimal point.  The first component is the
/// integer that the digits in front of it denote.  The second is the index
/// just behind the point, or zero where the string has no point.
pub fn to_decimal_integral(csd: &str) -> (r: (i32, usize))
    requires
        all_digits(integral_run(csd@)),
        fits_i32(value_of(integral_run(csd@))),
    ensures
        r.0 == value_of(integral_run(csd@)),
        first_point(csd@) < csd@.len() ==> r.1 == first_point(csd@) + 1,
        first_point(csd@) == csd@.len() ==> r.1 == 0,
{
    let limit = byte_len(csd);
    let mut acc: i32 = 0;
    let mut pos: usize = 0;
    for c in it: csd.chars()
        invariant
            it.seq() == csd@,
            pos == it.index(),
            csd@.len() <= limit,
            all_digits(integral_run(csd@)),
            fits_i32(value_of(integral_run(csd@))),
            forall|i: int| 0 <= i < it.index() ==> csd@[i] != '.',
            acc == value_of(csd@.take(it.index() as int)),
    {
        if c == '.' {
            proof {
                lemma_first_point(csd@, pos as int);
            }
            return (acc, pos + 1);
        }
        let ghost seen = csd@.take(pos as int);
        let ghost run = integral_run(csd@);
        let ghost rest = run.skip(pos + 1);
        proof {
            lemma_first_point_is(csd@);
            assert(pos < first_point(csd@));
            assert(run[pos as int] == c);
            assert(seen.push(c) + rest =~= run);
            assert(seen.push(c) =~= csd@.take(pos + 1));
        }
        acc = shift_in(acc, c, Ghost(seen), Ghost(rest));
        pos = pos + 1;
    }
    proof {
        lemma_first_point(csd@, csd@.len() as int);
        assert(csd@.take(csd@.len() as int) =~= csd@);
    }
    (acc, 0)
}

/// The weight above the most significant digit of a non-zero `v`: twice the
/// largest power of two in three halves of its magnitude.
fn seed_weight(v: i32) -> (r: (i32, Ghost<nat>))
    requires
        v != 0,
        encodable_i32(v as int),
    ensures
        r.0 == pow2(r.1@),
        r.1@ == csd_width(v as int),
        2 <= r.0 <= 3 * magnitude(v as int),
{
    let a: i32 = if v < 0 {
        -v
    } else {
        v
    };
    let temp: u32 = (a * 3 / 2) as u32;
    let h: u32 = highest_power_of_two_in(temp);
    let p2n: i32 = (h as i32) * 2;
    let ghost j: nat = choose|j: nat| j < 32 && h as int == #[trigger] pow2(j);
    proof {
        lemma_pow2_unfold(j + 1);
        lemma_floor_log2_unique(3 * a, j + 1);
    }
    (p2n, Ghost(j + 1))
}

/// The canonical signed digit string of an integer.
///
/// Zero is written `0`.  Any other number is written without leading zeros,
/// most significant digit first, by the recoding rule.
pub fn to_csd_i(decimal_value: i32) -> (csd: String)
    requires
        encodable_i32(decimal_value as int),
    ensures
        csd@ == csd_of(decimal_value as int),
        all_digits(csd@),
        is_naf(csd@),
        value_of(csd@) == decimal_value,
{
    proof {
        law_csd_canonical(decimal_value as int);
        law_csd_value(decimal_value as int);
    }
    if decimal_value == 0 {
        proof {
            reveal_strlit("0");
            assert("0"@ =~= seq!['0']);
        }
        return String::from_str("0");
    }
    let (seed, Ghost(width)) = seed_weight(decimal_value);
    recode_all(decimal_value as i128, seed as i128, Ghost(width))
}

/// The signed digit string of an integer with a bounded number of non-zero
/// digits.
///
/// The digits are those of `to_csd_i` up to and including the `nnz`-th
/// non-zero digit; every position behind it holds `0`, so the string is as
/// long as the exact one.  A budget of zero is only meant for the number
/// zero.
pub fn to_csdnnz_i(decimal_value: i32, nnz: u32) -> (csd: String)
    requires
        encodable_i32(decimal_value as int),
        nnz > 0 || decimal_value == 0,
    ensures
        csd@ == csdnnz_of(decimal_value as int, nnz as nat),
        all_digits(csd@),
        is_naf(csd@),
        count_nonzero(csd@) <= nnz,
{
    proof {
        law_csdnnz_naf(decimal_value as int, nnz as nat);
        law_csdnnz_budget(decimal_value as int, nnz as nat);
    }
    if decimal_value == 0 {
        proof {
            reveal_strlit("0");
            assert("0"@ =~= seq!['0']);
        }
        return String::from_str("0");
    }
    let (seed, Ghost(width)) = seed_weight(decimal_value);
    recode_from(decimal_value as i128, seed as i128, Ghost(width), nnz)
}

} // verus!
