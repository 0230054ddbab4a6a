//! The conversions for 64-bit and 128-bit integers.
//!
//! Both widths run the digit loop that all integer encoders share, and
//! one digit fold, which works in 128 bits.

use crate::digit_loop::{recode_all, recode_from};
use crate::error::CsdError;
use crate::laws::{law_csd_canonical, law_csd_value, law_csdnnz_budget, law_csdnnz_naf};
use crate::model::{
    all_digits, count_nonzero, fits_i128, fits_i64, is_digit, is_naf, lemma_prefix_within,
    lemma_value_push, value_of,
};
use crate::recode::{csd_of, csd_width, csdnnz_of, encodable_i128, lemma_floor_log2_unique};
use crate::safe::{bounded_result, lemma_valid_integral_run};
use crate::validate::{is_valid_csd, reported, validate_csd};
use vstd::arithmetic::power2::{lemma2_to64, lemma_pow2_unfold, pow2};
use vstd::prelude::*;

verus! {

/// The weight above the most significant digit of a non-zero `v`: the
/// largest power of two that is at most three times its magnitude.
fn seed_wide(v: i128) -> (r: (i128, Ghost<nat>))
    requires
        v != 0,
        encodable_i128(v as int),
    ensures
        r.0 == pow2(r.1@),
        r.1@ == csd_width(v as int),
{
    let a: i128 = if v < 0 {
        -v
    } else {
        v
    };
    let t: i128 = 3 * a;
    let mut p: i128 = 1;
    let ghost mut k: nat = 0;
    proof {
        lemma2_to64();
    }
    while p <= t / 2
        invariant
            p == pow2(k),
            1 <= p <= t,
        decreases t - p,
    {
        p = p * 2;
        proof {
            k = k + 1;
            lemma_pow2_unfold(k);
        }
    }
    proof {
        lemma_floor_log2_unique(t as int, k);
    }
    (p, Ghost(k))
}

/// The string `0`.
fn zero_text() -> (csd: String)
    ensures
        csd@ == seq!['0'],
{
    proof {
        reveal_strlit("0");
        assert("0"@ =~= seq!['0']);
    }
    String::from_str("0")
}

/// The canonical signed digit string of a 128-bit integer whose threefold
/// magnitude fits in 128 bits.
pub fn to_csd_i128(decimal_value: i128) -> (csd: String)
    requires
        encodable_i128(decimal_value as int),
    ensures
        csd@ == csd_of(decimal_value as int),
        all_digits(csd@),
        is_naf(csd@),
        value_of(csd@) == decimal_value,
{
    proof {
        law_csd_canonical(decimal_value as int);
        law_csd_value(decimal_value as int);
    }
    if decimal_value == 0 {
        return zero_text();
    }
    let (seed, Ghost(digits)) = seed_wide(decimal_value);
    recode_all(decimal_value, seed, Ghost(digits))
}

/// The signed digit string of a 128-bit integer with at most `nnz` non-zero
/// digits.  A budget of zero is only meant for the number zero.
pub fn to_csdnnz_i128(decimal_value: i128, nnz: u32) -> (csd: String)
    requires
        encodable_i128(decimal_value as int),
        nnz > 0 || decimal_value == 0,
    ensures
        csd@ == csdnnz_of(decimal_value as int, nnz as nat),
        all_digits(csd@),
        is_naf(csd@),
        count_nonzero(csd@) <= nnz,
{
    proof {
        law_csdnnz_naf(decimal_value as int, nnz as nat);
        law_csdnnz_budget(decimal_value as int, nnz as nat);
    }
    if decimal_value == 0 {
        return zero_text();
    }
    let (seed, Ghost(digits)) = seed_wide(decimal_value);
    recode_from(decimal_value, seed, Ghost(digits), nnz)
}

/// The canonical signed digit string of a 64-bit integer.
pub fn to_csd_i64(decimal_value: i64) -> (csd: String)
    ensures
        csd@ == csd_of(decimal_value as int),
        all_digits(csd@),
        is_naf(csd@),
        value_of(csd@) == decimal_value,
{
    to_csd_i128(decimal_value as i128)
}

/// The signed digit string of a 64-bit integer with at most `nnz` non-zero
/// digits.  A budget of zero is only meant for the number zero.
pub fn to_csdnnz_i64(decimal_value: i64, nnz: u32) -> (csd: String)
    requires
        nnz > 0 || decimal_value == 0,
    ensures
        csd@ == csdnnz_of(decimal_value as int, nnz as nat),
        all_digits(csd@),
        is_naf(csd@),
        count_nonzero(csd@) <= nnz,
{
    to_csdnnz_i128(decimal_value as i128, nnz)
}

/// Whether threefold the magnitude of `v` fits in 128 bits.
pub fn is_encodable_i128(v: i128) -> (r: bool)
    ensures
        r == encodable_i128(v as int),
{
    -56713727820156410577229101238628035242 <= v && v <= 56713727820156410577229101238628035242
}

/// The canonical signed digit string of a 128-bit integer, or an overflow
/// where three times its magnitude does not fit in 128 bits.
pub fn to_csd_i128_safe(decimal_value: i128) -> (r: Result<String, CsdError>)
    ensures
        match r {
            Ok(csd) => encodable_i128(decimal_value as int) && csd@ == csd_of(
                decimal_value as int,
            ),
            Err(e) => !encodable_i128(decimal_value as int) && e == CsdError::Overflow,
        },
{
    if !is_encodable_i128(decimal_value) {
        return Err(CsdError::Overflow);
    }
    Ok(to_csd_i128(decimal_value))
}

/// The signed digit string of a 128-bit integer with at most `nnz` non-zero
/// digits, or why there is none.
pub fn to_csdnnz_i128_safe(decimal_value: i128, nnz: u32) -> (r: Result<String, CsdError>)
    ensures
        bounded_result(
            decimal_value as int,
            nnz as nat,
            encodable_i128(decimal_value as int),
            r,
        ),
{
    if nnz == 0 && decimal_value != 0 {
        return Err(
            CsdError::InvalidFormat(
                String::from_str("zero non-zero digits allowed for a non-zero value"),
            ),
        );
    }
    if !is_encodable_i128(decimal_value) {
        return Err(CsdError::Overflow);
    }
    Ok(to_csdnnz_i128(decimal_value, nnz))
}

/// The signed digit string of a 64-bit integer with at most `nnz` non-zero
/// digits, or a wrong format for a budget of zero with a number other than
/// zero.
pub fn to_csdnnz_i64_safe(decimal_value: i64, nnz: u32) -> (r: Result<String, CsdError>)
    ensures
        bounded_result(decimal_value as int, nnz as nat, true, r),
{
    to_csdnnz_i128_safe(decimal_value as i128, nnz)
}

/// Reads a digit string, watching the range from `lo` to `hi`.  `None` says
/// that the number it denotes is out of that range.
fn fold_within(csd: &str, lo: i128, hi: i128) -> (r: Option<i128>)
    requires
        all_digits(csd@),
        lo <= 0 <= hi,
    ensures
        r is None <==> !(lo <= value_of(csd@) <= hi),
        r matches Some(v) ==> v == value_of(csd@),
{
    let mut acc: i128 = 0;
    for c in it: csd.chars()
        invariant
            it.seq() == csd@,
            all_digits(csd@),
            lo <= 0 <= hi,
            lo <= acc <= hi,
            acc == value_of(csd@.take(it.index() as int)),
    {
        let ghost seen = csd@.take(it.index() as int);
        let ghost rest = csd@.skip(it.index() + 1);
        proof {
            assert(is_digit(csd@[it.index() as int]));
            assert(seen.push(c) + rest =~= csd@);
            assert(seen.push(c) =~= csd@.take(it.index() + 1));
            lemma_value_push(seen, c);
            if lo <= value_of(csd@) <= hi {
                lemma_prefix_within(seen.push(c), rest, lo as int, hi as int);
            }
        }
        let d: i128 = if c == '+' {
            1
        } else if c == '-' {
            -1
        } else {
            0
        };
        let stepped = match acc.checked_add(d) {
            Some(t) => t.checked_add(acc),
            None => None,
        };
        match stepped {
            Some(next) => {
                if next < lo || next > hi {
                    return None;
                }
                acc = next;
            },
            None => {
                return None;
            },
        }
    }
    proof {
        assert(csd@.take(csd@.len() as int) =~= csd@);
    }
    Some(acc)
}

/// The 64-bit integer that a signed-digit string denotes.
pub fn to_decimal_i64(csd: &str) -> (r: i64)
    requires
        all_digits(csd@),
        fits_i64(value_of(csd@)),
    ensures
        r == value_of(csd@),
{
    fold_within(csd, i64::MIN as i128, i64::MAX as i128).unwrap() as i64
}

/// The 128-bit integer that a signed-digit string denotes.
pub fn to_decimal_i128(csd: &str) -> (r: i128)
    requires
        all_digits(csd@),
        fits_i128(value_of(csd@)),
    ensures
        r == value_of(csd@),
{
    fold_within(csd, i128::MIN, i128::MAX).unwrap()
}

/// The 64-bit integer that a signed-digit string denotes, or why it denotes
/// none: the string is held to the grammar of integer strings, and a number
/// that does not fit in 64 bits is an overflow.
pub fn to_decimal_i64_safe(csd: &str) -> (r: Result<i64, CsdError>)
    ensures
        match r {
            Ok(v) => is_valid_csd(csd@, false) && v == value_of(csd@),
            Err(e) => if is_valid_csd(csd@, false) {
                e == CsdError::Overflow && !fits_i64(value_of(csd@))
            } else {
                reported(csd@, false, Err(e))
            },
        },
{
    match validate_csd(csd, false) {
        Err(e) => {
            return Err(e);
        },
        Ok(_) => {},
    }
    proof {
        lemma_valid_integral_run(csd@, false);
    }
    match fold_within(csd, i64::MIN as i128, i64::MAX as i128) {
        Some(v) => Ok(v as i64),
        None => Err(CsdError::Overflow),
    }
}

/// The 128-bit integer that a signed-digit string denotes, or why it
/// denotes none.
pub fn to_decimal_i128_safe(csd: &str) -> (r: Result<i128, CsdError>)
    ensures
        match r {
            Ok(v) => is_valid_csd(csd@, false) && v == value_of(csd@),
            Err(e) => if is_valid_csd(csd@, false) {
                e == CsdError::Overflow && !fits_i128(value_of(csd@))
            } else {
                reported(csd@, false, Err(e))
            },
        },
{
    match validate_csd(csd, false) {
        Err(e) => {
            return Err(e);
        },
        Ok(_) => {},
    }
    proof {
        lemma_valid_integral_run(csd@, false);
    }
    match fold_within(csd, i128::MIN, i128::MAX) {
        Some(v) => Ok(v),
        None => Err(CsdError::Overflow),
    }
}

} // verus!
