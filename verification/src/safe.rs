//! The conversions in their Result-returning form, for input that comes from
//! outside: nothing is assumed of it, and every refusal is reported.

use crate::csd::{to_csd_i, to_csdnnz_i};
use crate::error::{text_zero_budget, CsdError};
use crate::model::{
    all_digits, first_point, fits_i32, integral_run, is_digit, lemma_first_point,
    lemma_first_point_is, lemma_prefix_fits, lemma_value_push, value_of,
};
use crate::recode::{csd_of, csdnnz_of, encodable_i32};
use crate::text::byte_len;
use crate::validate::{validate_csd, is_allowed, is_valid_csd, reported};
use vstd::prelude::*;

verus! {

/// The digits in front of the first decimal point of a well-formed string
/// are signed digits.
pub proof fn lemma_valid_integral_run(s: Seq<char>, with_point: bool)
    requires
        is_valid_csd(s, with_point),
    ensures
        all_digits(integral_run(s)),
        !with_point ==> integral_run(s) == s,
{
    lemma_first_point_is(s);
    let run = integral_run(s);
    assert forall|i: int| 0 <= i < run.len() implies is_digit(#[trigger] run[i]) by {
        assert(run[i] == s[i]);
        assert(is_allowed(s[i], with_point));
    }
    if !with_point {
        if first_point(s) < s.len() {
            assert(is_allowed(s[first_point(s)], with_point));
        }
        assert(run =~= s);
    }
}

/// `i` is the index of the first character in front of the first decimal
/// point of `s` that is not a signed digit.
pub open spec fn first_foreign(s: Seq<char>, i: int) -> bool {
    &&& 0 <= i < first_point(s)
    &&& !is_digit(s[i])
    &&& forall|j: int| 0 <= j < i ==> is_digit(#[trigger] s[j])
}

/// The integral part of a string and where its fraction starts, with the
/// two things reported that keep the digits in front of the point from
/// being read: a character that is not a digit (the first such, with its
/// index), and after that a number that does not fit in 32 bits.
///
/// Nothing else is looked at: neither what stands behind the first point
/// nor whether neighbouring digits are both non-zero.
pub fn to_decimal_integral_checked(csd: &str) -> (r: Result<(i32, usize), CsdError>)
    ensures
        match r {
            Ok(found) => {
                &&& all_digits(integral_run(csd@))
                &&& found.0 == value_of(integral_run(csd@))
                &&& first_point(csd@) < csd@.len() ==> found.1 == first_point(csd@) + 1
                &&& first_point(csd@) == csd@.len() ==> found.1 == 0
            },
            Err(e) => if all_digits(integral_run(csd@)) {
                e == CsdError::Overflow && !fits_i32(value_of(integral_run(csd@)))
            } else {
                exists|i: int|
                    first_foreign(csd@, i) && e == CsdError::InvalidCharacter(csd@[i], i as usize)
            },
        },
{
    let limit = byte_len(csd);
    let mut acc: i32 = 0;
    let mut pos: usize = 0;
    let mut too_large: bool = false;
    let ghost mut burst: int = 0;
    proof {
        lemma_first_point_is(csd@);
    }
    for c in it: csd.chars()
        invariant
            it.seq() == csd@,
            pos == it.index(),
            csd@.len() <= limit,
            0 <= first_point(csd@) <= csd@.len(),
            forall|i: int| 0 <= i < pos ==> is_digit(#[trigger] csd@[i]),
            !too_large ==> acc == value_of(csd@.take(pos as int)),
            0 <= burst <= pos,
            too_large ==> !fits_i32(value_of(csd@.take(burst))),
    {
        let ghost run = integral_run(csd@);
        if c == '.' {
            proof {
                lemma_first_point(csd@, pos as int);
                lemma_split_fits(run, burst);
                assert(run.take(burst) =~= csd@.take(burst));
            }
            if too_large {
                return Err(CsdError::Overflow);
            }
            return Ok((acc, pos + 1));
        }
        proof {
            lemma_first_point_is(csd@);
            assert(pos < first_point(csd@));
            assert(run[pos as int] == c);
        }
        if !(c == '+' || c == '-' || c == '0') {
            assert(first_foreign(csd@, pos as int));
            return Err(CsdError::InvalidCharacter(c, pos));
        }
        if !too_large {
            proof {
                assert(csd@.take(pos as int).push(c) =~= csd@.take(pos + 1));
                lemma_value_push(csd@.take(pos as int), c);
            }
            let wide: i64 = 2 * (acc as i64) + (if c == '+' {
                1i64
            } else if c == '-' {
                -1i64
            } else {
                0i64
            });
            if wide < -2147483648i64 || wide > 2147483647i64 {
                too_large = true;
                proof {
                    burst = pos + 1;
                }
            } else {
                acc = wide as i32;
            }
        }
        pos = pos + 1;
    }
    proof {
        lemma_first_point(csd@, csd@.len() as int);
        assert(csd@.take(csd@.len() as int) =~= csd@);
        lemma_split_fits(integral_run(csd@), burst);
        assert(integral_run(csd@).take(burst) =~= csd@.take(burst));
    }
    if too_large {
        return Err(CsdError::Overflow);
    }
    Ok((acc, 0))
}

/// A string whose first `k` digits denote a number out of the range of
/// `i32` denotes such a number itself.
proof fn lemma_split_fits(s: Seq<char>, k: int)
    requires
        0 <= k <= s.len(),
    ensures
        fits_i32(value_of(s)) ==> fits_i32(value_of(s.take(k))),
{
    assert(s.take(k) + s.skip(k) =~= s);
    if fits_i32(value_of(s)) {
        lemma_prefix_fits(s.take(k), s.skip(k));
    }
}

/// The integer that a signed-digit string denotes, or why it denotes none.
///
/// The string is first held to the grammar of integer strings: digits only,
/// no two neighbouring non-zero digits.  A well-formed string whose number
/// does not fit in 32 bits is reported as an overflow.
pub fn to_decimal_i_safe(csd: &str) -> (r: Result<i32, CsdError>)
    ensures
        match r {
            Ok(v) => is_valid_csd(csd@, false) && v == value_of(csd@),
            Err(e) => if is_valid_csd(csd@, false) {
                e == CsdError::Overflow && !fits_i32(value_of(csd@))
            } else {
                reported(csd@, false, Err(e))
            },
        },
{
    match validate_csd(csd, false) {
        Err(e) => {
            return Err(e);
        },
        Ok(_) => {},
    }
    proof {
        lemma_valid_integral_run(csd@, false);
    }
    match to_decimal_integral_checked(csd) {
        Ok(found) => Ok(found.0),
        Err(e) => Err(e),
    }
}

/// The integral part of a signed-digit string and where its fraction starts,
/// or why the string has none.
///
/// The string may hold one decimal point.  On success the first component is
/// the integer that the digits in front of the point denote, the second the
/// index just behind the point, or zero where there is no point.
pub fn to_decimal_integral_safe(csd: &str) -> (r: Result<(i32, usize), CsdError>)
    ensures
        match r {
            Ok(found) => {
                &&& is_valid_csd(csd@, true)
                &&& found.0 == value_of(integral_run(csd@))
                &&& first_point(csd@) < csd@.len() ==> found.1 == first_point(csd@) + 1
                &&& first_point(csd@) == csd@.len() ==> found.1 == 0
            },
            Err(e) => if is_valid_csd(csd@, true) {
                e == CsdError::Overflow && !fits_i32(value_of(integral_run(csd@)))
            } else {
                reported(csd@, true, Err(e))
            },
        },
{
    match validate_csd(csd, true) {
        Err(e) => {
            return Err(e);
        },
        Ok(_) => {},
    }
    proof {
        lemma_valid_integral_run(csd@, true);
    }
    to_decimal_integral_checked(csd)
}

/// The canonical signed digit string of an integer, or an overflow where
/// three times its magnitude does not fit in 32 bits.
pub fn to_csd_i_safe(decimal_value: i32) -> (r: Result<String, CsdError>)
    ensures
        match r {
            Ok(csd) => encodable_i32(decimal_value as int) && csd@ == csd_of(decimal_value as int),
            Err(e) => !encodable_i32(decimal_value as int) && e == CsdError::Overflow,
        },
{
    if decimal_value < -715827882 || decimal_value > 715827882 {
        return Err(CsdError::Overflow);
    }
    Ok(to_csd_i(decimal_value))
}

/// What the bounded encoders report in their Result-returning form: a
/// budget of zero for a number other than zero is a wrong format; after
/// that a number that cannot be encoded is an overflow; otherwise the
/// bounded string is returned.
pub open spec fn bounded_result(
    v: int,
    nnz: nat,
    encodable: bool,
    r: Result<String, CsdError>,
) -> bool {
    if nnz == 0 && v != 0 {
        r matches Err(CsdError::InvalidFormat(text)) && text@ == text_zero_budget()
    } else if !encodable {
        r == Err::<String, CsdError>(CsdError::Overflow)
    } else {
        r matches Ok(csd) && csd@ == csdnnz_of(v, nnz)
    }
}

/// The signed digit string of an integer with at most `nnz` non-zero digits,
/// or why there is none.
///
/// A budget of zero for a number other than zero is refused as a wrong
/// format: the encoder does not approximate a number by nothing.  Otherwise
/// a number whose threefold magnitude does not fit in 32 bits is an overflow.
pub fn to_csdnnz_i_safe(decimal_value: i32, nnz: u32) -> (r: Result<String, CsdError>)
    ensures
        bounded_result(decimal_value as int, nnz as nat, encodable_i32(decimal_value as int), r),
{
    if nnz == 0 && decimal_value != 0 {
        return Err(
            CsdError::InvalidFormat(
                String::from_str("zero non-zero digits allowed for a non-zero value"),
            ),
        );
    }
    if decimal_value < -715827882 || decimal_value > 715827882 {
        return Err(CsdError::Overflow);
    }
    Ok(to_csdnnz_i(decimal_value, nnz))
}

} // verus!
