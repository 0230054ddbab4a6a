//! Choosing how a number is to be written, step by step.

use crate::csd::to_csd_i;
use crate::error::{text_zero_budget, CsdError};
use crate::recode::{csd_of, encodable_i128, encodable_i32, zeros};
use crate::safe::bounded_result;
use crate::wide::{is_encodable_i128, to_csd_i128, to_csd_i64, to_csdnnz_i128_safe};
use vstd::prelude::*;

verus! {

/// The rule that governs one encoding.
#[derive(Debug, Clone, Copy, PartialEq, Eq)]
pub enum EncodingPolicy {
    /// Write the number exactly, with this many digits behind the point.
    FixedPlaces(u32),
    /// Write the number with at most this many non-zero digits.
    MaxNonZeros(u32),
}

/// How a number that cannot be written exactly is to be rounded.  There is
/// one way of rounding so far, so the choice changes nothing.
#[derive(Debug, Clone, Copy, PartialEq, Eq)]
pub enum RoundingStrategy {
    /// To the nearest number that can be written.
    Nearest,
    /// Towards zero.
    TowardZero,
}

/// The number of places written where none was asked for.
pub const DEFAULT_PLACES: u32 = 4;

/// The policy that follows from what was asked for: a budget of non-zero
/// digits wins over a number of places; without a budget the number of
/// places counts, a negative one as zero, and four where none was given.
pub open spec fn policy_of(places: Option<i32>, budget: Option<u32>) -> EncodingPolicy {
    match budget {
        Some(k) => EncodingPolicy::MaxNonZeros(k),
        None => match places {
            Some(n) => EncodingPolicy::FixedPlaces(
                if n < 0 {
                    0
                } else {
                    n as u32
                },
            ),
            None => EncodingPolicy::FixedPlaces(DEFAULT_PLACES),
        },
    }
}

/// The policy that follows from what was asked for.
pub fn resolve_policy(places: Option<i32>, max_non_zeros: Option<u32>) -> (p: EncodingPolicy)
    ensures
        p == policy_of(places, max_non_zeros),
{
    match max_non_zeros {
        Some(k) => EncodingPolicy::MaxNonZeros(k),
        None => match places {
            Some(n) => if n < 0 {
                EncodingPolicy::FixedPlaces(0)
            } else {
                EncodingPolicy::FixedPlaces(n as u32)
            },
            None => EncodingPolicy::FixedPlaces(DEFAULT_PLACES),
        },
    }
}

/// A policy suits a number unless it allows no non-zero digit and the
/// number is not zero.
pub open spec fn policy_suits(policy: EncodingPolicy, value_is_zero: bool) -> bool {
    policy != EncodingPolicy::MaxNonZeros(0) || value_is_zero
}

/// Refuses the policy that allows no non-zero digit for a number that is
/// not zero: such a number is not approximated by nothing.
pub fn check_budget(policy: EncodingPolicy, value_is_zero: bool) -> (r: Result<(), CsdError>)
    ensures
        r is Ok <==> policy_suits(policy, value_is_zero),
        r matches Err(e) ==> (e matches CsdError::InvalidFormat(text) && text@
            == text_zero_budget()),
{
    match policy {
        EncodingPolicy::MaxNonZeros(k) => {
            if k == 0 && !value_is_zero {
                return Err(
                    CsdError::InvalidFormat(
                        String::from_str("zero non-zero digits allowed for a non-zero value"),
                    ),
                );
            }
        },
        EncodingPolicy::FixedPlaces(_) => {},
    }
    Ok(())
}

/// The exact string of the integer `v`, followed by the decimal point and
/// `places` zero digits.
pub open spec fn fixed_of(v: int, places: nat) -> Seq<char> {
    csd_of(v) + seq!['.'] + zeros(places)
}

/// Appends the decimal point and `places` zero digits.
fn with_places(head: String, places: u32) -> (csd: String)
    ensures
        csd@ == head@ + seq!['.'] + zeros(places as nat),
{
    let mut csd = head;
    proof {
        reveal_strlit(".");
        assert("."@ =~= seq!['.']);
    }
    csd.append(".");
    let ghost pointed = csd@;
    let mut written: u32 = 0;
    proof {
        assert(csd@ =~= pointed + zeros(0));
    }
    while written < places
        invariant
            written <= places,
            csd@ == pointed + zeros(written as nat),
        decreases places - written,
    {
        csd.append("0");
        written = written + 1;
        proof {
            reveal_strlit("0");
            assert("0"@ =~= seq!['0']);
            assert(csd@ =~= pointed + zeros(written as nat));
        }
    }
    csd
}

/// The canonical signed digit string of an integer with a fractional part
/// of `places` digits, all of them `0`.
pub fn to_csd_places_i(decimal_value: i32, places: u32) -> (csd: String)
    requires
        encodable_i32(decimal_value as int),
    ensures
        csd@ == fixed_of(decimal_value as int, places as nat),
{
    with_places(to_csd_i(decimal_value), places)
}

/// The canonical signed digit string of a 64-bit integer with a fractional
/// part of `places` digits, all of them `0`.
pub fn to_csd_places_i64(decimal_value: i64, places: u32) -> (csd: String)
    ensures
        csd@ == fixed_of(decimal_value as int, places as nat),
{
    with_places(to_csd_i64(decimal_value), places)
}

/// The canonical signed digit string of a 128-bit integer with a fractional
/// part of `places` digits, all of them `0`.
pub fn to_csd_places_i128(decimal_value: i128, places: u32) -> (csd: String)
    requires
        encodable_i128(decimal_value as int),
    ensures
        csd@ == fixed_of(decimal_value as int, places as nat),
{
    with_places(to_csd_i128(decimal_value), places)
}

/// An integer to be written, with the width it came in.
#[derive(Debug, Clone, Copy, PartialEq, Eq)]
pub enum NumericValue {
    /// A 32-bit integer.
    Int32(i32),
    /// A 64-bit integer.
    Int64(i64),
    /// A 128-bit integer.
    Int128(i128),
}

/// The integer that a value holds.
pub open spec fn amount_of(value: NumericValue) -> int {
    match value {
        NumericValue::Int32(v) => v as int,
        NumericValue::Int64(v) => v as int,
        NumericValue::Int128(v) => v as int,
    }
}

/// The encoder of the value's width takes the value: three times its
/// magnitude fits in that width.  Every 64-bit integer is taken, as its
/// encoder works in 128 bits.
pub open spec fn encodable(value: NumericValue) -> bool {
    match value {
        NumericValue::Int32(v) => encodable_i32(v as int),
        NumericValue::Int64(_) => true,
        NumericValue::Int128(v) => encodable_i128(v as int),
    }
}

/// What `build` returns for `value` under `policy`.
///
/// Under a budget, a budget of zero for a number other than zero is a
/// wrong format; after that, and under a number of places, a number that
/// its encoder does not take is an overflow.  Otherwise the string is the
/// bounded one under a budget, and the exact one with its fractional part
/// of zeros under a number of places.
pub open spec fn built(
    value: NumericValue,
    policy: EncodingPolicy,
    r: Result<String, CsdError>,
) -> bool {
    match policy {
        EncodingPolicy::MaxNonZeros(k) => bounded_result(
            amount_of(value),
            k as nat,
            encodable(value),
            r,
        ),
        EncodingPolicy::FixedPlaces(n) => if !encodable(value) {
            r == Err::<String, CsdError>(CsdError::Overflow)
        } else {
            r matches Ok(csd) && csd@ == fixed_of(amount_of(value), n as nat)
        },
    }
}

/// An encoding in the making: the number, and what was asked for so far.
pub struct Builder {
    value: NumericValue,
    places: Option<i32>,
    max_non_zeros: Option<u32>,
    rounding: RoundingStrategy,
}

impl Builder {
    /// The number to be written, with its width.
    pub closed spec fn subject(&self) -> NumericValue {
        self.value
    }

    /// The number to be written.
    pub open spec fn target(&self) -> int {
        amount_of(self.subject())
    }

    /// The number of places asked for, if any.
    pub closed spec fn asked_places(&self) -> Option<i32> {
        self.places
    }

    /// The budget of non-zero digits asked for, if any.
    pub closed spec fn asked_budget(&self) -> Option<u32> {
        self.max_non_zeros
    }

    /// The way of rounding that was last taken note of: to the nearest
    /// number where none was given.
    pub closed spec fn asked_rounding(&self) -> RoundingStrategy {
        self.rounding
    }

    /// The policy that `build` will follow.
    pub open spec fn chosen_policy(&self) -> EncodingPolicy {
        policy_of(self.asked_places(), self.asked_budget())
    }

    /// Starts an encoding of `value` with nothing asked for.
    pub fn of(value: NumericValue) -> (b: Self)
        ensures
            b.subject() == value,
            b.asked_places() is None,
            b.asked_budget() is None,
            b.asked_rounding() == RoundingStrategy::Nearest,
    {
        Builder { value, places: None, max_non_zeros: None, rounding: RoundingStrategy::Nearest }
    }

    /// Starts an encoding of a 32-bit integer with nothing asked for.
    pub fn new(value: i32) -> (b: Self)
        ensures
            b.subject() == NumericValue::Int32(value),
            b.target() == value,
            b.asked_places() is None,
            b.asked_budget() is None,
            b.asked_rounding() == RoundingStrategy::Nearest,
    {
        Builder::of(NumericValue::Int32(value))
    }

    /// Starts an encoding of a 64-bit integer with nothing asked for.
    pub fn new_i64(value: i64) -> (b: Self)
        ensures
            b.subject() == NumericValue::Int64(value),
            b.target() == value,
            b.asked_places() is None,
            b.asked_budget() is None,
            b.asked_rounding() == RoundingStrategy::Nearest,
    {
        Builder::of(NumericValue::Int64(value))
    }

    /// Starts an encoding of a 128-bit integer with nothing asked for.
    pub fn new_i128(value: i128) -> (b: Self)
        ensures
            b.subject() == NumericValue::Int128(value),
            b.target() == value,
            b.asked_places() is None,
            b.asked_budget() is None,
            b.asked_rounding() == RoundingStrategy::Nearest,
    {
        Builder::of(NumericValue::Int128(value))
    }

    /// Asks for `n` digits behind the point.  A negative `n` counts as zero.
    pub fn places(self, n: i32) -> (b: Self)
        ensures
            b.subject() == self.subject(),
            b.asked_places() == Some(n),
            b.asked_budget() == self.asked_budget(),
            b.asked_rounding() == self.asked_rounding(),
    {
        Builder {
            value: self.value,
            places: Some(n),
            max_non_zeros: self.max_non_zeros,
            rounding: self.rounding,
        }
    }

    /// Asks for at most `k` non-zero digits.
    pub fn max_non_zeros(self, k: u32) -> (b: Self)
        ensures
            b.subject() == self.subject(),
            b.asked_places() == self.asked_places(),
            b.asked_budget() == Some(k),
            b.asked_rounding() == self.asked_rounding(),
    {
        Builder {
            value: self.value,
            places: self.places,
            max_non_zeros: Some(k),
            rounding: self.rounding,
        }
    }

    /// Takes note of a way of rounding, in place of the one noted before.
    /// It has no effect on what is written: the number, the places and the
    /// budget stay as they are, and so does the policy.
    pub fn rounding_strategy(self, rounding: RoundingStrategy) -> (b: Self)
        ensures
            b.asked_rounding() == rounding,
            b.subject() == self.subject(),
            b.asked_places() == self.asked_places(),
            b.asked_budget() == self.asked_budget(),
            b.chosen_policy() == self.chosen_policy(),
    {
        Builder {
            value: self.value,
            places: self.places,
            max_non_zeros: self.max_non_zeros,
            rounding,
        }
    }

    /// The way of rounding that was last taken note of.
    pub fn rounding(&self) -> (r: RoundingStrategy)
        ensures
            r == self.asked_rounding(),
    {
        self.rounding
    }

    /// The policy that `build` will follow.
    pub fn policy(&self) -> (p: EncodingPolicy)
        ensures
            p == self.chosen_policy(),
    {
        resolve_policy(self.places, self.max_non_zeros)
    }

    /// Writes the number under the chosen policy.
    ///
    /// With a budget of non-zero digits the bounded encoder runs, and a
    /// budget of zero is refused for a number other than zero.  Without one
    /// the exact encoder runs and the fractional part is filled with zeros.
    /// A number that the encoder of its width does not take is an overflow.
    pub fn build(&self) -> (r: Result<String, CsdError>)
        ensures
            built(self.subject(), self.chosen_policy(), r),
    {
        let (amount, taken): (i128, bool) = match self.value {
            NumericValue::Int32(v) => (v as i128, -715827882 <= v && v <= 715827882),
            NumericValue::Int64(v) => (v as i128, true),
            NumericValue::Int128(v) => (v, is_encodable_i128(v)),
        };
        match self.policy() {
            EncodingPolicy::MaxNonZeros(k) => {
                if taken || (k == 0 && amount != 0) {
                    to_csdnnz_i128_safe(amount, k)
                } else {
                    Err(CsdError::Overflow)
                }
            },
            EncodingPolicy::FixedPlaces(n) => {
                if taken {
                    Ok(to_csd_places_i128(amount, n))
                } else {
                    Err(CsdError::Overflow)
                }
            },
        }
    }
}

} // verus!
