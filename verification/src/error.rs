//! The failures that a conversion can report.

use vstd::prelude::*;

verus! {

/// Why a conversion was refused.  The set is closed: every failure of the
/// Result-returning conversions is one of these.
#[derive(Debug, PartialEq, Eq)]
pub enum CsdError {
    /// A character that no signed-digit string may hold, with its index.
    InvalidCharacter(char, usize),
    /// The input is made of the right characters but is put together wrongly;
    /// the text says how.
    InvalidFormat(String),
    /// The number is too large for the integer width of the conversion.
    Overflow,
    /// The number cannot be written exactly with what was asked for.
    PrecisionLoss,
    /// Two neighbouring digits are both non-zero; the index is that of the
    /// second one.
    ConsecutiveNonZero(usize),
    /// The input holds no character at all.
    EmptyString,
}

/// The text carried by the failure for a string with more than one decimal
/// point.
pub open spec fn text_two_points() -> Seq<char> {
    "multiple decimal points"@
}

/// The text carried by the failure for a budget of zero non-zero digits with
/// a number other than zero.
pub open spec fn text_zero_budget() -> Seq<char> {
    "zero non-zero digits allowed for a non-zero value"@
}

} // verus!
