//! Canonical signed digit (CSD) conversion.
//!
//! A CSD string writes a number in radix two with the digits `+` (one),
//! `0` (zero) and `-` (minus one) such that no two neighbouring digits are
//! both non-zero.
//!
//! * `model` and `recode` say what a digit string denotes and which string
//!   the recoding rule writes; `laws` proves what holds of the two, and
//!   `minimal` that the canonical string has the fewest non-zero digits.
//! * `csd` and `wide` convert integers of 32, 64 and 128 bits, all of them
//!   through the one loop of `digit_loop`; `safe` and `validate` do the
//!   same for input that nothing is known of, and report every refusal as a
//!   `CsdError`.
//! * `recoder` is the digit loop as a state machine, for residuals that are
//!   not integers; `builder` chooses the policy of an encoding.
//! * `csd_multiplier` writes a constant multiplier as a Verilog module, and
//!   `lcsre` finds the longest repeated substring of a string.

pub mod bitscan;
pub mod builder;
pub mod csd;
pub mod csd_multiplier;
pub mod digit_loop;
pub mod error;
pub mod laws;
pub mod lcsre;
pub mod minimal;
pub mod model;
pub mod recode;
pub mod recoder;
pub mod safe;
pub mod text;
pub mod validate;
pub mod wide;

pub use crate::csd::{highest_power_of_two_in, to_csd_i, to_csdnnz_i, to_decimal_i};
pub use crate::lcsre::longest_repeated_substring;
