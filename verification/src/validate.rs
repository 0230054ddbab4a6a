//! The grammar of signed-digit strings, and the check that holds a string to
//! it.

use crate::error::{text_two_points, CsdError};
use crate::model::{
    all_digits, digit_value, first_point, fractional_run, integral_run, is_digit, is_naf,
    lemma_first_point_is,
};
use crate::text::byte_len;
use vstd::prelude::*;

verus! {

/// `c` may stand in a signed-digit string: a digit, or the decimal point
/// where `with_point` allows a fractional part.
pub open spec fn is_allowed(c: char, with_point: bool) -> bool {
    is_digit(c) || (with_point && c == '.')
}

/// Every character of `s` may stand in a signed-digit string.
pub open spec fn all_allowed(s: Seq<char>, with_point: bool) -> bool {
    forall|i: int| 0 <= i < s.len() ==> is_allowed(#[trigger] s[i], with_point)
}

/// `s` holds a decimal point at two places.
pub open spec fn has_two_points(s: Seq<char>) -> bool {
    exists|i: int, j: int| 0 <= i < j < s.len() && #[trigger] s[i] == '.' && #[trigger] s[j] == '.'
}

/// The index of the digit in front of the one at `i`: a decimal point
/// between the two is passed over.
pub open spec fn digit_before(s: Seq<char>, i: int) -> int {
    if i >= 1 && s[i - 1] == '.' {
        i - 2
    } else {
        i - 1
    }
}

/// The digit at `i` and the digit in front of it are both non-zero.
pub open spec fn clash_at(s: Seq<char>, i: int) -> bool {
    &&& 0 <= i < s.len()
    &&& digit_value(s[i]) != 0
    &&& digit_before(s, i) >= 0
    &&& digit_value(s[digit_before(s, i)]) != 0
}

/// Some two neighbouring digits of `s` are both non-zero.
pub open spec fn has_clash(s: Seq<char>) -> bool {
    exists|i: int| clash_at(s, i)
}

/// `i` is the index of the first character of `s` that is not allowed.
pub open spec fn first_refused(s: Seq<char>, with_point: bool, i: int) -> bool {
    &&& 0 <= i < s.len()
    &&& !is_allowed(s[i], with_point)
    &&& forall|j: int| 0 <= j < i ==> is_allowed(#[trigger] s[j], with_point)
}

/// `i` is the index of the first digit of `s` that is non-zero and follows a
/// non-zero digit.
pub open spec fn first_clash(s: Seq<char>, i: int) -> bool {
    &&& clash_at(s, i)
    &&& forall|j: int| 0 <= j < i ==> !clash_at(s, j)
}

/// `s` is a well-formed signed-digit string: not empty, made of digits and,
/// where `with_point` holds, at most one decimal point, with no two
/// neighbouring non-zero digits.
pub open spec fn is_valid_csd(s: Seq<char>, with_point: bool) -> bool {
    &&& s.len() > 0
    &&& all_allowed(s, with_point)
    &&& !has_two_points(s)
    &&& !has_clash(s)
}

/// What the validation reports for `s`: nothing for a well-formed string,
/// otherwise the first of these that applies: the string is empty; it holds
/// a character that is not allowed (the first such, with its index); it
/// holds more than one decimal point; two neighbouring digits are non-zero
/// (the index of the first digit that follows a non-zero digit directly).
pub open spec fn reported(s: Seq<char>, with_point: bool, r: Result<(), CsdError>) -> bool {
    if s.len() == 0 {
        r == Err::<(), CsdError>(CsdError::EmptyString)
    } else if !all_allowed(s, with_point) {
        exists|i: int|
            first_refused(s, with_point, i) && r == Err::<(), CsdError>(
                CsdError::InvalidCharacter(s[i], i as usize),
            )
    } else if has_two_points(s) {
        match r {
            Err(CsdError::InvalidFormat(text)) => text@ == text_two_points(),
            _ => false,
        }
    } else if has_clash(s) {
        exists|i: int|
            first_clash(s, i) && r == Err::<(), CsdError>(CsdError::ConsecutiveNonZero(i as usize))
    } else {
        r is Ok
    }
}

/// In a string of allowed characters with at most one decimal point, the
/// parts in front of and behind the point are made of digits.
pub proof fn lemma_runs_are_digits(s: Seq<char>)
    requires
        all_allowed(s, true),
        !has_two_points(s),
    ensures
        all_digits(integral_run(s)),
        all_digits(fractional_run(s)),
        integral_run(s).len() == first_point(s),
        first_point(s) < s.len() ==> fractional_run(s).len() == s.len() - first_point(s) - 1,
{
    lemma_first_point_is(s);
    let k = first_point(s);
    let int_run = integral_run(s);
    let frac_run = fractional_run(s);
    assert forall|i: int| 0 <= i < int_run.len() implies is_digit(#[trigger] int_run[i]) by {
        assert(int_run[i] == s[i]);
        assert(is_allowed(s[i], true));
    }
    assert forall|i: int| 0 <= i < frac_run.len() implies is_digit(#[trigger] frac_run[i]) by {
        assert(frac_run[i] == s[k + 1 + i]);
        assert(is_allowed(s[k + 1 + i], true));
        if s[k + 1 + i] == '.' {
            assert(s[k] == '.' && s[k + 1 + i] == '.');
            assert(has_two_points(s));
        }
    }
}

/// The grammar says of the digits what the canonical form asks for: a
/// string of allowed characters with at most one decimal point has two
/// neighbouring non-zero digits exactly where its digits, with the point
/// taken out, have.
pub proof fn law_clash_is_not_naf(s: Seq<char>)
    requires
        all_allowed(s, true),
        !has_two_points(s),
    ensures
        has_clash(s) <==> !is_naf(integral_run(s) + fractional_run(s)),
{
    lemma_first_point_is(s);
    lemma_runs_are_digits(s);
    let k = first_point(s);
    let digits = integral_run(s) + fractional_run(s);
    // The character of `s` that stands at position `i` of the digits.
    assert forall|i: int| 0 <= i < digits.len() implies #[trigger] digits[i] == (if i < k {
        s[i]
    } else {
        s[i + 1]
    }) by {
        if i < k {
            assert(digits[i] == integral_run(s)[i]);
        } else {
            assert(digits[i] == fractional_run(s)[i - k]);
        }
    }
    if has_clash(s) {
        let i = choose|i: int| clash_at(s, i);
        let j = digit_before(s, i);
        assert(s[i] != '.');
        assert(s[j] != '.');
        if i < k {
            assert(digits[i] == s[i]);
            assert(digits[i - 1] == s[i - 1]);
            assert(digit_value(digits[i - 1]) != 0 && digit_value(digits[i - 1 + 1]) != 0);
        } else {
            if s[i - 1] == '.' {
                if i - 1 != k {
                    assert(s[k] == '.' && s[i - 1] == '.');
                    assert(has_two_points(s));
                }
                assert(digits[i - 1] == s[i]);
                assert(digits[i - 2] == s[i - 2]);
            } else {
                assert(digits[i - 1] == s[i]);
                assert(digits[i - 2] == s[i - 1]);
            }
            assert(digit_value(digits[i - 2]) != 0 && digit_value(digits[i - 2 + 1]) != 0);
        }
        assert(!is_naf(digits));
    }
    if !is_naf(digits) {
        let i = choose|i: int|
            0 <= i && i + 1 < digits.len() && !(digit_value(#[trigger] digits[i]) == 0
                || digit_value(digits[i + 1]) == 0);
        if i + 1 < k {
            assert(digits[i] == s[i]);
            assert(digits[i + 1] == s[i + 1]);
            assert(clash_at(s, i + 1));
        } else if i + 1 == k {
            assert(digits[i] == s[i]);
            assert(digits[i + 1] == s[i + 2]);
            assert(clash_at(s, i + 2));
        } else {
            assert(digits[i] == s[i + 1]);
            assert(digits[i + 1] == s[i + 2]);
            assert(clash_at(s, i + 2));
        }
    }
}

/// A string is well-formed exactly where it is not empty, is made of
/// digits around at most one decimal point, and its digits, with the point
/// taken out, have no two neighbouring non-zero digits.
pub proof fn law_valid_is_naf(s: Seq<char>)
    ensures
        is_valid_csd(s, true) <==> {
            &&& s.len() > 0
            &&& all_allowed(s, true)
            &&& !has_two_points(s)
            &&& is_naf(integral_run(s) + fractional_run(s))
        },
        is_valid_csd(s, true) ==> all_digits(integral_run(s)) && all_digits(fractional_run(s)),
{
    if all_allowed(s, true) && !has_two_points(s) {
        law_clash_is_not_naf(s);
        lemma_runs_are_digits(s);
    }
}

/// Whether `c` is one of the two non-zero digits.
fn is_nonzero(c: char) -> (r: bool)
    ensures
        r == (digit_value(c) != 0),
{
    c == '+' || c == '-'
}

/// Whether `c` may stand in a signed-digit string.
fn allowed(c: char, with_point: bool) -> (r: bool)
    ensures
        r == is_allowed(c, with_point),
{
    c == '+' || c == '-' || c == '0' || (with_point && c == '.')
}

/// Holds a string to the grammar of signed-digit strings.
///
/// With `with_point` the string may hold one decimal point; without it a
/// point is refused like any other foreign character.  The whole string is
/// read before anything is reported, so a foreign character is reported
/// wherever it stands.
pub fn validate_csd(csd: &str, with_point: bool) -> (r: Result<(), CsdError>)
    ensures
        reported(csd@, with_point, r),
        r is Ok <==> is_valid_csd(csd@, with_point),
{
    let limit = byte_len(csd);
    let mut pos: usize = 0;
    let mut refused: Option<(char, usize)> = None;
    let mut points: bool = false;
    let mut two_points: bool = false;
    let mut clash: Option<usize> = None;
    let mut last: char = '0';
    let mut last2: char = '0';
    for c in it: csd.chars()
        invariant
            it.seq() == csd@,
            pos == it.index(),
            csd@.len() <= limit,
            pos >= 1 ==> last == csd@[pos - 1],
            pos >= 2 ==> last2 == csd@[pos - 2],
            refused is None ==> forall|j: int|
                0 <= j < pos ==> is_allowed(#[trigger] csd@[j], with_point),
            refused matches Some(found) ==> found.0 == csd@[found.1 as int] && first_refused(
                csd@,
                with_point,
                found.1 as int,
            ),
            points <==> exists|i: int| 0 <= i < pos && #[trigger] csd@[i] == '.',
            two_points <==> exists|i: int, j: int|
                0 <= i < j < pos && #[trigger] csd@[i] == '.' && #[trigger] csd@[j] == '.',
            clash is None ==> forall|j: int| 0 <= j < pos ==> !clash_at(csd@, j),
            clash matches Some(at) ==> first_clash(csd@, at as int),
    {
        if refused.is_none() && !allowed(c, with_point) {
            refused = Some((c, pos));
        }
        if c == '.' {
            if points {
                two_points = true;
            }
            points = true;
        }
        if clash.is_none() && pos >= 1 && is_nonzero(c) {
            let before: char = if last == '.' {
                last2
            } else {
                last
            };
            if (last != '.' || pos >= 2) && is_nonzero(before) {
                clash = Some(pos);
            }
        }
        last2 = last;
        last = c;
        pos = pos + 1;
    }
    if pos == 0 {
        return Err(CsdError::EmptyString);
    }
    if let Some(found) = refused {
        return Err(CsdError::InvalidCharacter(found.0, found.1));
    }
    assert(all_allowed(csd@, with_point));
    if two_points {
        assert(has_two_points(csd@));
        return Err(CsdError::InvalidFormat(String::from_str("multiple decimal points")));
    }
    assert(!has_two_points(csd@));
    if let Some(at) = clash {
        assert(has_clash(csd@));
        return Err(CsdError::ConsecutiveNonZero(at));
    }
    assert(!has_clash(csd@));
    Ok(())
}

} // verus!
