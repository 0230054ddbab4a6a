//! The canonical form has the fewest non-zero digits.
//!
//! Among all the signed-digit strings that denote a number, none has fewer
//! non-zero digits than the string without neighbouring non-zero digits.

use crate::laws::{law_csd_canonical, law_csd_value};
use crate::model::{count_nonzero, digit_value, is_naf, value_of};
use crate::recode::{csd_of, magnitude};
use vstd::prelude::*;

verus! {

/// How many non-zero digits it takes to write `v`, counted from the least
/// significant digit: an even number takes what its half takes; an odd
/// number takes one digit, chosen so that what is left is a multiple of
/// four, and what the half of the rest takes.
pub open spec fn naf_weight(v: int) -> nat
    decreases magnitude(v),
{
    if v == 0 {
        0
    } else if v % 2 == 0 {
        naf_weight(v / 2)
    } else if v % 4 == 1 {
        1 + naf_weight((v - 1) / 2)
    } else {
        1 + naf_weight((v + 1) / 2)
    }
}

/// The larger of the magnitudes of `x` and `x + 1`.
pub open spec fn span(x: int) -> int {
    if magnitude(x) >= magnitude(x + 1) {
        magnitude(x)
    } else {
        magnitude(x + 1)
    }
}

/// Neighbouring numbers take nearly the same number of digits: the counts
/// differ by at most one, and the even one of the two never takes more.
pub proof fn lemma_weight_of_neighbours(x: int)
    ensures
        naf_weight(x) <= naf_weight(x + 1) + 1,
        naf_weight(x + 1) <= naf_weight(x) + 1,
        x % 2 == 0 ==> naf_weight(x) <= naf_weight(x + 1),
        x % 2 != 0 ==> naf_weight(x + 1) <= naf_weight(x),
    decreases span(x),
{
    if x % 2 == 0 {
        let a = x / 2;
        if a % 2 == 0 {
            // x + 1 leaves one: its digit is `+` and the rest is `x`.
            assert((x + 1) % 4 == 1);
            assert(naf_weight(x + 1) == 1 + naf_weight(a));
            if x != 0 {
                assert(naf_weight(x) == naf_weight(a));
            }
        } else {
            // x + 1 leaves three: its digit is `-` and the rest is `x + 2`.
            assert((x + 1) % 4 == 3);
            assert(naf_weight(x + 1) == 1 + naf_weight(a + 1));
            assert(naf_weight(x) == naf_weight(a));
            lemma_weight_of_neighbours(a);
        }
    } else {
        let b = (x + 1) / 2;
        if b % 2 == 0 {
            // x leaves three: its digit is `-` and the rest is `x + 1`.
            assert(x % 4 == 3);
            assert(naf_weight(x) == 1 + naf_weight(b));
            if x + 1 != 0 {
                assert(naf_weight(x + 1) == naf_weight(b));
            }
        } else {
            // x leaves one: its digit is `+` and the rest is `x - 1`.
            assert(x % 4 == 1);
            assert(naf_weight(x) == 1 + naf_weight(b - 1));
            assert(naf_weight(x + 1) == naf_weight(b));
            lemma_weight_of_neighbours(b - 1);
        }
    }
}

/// No string that denotes a number has fewer non-zero digits than
/// `naf_weight` says.
pub proof fn lemma_weight_is_least(s: Seq<char>)
    ensures
        naf_weight(value_of(s)) <= count_nonzero(s),
    decreases s.len(),
{
    if s.len() > 0 {
        let rest = s.drop_last();
        let e = digit_value(s.last());
        let v = value_of(s);
        let half = value_of(rest);
        lemma_weight_is_least(rest);
        assert(v == 2 * half + e);
        if e == 0 {
            if v != 0 {
                assert(naf_weight(v) == naf_weight(half));
            }
        } else if v % 4 == 1 {
            assert(naf_weight(v) == 1 + naf_weight((v - 1) / 2));
            if e != 1 {
                // The digit is `-`: what is left is one above the even
                // number that the canonical digit leaves.
                lemma_weight_of_neighbours(half - 1);
                assert(half - 1 == (v - 1) / 2);
            }
        } else {
            assert(v % 4 == 3);
            assert(naf_weight(v) == 1 + naf_weight((v + 1) / 2));
            if e != -1 {
                // The digit is `+`: what is left is one below the even
                // number that the canonical digit leaves.
                lemma_weight_of_neighbours(half);
                assert(half + 1 == (v + 1) / 2);
            }
        }
    }
}

/// A string without neighbouring non-zero digits has exactly as many
/// non-zero digits as `naf_weight` says.
pub proof fn lemma_weight_of_naf(s: Seq<char>)
    requires
        is_naf(s),
    ensures
        count_nonzero(s) == naf_weight(value_of(s)),
    decreases s.len(),
{
    if s.len() > 0 {
        let rest = s.drop_last();
        let e = digit_value(s.last());
        let v = value_of(s);
        let half = value_of(rest);
        assert forall|i: int| 0 <= i && i + 1 < rest.len() implies digit_value(
            #[trigger] rest[i],
        ) == 0 || digit_value(rest[i + 1]) == 0 by {
            assert(rest[i] == s[i]);
            assert(rest[i + 1] == s[i + 1]);
        }
        lemma_weight_of_naf(rest);
        assert(v == 2 * half + e);
        if e == 0 {
            if v != 0 {
                assert(naf_weight(v) == naf_weight(half));
            }
        } else {
            if rest.len() > 0 {
                assert(rest.last() == s[s.len() - 2]);
                assert(digit_value(s[s.len() - 2]) == 0 || digit_value(s[s.len() - 2 + 1]) == 0);
                assert(half == 2 * value_of(rest.drop_last()) + digit_value(rest.last()));
                assert(half % 2 == 0);
            } else {
                assert(half == 0);
            }
            if e == 1 {
                assert(v % 4 == 1);
                assert((v - 1) / 2 == half);
            } else {
                assert(v % 4 == 3);
                assert((v + 1) / 2 == half);
            }
        }
    }
}

/// No signed-digit string that denotes `v` has fewer non-zero digits than
/// the canonical string of `v`.
pub proof fn law_fewest_nonzero_digits(v: int, s: Seq<char>)
    requires
        value_of(s) == v,
    ensures
        count_nonzero(csd_of(v)) <= count_nonzero(s),
{
    law_csd_canonical(v);
    law_csd_value(v);
    lemma_weight_of_naf(csd_of(v));
    lemma_weight_is_least(s);
}

} // verus!
