//! The mathematical reading of a signed-digit string.
//!
//! A digit string is a sequence of the characters `+`, `0` and `-`, most
//! significant digit first.  Everything here is specification: the executable
//! conversions state their results in these terms.

use vstd::arithmetic::power2::pow2;
use vstd::prelude::*;

verus! {

/// `c` is one of the three signed digits.
pub open spec fn is_digit(c: char) -> bool {
    c == '+' || c == '0' || c == '-'
}

/// The number a digit stands for: `+` is one, `-` is minus one, anything else
/// is zero.
pub open spec fn digit_value(c: char) -> int {
    if c == '+' {
        1
    } else if c == '-' {
        -1
    } else {
        0
    }
}

/// Every character of `s` is a signed digit.
pub open spec fn all_digits(s: Seq<char>) -> bool {
    forall|i: int| 0 <= i < s.len() ==> is_digit(#[trigger] s[i])
}

/// The integer that the digits of `s` denote in radix two.
pub open spec fn value_of(s: Seq<char>) -> int
    decreases s.len(),
{
    if s.len() == 0 {
        0
    } else {
        2 * value_of(s.drop_last()) + digit_value(s.last())
    }
}

/// No two neighbouring characters of `s` are both `+` or `-`.
pub open spec fn is_naf(s: Seq<char>) -> bool {
    forall|i: int|
        0 <= i && i + 1 < s.len() ==> digit_value(#[trigger] s[i]) == 0 || digit_value(s[i + 1])
            == 0
}

/// How many characters of `s` are `+` or `-`.
pub open spec fn count_nonzero(s: Seq<char>) -> nat
    decreases s.len(),
{
    if s.len() == 0 {
        0
    } else {
        count_nonzero(s.drop_last()) + if digit_value(s.last()) != 0 {
            1nat
        } else {
            0nat
        }
    }
}

/// Where the first decimal point of `s` stands, or the length of `s` where it
/// has none.
pub open spec fn first_point(s: Seq<char>) -> int
    decreases s.len(),
{
    if s.len() == 0 || s[0] == '.' {
        0
    } else {
        1 + first_point(s.drop_first())
    }
}

/// The characters in front of the first decimal point: all of `s` where it
/// has none.
pub open spec fn integral_run(s: Seq<char>) -> Seq<char> {
    s.take(first_point(s))
}

/// The characters behind the first decimal point: nothing where `s` has none.
pub open spec fn fractional_run(s: Seq<char>) -> Seq<char> {
    if first_point(s) < s.len() {
        s.skip(first_point(s) + 1)
    } else {
        Seq::empty()
    }
}

/// `first_point` is the one position that has no point before it and either
/// holds a point or is the end of the string.
pub proof fn lemma_first_point(s: Seq<char>, k: int)
    requires
        0 <= k <= s.len(),
        forall|i: int| 0 <= i < k ==> s[i] != '.',
        k < s.len() ==> s[k] == '.',
    ensures
        first_point(s) == k,
    decreases s.len(),
{
    if s.len() == 0 || s[0] == '.' {
    } else {
        let t = s.drop_first();
        assert forall|i: int| 0 <= i < k - 1 implies t[i] != '.' by {
            assert(t[i] == s[i + 1]);
        }
        lemma_first_point(t, k - 1);
    }
}

/// What `first_point` returns, read the other way round.
pub proof fn lemma_first_point_is(s: Seq<char>)
    ensures
        0 <= first_point(s) <= s.len(),
        forall|i: int| 0 <= i < first_point(s) ==> s[i] != '.',
        first_point(s) < s.len() ==> s[first_point(s)] == '.',
    decreases s.len(),
{
    if s.len() == 0 || s[0] == '.' {
    } else {
        let t = s.drop_first();
        lemma_first_point_is(t);
        assert forall|i: int| 0 <= i < first_point(s) implies s[i] != '.' by {
            if i > 0 {
                assert(s[i] == t[i - 1]);
            }
        }
    }
}

/// `n` lies in the range of `i32`.
pub open spec fn fits_i32(n: int) -> bool {
    i32::MIN <= n <= i32::MAX
}

/// Appending one character doubles the value and adds the new digit.
pub proof fn lemma_value_push(s: Seq<char>, c: char)
    ensures
        value_of(s.push(c)) == 2 * value_of(s) + digit_value(c),
        count_nonzero(s.push(c)) == count_nonzero(s) + if digit_value(c) != 0 {
            1nat
        } else {
            0nat
        },
{
    assert(s.push(c).drop_last() =~= s);
}

/// A string of `n` digits denotes a number strictly between `-2^n` and `2^n`.
pub proof fn lemma_value_bound(s: Seq<char>)
    ensures
        -pow2(s.len()) < value_of(s) < pow2(s.len()),
    decreases s.len(),
{
    if s.len() == 0 {
        vstd::arithmetic::power2::lemma2_to64();
    } else {
        lemma_value_bound(s.drop_last());
        vstd::arithmetic::power2::lemma_pow2_unfold(s.len());
    }
}

/// The value of a concatenation: the left part is shifted by the length of
/// the right part.
pub proof fn lemma_value_concat(a: Seq<char>, b: Seq<char>)
    ensures
        value_of(a + b) == value_of(a) * pow2(b.len()) + value_of(b),
    decreases b.len(),
{
    if b.len() == 0 {
        assert(a + b =~= a);
        vstd::arithmetic::power2::lemma2_to64();
        assert(value_of(a) * 1 == value_of(a));
    } else {
        let c = b.last();
        let b0 = b.drop_last();
        assert(a + b =~= (a + b0).push(c));
        lemma_value_push(a + b0, c);
        lemma_value_concat(a, b0);
        vstd::arithmetic::power2::lemma_pow2_unfold(b.len());
        let x = value_of(a);
        let p = pow2(b0.len()) as int;
        assert(pow2(b.len()) == 2 * p);
        assert(value_of(a + b) == 2 * (x * p + value_of(b0)) + digit_value(c));
        assert(value_of(b) == 2 * value_of(b0) + digit_value(c));
        assert(2 * (x * p) == x * (2 * p)) by (nonlinear_arith);
        assert(x * pow2(b.len()) == x * (2 * p));
    }
}

/// `n` lies in the range of `i64`.
pub open spec fn fits_i64(n: int) -> bool {
    i64::MIN <= n <= i64::MAX
}

/// `n` lies in the range of `i128`.
pub open spec fn fits_i128(n: int) -> bool {
    i128::MIN <= n <= i128::MAX
}

/// Once a prefix denotes a number outside a range around zero, so does
/// every extension of it.
pub proof fn lemma_prefix_within(a: Seq<char>, b: Seq<char>, lo: int, hi: int)
    requires
        lo <= 0 <= hi,
        lo <= value_of(a + b) <= hi,
    ensures
        lo <= value_of(a) <= hi,
{
    lemma_value_concat(a, b);
    lemma_value_bound(b);
    let x = value_of(a);
    let p = pow2(b.len()) as int;
    vstd::arithmetic::power2::lemma_pow2_pos(b.len());
    if x > hi {
        assert(x * p >= (hi + 1) * p) by (nonlinear_arith)
            requires
                x >= hi + 1,
                p >= 1,
        ;
        assert((hi + 1) * p - p >= hi) by (nonlinear_arith)
            requires
                p >= 1,
                hi >= 0,
        ;
    }
    if x < lo {
        assert(x * p <= (lo - 1) * p) by (nonlinear_arith)
            requires
                x <= lo - 1,
                p >= 1,
        ;
        assert((lo - 1) * p + p <= lo) by (nonlinear_arith)
            requires
                p >= 1,
                lo <= 0,
        ;
    }
}

/// Once a prefix denotes a number outside the range of `i32`, so does every
/// extension of it.
pub proof fn lemma_prefix_fits(a: Seq<char>, b: Seq<char>)
    requires
        fits_i32(value_of(a + b)),
    ensures
        fits_i32(value_of(a)),
{
    lemma_prefix_within(a, b, i32::MIN as int, i32::MAX as int);
}

} // verus!
