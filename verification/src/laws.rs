//! What holds of the recoding rule and of the strings it writes.

use crate::builder::fixed_of;
use crate::model::{
    all_digits, count_nonzero, digit_value, first_point, fits_i32, fractional_run, integral_run,
    is_digit, is_naf, lemma_first_point, lemma_value_bound, lemma_value_concat, value_of,
};
use crate::recode::{
    csd_of, csd_width, csdnnz_of, encodable_i32, keep_leading, lemma_floor_log2,
    lemma_next_residual, magnitude, next_residual, pick_digit, recode, recode_bounded, zeros,
};
use vstd::arithmetic::power2::{lemma2_to64, lemma_pow2_unfold, pow2};
use vstd::prelude::*;

verus! {

/// The residual is small enough for `k` digits to take all of it: its
/// magnitude is at most two thirds of `2^k`.
pub open spec fn within_reach(r: int, k: nat) -> bool {
    -2 * pow2(k) <= 3 * r <= 2 * pow2(k)
}

/// The rule writes exactly `k` characters, each of them a signed digit.
pub proof fn lemma_recode_digits(r: int, k: nat)
    ensures
        recode(r, k).len() == k,
        all_digits(recode(r, k)),
    decreases k,
{
    if k > 0 {
        lemma_recode_digits(next_residual(r, k), (k - 1) as nat);
    }
}

/// The value of a string is that of its first digit, at the weight of its
/// position, plus that of the rest.
pub proof fn lemma_value_cons(d: char, t: Seq<char>)
    ensures
        value_of(seq![d] + t) == digit_value(d) * pow2(t.len()) + value_of(t),
{
    lemma_value_concat(seq![d], t);
    assert(seq![d] =~= Seq::<char>::empty().push(d));
    crate::model::lemma_value_push(Seq::<char>::empty(), d);
    assert(value_of(Seq::<char>::empty()) == 0);
    assert(value_of(seq![d]) == digit_value(d));
}

/// The digits written for a residual within reach denote that residual.
pub proof fn lemma_recode_value(r: int, k: nat)
    requires
        within_reach(r, k),
    ensures
        value_of(recode(r, k)) == r,
    decreases k,
{
    if k == 0 {
        lemma2_to64();
    } else {
        let d = pick_digit(r, k);
        let r1 = next_residual(r, k);
        let t = recode(r1, (k - 1) as nat);
        lemma_next_residual(r, k);
        lemma_recode_value(r1, (k - 1) as nat);
        lemma_recode_digits(r1, (k - 1) as nat);
        lemma_value_cons(d, t);
        let h = pow2((k - 1) as nat) as int;
        assert(1 * h == h);
        assert((-1) * h == -h);
        assert(0 * h == 0);
    }
}

/// The digits written for a residual within reach have no two neighbouring
/// non-zero digits, and they start with `0` where the magnitude of the
/// residual is at most a third of `2^k`.
pub proof fn lemma_recode_naf(r: int, k: nat)
    requires
        within_reach(r, k),
    ensures
        is_naf(recode(r, k)),
        k > 0 && -pow2(k) <= 3 * r <= pow2(k) ==> recode(r, k)[0] == '0',
    decreases k,
{
    if k > 0 {
        let d = pick_digit(r, k);
        let r1 = next_residual(r, k);
        let t = recode(r1, (k - 1) as nat);
        let s = recode(r, k);
        lemma_next_residual(r, k);
        lemma_recode_naf(r1, (k - 1) as nat);
        lemma_recode_digits(r1, (k - 1) as nat);
        assert(s =~= seq![d] + t);
        assert forall|i: int| 0 <= i && i + 1 < s.len() implies digit_value(#[trigger] s[i]) == 0
            || digit_value(s[i + 1]) == 0 by {
            if i == 0 {
                assert(s[0] == d);
                assert(s[1] == t[0]);
            } else {
                assert(s[i] == t[i - 1]);
                assert(s[i + 1] == t[i]);
            }
        }
    }
}

/// The first digit written is not `0` where three times the magnitude of the
/// residual exceeds `2^k`.
pub proof fn lemma_recode_leading(r: int, k: nat)
    requires
        k > 0,
        3 * magnitude(r) > pow2(k),
    ensures
        recode(r, k)[0] != '0',
{
    lemma_next_residual(r, k);
}

/// The non-zero digits of a concatenation are those of its two parts.
pub proof fn lemma_count_concat(a: Seq<char>, b: Seq<char>)
    ensures
        count_nonzero(a + b) == count_nonzero(a) + count_nonzero(b),
    decreases b.len(),
{
    if b.len() == 0 {
        assert(a + b =~= a);
    } else {
        assert((a + b).drop_last() =~= a + b.drop_last());
        lemma_count_concat(a, b.drop_last());
    }
}

/// The non-zero digits of a string are its first digit, if that is one, and
/// those of the rest.
pub proof fn lemma_count_cons(d: char, t: Seq<char>)
    ensures
        count_nonzero(seq![d] + t) == count_nonzero(t) + if digit_value(d) != 0 {
            1nat
        } else {
            0nat
        },
{
    lemma_count_concat(seq![d], t);
    assert(seq![d] =~= Seq::<char>::empty().push(d));
    crate::model::lemma_value_push(Seq::<char>::empty(), d);
    assert(count_nonzero(Seq::<char>::empty()) == 0);
}

/// A run of zeros is a digit string without non-zero digits that denotes
/// zero.
pub proof fn lemma_zeros(k: nat)
    ensures
        zeros(k).len() == k,
        all_digits(zeros(k)),
        is_naf(zeros(k)),
        count_nonzero(zeros(k)) == 0,
        value_of(zeros(k)) == 0,
    decreases k,
{
    if k > 0 {
        lemma_zeros((k - 1) as nat);
        assert(zeros(k).drop_last() =~= zeros((k - 1) as nat));
    }
}

/// The bounded rule writes exactly `k` signed digits.
pub proof fn lemma_recode_bounded_digits(r: int, k: nat, budget: nat)
    ensures
        recode_bounded(r, k, budget).len() == k,
        all_digits(recode_bounded(r, k, budget)),
    decreases k,
{
    if k == 0 {
    } else if budget == 0 {
        lemma_zeros(k);
    } else {
        let left = if digit_value(pick_digit(r, k)) != 0 {
            (budget - 1) as nat
        } else {
            budget
        };
        lemma_recode_bounded_digits(next_residual(r, k), (k - 1) as nat, left);
    }
}

/// The bounded rule never writes more non-zero digits than its budget.
pub proof fn lemma_recode_bounded_budget(r: int, k: nat, budget: nat)
    ensures
        count_nonzero(recode_bounded(r, k, budget)) <= budget,
    decreases k,
{
    if k == 0 {
    } else if budget == 0 {
        lemma_zeros(k);
    } else {
        let d = pick_digit(r, k);
        let left = if digit_value(d) != 0 {
            (budget - 1) as nat
        } else {
            budget
        };
        let t = recode_bounded(next_residual(r, k), (k - 1) as nat, left);
        lemma_recode_bounded_budget(next_residual(r, k), (k - 1) as nat, left);
        lemma_count_cons(d, t);
    }
}

/// Clearing digits keeps the length, and each position holds what it held
/// or `0`.
pub proof fn lemma_keep_leading_digits(s: Seq<char>, budget: nat)
    ensures
        keep_leading(s, budget).len() == s.len(),
        forall|i: int|
            0 <= i < s.len() ==> #[trigger] keep_leading(s, budget)[i] == s[i] || keep_leading(
                s,
                budget,
            )[i] == '0',
    decreases s.len(),
{
    if s.len() == 0 {
    } else if budget == 0 {
    } else {
        let left = if digit_value(s[0]) != 0 {
            (budget - 1) as nat
        } else {
            budget
        };
        let t = keep_leading(s.drop_first(), left);
        lemma_keep_leading_digits(s.drop_first(), left);
        let u = keep_leading(s, budget);
        assert(u =~= seq![s[0]] + t);
        assert forall|i: int| 0 <= i < s.len() implies #[trigger] u[i] == s[i] || u[i] == '0' by {
            if i > 0 {
                assert(u[i] == t[i - 1]);
                assert(s[i] == s.drop_first()[i - 1]);
            }
        }
    }
}

/// Clearing digits changes nothing where the budget covers every non-zero
/// digit of the string.
pub proof fn lemma_keep_leading_all(s: Seq<char>, budget: nat)
    requires
        all_digits(s),
        count_nonzero(s) <= budget,
    ensures
        keep_leading(s, budget) == s,
    decreases s.len(),
{
    if s.len() == 0 {
    } else {
        let t = s.drop_first();
        assert(s =~= seq![s[0]] + t);
        lemma_count_cons(s[0], t);
        assert forall|i: int| 0 <= i < t.len() implies is_digit(#[trigger] t[i]) by {
            assert(t[i] == s[i + 1]);
        }
        assert(is_digit(s[0]));
        if budget == 0 {
            lemma_keep_leading_all(t, 0);
            if t.len() > 0 {
                assert(keep_leading(t, 0) == zeros(t.len()));
            } else {
                assert(t =~= zeros(0));
            }
            assert(s[0] == '0');
            assert(zeros(s.len()) =~= seq!['0'] + zeros(t.len()));
        } else if digit_value(s[0]) != 0 {
            lemma_keep_leading_all(t, (budget - 1) as nat);
        } else {
            lemma_keep_leading_all(t, budget);
        }
    }
}

/// The bounded rule writes what the exact rule writes, with every digit
/// behind the first `budget` non-zero digits cleared.
pub proof fn lemma_recode_bounded_clears(r: int, k: nat, budget: nat)
    ensures
        recode_bounded(r, k, budget) == keep_leading(recode(r, k), budget),
    decreases k,
{
    lemma_recode_digits(r, k);
    if k == 0 {
    } else if budget == 0 {
    } else {
        let d = pick_digit(r, k);
        let r1 = next_residual(r, k);
        let left = if digit_value(d) != 0 {
            (budget - 1) as nat
        } else {
            budget
        };
        let s = recode(r, k);
        lemma_recode_bounded_clears(r1, (k - 1) as nat, left);
        assert(s[0] == d);
        assert(s.drop_first() =~= recode(r1, (k - 1) as nat));
    }
}

/// Clearing digits of a string without neighbouring non-zero digits leaves
/// such a string.
pub proof fn lemma_keep_leading_naf(s: Seq<char>, budget: nat)
    requires
        all_digits(s),
        is_naf(s),
    ensures
        all_digits(keep_leading(s, budget)),
        is_naf(keep_leading(s, budget)),
{
    lemma_keep_leading_digits(s, budget);
    let u = keep_leading(s, budget);
    assert forall|i: int| 0 <= i < u.len() implies is_digit(#[trigger] u[i]) by {
        assert(is_digit(s[i]));
    }
    assert forall|i: int| 0 <= i && i + 1 < u.len() implies digit_value(#[trigger] u[i]) == 0
        || digit_value(u[i + 1]) == 0 by {
        assert(digit_value(s[i]) == 0 || digit_value(s[i + 1]) == 0);
        assert(u[i + 1] == s[i + 1] || u[i + 1] == '0');
    }
}

/// A budget that is at least the number of digits never runs out: the
/// bounded rule then writes what the exact rule writes.
pub proof fn lemma_budget_covers(r: int, k: nat, budget: nat)
    requires
        budget >= k,
    ensures
        recode_bounded(r, k, budget) == recode(r, k),
    decreases k,
{
    if k > 0 {
        let left = if digit_value(pick_digit(r, k)) != 0 {
            (budget - 1) as nat
        } else {
            budget
        };
        lemma_budget_covers(next_residual(r, k), (k - 1) as nat, left);
    }
}

/// No power of two is a multiple of three.
pub proof fn lemma_pow2_mod3(k: nat)
    ensures
        pow2(k) % 3 == 1 || pow2(k) % 3 == 2,
    decreases k,
{
    if k == 0 {
        lemma2_to64();
    } else {
        lemma_pow2_mod3((k - 1) as nat);
        lemma_pow2_unfold(k);
    }
}

/// The width of a non-zero number is at least one, and three times the
/// magnitude of the number lies strictly between `2^width` and `2^(width + 1)`.
pub proof fn lemma_csd_width(v: int)
    requires
        v != 0,
    ensures
        csd_width(v) >= 1,
        pow2(csd_width(v)) < 3 * magnitude(v) < 2 * pow2(csd_width(v)),
        within_reach(v, csd_width(v)),
{
    let n = 3 * magnitude(v);
    let k = csd_width(v);
    lemma_floor_log2(n);
    lemma_pow2_mod3(k);
    lemma2_to64();
    if k == 0 {
        assert(n < 2);
    }
    assert(n % 3 == 0);
}

/// A string is in canonical form: signed digits only, no two neighbouring
/// non-zero digits, and no leading `0`.  The empty string is the canonical
/// form of zero in this sense.
pub open spec fn is_canonical(s: Seq<char>) -> bool {
    &&& all_digits(s)
    &&& is_naf(s)
    &&& s.len() > 0 ==> s[0] != '0'
}

/// The string written for a non-zero integer is in canonical form and has
/// `csd_width` digits; the string written for zero is `0`.
pub proof fn law_csd_canonical(v: int)
    ensures
        all_digits(csd_of(v)),
        is_naf(csd_of(v)),
        csd_of(v).len() >= 1,
        v != 0 ==> is_canonical(csd_of(v)) && csd_of(v).len() == csd_width(v),
        v == 0 ==> csd_of(v) == seq!['0'],
{
    if v != 0 {
        let k = csd_width(v);
        lemma_csd_width(v);
        lemma_recode_digits(v, k);
        lemma_recode_naf(v, k);
        lemma_recode_leading(v, k);
    }
}

/// Decoding what the encoder writes gives the number back.
pub proof fn law_csd_value(v: int)
    ensures
        value_of(csd_of(v)) == v,
{
    if v != 0 {
        lemma_csd_width(v);
        lemma_recode_value(v, csd_width(v));
    } else {
        lemma_value_cons('0', Seq::<char>::empty());
        assert(seq!['0'] + Seq::<char>::empty() =~= seq!['0']);
        lemma2_to64();
    }
}

/// For every 32-bit integer that the encoder accepts, the string it writes
/// is one that the decoder accepts, and decoding it gives the integer back.
pub proof fn law_round_trip_i32(d: i32)
    requires
        encodable_i32(d as int),
    ensures
        all_digits(csd_of(d as int)),
        fits_i32(value_of(csd_of(d as int))),
        value_of(csd_of(d as int)) == d,
{
    law_csd_canonical(d as int);
    law_csd_value(d as int);
}

/// The bounded string is the exact string with every digit behind the first
/// `budget` non-zero digits cleared; it is the exact string where the budget
/// covers all of them.
pub proof fn law_csdnnz_clears(v: int, budget: nat)
    ensures
        csdnnz_of(v, budget) == keep_leading(csd_of(v), budget),
        count_nonzero(csd_of(v)) <= budget ==> csdnnz_of(v, budget) == csd_of(v),
{
    law_csd_canonical(v);
    if v != 0 {
        lemma_recode_bounded_clears(v, csd_width(v), budget);
    } else {
        lemma_count_cons('0', Seq::<char>::empty());
        assert(seq!['0'] + Seq::<char>::empty() =~= seq!['0']);
        lemma_keep_leading_all(csd_of(v), budget);
    }
    if count_nonzero(csd_of(v)) <= budget {
        lemma_keep_leading_all(csd_of(v), budget);
    }
}

/// The bounded string has at most `budget` non-zero digits.
pub proof fn law_csdnnz_budget(v: int, budget: nat)
    ensures
        count_nonzero(csdnnz_of(v, budget)) <= budget,
{
    if v != 0 {
        lemma_recode_bounded_budget(v, csd_width(v), budget);
    } else {
        lemma_count_cons('0', Seq::<char>::empty());
        assert(seq!['0'] + Seq::<char>::empty() =~= seq!['0']);
    }
}

/// The bounded string is made of signed digits, is as long as the exact
/// string, and has no two neighbouring non-zero digits.
pub proof fn law_csdnnz_naf(v: int, budget: nat)
    ensures
        all_digits(csdnnz_of(v, budget)),
        is_naf(csdnnz_of(v, budget)),
        csdnnz_of(v, budget).len() == csd_of(v).len(),
{
    law_csd_canonical(v);
    if v != 0 {
        let k = csd_width(v);
        lemma_recode_bounded_clears(v, k, budget);
        lemma_keep_leading_naf(recode(v, k), budget);
        lemma_recode_bounded_digits(v, k, budget);
    }
}

/// A digit string that starts with a non-zero digit does not denote zero.
pub proof fn lemma_leading_digit_counts(s: Seq<char>)
    requires
        s.len() > 0,
        digit_value(s[0]) != 0,
    ensures
        value_of(s) != 0,
{
    let t = s.drop_first();
    assert(s =~= seq![s[0]] + t);
    lemma_value_cons(s[0], t);
    lemma_value_bound(t);
    let h = pow2(t.len()) as int;
    assert(1 * h == h);
    assert((-1) * h == -h);
}

/// Dropping the last digit of a canonical string leaves a canonical string.
pub proof fn lemma_canonical_drop_last(s: Seq<char>)
    requires
        is_canonical(s),
        s.len() > 0,
    ensures
        is_canonical(s.drop_last()),
{
    let t = s.drop_last();
    assert forall|i: int| 0 <= i < t.len() implies is_digit(#[trigger] t[i]) by {
        assert(t[i] == s[i]);
    }
    assert forall|i: int| 0 <= i && i + 1 < t.len() implies digit_value(#[trigger] t[i]) == 0
        || digit_value(t[i + 1]) == 0 by {
        assert(t[i] == s[i]);
        assert(t[i + 1] == s[i + 1]);
    }
    if t.len() > 0 {
        assert(t[0] == s[0]);
    }
}

/// The value of a canonical string decides its last digit: the digit is `0`
/// where the value is even, `+` where the value leaves one when divided by
/// four, and `-` where it leaves three.
pub proof fn lemma_last_digit(s: Seq<char>)
    requires
        is_canonical(s),
        s.len() > 0,
    ensures
        value_of(s) % 2 == 0 ==> s.last() == '0',
        value_of(s) % 4 == 1 ==> s.last() == '+',
        value_of(s) % 4 == 3 ==> s.last() == '-',
{
    let t = s.drop_last();
    let d = digit_value(s.last());
    assert(is_digit(s[s.len() - 1]));
    assert(value_of(s) == 2 * value_of(t) + d);
    if d != 0 {
        if t.len() > 0 {
            assert(t.last() == s[s.len() - 2]);
            assert(digit_value(s[s.len() - 2]) == 0 || digit_value(s[s.len() - 2 + 1]) == 0);
            assert(value_of(t) == 2 * value_of(t.drop_last()) + digit_value(t.last()));
            assert(value_of(s) == 4 * value_of(t.drop_last()) + d);
        } else {
            assert(value_of(t) == 0);
            assert(value_of(s) == d);
        }
    }
}

/// Two canonical strings that denote the same number are the same string.
pub proof fn law_canonical_unique(a: Seq<char>, b: Seq<char>)
    requires
        is_canonical(a),
        is_canonical(b),
        value_of(a) == value_of(b),
    ensures
        a == b,
    decreases a.len() + b.len(),
{
    if a.len() == 0 {
        if b.len() > 0 {
            assert(is_digit(b[0]));
            lemma_leading_digit_counts(b);
        }
        assert(a =~= b);
    } else if b.len() == 0 {
        assert(is_digit(a[0]));
        lemma_leading_digit_counts(a);
    } else {
        lemma_last_digit(a);
        lemma_last_digit(b);
        lemma_canonical_drop_last(a);
        lemma_canonical_drop_last(b);
        assert(a.last() == b.last());
        law_canonical_unique(a.drop_last(), b.drop_last());
        assert(a =~= a.drop_last().push(a.last()));
        assert(b =~= b.drop_last().push(b.last()));
    }
}

/// The encoder writes the one canonical string of each non-zero integer.
pub proof fn law_csd_unique(v: int, s: Seq<char>)
    requires
        v != 0,
        is_canonical(s),
        value_of(s) == v,
    ensures
        s == csd_of(v),
{
    law_csd_canonical(v);
    law_csd_value(v);
    law_canonical_unique(s, csd_of(v));
}

/// An integer written with a fractional part of zeros is made of digits
/// and one point, has no two neighbouring non-zero digits, and its integral
/// part denotes the integer.
pub proof fn law_fixed_form(v: int, places: nat)
    ensures
        is_naf(fixed_of(v, places)),
        first_point(fixed_of(v, places)) == csd_of(v).len(),
        integral_run(fixed_of(v, places)) == csd_of(v),
        fractional_run(fixed_of(v, places)) == zeros(places),
        value_of(integral_run(fixed_of(v, places))) == v,
{
    let head = csd_of(v);
    let s = fixed_of(v, places);
    law_csd_canonical(v);
    law_csd_value(v);
    lemma_zeros(places);
    assert forall|i: int| 0 <= i < head.len() implies s[i] != '.' by {
        assert(s[i] == head[i]);
        assert(is_digit(head[i]));
    }
    assert(s[head.len() as int] == '.');
    lemma_first_point(s, head.len() as int);
    assert(integral_run(s) =~= head);
    assert(fractional_run(s) =~= zeros(places));
    assert forall|i: int| 0 <= i && i + 1 < s.len() implies digit_value(#[trigger] s[i]) == 0
        || digit_value(s[i + 1]) == 0 by {
        if i + 1 < head.len() {
            assert(s[i] == head[i]);
            assert(s[i + 1] == head[i + 1]);
        } else if i + 1 == head.len() {
            assert(s[i + 1] == '.');
        } else if i == head.len() {
            assert(s[i] == '.');
        } else {
            assert(s[i] == zeros(places)[i - head.len() - 1]);
        }
    }
}

} // verus!
