use csd::csd::{to_csd_i, to_csdnnz_i, to_decimal_i};

fn count_nonzero(s: &str) -> usize {
    s.chars().filter(|c| *c == '+' || *c == '-').count()
}

fn is_naf(s: &str) -> bool {
    let digits: Vec<char> = s.chars().collect();
    digits.windows(2).all(|w| w[0] == '0' || w[1] == '0')
}

const SAMPLES: [i32; 16] = [
    0, 1, -1, 2, 3, -3, 7, 28, -28, 158, 229, 1023, -4097, 65535, 715827882, -715827882,
];

#[test]
fn test_integer_round_trip() {
    for d in SAMPLES {
        assert_eq!(to_decimal_i(&to_csd_i(d)), d);
    }
    for d in -2000..2000 {
        assert_eq!(to_decimal_i(&to_csd_i(d)), d);
    }
}

#[test]
fn test_no_neighbouring_nonzero_digits() {
    for d in -2000..2000 {
        assert!(is_naf(&to_csd_i(d)));
        for k in 1..5 {
            assert!(is_naf(&to_csdnnz_i(d, k)));
        }
    }
}

#[test]
fn test_no_leading_zero() {
    for d in SAMPLES {
        if d != 0 {
            assert!(!to_csd_i(d).starts_with('0'));
        }
    }
}

#[test]
fn test_budget_is_kept() {
    for d in SAMPLES {
        for k in 1..6u32 {
            let bounded = to_csdnnz_i(d, k);
            assert!(count_nonzero(&bounded) <= k as usize);
            assert_eq!(bounded.len(), to_csd_i(d).len());
        }
    }
}

#[test]
fn test_bounded_clears_the_tail() {
    // 158 is +0+000-0: with two non-zero digits the last one is cleared.
    assert_eq!(to_csd_i(158), "+0+000-0");
    assert_eq!(to_csdnnz_i(158, 3), "+0+000-0");
    assert_eq!(to_csdnnz_i(158, 2), "+0+00000");
    assert_eq!(to_csdnnz_i(158, 1), "+0000000");
    assert_eq!(to_decimal_i(&to_csdnnz_i(158, 2)), 160);
}

#[test]
fn test_bounded_with_enough_budget_is_exact() {
    for d in SAMPLES {
        let exact = to_csd_i(d);
        let k = count_nonzero(&exact) as u32;
        if k > 0 {
            assert_eq!(to_csdnnz_i(d, k), exact);
            assert_eq!(to_csdnnz_i(d, k + 3), exact);
        }
    }
}

#[test]
fn test_canonical_form_has_fewest_nonzero_digits() {
    // Every string of up to seven digits, against the canonical string of
    // the number it denotes.
    let digits = ['0', '+', '-'];
    for len in 1..8u32 {
        for code in 0..3u32.pow(len) {
            let mut rest = code;
            let mut text = String::new();
            for _ in 0..len {
                text.push(digits[(rest % 3) as usize]);
                rest /= 3;
            }
            let value = to_decimal_i(&text);
            let canonical = to_csd_i(value);
            assert!(count_nonzero(&canonical) <= count_nonzero(&text));
        }
    }
}
