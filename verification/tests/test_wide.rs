use csd::csd::to_csd_i;
use csd::error::CsdError;
use csd::wide::{
    to_csd_i128, to_csd_i128_safe, to_csd_i64, to_csdnnz_i128, to_csdnnz_i128_safe, to_csdnnz_i64,
    to_csdnnz_i64_safe, to_decimal_i128, to_decimal_i128_safe, to_decimal_i64,
    to_decimal_i64_safe,
};

#[test]
fn test_wide_agrees_with_32_bits() {
    for d in -3000..3000 {
        assert_eq!(to_csd_i64(d as i64), to_csd_i(d));
        assert_eq!(to_csd_i128(d as i128), to_csd_i(d));
    }
    assert_eq!(to_csd_i64(28), "+00-00");
    assert_eq!(to_csd_i64(0), "0");
    assert_eq!(to_csd_i128(-28), "-00+00");
}

#[test]
fn test_wide_round_trip() {
    let samples: [i64; 8] = [
        i64::MAX,
        i64::MIN,
        i64::MAX - 1,
        1 << 40,
        -(1 << 40) + 7,
        6148914691236517205,
        -6148914691236517206,
        3074457345618258603,
    ];
    for d in samples {
        assert_eq!(to_decimal_i64(&to_csd_i64(d)), d);
        assert_eq!(to_decimal_i128(&to_csd_i128(d as i128)), d as i128);
    }
    let limit: i128 = i128::MAX / 3;
    for d in [limit, -limit, limit - 1, 1i128 << 100, -(1i128 << 90) - 5] {
        assert_eq!(to_decimal_i128(&to_csd_i128(d)), d);
    }
}

#[test]
fn test_wide_extremes() {
    // 2^63 - 1 is one above-range power of two less one.
    assert_eq!(to_csd_i64(i64::MAX), format!("+{}-", "0".repeat(62)));
    assert_eq!(to_csd_i64(i64::MIN), format!("-{}", "0".repeat(63)));
}

#[test]
fn test_wide_bounded() {
    assert_eq!(to_csdnnz_i64(158, 2), "+0+00000");
    assert_eq!(to_csdnnz_i64(28, 4), "+00-00");
    assert_eq!(to_csdnnz_i64(0, 0), "0");
    assert_eq!(to_csdnnz_i128(158, 1), "+0000000");
    assert_eq!(to_csdnnz_i64(i64::MAX, 1), format!("+{}", "0".repeat(63)));
    assert_eq!(to_csdnnz_i64_safe(158, 2), Ok("+0+00000".to_string()));
    assert!(matches!(
        to_csdnnz_i64_safe(158, 0),
        Err(CsdError::InvalidFormat(_))
    ));
    assert!(matches!(
        to_csdnnz_i128_safe(158, 0),
        Err(CsdError::InvalidFormat(_))
    ));
    assert_eq!(to_csdnnz_i128_safe(i128::MAX, 2), Err(CsdError::Overflow));
    assert_eq!(to_csdnnz_i128_safe(0, 0), Ok("0".to_string()));
}

#[test]
fn test_wide_encode_overflow() {
    let limit: i128 = i128::MAX / 3;
    assert!(to_csd_i128_safe(limit).is_ok());
    assert!(to_csd_i128_safe(-limit).is_ok());
    assert_eq!(to_csd_i128_safe(limit + 1), Err(CsdError::Overflow));
    assert_eq!(to_csd_i128_safe(-limit - 1), Err(CsdError::Overflow));
    assert_eq!(to_csd_i128_safe(i128::MIN), Err(CsdError::Overflow));
}

#[test]
fn test_wide_decode_safe() {
    assert_eq!(to_decimal_i64_safe("+00-00"), Ok(28));
    assert_eq!(to_decimal_i128_safe("+00-00"), Ok(28));
    assert_eq!(to_decimal_i64_safe(""), Err(CsdError::EmptyString));
    assert_eq!(
        to_decimal_i64_safe("+00X-00"),
        Err(CsdError::InvalidCharacter('X', 3))
    );
    assert_eq!(to_decimal_i128_safe("+-"), Err(CsdError::ConsecutiveNonZero(1)));
    let two_63 = format!("+{}", "0".repeat(63));
    assert_eq!(to_decimal_i64_safe(&two_63), Err(CsdError::Overflow));
    assert_eq!(to_decimal_i128_safe(&two_63), Ok(1i128 << 63));
    let max_64 = format!("+{}-", "0".repeat(62));
    assert_eq!(to_decimal_i64_safe(&max_64), Ok(i64::MAX));
    let min_64 = format!("-{}", "0".repeat(63));
    assert_eq!(to_decimal_i64_safe(&min_64), Ok(i64::MIN));
    let two_127 = format!("+{}", "0".repeat(127));
    assert_eq!(to_decimal_i128_safe(&two_127), Err(CsdError::Overflow));
    let max_128 = format!("+{}-", "0".repeat(126));
    assert_eq!(to_decimal_i128_safe(&max_128), Ok(i128::MAX));
    let min_128 = format!("-{}", "0".repeat(127));
    assert_eq!(to_decimal_i128_safe(&min_128), Ok(i128::MIN));
}
