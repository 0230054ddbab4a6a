use csd::error::CsdError;
use csd::safe::{to_csd_i_safe, to_csdnnz_i_safe, to_decimal_i_safe, to_decimal_integral_safe};
use csd::validate::validate_csd;

#[test]
fn test_decode_safe_foreign_character() {
    assert_eq!(
        to_decimal_i_safe("+00X-00"),
        Err(CsdError::InvalidCharacter('X', 3))
    );
    assert_eq!(
        to_decimal_integral_safe("+00X-00"),
        Err(CsdError::InvalidCharacter('X', 3))
    );
    assert_eq!(validate_csd("+00X-00", true), Err(CsdError::InvalidCharacter('X', 3)));
}

#[test]
fn test_decode_safe_empty() {
    assert_eq!(to_decimal_i_safe(""), Err(CsdError::EmptyString));
    assert_eq!(to_decimal_integral_safe(""), Err(CsdError::EmptyString));
    assert_eq!(validate_csd("", false), Err(CsdError::EmptyString));
}

#[test]
fn test_decode_safe_point_in_integer() {
    assert_eq!(
        to_decimal_i_safe("+00-00.0"),
        Err(CsdError::InvalidCharacter('.', 6))
    );
    assert_eq!(to_decimal_integral_safe("+00-00.0"), Ok((28, 7)));
}

#[test]
fn test_decode_safe_two_points() {
    assert_eq!(
        to_decimal_integral_safe("+0.0.-"),
        Err(CsdError::InvalidFormat("multiple decimal points".to_string()))
    );
    // A foreign character is reported first, wherever it stands.
    assert_eq!(
        to_decimal_integral_safe("+0.0.-x"),
        Err(CsdError::InvalidCharacter('x', 6))
    );
}

#[test]
fn test_decode_safe_consecutive_nonzero() {
    assert_eq!(to_decimal_i_safe("0+-0"), Err(CsdError::ConsecutiveNonZero(2)));
    assert_eq!(to_decimal_i_safe("++"), Err(CsdError::ConsecutiveNonZero(1)));
    // The point does not part two digits.
    assert_eq!(
        to_decimal_integral_safe("0+.-"),
        Err(CsdError::ConsecutiveNonZero(3))
    );
    assert_eq!(to_decimal_integral_safe("0+.0-"), Ok((1, 3)));
    assert_eq!(validate_csd("+0-0+", false), Ok(()));
}

#[test]
fn test_decode_safe_values() {
    assert_eq!(to_decimal_i_safe("+00-00"), Ok(28));
    assert_eq!(to_decimal_i_safe("0"), Ok(0));
    assert_eq!(to_decimal_i_safe("-00+00"), Ok(-28));
    assert_eq!(to_decimal_integral_safe("+00-00"), Ok((28, 0)));
    assert_eq!(to_decimal_integral_safe("0.-"), Ok((0, 2)));
}

#[test]
fn test_decode_safe_overflow() {
    // 2^31 does not fit, 2^31 - 1 and -2^31 do.
    let two_31 = format!("+{}", "0".repeat(31));
    assert_eq!(to_decimal_i_safe(&two_31), Err(CsdError::Overflow));
    let max = format!("+{}-", "0".repeat(30));
    assert_eq!(to_decimal_i_safe(&max), Ok(i32::MAX));
    let min = format!("-{}", "0".repeat(31));
    assert_eq!(to_decimal_i_safe(&min), Ok(i32::MIN));
    let fraction = format!("+{}.+", "0".repeat(31));
    assert_eq!(to_decimal_integral_safe(&fraction), Err(CsdError::Overflow));
}

#[test]
fn test_encode_safe() {
    assert_eq!(to_csd_i_safe(28), Ok("+00-00".to_string()));
    assert_eq!(to_csd_i_safe(0), Ok("0".to_string()));
    assert_eq!(to_csd_i_safe(715827882), Ok(csd::csd::to_csd_i(715827882)));
    assert_eq!(to_csd_i_safe(715827883), Err(CsdError::Overflow));
    assert_eq!(to_csd_i_safe(-715827883), Err(CsdError::Overflow));
    assert_eq!(to_csd_i_safe(i32::MIN), Err(CsdError::Overflow));
}

#[test]
fn test_encode_bounded_safe() {
    assert_eq!(to_csdnnz_i_safe(28, 4), Ok("+00-00".to_string()));
    assert_eq!(to_csdnnz_i_safe(28, 1), Ok("+00000".to_string()));
    assert_eq!(to_csdnnz_i_safe(0, 0), Ok("0".to_string()));
    assert_eq!(
        to_csdnnz_i_safe(28, 0),
        Err(CsdError::InvalidFormat(
            "zero non-zero digits allowed for a non-zero value".to_string()
        ))
    );
    assert_eq!(to_csdnnz_i_safe(i32::MAX, 3), Err(CsdError::Overflow));
    // The budget is looked at before the size.
    assert!(matches!(
        to_csdnnz_i_safe(i32::MAX, 0),
        Err(CsdError::InvalidFormat(_))
    ));
}
