use csd::builder::{
    check_budget, resolve_policy, to_csd_places_i, to_csd_places_i128, to_csd_places_i64, Builder,
    EncodingPolicy, NumericValue, RoundingStrategy, DEFAULT_PLACES,
};
use csd::error::CsdError;

#[test]
fn test_builder_zero_budget_is_refused() {
    let built = Builder::new(28).max_non_zeros(0).build();
    assert!(matches!(built, Err(CsdError::InvalidFormat(_))));
    assert_eq!(Builder::new(0).max_non_zeros(0).build(), Ok("0".to_string()));
}

#[test]
fn test_builder_default_places() {
    assert_eq!(DEFAULT_PLACES, 4);
    assert_eq!(Builder::new(28).build(), Ok("+00-00.0000".to_string()));
    assert_eq!(Builder::new(0).build(), Ok("0.0000".to_string()));
}

#[test]
fn test_builder_places() {
    assert_eq!(Builder::new(28).places(2).build(), Ok("+00-00.00".to_string()));
    assert_eq!(Builder::new(28).places(0).build(), Ok("+00-00.".to_string()));
    assert_eq!(Builder::new(28).places(-3).build(), Ok("+00-00.".to_string()));
    assert_eq!(Builder::new(0).places(0).build(), Ok("0.".to_string()));
}

#[test]
fn test_builder_budget_wins_over_places() {
    let built = Builder::new(158).places(2).max_non_zeros(2).build();
    assert_eq!(built, Ok("+0+00000".to_string()));
    let built = Builder::new(158).max_non_zeros(1).places(7).build();
    assert_eq!(built, Ok("+0000000".to_string()));
}

#[test]
fn test_builder_rounding_is_inert() {
    let plain = Builder::new(229).places(1).build();
    let rounded = Builder::new(229)
        .rounding_strategy(RoundingStrategy::TowardZero)
        .places(1)
        .build();
    assert_eq!(plain, rounded);
    assert_eq!(plain, Ok("+00-00+0+.0".to_string()));
}

#[test]
fn test_builder_notes_the_rounding() {
    assert_eq!(Builder::new(5).rounding(), RoundingStrategy::Nearest);
    let noted = Builder::new(5).rounding_strategy(RoundingStrategy::TowardZero);
    assert_eq!(noted.rounding(), RoundingStrategy::TowardZero);
    assert_eq!(noted.policy(), Builder::new(5).policy());
    let kept = noted.places(2).max_non_zeros(3);
    assert_eq!(kept.rounding(), RoundingStrategy::TowardZero);
    let again = kept.rounding_strategy(RoundingStrategy::Nearest);
    assert_eq!(again.rounding(), RoundingStrategy::Nearest);
    assert_eq!(again.policy(), EncodingPolicy::MaxNonZeros(3));
}

#[test]
fn test_builder_overflow() {
    assert_eq!(Builder::new(i32::MAX).build(), Err(CsdError::Overflow));
    assert_eq!(
        Builder::new(i32::MIN).max_non_zeros(2).build(),
        Err(CsdError::Overflow)
    );
}

#[test]
fn test_resolve_policy() {
    assert_eq!(resolve_policy(None, None), EncodingPolicy::FixedPlaces(4));
    assert_eq!(resolve_policy(Some(7), None), EncodingPolicy::FixedPlaces(7));
    assert_eq!(resolve_policy(Some(-1), None), EncodingPolicy::FixedPlaces(0));
    assert_eq!(resolve_policy(Some(7), Some(3)), EncodingPolicy::MaxNonZeros(3));
    assert_eq!(resolve_policy(None, Some(0)), EncodingPolicy::MaxNonZeros(0));
    assert_eq!(Builder::new(5).places(9).policy(), EncodingPolicy::FixedPlaces(9));
}

#[test]
fn test_check_budget() {
    assert_eq!(check_budget(EncodingPolicy::MaxNonZeros(0), true), Ok(()));
    assert_eq!(check_budget(EncodingPolicy::MaxNonZeros(1), false), Ok(()));
    assert_eq!(check_budget(EncodingPolicy::FixedPlaces(0), false), Ok(()));
    assert_eq!(
        check_budget(EncodingPolicy::MaxNonZeros(0), false),
        Err(CsdError::InvalidFormat(
            "zero non-zero digits allowed for a non-zero value".to_string()
        ))
    );
}

#[test]
fn test_to_csd_places_i() {
    assert_eq!(to_csd_places_i(28, 2), "+00-00.00");
    assert_eq!(to_csd_places_i(-1, 3), "-.000");
    assert_eq!(to_csd_places_i(0, 2), "0.00");
}

#[test]
fn test_builder_wide_values() {
    assert_eq!(Builder::new_i64(28).places(2).build(), Ok("+00-00.00".to_string()));
    assert_eq!(Builder::new_i128(28).places(2).build(), Ok("+00-00.00".to_string()));
    assert_eq!(Builder::new_i64(158).max_non_zeros(2).build(), Ok("+0+00000".to_string()));
    assert_eq!(Builder::new_i128(158).max_non_zeros(1).build(), Ok("+0000000".to_string()));
    assert_eq!(Builder::new_i64(0).max_non_zeros(0).build(), Ok("0".to_string()));
    assert_eq!(
        Builder::of(NumericValue::Int64(-28)).places(0).build(),
        Ok("-00+00.".to_string())
    );
}

#[test]
fn test_builder_wide_limits() {
    // What is too large for the 32-bit encoder is written in 64 bits.
    assert_eq!(Builder::new(i32::MAX).build(), Err(CsdError::Overflow));
    assert_eq!(
        Builder::new_i64(i64::from(i32::MAX)).places(1).build(),
        Ok(format!("+{}-.0", "0".repeat(30)))
    );
    assert_eq!(
        Builder::new_i64(i64::MIN).places(0).build(),
        Ok(format!("-{}.", "0".repeat(63)))
    );
    assert_eq!(
        Builder::new_i64(i64::MAX).max_non_zeros(1).build(),
        Ok(format!("+{}", "0".repeat(63)))
    );
    let limit: i128 = i128::MAX / 3;
    assert!(Builder::new_i128(limit).build().is_ok());
    assert_eq!(Builder::new_i128(limit + 1).build(), Err(CsdError::Overflow));
    assert_eq!(
        Builder::new_i128(i128::MIN).max_non_zeros(3).build(),
        Err(CsdError::Overflow)
    );
}

#[test]
fn test_builder_wide_zero_budget() {
    assert!(matches!(
        Builder::new_i64(28).max_non_zeros(0).build(),
        Err(CsdError::InvalidFormat(_))
    ));
    // The budget is looked at before the size.
    assert!(matches!(
        Builder::new_i128(i128::MAX).max_non_zeros(0).build(),
        Err(CsdError::InvalidFormat(_))
    ));
    assert!(matches!(
        Builder::new(i32::MAX).max_non_zeros(0).build(),
        Err(CsdError::InvalidFormat(_))
    ));
}

#[test]
fn test_to_csd_places_wide() {
    assert_eq!(to_csd_places_i64(28, 2), "+00-00.00");
    assert_eq!(to_csd_places_i64(0, 1), "0.0");
    assert_eq!(to_csd_places_i128(-28, 3), "-00+00.000");
    assert_eq!(to_csd_places_i128(1i128 << 100, 0), format!("+{}.", "0".repeat(100)));
}
