use csd::csd::{highest_power_of_two_in, to_csd_i, to_csdnnz_i, to_decimal_i, to_decimal_integral};

#[test]
fn it_works() {
    let result = 2 + 2;
    assert_eq!(result, 4);
}

#[test]
fn test_to_decimal_i() {
    assert_eq!(to_decimal_i("+00-00"), 28);
    assert_eq!(to_decimal_i("0"), 0);
}

#[test]
fn test_to_csdnnz_i() {
    assert_eq!(to_csdnnz_i(28, 4), "+00-00".to_string());
    assert_eq!(to_csdnnz_i(-0, 4), "0".to_string());
    assert_eq!(to_csdnnz_i(0, 4), "0".to_string());
    assert_eq!(to_csdnnz_i(0, 0), "0".to_string());
    assert_eq!(to_csdnnz_i(158, 2), "+0+00000".to_string());
}

#[test]
fn test_highest_power_of_two_in() {
    assert_eq!(highest_power_of_two_in(14), 8);
    assert_eq!(highest_power_of_two_in(8), 8);
    assert_eq!(highest_power_of_two_in(1), 1);
    assert_eq!(highest_power_of_two_in(0), 0);
    assert_eq!(highest_power_of_two_in(3), 2);
    assert_eq!(highest_power_of_two_in(2), 2);
    assert_eq!(highest_power_of_two_in(u32::MAX), 2147483648);
}

#[test]
fn test_to_csd_i_examples() {
    assert_eq!(to_csd_i(28), "+00-00".to_string());
    assert_eq!(to_csd_i(-0), "0".to_string());
    assert_eq!(to_csd_i(0), "0".to_string());
    assert_eq!(to_csd_i(1), "+".to_string());
    assert_eq!(to_csd_i(-1), "-".to_string());
    assert_eq!(to_csd_i(3), "+0-".to_string());
    assert_eq!(to_csd_i(-28), "-00+00".to_string());
}

#[test]
fn test_to_decimal_integral_examples() {
    assert_eq!(to_decimal_integral("+00-00.+"), (28, 7));
    assert_eq!(to_decimal_integral("+00-00"), (28, 0));
    assert_eq!(to_decimal_integral("0.-"), (0, 2));
    assert_eq!(to_decimal_integral(""), (0, 0));
    assert_eq!(to_decimal_integral(".+"), (0, 1));
}
