use csd::builder::EncodingPolicy;
use csd::error::CsdError;
use csd::recoder::{digit_sign, Adjust, Comparison, Phase, Recoder};
use csd::safe::{to_decimal_integral_checked, to_decimal_integral_safe};

/// Runs the digit loop on an `f64` residual.
fn drive(decimal_value: f64, policy: EncodingPolicy) -> String {
    let absnum = decimal_value.abs();
    let rem = if absnum < 1.0 {
        0
    } else {
        (absnum * 1.5).log2().ceil() as i32
    };
    let mut recoder = Recoder::new(rem as u32, policy);
    let mut p2n = 2.0_f64.powi(rem);
    let mut residual = decimal_value;
    while recoder.more(residual.abs() > 1e-100) {
        p2n /= 2.0;
        let det = 1.5 * residual;
        let outcome = if det > p2n {
            Comparison::Above
        } else if det < -p2n {
            Comparison::Below
        } else {
            Comparison::Within
        };
        match recoder.push(outcome) {
            Adjust::Subtract => residual -= p2n,
            Adjust::Add => residual += p2n,
            Adjust::Keep => {}
            Adjust::Clear => residual = 0.0,
        }
    }
    recoder.finish()
}

fn to_csd(decimal_value: f64, places: i32) -> String {
    drive(decimal_value, EncodingPolicy::FixedPlaces(places.max(0) as u32))
}

fn to_csdnnz(decimal_value: f64, nnz: u32) -> String {
    drive(decimal_value, EncodingPolicy::MaxNonZeros(nnz))
}

fn to_csdfixed(decimal_value: f64, nnz: u32) -> String {
    to_csdnnz(decimal_value, nnz)
}

fn to_decimal(csd: &str) -> f64 {
    let (integral, loc) = to_decimal_integral_checked(csd).unwrap();
    let mut value = f64::from(integral);
    if loc > 0 {
        let mut scale = 0.5;
        for digit in csd[loc..].chars() {
            value += f64::from(digit_sign(digit).unwrap()) * scale;
            scale /= 2.0;
        }
    }
    value
}

fn nonzero_digits(s: &str) -> usize {
    s.chars().filter(|c| *c == '+' || *c == '-').count()
}

#[test]
fn csd_test_to_csd() {
    assert_eq!(to_csd(28.5, 2), "+00-00.+0".to_string());
    assert_eq!(to_csd(-0.5, 2), "0.-0".to_string());
    assert_eq!(to_csd(0.0, 2), "0.00".to_string());
    assert_eq!(to_csd(0.0, 0), "0.".to_string());
    assert_eq!(to_csd(2.5, 4), "+0.+000".to_string());
}

#[test]
fn test_csd_test_to_csd() {
    assert_eq!(String::from("+00-00.+0"), to_csd(28.5, 2));
    assert_eq!(String::from("0.-0"), to_csd(-0.5, 2));
}

#[test]
fn test_to_decimal() {
    assert_eq!(to_decimal(&String::from("+00-00.+")), 28.5);
    assert_eq!(to_decimal(&String::from("0.-")), -0.5);
}

#[test]
fn test_to_csdfixed() {
    assert_eq!(String::from("+00-00.+"), to_csdfixed(28.5, 4));
    assert_eq!(String::from("0.-"), to_csdfixed(-0.5, 4));
}

#[test]
fn test_to_csdnnz() {
    assert_eq!(to_csdnnz(28.5, 4), "+00-00.+".to_string());
    assert_eq!(to_csdnnz(-0.5, 4), "0.-".to_string());
    assert_eq!(to_csdnnz(0.0, 4), "0".to_string());
    assert_eq!(to_csdnnz(0.0, 0), "0".to_string());
    assert_eq!(to_csdnnz(0.5, 4), "0.+".to_string());
    assert_eq!(to_csdnnz(-0.5, 4), "0.-".to_string());
    assert_eq!(to_csdnnz(28.5, 2), "+00-00".to_string());
    assert_eq!(to_csdnnz(28.5, 1), "+00000".to_string());
}

#[test]
#[should_panic]
fn test_to_decimal_invalid1() {
    let _res = to_decimal("+00XXX-00.00+");
}

#[test]
#[should_panic]
fn test_to_decimal_invalid2() {
    let _res = to_decimal("+00-00.0XXX0+");
}

#[test]
fn test_neighbouring_digits_below_one() {
    // Below one the integral part is a lone zero, so a number above two
    // thirds starts with two non-zero digits behind the point.
    assert_eq!(to_csd(0.75, 2), "0.++");
    assert_eq!(to_decimal("0.++"), 0.75);
}

#[test]
fn test_to_decimal_examples() {
    assert_eq!(to_decimal("0"), 0.0);
    assert_eq!(to_decimal("0.0"), 0.0);
    assert_eq!(to_decimal("0.+"), 0.5);
    assert_eq!(to_decimal("0.++"), 0.75);
    assert_eq!(to_decimal("0.-+"), -0.25);
    assert_eq!(to_decimal("+00-00"), 28.0);
}

#[test]
fn test_float_round_trip() {
    for d in -4000..4000 {
        let f = f64::from(d) / 8.0;
        assert_eq!(to_decimal(&to_csd(f, 4)), f);
    }
    for places in 0..12 {
        for v in [0.1, -0.3, 3.14159, -27.18281828, 1000.001, 0.7] {
            let back = to_decimal(&to_csd(v, places));
            assert!((back - v).abs() <= 0.5_f64.powi(places));
        }
    }
}

#[test]
fn test_float_budget() {
    for k in 0..8u32 {
        for v in [0.1, -0.3, 3.14159, -27.18281828, 1000.001, 0.7, 0.75, 28.5] {
            assert!(nonzero_digits(&to_csdnnz(v, k)) <= k as usize);
        }
    }
}

#[test]
fn test_zero_places_keeps_the_point() {
    assert_eq!(to_csd(28.5, 0), "+00-00.");
    assert_eq!(to_csd(-3.0, 0), "-0+.");
    assert_eq!(to_csd(0.25, 0), "0.");
}

#[test]
fn test_recoder_steps() {
    let mut recoder = Recoder::new(2, EncodingPolicy::MaxNonZeros(1));
    assert!(recoder.more(true));
    assert_eq!(recoder.push(Comparison::Within), Adjust::Keep);
    // The one unit of the budget is spent by this digit.
    assert_eq!(recoder.push(Comparison::Below), Adjust::Clear);
    assert!(!recoder.more(true));
    // From here on the comparison is not looked at.
    assert_eq!(recoder.push(Comparison::Above), Adjust::Clear);
    assert_eq!(recoder.finish(), "0-.0");

    let mut recoder = Recoder::new(1, EncodingPolicy::MaxNonZeros(3));
    assert_eq!(recoder.push(Comparison::Above), Adjust::Subtract);
    assert!(recoder.more(true));
    assert!(!recoder.more(false));
    assert_eq!(recoder.push(Comparison::Below), Adjust::Add);
    assert_eq!(recoder.finish(), "+.-");

    let mut recoder = Recoder::new(0, EncodingPolicy::FixedPlaces(2));
    assert!(recoder.more(false));
    assert_eq!(recoder.push(Comparison::Above), Adjust::Subtract);
    assert_eq!(recoder.push(Comparison::Within), Adjust::Keep);
    assert!(!recoder.more(true));
    assert_eq!(recoder.finish(), "0.+0");

    let recoder = Recoder::new(0, EncodingPolicy::FixedPlaces(0));
    assert!(!recoder.more(true));
    assert_eq!(recoder.finish(), "0.");

    assert_eq!(Phase::Recoding, Phase::Recoding);
}

#[test]
fn test_digit_sign() {
    assert_eq!(digit_sign('+'), Some(1));
    assert_eq!(digit_sign('-'), Some(-1));
    assert_eq!(digit_sign('0'), Some(0));
    assert_eq!(digit_sign('.'), None);
    assert_eq!(digit_sign('1'), None);
}

#[test]
fn test_decode_safe_with_fraction() {
    assert_eq!(to_decimal_integral_safe("+00-00.+"), Ok((28, 7)));
    assert_eq!(
        to_decimal_integral_safe("+00X-00"),
        Err(CsdError::InvalidCharacter('X', 3))
    );
    assert_eq!(
        to_decimal_integral_checked("+00XXX-00.00+"),
        Err(CsdError::InvalidCharacter('X', 3))
    );
    // Only the part in front of the point is held to the digits here.
    assert_eq!(to_decimal_integral_checked("+00-00.0XXX0+"), Ok((28, 7)));
    assert!(to_decimal_integral_safe("+00-00.0XXX0+").is_err());
}
