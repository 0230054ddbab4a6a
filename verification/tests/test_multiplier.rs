use csd::csd_multiplier::CsdMultiplier;

#[test]
fn test_valid_csd() {
    let csd = "+00-00+0+";
    let multiplier = CsdMultiplier::new(csd, 8, 8).unwrap();
    assert_eq!(multiplier.decimal_value(), 229);
}

#[test]
fn test_invalid_csd_chars() {
    let csd = "+01-00+0+";
    assert!(CsdMultiplier::new(csd, 8, 6).is_err());
}

#[test]
fn test_length_mismatch() {
    let csd = "+00-00+0+";
    assert!(CsdMultiplier::new(csd, 8, 5).is_err());
}

#[test]
fn test_new_error_texts() {
    let foreign = CsdMultiplier::new("+01-00+0+", 8, 8);
    assert_eq!(
        foreign.err(),
        Some("CSD string can only contain '+', '-', or '0'".to_string())
    );
    let short = CsdMultiplier::new("+00-00+0+", 8, 5);
    assert_eq!(
        short.err(),
        Some("CSD length 9 doesn't match M=5 (should be M+1)".to_string())
    );
    let huge = CsdMultiplier::new("+", 8, usize::MAX);
    assert_eq!(
        huge.err(),
        Some(format!(
            "CSD length 1 doesn't match M={} (should be M+1)",
            usize::MAX
        ))
    );
    // A foreign character is reported before a wrong length.
    let both = CsdMultiplier::new("+x", 8, 5);
    assert_eq!(
        both.err(),
        Some("CSD string can only contain '+', '-', or '0'".to_string())
    );
}

#[test]
fn test_generate_verilog_text() {
    let multiplier = CsdMultiplier::new("+00-00+", 8, 6).unwrap();
    assert_eq!(multiplier.decimal_value(), 57);
    let expected = "\
// CSD Multiplier for pattern: +00-00+ (value: 57)
module csd_multiplier (
    input signed [7:0] x,      // Input value (signed)
    output signed [13:0] result // Result (signed)
);

    // Signed shifted versions (Verilog handles sign extension)
    wire signed [13:0] x_shift6 = $signed({ {0{x[7]}}, x}) << 6;
    wire signed [13:0] x_shift3 = $signed({ {3{x[7]}}, x}) << 3;
    wire signed [13:0] x_shift0 = $signed({ {6{x[7]}}, x}) << 0;

    // CSD implementation with signed arithmetic
    assign result = x_shift6 - x_shift3 + x_shift0;
endmodule
";
    assert_eq!(multiplier.generate_verilog(), expected);
}

#[test]
fn test_generate_verilog_negative_lead() {
    let multiplier = CsdMultiplier::new("-0+", 4, 2).unwrap();
    assert_eq!(multiplier.decimal_value(), -3);
    let expected = "\
// CSD Multiplier for pattern: -0+ (value: -3)
module csd_multiplier (
    input signed [3:0] x,      // Input value (signed)
    output signed [5:0] result // Result (signed)
);

    // Signed shifted versions (Verilog handles sign extension)
    wire signed [5:0] x_shift2 = $signed({ {0{x[3]}}, x}) << 2;
    wire signed [5:0] x_shift0 = $signed({ {2{x[3]}}, x}) << 0;

    // CSD implementation with signed arithmetic
    assign result = -x_shift2 + x_shift0;
endmodule
";
    assert_eq!(multiplier.generate_verilog(), expected);
}

#[test]
fn test_generate_verilog_sum_of_two() {
    let multiplier = CsdMultiplier::new("+0+", 8, 2).unwrap();
    assert_eq!(multiplier.decimal_value(), 5);
    let text = multiplier.generate_verilog();
    assert!(text.contains("    assign result = x_shift2 + x_shift0;\n"));
    let multiplier = CsdMultiplier::new("-0-", 8, 2).unwrap();
    let text = multiplier.generate_verilog();
    assert!(text.contains("    assign result = -x_shift2 - x_shift0;\n"));
}

#[test]
fn test_generate_verilog_zero() {
    let multiplier = CsdMultiplier::new("000", 12, 2).unwrap();
    assert_eq!(multiplier.decimal_value(), 0);
    let expected = "\
// CSD Multiplier for pattern: 000 (value: 0)
module csd_multiplier (
    input signed [11:0] x,      // Input value (signed)
    output signed [13:0] result // Result (signed)
);

    // CSD implementation with signed arithmetic
    assign result = 0;
endmodule
";
    assert_eq!(multiplier.generate_verilog(), expected);
}
