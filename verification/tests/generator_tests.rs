use obd_equation_rs::generator::generate_equation_text;

/// The generator as a PID table calls it: scale and offset as numbers,
/// written the way Rust displays them, left out when they are neutral.
fn generate_equation(
    scale: f64,
    offset: f64,
    start_byte: i32,
    end_byte: i32,
    signed: bool,
) -> Option<String> {
    let s = if scale != 1.0 { Some(format!("{}", scale)) } else { None };
    let o = if offset != 0.0 { Some(format!("{}", offset)) } else { None };
    generate_equation_text(s.as_deref(), o.as_deref(), start_byte, end_byte, signed)
}

// Single byte, unsigned
#[test]
fn test_coolant_temp() {
    let eq = generate_equation(1.0, -40.0, 0, 0, false).unwrap();
    assert_eq!(eq, "A + -40");
}

#[test]
fn test_speed() {
    let eq = generate_equation(1.0, 0.0, 0, 0, false).unwrap();
    assert_eq!(eq, "A");
}

#[test]
fn test_engine_load() {
    let eq = generate_equation(0.3922, 0.0, 0, 0, false).unwrap();
    assert_eq!(eq, "0.3922 * A");
}

// Single byte, signed
#[test]
fn test_timing_advance() {
    let eq = generate_equation(0.5, -64.0, 0, 0, true).unwrap();
    assert_eq!(eq, "0.5 * (SIGNED(A)) + -64");
}

// Two bytes, unsigned
#[test]
fn test_rpm() {
    let eq = generate_equation(0.25, 0.0, 0, 1, false).unwrap();
    assert_eq!(eq, "0.25 * (A*256 + B)");
}

#[test]
fn test_maf() {
    let eq = generate_equation(0.01, 0.0, 0, 1, false).unwrap();
    assert_eq!(eq, "0.01 * (A*256 + B)");
}

// Two bytes, signed
#[test]
fn test_o2_wide_current() {
    let eq = generate_equation(0.00390625, 0.0, 2, 3, true).unwrap();
    assert_eq!(eq, "0.00390625 * (SIGNED16(C*256 + D))");
}

// Non-zero startByte
#[test]
fn test_o2_lambda_bytes_0_1() {
    let eq = generate_equation(0.0000305, 0.0, 0, 1, false).unwrap();
    assert_eq!(eq, "0.0000305 * (A*256 + B)");
}

#[test]
fn test_o2_current_bytes_2_3() {
    let eq = generate_equation(0.00390625, 0.0, 2, 3, true).unwrap();
    assert_eq!(eq, "0.00390625 * (SIGNED16(C*256 + D))");
}

// Three bytes
#[test]
fn test_three_byte_unsigned() {
    let eq = generate_equation(1.0, 0.0, 0, 2, false).unwrap();
    assert_eq!(eq, "A*65536 + B*256 + C");
}

#[test]
fn test_three_byte_signed() {
    let eq = generate_equation(1.0, 0.0, 0, 2, true).unwrap();
    assert!(eq.contains("IF"));
    assert!(eq.contains("8388608")); // 2^23
    assert!(eq.contains("16777216")); // 2^24
}

// Edge cases
#[test]
fn test_negative_offset() {
    let eq = generate_equation(1.0, -40.0, 0, 0, false).unwrap();
    assert!(eq.contains("-40"));
}

#[test]
fn test_very_small_scale() {
    let eq = generate_equation(0.0000305, 0.0, 0, 1, false).unwrap();
    assert!(eq.contains("0.0000305"));
}

#[test]
fn test_invalid_end_before_start() {
    assert!(generate_equation(1.0, 0.0, 3, 1, false).is_none());
}

#[test]
fn test_invalid_negative_start() {
    assert!(generate_equation(1.0, 0.0, -1, 0, false).is_none());
}

#[test]
fn test_invalid_byte_too_large() {
    // Byte 64+ is beyond the (generous) generator cap.
    assert!(generate_equation(1.0, 0.0, 64, 64, false).is_none());
}

// Bytes past Z use A1, B1, … (byte 26 = A1). Regression for the old `> 25` reject.
#[test]
fn test_byte_past_z_single() {
    assert_eq!(generate_equation(1.0, 0.0, 26, 26, false).unwrap(), "A1");
    assert_eq!(
        generate_equation(1.0, -40.0, 39, 39, false).unwrap(),
        "N1 + -40"
    );
}

// 0181-style: a 4-byte value at bytes 38–41 → M1..P1.
#[test]
fn test_four_byte_high_position() {
    let eq = generate_equation(1.0, 0.0, 38, 41, false).unwrap();
    assert_eq!(eq, "M1*16777216 + N1*65536 + O1*256 + P1");
}

#[test]
fn three_byte_signed_full_text() {
    let eq = generate_equation(1.0, 0.0, 0, 2, true).unwrap();
    assert_eq!(
        eq,
        "IF A*65536 + B*256 + C >= 8388608 THEN A*65536 + B*256 + C - 16777216 ELSE A*65536 + B*256 + C"
    );
}

#[test]
fn offset_only_on_compound_value_has_no_parentheses() {
    assert_eq!(
        generate_equation(1.0, 5.0, 0, 1, false).unwrap(),
        "A*256 + B + 5"
    );
    assert_eq!(
        generate_equation(2.0, 5.0, 0, 1, true).unwrap(),
        "2 * (SIGNED16(A*256 + B)) + 5"
    );
}

#[test]
fn eight_bytes_use_the_largest_weight() {
    let eq = generate_equation(1.0, 0.0, 0, 7, false).unwrap();
    assert!(eq.starts_with("A*72057594037927936 + B*281474976710656"));
    assert!(eq.ends_with("G*256 + H"));
}

#[test]
fn test_generator_equation_structure() {
    // RPM: 0.25 * (A*256 + B)
    let eq = generate_equation(0.25, 0.0, 0, 1, false).unwrap();
    assert!(eq.contains("A*256"), "RPM eq should contain A*256: {}", eq);
    assert!(eq.contains("B"), "RPM eq should contain B: {}", eq);

    // Coolant temp: A + -40
    let eq = generate_equation(1.0, -40.0, 0, 0, false).unwrap();
    assert!(eq.contains("A"), "Coolant eq should contain A: {}", eq);
    assert!(eq.contains("-40"), "Coolant eq should contain -40: {}", eq);

    // Signed 16-bit: should use SIGNED16
    let eq = generate_equation(0.25, 0.0, 0, 1, true).unwrap();
    assert!(
        eq.contains("SIGNED16"),
        "Signed 16-bit eq should use SIGNED16: {}",
        eq
    );

    // 4-byte odometer: A*16777216 + B*65536 + C*256 + D
    let eq = generate_equation(0.1, 0.0, 0, 3, false).unwrap();
    assert!(
        eq.contains("16777216"),
        "4-byte eq should contain 2^24: {}",
        eq
    );
    assert!(
        eq.contains("65536"),
        "4-byte eq should contain 2^16: {}",
        eq
    );
    assert!(eq.contains("D"), "4-byte eq should contain D: {}", eq);

    // O2 sensor bytes 2-3: should reference C and D
    let eq = generate_equation(8.0 / 65536.0, 0.0, 2, 3, false).unwrap();
    assert!(
        eq.contains("C*256"),
        "Bytes 2-3 eq should contain C*256: {}",
        eq
    );
    assert!(eq.contains("D"), "Bytes 2-3 eq should contain D: {}", eq);
}
