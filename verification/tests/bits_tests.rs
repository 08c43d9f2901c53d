use obd_equation_rs::bits::{big_endian, bit, bit_field, int16, int24, int32};

#[test]
fn int16_of_bytes_is_big_endian() {
    assert_eq!(int16(1, 44), 300);
    assert_eq!(int16(0xFF, 0xFF), 65535);
    assert_eq!(int16(0, 0), 0);
}

#[test]
fn int16_of_wide_operands_or_combines() {
    // 300 << 8 = 76800, or-ed with 1
    assert_eq!(int16(300, 1), 76801);
    // the low operand is or-ed, not added
    assert_eq!(int16(1, 0x1FF), 0x1FF);
}

#[test]
fn int24_of_bytes_is_big_endian() {
    assert_eq!(int24(1, 2, 3), 65536 + 2 * 256 + 3);
    assert_eq!(int24(0xFF, 0xFF, 0xFF), 16_777_215);
}

#[test]
fn int32_of_bytes_is_signed_big_endian() {
    assert_eq!(int32(0, 0, 1, 0), 256);
    assert_eq!(int32(0x7F, 0xFF, 0xFF, 0xFF), i32::MAX);
    assert_eq!(int32(0xFF, 0xFF, 0xFF, 0xFF), -1);
    assert_eq!(int32(0x80, 0, 0, 0), i32::MIN);
}

#[test]
fn bit_reads_single_bits() {
    // 5 = 0b101
    assert!(bit(5, 0));
    assert!(!bit(5, 1));
    assert!(bit(5, 2));
    assert!(!bit(5, 3));
    // the index is taken modulo 32
    assert!(bit(5, 32));
    assert!(bit(-1, 31));
    assert!(!bit(0x7F, 7));
    assert!(bit(0x80, 7));
}

#[test]
fn bit_field_reads_nibbles() {
    assert_eq!(bit_field(0xAB, 0, 4), 0xB);
    assert_eq!(bit_field(0xAB, 4, 4), 0xA);
    assert_eq!(bit_field(0b1011_0110, 1, 3), 0b011);
}

#[test]
fn bit_field_edge_widths() {
    // a width of 32 wraps to 0: empty mask
    assert_eq!(bit_field(-1, 0, 32), 0);
    // a width of 31 keeps every bit below the sign bit
    assert_eq!(bit_field(-1, 0, 31), i32::MAX);
    // the arithmetic shift brings the sign bit down
    assert_eq!(bit_field(i32::MIN, 31, 1), 1);
    assert_eq!(bit_field(i32::MIN, 28, 4), 0x8);
}

#[test]
fn big_endian_assembles_float_bits() {
    assert_eq!(big_endian(&[0x3F, 0x80, 0x00, 0x00]), 0x3F80_0000);
    assert_eq!(f32::from_bits(big_endian(&[0x3F, 0x80, 0x00, 0x00]) as u32), 1.0f32);
    assert_eq!(
        big_endian(&[0x40, 0x09, 0x21, 0xFB, 0x54, 0x44, 0x2D, 0x18]),
        0x4009_21FB_5444_2D18
    );
    assert_eq!(big_endian(&[]), 0);
    assert_eq!(big_endian(&[0xFF; 8]), u64::MAX);
}
