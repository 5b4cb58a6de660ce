use bitfield::BitField;
use bitfield::ErrorKind;
use bitfield::MutableBitField;

#[test]
fn test_bit_shift_formula() {
    let byte: u8 = 0x9C;
    let bitfield = BitField::new(vec![byte]);
    let mut i: usize = 0;
    while i < 8 {
        let expected = ((byte >> (7 - i)) & 1) == 1;
        assert_eq!(bitfield.get_bit(i).unwrap(), expected);
        i += 1;
    }
}

#[test]
fn test_round_trip_across_byte_boundary() {
    let mut writer = MutableBitField::new(vec![0b10101010, 0b01010101]);
    writer.set_u8(0b0110, 6, 9).unwrap();
    let reader = writer.to_bitfield();
    // the written range reads back exactly
    assert_eq!(reader.get_u8(6, 9).unwrap(), 0b0110);
    // every bit outside the range is unchanged
    assert_eq!(reader.get_u8(0, 5).unwrap(), 0b101010);
    assert_eq!(reader.get_u8(10, 15).unwrap(), 0b010101);
}

#[test]
fn test_round_trip_masks_wide_value() {
    let mut writer = MutableBitField::new(vec![0x00, 0x00]);
    // a 3-bit range keeps only the low 3 bits of the value
    writer.set_u8(0xFF, 2, 4).unwrap();
    let reader = writer.to_bitfield();
    assert_eq!(reader.get_u8(2, 4).unwrap(), 0b111);
    assert_eq!(reader.get_u8(0, 7).unwrap(), 0b00111000);
    assert_eq!(reader.get_u8(8, 15).unwrap(), 0);
}

#[test]
fn test_all_ones_reads_minus_one() {
    let bitfield = BitField::new(vec![0b00000000, 0b11111111, 0b00000000]);
    // runs of all-1 bits of several widths, all read as -1
    assert_eq!(bitfield.get_i8(8, 8).unwrap(), -1);
    assert_eq!(bitfield.get_i8(8, 12).unwrap(), -1);
    assert_eq!(bitfield.get_i8(10, 15).unwrap(), -1);
    let ones = BitField::new(vec![0xFF, 0xFF, 0xFF, 0xFF]);
    assert_eq!(ones.get_i16_be(0, 8).unwrap(), -1);
    assert_eq!(ones.get_i16_le(3, 17).unwrap(), -1);
    assert_eq!(ones.get_i32_be(0, 31).unwrap(), -1);
}

#[test]
fn test_zero_then_ones_reads_max() {
    let bitfield = BitField::new(vec![0b01111111, 0b11111111]);
    assert_eq!(bitfield.get_i8(0, 7).unwrap(), 127);
    assert_eq!(bitfield.get_i16_be(0, 15).unwrap(), 32767);
    // width 9: one 0 bit then eight 1 bits
    assert_eq!(bitfield.get_i16_be(0, 8).unwrap(), 255);
    let wide = BitField::new(vec![0x7F, 0xFF, 0xFF, 0xFF]);
    assert_eq!(wide.get_i32_be(0, 31).unwrap(), 0x7FFFFFFF);
}

#[test]
fn test_full_width_sign_bit() {
    // the full width is requested: the top bit is the native sign bit and
    // the unsigned pattern is reinterpreted unchanged
    let bitfield = BitField::new(vec![0x80, 0x00]);
    assert_eq!(bitfield.get_i16_be(0, 15).unwrap(), i16::MIN);
    let wide = BitField::new(vec![0x80, 0x00, 0x00, 0x00]);
    assert_eq!(wide.get_i32_be(0, 31).unwrap(), i32::MIN);
    let long = BitField::new(vec![0x00, 0x00, 0x00, 0x00, 0x00, 0x00, 0x00, 0x80]);
    assert_eq!(long.get_i64_le(0, 63).unwrap(), i64::MIN);
}

#[test]
fn test_endianness_duality() {
    // the little-endian reading of byte-reversed data matches the
    // big-endian reading of the original data
    let be16 = BitField::new(vec![0xAB, 0xCD]);
    let le16 = BitField::new(vec![0xCD, 0xAB]);
    assert_eq!(
        be16.get_u16_be(0, 15).unwrap(),
        le16.get_u16_le(0, 15).unwrap()
    );
    let be32 = BitField::new(vec![0x12, 0x34, 0x56, 0x78]);
    let le32 = BitField::new(vec![0x78, 0x56, 0x34, 0x12]);
    assert_eq!(be32.get_u32_be(0, 31).unwrap(), 0x12345678);
    assert_eq!(le32.get_u32_le(0, 31).unwrap(), 0x12345678);
    let be64 = BitField::new(vec![0x01, 0x23, 0x45, 0x67, 0x89, 0xAB, 0xCD, 0xEF]);
    let le64 = BitField::new(vec![0xEF, 0xCD, 0xAB, 0x89, 0x67, 0x45, 0x23, 0x01]);
    assert_eq!(
        be64.get_u64_be(0, 63).unwrap(),
        le64.get_u64_le(0, 63).unwrap()
    );
}

#[test]
fn test_get_u8_boundaries() {
    let bitfield = BitField::new(vec![0xAA, 0xAA, 0xAA]);
    // more than 8 bits requested
    let err = bitfield.get_u8(0, 8).unwrap_err();
    assert_eq!(err.kind, ErrorKind::InvParam);
    // start greater than end
    let err = bitfield.get_u8(5, 2).unwrap_err();
    assert_eq!(err.kind, ErrorKind::OutOfRange);
    // range past the buffer
    let err = bitfield.get_u8(20, 24).unwrap_err();
    assert_eq!(err.kind, ErrorKind::OutOfRange);
    // the range ending on the last bit still succeeds
    assert_eq!(bitfield.get_u8(16, 23).unwrap(), 0xAA);
}

#[test]
fn test_error_chain() {
    let bitfield = BitField::new(vec![0xAA]);
    let err = bitfield.get_bit(8).unwrap_err();
    assert_eq!(err.kind, ErrorKind::OutOfRange);
    assert!(err.cause.is_some());
    assert!(!err.message().is_empty());
    let err = bitfield.get_i8(8, 12).unwrap_err();
    assert_eq!(err.kind, ErrorKind::OutOfRange);
    assert!(err.cause.is_some());
}
