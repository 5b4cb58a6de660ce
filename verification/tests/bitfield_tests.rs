use bitfield::BitField;

#[test]
fn test_get_bits() {
    const BYTES: [u8; 3] = [0b10101010, 0b01010101, 0b10101010];
    let bitfield = BitField::new(BYTES.to_vec());

    assert_eq!(bitfield.get_bit(0).unwrap(), true);
    assert_eq!(bitfield.get_bit(1).unwrap(), false);
    assert_eq!(bitfield.get_bit(2).unwrap(), true);
    assert_eq!(bitfield.get_bit(3).unwrap(), false);
    assert_eq!(bitfield.get_bit(4).unwrap(), true);
    assert_eq!(bitfield.get_bit(5).unwrap(), false);
    assert_eq!(bitfield.get_bit(6).unwrap(), true);
    assert_eq!(bitfield.get_bit(7).unwrap(), false);

    assert_eq!(bitfield.get_bit(8).unwrap(), false);
    assert_eq!(bitfield.get_bit(9).unwrap(), true);
    assert_eq!(bitfield.get_bit(10).unwrap(), false);
    assert_eq!(bitfield.get_bit(11).unwrap(), true);
    assert_eq!(bitfield.get_bit(12).unwrap(), false);
    assert_eq!(bitfield.get_bit(13).unwrap(), true);
    assert_eq!(bitfield.get_bit(14).unwrap(), false);
    assert_eq!(bitfield.get_bit(15).unwrap(), true);

    assert_eq!(bitfield.get_bit(16).unwrap(), true);
    assert_eq!(bitfield.get_bit(17).unwrap(), false);
    assert_eq!(bitfield.get_bit(18).unwrap(), true);
    assert_eq!(bitfield.get_bit(19).unwrap(), false);
    assert_eq!(bitfield.get_bit(20).unwrap(), true);
    assert_eq!(bitfield.get_bit(21).unwrap(), false);
    assert_eq!(bitfield.get_bit(22).unwrap(), true);
    assert_eq!(bitfield.get_bit(23).unwrap(), false);
}

#[test]
fn test_get_u8() {
    const BYTES: [u8; 3] = [0b10101010, 0b10101010, 0b10101010];
    let bitfield = BitField::new(BYTES.to_vec());
    // 8 - 1 bits right justified
    assert_eq!(bitfield.get_u8(0, 7).unwrap(), 0b10101010);
    assert_eq!(bitfield.get_u8(1, 7).unwrap(), 0b00101010);
    assert_eq!(bitfield.get_u8(2, 7).unwrap(), 0b00101010);
    assert_eq!(bitfield.get_u8(3, 7).unwrap(), 0b00001010);
    assert_eq!(bitfield.get_u8(4, 7).unwrap(), 0b00001010);
    assert_eq!(bitfield.get_u8(5, 7).unwrap(), 0b00000010);
    assert_eq!(bitfield.get_u8(6, 7).unwrap(), 0b00000010);
    assert_eq!(bitfield.get_u8(7, 7).unwrap(), 0b00000000);

    // 7 - 2 bits left justified
    assert_eq!(bitfield.get_u8(0, 6).unwrap(), 0b01010101);
    assert_eq!(bitfield.get_u8(0, 5).unwrap(), 0b00101010);
    assert_eq!(bitfield.get_u8(0, 4).unwrap(), 0b00010101);
    assert_eq!(bitfield.get_u8(0, 3).unwrap(), 0b00001010);
    assert_eq!(bitfield.get_u8(0, 2).unwrap(), 0b00000101);
    assert_eq!(bitfield.get_u8(0, 1).unwrap(), 0b00000010);

    // 6 bits crossing into byte 2 bits left justified
    assert_eq!(bitfield.get_u8(2, 8).unwrap(), 0b01010101);
    assert_eq!(bitfield.get_u8(3, 9).unwrap(), 0b00101010);
    assert_eq!(bitfield.get_u8(4, 10).unwrap(), 0b01010101);
    assert_eq!(bitfield.get_u8(5, 11).unwrap(), 0b00101010);
    assert_eq!(bitfield.get_u8(6, 12).unwrap(), 0b01010101);
    assert_eq!(bitfield.get_u8(7, 13).unwrap(), 0b00101010);
    assert_eq!(bitfield.get_u8(8, 14).unwrap(), 0b01010101);
    assert_eq!(bitfield.get_u8(9, 15).unwrap(), 0b00101010);

    // 5 bits crossing into byte 2 bits left justified
    assert_eq!(bitfield.get_u8(3, 8).unwrap(), 0b00010101);
    assert_eq!(bitfield.get_u8(4, 9).unwrap(), 0b00101010);
    assert_eq!(bitfield.get_u8(5, 10).unwrap(), 0b00010101);
    assert_eq!(bitfield.get_u8(6, 11).unwrap(), 0b00101010);
    assert_eq!(bitfield.get_u8(7, 12).unwrap(), 0b00010101);
    assert_eq!(bitfield.get_u8(8, 13).unwrap(), 0b00101010);
    assert_eq!(bitfield.get_u8(9, 14).unwrap(), 0b00010101);
    assert_eq!(bitfield.get_u8(10, 15).unwrap(), 0b00101010);
}

#[test]
fn test_get_i8() {
    const BYTES: [u8; 3] = [0b00000000, 0b11111111, 0b10101010];
    let bitfield = BitField::new(BYTES.to_vec());
    assert_eq!(bitfield.get_i8(8, 15).unwrap(), -1);
    assert_eq!(bitfield.get_i8(9, 15).unwrap(), -1);
    assert_eq!(bitfield.get_i8(10, 15).unwrap(), -1);
    assert_eq!(bitfield.get_i8(11, 15).unwrap(), -1);
    assert_eq!(bitfield.get_i8(12, 15).unwrap(), -1);
    assert_eq!(bitfield.get_i8(13, 15).unwrap(), -1);
    assert_eq!(bitfield.get_i8(7, 14).unwrap(), 127);
    const BYTE1: u8 = 0b10101010;
    const BYTE2: u8 = 0b11101010;
    const BYTE3: u8 = 0b11110101;
    const BYTE4: u8 = 0b11111010;

    assert_eq!(bitfield.get_i8(16, 23).unwrap(), (BYTE1 as i8));
    assert_eq!(bitfield.get_i8(18, 23).unwrap(), (BYTE2 as i8));
    assert_eq!(bitfield.get_i8(14, 21).unwrap(), (BYTE2 as i8));
    assert_eq!(bitfield.get_i8(14, 20).unwrap(), (BYTE3 as i8));
    assert_eq!(bitfield.get_i8(14, 19).unwrap(), (BYTE4 as i8));
}

#[test]
fn test_get_i32() {
    const BYTES: [u8; 6] = [
        0b00000000, 0b11111111, 0b11111111, 0b11111111, 0b11111111, 0b10101010,
    ];
    let bitfield = BitField::new(BYTES.to_vec());
    assert_eq!(bitfield.get_i32_be(8, 39).unwrap(), -1);
    assert_eq!(bitfield.get_i32_be(9, 39).unwrap(), -1);
    assert_eq!(bitfield.get_i32_be(10, 39).unwrap(), -1);
    assert_eq!(bitfield.get_i32_be(11, 39).unwrap(), -1);
    assert_eq!(bitfield.get_i32_be(12, 39).unwrap(), -1);
    assert_eq!(bitfield.get_i32_be(13, 39).unwrap(), -1);
    assert_eq!(bitfield.get_i32_be(7, 38).unwrap(), 0x7FFFFFFF as i32);
    assert_eq!(bitfield.get_i32_be(16, 47).unwrap(), -86);
}

#[test]
fn test_get_i16() {
    const BYTES: [u8; 4] = [0b00000000, 0b11111111, 0b11111111, 0b10101010];
    let bitfield = BitField::new(BYTES.to_vec());
    assert_eq!(bitfield.get_i16_be(8, 23).unwrap(), -1);
    assert_eq!(bitfield.get_i16_be(9, 23).unwrap(), -1);
    assert_eq!(bitfield.get_i16_be(10, 23).unwrap(), -1);
    assert_eq!(bitfield.get_i16_be(11, 23).unwrap(), -1);
    assert_eq!(bitfield.get_i16_be(12, 23).unwrap(), -1);
    assert_eq!(bitfield.get_i16_be(13, 23).unwrap(), -1);
    assert_eq!(bitfield.get_i16_be(7, 22).unwrap(), 0x7FFF as i16);
}

#[test]
fn test_get_u16_be() {
    const BYTES: [u8; 3] = [0b10101010, 0b10101010, 0b10101010];
    let bitfield = BitField::new(BYTES.to_vec());
    assert_eq!(bitfield.get_u16_be(0, 15).unwrap(), 0b1010101010101010);
    assert_eq!(bitfield.get_u16_be(1, 16).unwrap(), 0b0101010101010101);
    assert_eq!(bitfield.get_u16_be(2, 17).unwrap(), 0b1010101010101010);
    assert_eq!(bitfield.get_u16_be(2, 16).unwrap(), 0b0101010101010101);
    assert_eq!(bitfield.get_u16_be(2, 15).unwrap(), 0b0010101010101010);
    assert_eq!(bitfield.get_u16_be(2, 14).unwrap(), 0b0001010101010101);
    assert_eq!(bitfield.get_u16_be(2, 13).unwrap(), 0b0000101010101010);
    assert_eq!(bitfield.get_u16_be(2, 12).unwrap(), 0b0000010101010101);
    assert_eq!(bitfield.get_u16_be(2, 11).unwrap(), 0b0000001010101010);
    assert_eq!(bitfield.get_u16_be(2, 10).unwrap(), 0b0000000101010101);
    assert_eq!(bitfield.get_u16_be(2, 9).unwrap(), 0b0000000010101010);
}

#[test]
fn test_get_u32_be() {
    const BYTES: [u8; 6] = [
        0b10101010, 0b10101010, 0b10101010, 0b10101010, 0b10101010, 0b10101010,
    ];

    let bitfield = BitField::new(BYTES.to_vec());
    assert_eq!(
        bitfield.get_u32_be(0, 31).unwrap(),
        0b10101010101010101010101010101010
    );
    assert_eq!(
        bitfield.get_u32_be(1, 32).unwrap(),
        0b001010101010101010101010101010101
    );
    assert_eq!(
        bitfield.get_u32_be(2, 32).unwrap(),
        0b001010101010101010101010101010101
    );
    assert_eq!(
        bitfield.get_u32_be(3, 32).unwrap(),
        0b000010101010101010101010101010101
    );
    assert_eq!(
        bitfield.get_u32_be(4, 32).unwrap(),
        0b000010101010101010101010101010101
    );

    assert_eq!(
        bitfield.get_u32_be(5, 32).unwrap(),
        0b000000101010101010101010101010101
    );

    assert_eq!(
        bitfield.get_u32_be(6, 32).unwrap(),
        0b000000101010101010101010101010101
    );

    assert_eq!(
        bitfield.get_u32_be(7, 32).unwrap(),
        0b000000001010101010101010101010101
    );

    assert_eq!(
        bitfield.get_u32_be(8, 32).unwrap(),
        0b000000001010101010101010101010101
    );
}

#[test]
fn test_get_u16_le() {
    const BYTES: [u8; 3] = [0x12, 0x34, 0x56];
    let bitfield = BitField::new(BYTES.to_vec());
    // full 16 bits: the first byte is the low byte
    assert_eq!(bitfield.get_u16_le(0, 15).unwrap(), 0x3412);
    assert_eq!(bitfield.get_u16_le(8, 23).unwrap(), 0x5634);
    // 12 bits: a full chunk, then a 4-bit trailing chunk on top
    assert_eq!(bitfield.get_u16_le(0, 11).unwrap(), 0x0312);
    // 8 bits or fewer: the same as a plain unsigned read
    assert_eq!(bitfield.get_u16_le(0, 7).unwrap(), 0x12);
    assert_eq!(bitfield.get_u16_le(4, 11).unwrap(), 0x23);
}

#[test]
fn test_get_u32_le() {
    const BYTES: [u8; 5] = [0x12, 0x34, 0x56, 0x78, 0x9A];
    let bitfield = BitField::new(BYTES.to_vec());
    assert_eq!(bitfield.get_u32_le(0, 31).unwrap(), 0x78563412);
    assert_eq!(bitfield.get_u32_le(8, 39).unwrap(), 0x9A785634);
    // 20 bits: two full chunks, then a 4-bit trailing chunk on top
    assert_eq!(bitfield.get_u32_le(0, 19).unwrap(), 0x53412);
    assert_eq!(bitfield.get_u32_le(0, 15).unwrap(), 0x3412);
}

#[test]
fn test_get_u64_be() {
    const BYTES: [u8; 9] = [0x01, 0x23, 0x45, 0x67, 0x89, 0xAB, 0xCD, 0xEF, 0x55];
    let bitfield = BitField::new(BYTES.to_vec());
    assert_eq!(bitfield.get_u64_be(0, 63).unwrap(), 0x0123456789ABCDEF);
    assert_eq!(bitfield.get_u64_be(8, 71).unwrap(), 0x23456789ABCDEF55);
    assert_eq!(bitfield.get_u64_be(0, 11).unwrap(), 0x012);
    assert_eq!(bitfield.get_u64_be(4, 15).unwrap(), 0x123);
}

#[test]
fn test_get_u64_le() {
    const BYTES: [u8; 9] = [0x01, 0x23, 0x45, 0x67, 0x89, 0xAB, 0xCD, 0xEF, 0x55];
    let bitfield = BitField::new(BYTES.to_vec());
    assert_eq!(bitfield.get_u64_le(0, 63).unwrap(), 0xEFCDAB8967452301);
    assert_eq!(bitfield.get_u64_le(8, 71).unwrap(), 0x55EFCDAB89674523);
    // 12 bits: a full chunk, then a 4-bit trailing chunk on top
    assert_eq!(bitfield.get_u64_le(0, 11).unwrap(), 0x201);
}

#[test]
fn test_get_i16_le() {
    const BYTES: [u8; 2] = [0xFF, 0xFF];
    let bitfield = BitField::new(BYTES.to_vec());
    assert_eq!(bitfield.get_i16_le(0, 15).unwrap(), -1);
    const BYTES2: [u8; 2] = [0x34, 0x12];
    let bitfield2 = BitField::new(BYTES2.to_vec());
    assert_eq!(bitfield2.get_i16_le(0, 15).unwrap(), 0x1234);
    // 8 bits or fewer fall back to a plain signed byte read
    assert_eq!(bitfield2.get_i16_le(0, 7).unwrap(), 0x34);
}

#[test]
fn test_get_i32_le() {
    const BYTES: [u8; 4] = [0xFF, 0xFF, 0xFF, 0xFF];
    let bitfield = BitField::new(BYTES.to_vec());
    assert_eq!(bitfield.get_i32_le(0, 31).unwrap(), -1);
    const BYTES2: [u8; 4] = [0x78, 0x56, 0x34, 0x12];
    let bitfield2 = BitField::new(BYTES2.to_vec());
    assert_eq!(bitfield2.get_i32_le(0, 31).unwrap(), 0x12345678);
}

#[test]
fn test_get_i64_le() {
    const BYTES: [u8; 8] = [0xFF, 0xFF, 0xFF, 0xFF, 0xFF, 0xFF, 0xFF, 0xFF];
    let bitfield = BitField::new(BYTES.to_vec());
    assert_eq!(bitfield.get_i64_le(0, 63).unwrap(), -1);
    const BYTES2: [u8; 8] = [0xEF, 0xCD, 0xAB, 0x89, 0x67, 0x45, 0x23, 0x01];
    let bitfield2 = BitField::new(BYTES2.to_vec());
    assert_eq!(bitfield2.get_i64_le(0, 63).unwrap(), 0x0123456789ABCDEF);
    assert_eq!(bitfield2.get_i64_le(0, 15).unwrap(), -12817);
}
