use bitfield::ErrorKind;
use bitfield::MutableBitField;

#[test]
fn test_create_mask() {
    assert_eq!(MutableBitField::create_mask(0, 0), 0b10000000);
    assert_eq!(MutableBitField::create_mask(4, 4), 0b00001000);
    assert_eq!(MutableBitField::create_mask(7, 7), 0b00000001);
    assert_eq!(MutableBitField::create_mask(0, 4), 0b11111000);
    assert_eq!(MutableBitField::create_mask(1, 4), 0b01111000);
    assert_eq!(MutableBitField::create_mask(2, 4), 0b00111000);
    assert_eq!(MutableBitField::create_mask(0, 7), 0b11111111);
}

#[test]
fn test_set_bits() {
    let mut bitfield = MutableBitField::new(vec![0b10101010, 0b01010101, 0b10101010]);
    bitfield.set_bits(0b00001111, 0, 4, 7).unwrap();
    let bytes = bitfield.into_data();
    assert_eq!(bytes[0], 0b10101111);
    let mut bitfield = MutableBitField::new(vec![0b10101010, 0b01010101, 0b10101010]);
    bitfield.set_bits(0b00001111, 1, 0, 3).unwrap();
    let bytes = bitfield.into_data();
    assert_eq!(bytes[1], 0b11110101);
    let mut bitfield = MutableBitField::new(vec![0b10101010, 0b01010101, 0b10101010]);
    bitfield.set_bits(0b00001111, 1, 2, 4).unwrap();
    let bytes = bitfield.into_data();
    assert_eq!(bytes[1], 0b01111101);
}

#[test]
fn test_set_u8() {
    let mut bitfield = MutableBitField::new(vec![0b10101010, 0b01010101, 0b10101010]);
    bitfield.set_u8(0b00001111, 4, 7).unwrap();
    let bytes = bitfield.into_data();
    assert_eq!(bytes[0], 0b10101111);
    assert_eq!(bytes[1], 0b01010101);

    let mut bitfield = MutableBitField::new(vec![0b10101010, 0b01010101, 0b10101010]);
    bitfield.set_u8(0b00001111, 6, 9).unwrap();
    let bytes = bitfield.into_data();
    assert_eq!(bytes[0], 0b10101011);
    assert_eq!(bytes[1], 0b11010101);

    let mut bitfield = MutableBitField::new(vec![0b10101010, 0b01010101, 0b10101010]);
    bitfield.set_u8(0b00001111, 6, 9).unwrap();
    let bytes = bitfield.into_data();
    assert_eq!(bytes[0], 0b10101011);
    assert_eq!(bytes[1], 0b11010101);
}

#[test]
fn test_set_bits_errors() {
    let mut bitfield = MutableBitField::new(vec![0b10101010]);
    // byte index past the buffer
    let err = bitfield.set_bits(0b1, 1, 0, 0).unwrap_err();
    assert_eq!(err.kind, ErrorKind::OutOfRange);
    // inverted bit range within the byte
    let err = bitfield.set_bits(0b1, 0, 5, 2).unwrap_err();
    assert_eq!(err.kind, ErrorKind::InvRange);
    // bit position past the byte
    let err = bitfield.set_bits(0b1, 0, 3, 8).unwrap_err();
    assert_eq!(err.kind, ErrorKind::InvRange);
    // a failed write leaves the buffer unchanged
    let bytes = bitfield.into_data();
    assert_eq!(bytes[0], 0b10101010);
}

#[test]
fn test_set_u8_errors() {
    let mut bitfield = MutableBitField::new(vec![0b10101010, 0b01010101]);
    // start greater than end
    let err = bitfield.set_u8(0b1, 5, 2).unwrap_err();
    assert_eq!(err.kind, ErrorKind::OutOfRange);
    // more than 8 bits requested
    let err = bitfield.set_u8(0b1, 0, 8).unwrap_err();
    assert_eq!(err.kind, ErrorKind::InvParam);
    // range past the buffer, straddling the last byte boundary
    let err = bitfield.set_u8(0b1, 12, 17).unwrap_err();
    assert_eq!(err.kind, ErrorKind::OutOfRange);
    // no partial write happened: the whole range was validated first
    let bytes = bitfield.into_data();
    assert_eq!(bytes[0], 0b10101010);
    assert_eq!(bytes[1], 0b01010101);
}

#[test]
fn test_to_bitfield_reads_written_buffer() {
    let mut bitfield = MutableBitField::new(vec![0x00, 0x00]);
    bitfield.set_u8(0xAB, 0, 7).unwrap();
    bitfield.set_u8(0xCD, 8, 15).unwrap();
    let reader = bitfield.to_bitfield();
    assert_eq!(reader.get_u8(0, 7).unwrap(), 0xAB);
    assert_eq!(reader.get_u8(8, 15).unwrap(), 0xCD);
    assert_eq!(reader.get_u16_be(0, 15).unwrap(), 0xABCD);
}
