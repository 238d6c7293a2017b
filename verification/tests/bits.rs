use binutils::bits::BitSlice;

#[test]
fn bit_slice_test() {
    assert_eq!(0b10000100u8.bit_slice(1..2), 0);
    assert_eq!(0b10000100u8.bit_slice(0..2), 0b10);
    assert_eq!(0b10001110u8.bit_slice(4..8), 0b1110);
    assert_eq!(0b00001110u8.bit_slice(0..4), 0);
    assert_eq!(0b00001110u8.bit_slice(3..8), 0b1110);
}

#[test]
fn bit_slice_whole_byte() {
    assert_eq!(0b10110101u8.bit_slice(0..8), 0b10110101);
}

#[test]
fn bit_slice_single_bits() {
    assert_eq!(0b10000000u8.bit_slice(0..1), 1);
    assert_eq!(0b00000001u8.bit_slice(7..8), 1);
    assert_eq!(0b01111111u8.bit_slice(0..1), 0);
}

#[test]
fn bit_slice_empty_range_is_zero() {
    assert_eq!(0b11111111u8.bit_slice(5..2), 0);
    assert_eq!(0b11111111u8.bit_slice(3..3), 0);
}
