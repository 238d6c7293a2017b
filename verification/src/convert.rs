//! Conversions between bytes, hexadecimal and octal digits, and big-endian byte arrays.

use vstd::prelude::*;

verus! {

/// The character `0`.
pub const DIGIT_ZERO: u8 = 0x30;

/// The character `9`.
pub const DIGIT_NINE: u8 = 0x39;

/// The character `a`.
pub const LETTER_A: u8 = 0x61;

/// The character `f`.
pub const LETTER_F: u8 = 0x66;

/// The high and the low hexadecimal digit of a byte, as numbers below 16.
pub open spec fn hex_digits_of(from: u8) -> (u8, u8) {
    ((from / 16) as u8, (from % 16) as u8)
}

/// Splits a byte into its two hexadecimal digits, high digit first.
pub fn u8_to_hex(from: u8) -> (digits: (u8, u8))
    ensures
        digits == hex_digits_of(from),
        digits.0 < 16,
        digits.1 < 16,
{
    assert(from >> 4 == from / 16) by (bit_vector);
    assert(from & 0b1111 == from % 16) by (bit_vector);
    (from >> 4, from & 0b1111)
}

/// The byte that two digits join to: the high digit moves four bits up, losing what
/// does not fit in a byte, and the low digit is added.
pub open spec fn byte_of_digits(pair: (u8, u8)) -> int {
    (pair.0 * 16) % 256 + pair.1
}

/// Joins two hexadecimal digits into a byte, high digit first.
pub fn hex_to_u8(pair: (u8, u8)) -> (byte: u8)
    requires
        byte_of_digits(pair) <= u8::MAX,
    ensures
        byte == byte_of_digits(pair),
        pair.0 < 16 && pair.1 < 16 ==> byte == pair.0 * 16 + pair.1,
{
    let a: u8 = pair.0;
    let b: u8 = pair.1;
    assert(a << 4 == (a * 16) % 256) by (bit_vector);
    (a << 4) + b
}

/// Big-endian bytes of a 32-bit number.
pub fn u32_byte_array(value: u32) -> (bytes: [u8; 4])
    ensures
        bytes[0] == value / 0x100_0000,
        bytes[1] == (value / 0x1_0000) % 256,
        bytes[2] == (value / 0x100) % 256,
        bytes[3] == value % 256,
{
    assert((value >> 24) & 255 == value / 0x100_0000) by (bit_vector);
    assert((value >> 16) & 255 == (value / 0x1_0000) % 256) by (bit_vector);
    assert((value >> 8) & 255 == (value / 0x100) % 256) by (bit_vector);
    assert(value & 255 == value % 256) by (bit_vector);
    [
        ((value >> 24) & 255) as u8,
        ((value >> 16) & 255) as u8,
        ((value >> 8) & 255) as u8,
        (value & 255) as u8,
    ]
}

/// The ASCII character that writes a digit: `0` to `9`, then `a` onwards.
pub open spec fn digit_char(digit: u8) -> int {
    if digit <= 9 {
        DIGIT_ZERO + digit
    } else {
        LETTER_A - 10 + digit
    }
}

/// Whether a character is one of `0` to `9` or `a` to `f`.
pub open spec fn is_hex_char(c: u8) -> bool {
    (DIGIT_ZERO <= c <= DIGIT_NINE) || (LETTER_A <= c <= LETTER_F)
}

/// The number that a character writes: `0` to `9` count from zero, `a` onwards from ten.
pub open spec fn char_digit(c: u8) -> int {
    if c <= DIGIT_NINE {
        c - DIGIT_ZERO
    } else {
        c - LETTER_A + 10
    }
}

/// Tells whether a character is a hexadecimal digit in lower case.
pub fn is_hex_digit(c: u8) -> (yes: bool)
    ensures
        yes == is_hex_char(c),
{
    (DIGIT_ZERO <= c && c <= DIGIT_NINE) || (LETTER_A <= c && c <= LETTER_F)
}

/// Writes a digit as an ASCII character, in lower case.
///
/// Digits above fifteen continue through the alphabet past `f`, as long as the
/// character still fits in a byte.
pub fn hex_to_ascii(b: u8) -> (c: u8)
    requires
        digit_char(b) <= u8::MAX,
    ensures
        c == digit_char(b),
        b < 16 ==> is_hex_char(c) && char_digit(c) == b,
{
    if b <= 9 {
        DIGIT_ZERO + b
    } else {
        LETTER_A - 10 + b
    }
}

/// Reads an ASCII character as a digit.
///
/// The character is a decimal digit, or `a` or a later character.
pub fn ascii_to_hex(b: u8) -> (digit: u8)
    requires
        (DIGIT_ZERO <= b <= DIGIT_NINE) || LETTER_A <= b,
    ensures
        digit == char_digit(b),
        is_hex_char(b) ==> digit < 16 && digit_char(digit) == b,
{
    if DIGIT_ZERO <= b && b <= DIGIT_NINE {
        b - DIGIT_ZERO
    } else {
        b - LETTER_A + 10
    }
}

/// The three octal digits of a byte, highest first.
pub open spec fn oct_digits_of(from: u8) -> (u8, u8, u8) {
    ((from / 64) as u8, ((from / 8) % 8) as u8, (from % 8) as u8)
}

/// Splits a byte into its three octal digits, highest first.
pub fn u8_to_oct(from: u8) -> (digits: (u8, u8, u8))
    ensures
        digits == oct_digits_of(from),
        digits.0 < 4,
        digits.1 < 8,
        digits.2 < 8,
{
    assert(from >> 6 == from / 64) by (bit_vector);
    assert((from >> 3) & 0b111 == (from / 8) % 8) by (bit_vector);
    assert(from & 0b111 == from % 8) by (bit_vector);
    (from >> 6, (from >> 3) & 0b111, from & 0b111)
}

} // verus!
