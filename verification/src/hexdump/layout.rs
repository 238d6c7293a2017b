//! The text of a dump, as a function of the bytes dumped.
//!
//! ```text
//! AAAAAAAA: HHHH HHHH HHHH HHHH HHHH HHHH HHHH HHHH  GGGGGGGGGGGGGGGG
//! ```
//!
//! Every line gives the address of its first byte in eight digits, then groups of two
//! bytes in four digits, then the gutter, which always starts at the same column.

use crate::hex::hex_pair;
use crate::strings::IsPrintable;
use vstd::prelude::*;

verus! {

/// The space that separates the columns.
pub const SPACE: u8 = 0x20;

/// The colon that follows the address.
pub const COLON: u8 = 0x3a;

/// The character that stands in the gutter for a byte that is not printable.
pub const DOT: u8 = 0x2e;

/// The line feed that ends a line.
pub const NEWLINE: u8 = 0x0a;

/// The number of bytes on a full line.
pub const LINE_BYTES: usize = 16;

/// The number of characters before the groups: the address, a colon and a space.
pub const GROUPS_COLUMN: usize = 10;

/// The number of characters that one group of two bytes takes, with its space.
pub const GROUP_WIDTH: usize = 5;

/// The number of groups on a full line.
pub const LINE_GROUPS: usize = 8;

/// The number of characters before the gutter, on every line.
pub const GUTTER_COLUMN: usize = 51;

/// The number of characters of a full line, line feed included.
pub const FULL_LINE_WIDTH: usize = 68;

/// The number of bytes that an address of eight digits can tell apart.
pub const ADDRESS_SPACE: u64 = 0x1_0000_0000;

/// An address as eight hexadecimal digits, most significant byte first.
#[verifier::opaque]
pub open spec fn address_text(address: u32) -> Seq<u8> {
    hex_pair((address / 0x100_0000) as u8) + hex_pair(((address / 0x1_0000) % 256) as u8)
        + hex_pair(((address / 0x100) % 256) as u8) + hex_pair((address % 256) as u8)
}

/// One group: two bytes as four digits, and a space.
pub open spec fn group_text(first: u8, second: u8) -> Seq<u8> {
    hex_pair(first) + hex_pair(second) + seq![SPACE]
}

/// The groups of an even number of bytes, one after the other.
pub open spec fn groups_text(bytes: Seq<u8>) -> Seq<u8>
    recommends
        bytes.len() % 2 == 0,
    decreases bytes.len(),
{
    if bytes.len() < 2 {
        Seq::empty()
    } else {
        groups_text(bytes.take(bytes.len() - 2)) + group_text(
            bytes[bytes.len() - 2],
            bytes[bytes.len() - 1],
        )
    }
}

/// The character that shows a byte in the gutter: the byte itself where it is
/// printable, a dot where it is not.
pub open spec fn gutter_char(byte: u8) -> u8 {
    if byte.printable() {
        byte
    } else {
        DOT
    }
}

/// The gutter of some bytes: one character for each.
pub open spec fn gutter_text(bytes: Seq<u8>) -> Seq<u8> {
    Seq::new(bytes.len(), |i: int| gutter_char(bytes[i]))
}

/// A run of `count` spaces.
pub open spec fn spaces(count: nat) -> Seq<u8> {
    Seq::new(count, |i: int| SPACE)
}

/// The bytes of a line that are written: its whole pairs. A last byte without a
/// partner is left out.
pub open spec fn shown(chunk: Seq<u8>) -> Seq<u8> {
    chunk.take(2 * (chunk.len() as int / 2))
}

/// The spaces between the last group and the gutter: one after a full line, and five
/// more, the width of a group, for every group that is missing.
pub open spec fn padding(pairs: nat) -> nat
    recommends
        pairs <= LINE_GROUPS,
{
    (1 + 5 * (LINE_GROUPS - pairs)) as nat
}

/// The line for the bytes `chunk`, the first of which has the address `address`.
pub open spec fn line_text(address: u32, chunk: Seq<u8>) -> Seq<u8>
    recommends
        chunk.len() <= LINE_BYTES,
{
    address_text(address) + seq![COLON, SPACE] + groups_text(shown(chunk)) + spaces(
        padding(chunk.len() / 2),
    ) + gutter_text(shown(chunk)) + seq![NEWLINE]
}

/// The number of lines in the dump of `len` bytes: one for every sixteen bytes begun,
/// and one line for no bytes at all.
pub open spec fn line_count(len: nat) -> nat {
    if len == 0 {
        1
    } else {
        (len + LINE_BYTES - 1) as nat / (LINE_BYTES as nat)
    }
}

/// The offset of the first byte of line `k`, which is the address that the line carries:
/// every line before it holds sixteen bytes.
pub open spec fn line_address(k: nat) -> int {
    16 * (k as int)
}

/// The offset of the first character of line `k` in a dump: every line before it is
/// full, and so 68 characters wide.
pub open spec fn line_start(k: nat) -> int {
    68 * (k as int)
}

/// The bytes of line `k`: sixteen, or what is left of `bytes` from `16 * k` on.
pub open spec fn chunk_at(bytes: Seq<u8>, k: nat) -> Seq<u8> {
    bytes.subrange(
        line_address(k),
        if line_address((k + 1) as nat) <= bytes.len() {
            line_address((k + 1) as nat)
        } else {
            bytes.len() as int
        },
    )
}

/// Line `k` of the dump of `bytes`. Its address is `16 * k`.
pub open spec fn dump_line(bytes: Seq<u8>, k: nat) -> Seq<u8> {
    line_text(line_address(k) as u32, chunk_at(bytes, k))
}

/// The first `count` lines of the dump of `bytes`.
pub open spec fn dump_lines(bytes: Seq<u8>, count: nat) -> Seq<u8>
    decreases count,
{
    if count == 0 {
        Seq::empty()
    } else {
        dump_lines(bytes, (count - 1) as nat) + dump_line(bytes, (count - 1) as nat)
    }
}

/// The dump of `bytes`.
pub open spec fn dump_text(bytes: Seq<u8>) -> Seq<u8> {
    dump_lines(bytes, line_count(bytes.len()))
}

} // verus!
