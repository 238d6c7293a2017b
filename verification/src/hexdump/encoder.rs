//! Writing a dump.

use crate::convert::u32_byte_array;
use crate::hex::{hex_pair, hex_text, write_hex};
use crate::hexdump::layout::{
    address_text, chunk_at, dump_line, dump_lines, dump_text, groups_text, gutter_char,
    gutter_text, line_address, line_count, line_text, spaces, ADDRESS_SPACE, COLON, DOT,
    LINE_BYTES, LINE_GROUPS, NEWLINE, SPACE,
};
use crate::strings::IsPrintable;
use vstd::prelude::*;

verus! {

/// Appends the two hexadecimal digits of `byte` to `out`, and gives back the character
/// that shows the byte in the gutter.
pub fn encode_byte(byte: u8, out: &mut Vec<u8>) -> (gutter: u8)
    ensures
        final(out)@ == old(out)@ + hex_pair(byte),
        gutter == gutter_char(byte),
{
    write_hex(byte, out);
    if byte.is_printable() {
        byte
    } else {
        DOT
    }
}

/// Appends the eight digits of `address` to `out`.
fn write_address(address: u32, out: &mut Vec<u8>)
    ensures
        final(out)@ == old(out)@ + address_text(address),
{
    let bytes = u32_byte_array(address);
    let mut i: usize = 0;
    while i < 4
        invariant
            i <= 4,
            bytes[0] == address / 0x100_0000,
            bytes[1] == (address / 0x1_0000) % 256,
            bytes[2] == (address / 0x100) % 256,
            bytes[3] == address % 256,
            out@ == old(out)@ + hex_text(bytes@.take(i as int)),
        decreases 4 - i,
    {
        write_hex(bytes[i], out);
        proof {
            assert(bytes@.take(i + 1).drop_last() =~= bytes@.take(i as int));
        }
        i += 1;
    }
    proof {
        reveal(address_text);
        reveal_with_fuel(hex_text, 5);
        assert(bytes@.take(4).drop_last() =~= seq![bytes[0], bytes[1], bytes[2]]);
        assert(bytes@.take(4).drop_last().drop_last() =~= seq![bytes[0], bytes[1]]);
        assert(bytes@.take(4).drop_last().drop_last().drop_last() =~= seq![bytes[0]]);
        assert(hex_text(bytes@.take(4)) =~= address_text(address));
    }
}

/// Appends `count` spaces to `out`.
fn write_spaces(count: usize, out: &mut Vec<u8>)
    ensures
        final(out)@ == old(out)@ + spaces(count as nat),
{
    let mut i: usize = 0;
    while i < count
        invariant
            i <= count,
            out@ == old(out)@ + spaces(i as nat),
        decreases count - i,
    {
        out.push(SPACE);
        assert(out@ =~= old(out)@ + spaces((i + 1) as nat));
        i += 1;
    }
}

/// Appends to `out` the line for the bytes `chunk`, the first of which has the address
/// `address`.
///
/// The whole pairs of `chunk` are written as groups; spaces then fill the line up to the
/// gutter's column, and the gutter shows the bytes of the groups.
pub fn write_line(address: u32, chunk: &[u8], out: &mut Vec<u8>)
    requires
        chunk@.len() <= LINE_BYTES,
    ensures
        final(out)@ == old(out)@ + line_text(address, chunk@),
{
    let pairs: usize = chunk.len() / 2;
    let mut gutter: Vec<u8> = Vec::new();
    write_address(address, out);
    out.push(COLON);
    out.push(SPACE);
    let ghost start = out@;
    assert(start =~= old(out)@ + address_text(address) + seq![COLON, SPACE]);
    let mut n: usize = 0;
    while n < pairs
        invariant
            n <= pairs,
            pairs == chunk@.len() / 2,
            chunk@.len() <= LINE_BYTES,
            out@ == start + groups_text(chunk@.take(2 * n)),
            gutter@ == gutter_text(chunk@.take(2 * n)),
        decreases pairs - n,
    {
        let ghost before = chunk@.take(2 * n);
        let ghost after = chunk@.take(2 * n + 2);
        let first = encode_byte(chunk[2 * n], out);
        let second = encode_byte(chunk[2 * n + 1], out);
        out.push(SPACE);
        gutter.push(first);
        gutter.push(second);
        proof {
            assert(after.take(after.len() - 2) =~= before);
            assert(out@ =~= start + groups_text(after));
            assert(gutter@ =~= gutter_text(after));
        }
        n += 1;
    }
    write_spaces(1 + 5 * (LINE_GROUPS - pairs), out);
    let ghost padded = out@;
    let mut k: usize = 0;
    while k < gutter.len()
        invariant
            k <= gutter.len(),
            out@ == padded + gutter@.take(k as int),
        decreases gutter.len() - k,
    {
        out.push(gutter[k]);
        assert(gutter@.take(k + 1) =~= gutter@.take(k as int).push(gutter@[k as int]));
        k += 1;
    }
    out.push(NEWLINE);
    proof {
        assert(gutter@.take(gutter.len() as int) =~= gutter@);
        assert(out@ =~= old(out)@ + line_text(address, chunk@));
    }
}

/// An encoder that takes the bytes one at a time and writes each line as soon as its
/// sixteen bytes are there. It holds the bytes of the line in progress, and nothing else
/// but the number of bytes taken.
pub struct Encoder {
    consumed: u64,
    pending: Vec<u8>,
}

impl Encoder {
    /// The number of bytes taken so far.
    pub closed spec fn consumed(&self) -> nat {
        self.consumed as nat
    }

    /// The bytes taken for the line in progress.
    pub closed spec fn pending(&self) -> Seq<u8> {
        self.pending@
    }

    /// The bytes taken are within the address space, and the line in progress holds
    /// those that came after the last full line.
    pub open spec fn well_formed(&self) -> bool {
        &&& self.consumed() <= ADDRESS_SPACE
        &&& self.pending().len() == self.consumed() % (LINE_BYTES as nat)
    }

    /// The address of the line in progress.
    pub open spec fn address(&self) -> u32 {
        (self.consumed() - self.pending().len()) as u32
    }

    /// What the byte `byte` completes: the line in progress, if it is the sixteenth byte of
    /// that line, and nothing otherwise.
    pub open spec fn completed_line(&self, byte: u8) -> Seq<u8> {
        if self.pending().len() == LINE_BYTES - 1 {
            line_text(self.address(), self.pending().push(byte))
        } else {
            Seq::empty()
        }
    }

    /// What remains to be written when the input ends: the line in progress, if it has
    /// bytes or if there was no input at all, and nothing after a full line.
    pub open spec fn closing_line(&self) -> Seq<u8> {
        if self.pending().len() > 0 || self.consumed() == 0 {
            line_text(self.address(), self.pending())
        } else {
            Seq::empty()
        }
    }

    /// An encoder that has taken no byte.
    pub fn new() -> (encoder: Encoder)
        ensures
            encoder.well_formed(),
            encoder.consumed() == 0,
            encoder.pending() == Seq::<u8>::empty(),
    {
        Encoder { consumed: 0, pending: Vec::new() }
    }

    /// Takes one byte, and appends to `out` the line that it completes, if any.
    pub fn push(&mut self, byte: u8, out: &mut Vec<u8>)
        requires
            old(self).well_formed(),
            old(self).consumed() < ADDRESS_SPACE,
        ensures
            final(self).well_formed(),
            final(self).consumed() == old(self).consumed() + 1,
            final(self).pending() == if old(self).pending().len() == LINE_BYTES - 1 {
                Seq::empty()
            } else {
                old(self).pending().push(byte)
            },
            final(out)@ == old(out)@ + old(self).completed_line(byte),
    {
        self.pending.push(byte);
        if self.pending.len() == LINE_BYTES {
            let address: u32 = (self.consumed - 15) as u32;
            write_line(address, self.pending.as_slice(), out);
            self.pending.clear();
        } else {
            assert(out@ =~= old(out)@ + old(self).completed_line(byte));
        }
        self.consumed = self.consumed + 1;
    }

    /// Ends the input, and appends to `out` what remains to be written.
    pub fn finish(self, out: &mut Vec<u8>)
        requires
            self.well_formed(),
        ensures
            final(out)@ == old(out)@ + self.closing_line(),
    {
        if self.pending.len() > 0 || self.consumed == 0 {
            let address: u32 = (self.consumed - self.pending.len() as u64) as u32;
            write_line(address, self.pending.as_slice(), out);
        } else {
            assert(out@ =~= old(out)@ + self.closing_line());
        }
    }
}

/// The bytes after the last full line among the first `i` of `bytes`.
spec fn line_in_progress(bytes: Seq<u8>, i: int) -> Seq<u8> {
    bytes.subrange(16 * (i / 16), i)
}

/// Taking byte `i` either extends the line in progress or completes line `i / 16`.
proof fn lemma_next_byte(bytes: Seq<u8>, i: int)
    requires
        0 <= i < bytes.len(),
    ensures
        line_in_progress(bytes, i).len() == i % 16,
        i % 16 != 15 ==> {
            &&& line_in_progress(bytes, i + 1) == line_in_progress(bytes, i).push(bytes[i])
            &&& (i + 1) / 16 == i / 16
        },
        i % 16 == 15 ==> {
            &&& line_in_progress(bytes, i + 1) == Seq::<u8>::empty()
            &&& (i + 1) / 16 == i / 16 + 1
            &&& i - 15 == line_address((i / 16) as nat)
            &&& line_in_progress(bytes, i).push(bytes[i]) == chunk_at(bytes, (i / 16) as nat)
            &&& dump_lines(bytes, (i / 16 + 1) as nat) == dump_lines(bytes, (i / 16) as nat)
                + dump_line(bytes, (i / 16) as nat)
        },
{
    if i % 16 == 15 {
        assert(line_in_progress(bytes, i + 1) =~= Seq::<u8>::empty());
        assert(line_in_progress(bytes, i).push(bytes[i]) =~= chunk_at(bytes, (i / 16) as nat));
    } else {
        assert(line_in_progress(bytes, i + 1) =~= line_in_progress(bytes, i).push(bytes[i]));
    }
}

/// After all bytes are taken, the lines written and the closing line make up the dump.
proof fn lemma_last_line(bytes: Seq<u8>)
    ensures
        line_in_progress(bytes, bytes.len() as int).len() == bytes.len() % 16,
        bytes.len() % 16 > 0 || bytes.len() == 0 ==> {
            &&& dump_text(bytes) == dump_lines(bytes, bytes.len() / 16) + line_text(
                (bytes.len() - bytes.len() % 16) as u32,
                line_in_progress(bytes, bytes.len() as int),
            )
        },
        bytes.len() % 16 == 0 && bytes.len() > 0 ==> dump_text(bytes) == dump_lines(
            bytes,
            bytes.len() / 16,
        ),
{
    let len = bytes.len();
    let lines = len / 16;
    if len % 16 > 0 || len == 0 {
        assert(line_count(len) == lines + 1);
        assert(line_in_progress(bytes, len as int) =~= chunk_at(bytes, lines));
        assert(line_address(lines) == len - len % 16);
        assert(dump_lines(bytes, lines + 1) == dump_lines(bytes, lines) + dump_line(bytes, lines));
    } else {
        assert(line_count(len) == lines);
    }
}

/// Dumps `bytes`: a line for every sixteen bytes, a last line for what is left over, and
/// one line without bytes where there is no input.
pub fn encode(bytes: &[u8]) -> (text: Vec<u8>)
    requires
        bytes@.len() <= ADDRESS_SPACE,
    ensures
        text@ == dump_text(bytes@),
{
    let mut text: Vec<u8> = Vec::new();
    let mut encoder = Encoder::new();
    let mut i: usize = 0;
    proof {
        assert(line_in_progress(bytes@, 0) =~= Seq::<u8>::empty());
    }
    while i < bytes.len()
        invariant
            i <= bytes.len(),
            bytes@.len() <= ADDRESS_SPACE,
            encoder.well_formed(),
            encoder.consumed() == i,
            encoder.pending() == line_in_progress(bytes@, i as int),
            text@ == dump_lines(bytes@, i as nat / 16),
        decreases bytes.len() - i,
    {
        let ghost written = text@;
        proof {
            lemma_next_byte(bytes@, i as int);
        }
        encoder.push(bytes[i], &mut text);
        proof {
            if i % 16 != 15 {
                assert(text@ =~= written);
            }
        }
        i += 1;
    }
    proof {
        lemma_last_line(bytes@);
    }
    let ghost written = text@;
    encoder.finish(&mut text);
    proof {
        if !(bytes@.len() % 16 > 0 || bytes@.len() == 0) {
            assert(text@ =~= written);
        }
    }
    text
}

} // verus!
