//! Reading a dump back into the bytes that it shows.
//!
//! Spaces only align the columns, so they are dropped before anything else is looked
//! at. What is left is read line by line: the address and its colon are passed over,
//! sixteen pairs of digits give sixteen bytes, and the rest of the line is passed over
//! up to its line feed. Reading ends where the text ends, and where a digit is due and
//! the character there is none; the bytes read up to there stand.

use crate::convert::{ascii_to_hex, char_digit, hex_to_u8, is_hex_char, is_hex_digit};
use crate::hex::{leading_pairs, lemma_leading_pairs_len};
use crate::hexdump::layout::{NEWLINE, SPACE};
use vstd::prelude::*;

verus! {

/// The number of characters before the digits of a line, spaces not counted: the eight
/// digits of the address and the colon.
pub const ADDRESS_WIDTH: u8 = 9;

/// The number of pairs of digits that a line is read for.
pub const LINE_PAIRS: u8 = 16;

/// The number of digits that a line is read for: two for each pair.
pub const LINE_DIGITS: u8 = 32;

/// The test that every character but the space passes.
pub open spec fn is_visible() -> spec_fn(u8) -> bool {
    |c: u8| c != SPACE
}

/// A text without its spaces.
pub open spec fn visible(text: Seq<u8>) -> Seq<u8> {
    text.filter(is_visible())
}

/// What follows the first line feed of `s`: nothing, if there is none.
pub open spec fn after_newline(s: Seq<u8>) -> Seq<u8>
    decreases s.len(),
{
    if s.len() == 0 {
        s
    } else if s[0] == NEWLINE {
        s.skip(1)
    } else {
        after_newline(s.skip(1))
    }
}

/// The bytes of up to `count` pairs of digits at the start of `s`, and, where all
/// `count` are there, the bytes of the lines after the next line feed.
pub open spec fn pairs_then_lines(s: Seq<u8>, count: nat) -> Seq<u8> {
    let bytes = leading_pairs(s, count);
    if bytes.len() < count {
        bytes
    } else {
        bytes + decode_lines(after_newline(s.skip(2 * count as int)))
    }
}

/// The bytes that the lines of `s` show, where `s` is a text without spaces.
pub open spec fn decode_lines(s: Seq<u8>) -> Seq<u8>
    decreases s.len(),
    via decode_lines_decreases
{
    if s.len() < ADDRESS_WIDTH {
        Seq::empty()
    } else {
        let body = s.skip(ADDRESS_WIDTH as int);
        let bytes = leading_pairs(body, LINE_PAIRS as nat);
        if bytes.len() < LINE_PAIRS {
            bytes
        } else {
            bytes + decode_lines(after_newline(body.skip(LINE_DIGITS as int)))
        }
    }
}

#[via_fn]
proof fn decode_lines_decreases(s: Seq<u8>) {
    if s.len() >= ADDRESS_WIDTH {
        let body = s.skip(ADDRESS_WIDTH as int);
        lemma_leading_pairs_len(body, LINE_PAIRS as nat);
        if leading_pairs(body, LINE_PAIRS as nat).len() >= LINE_PAIRS {
            lemma_after_newline_len(body.skip(LINE_DIGITS as int));
        }
    }
}

/// The bytes that a dump shows.
pub open spec fn decode_text(text: Seq<u8>) -> Seq<u8> {
    decode_lines(visible(text))
}

/// What follows a line feed is shorter than the whole, unless the whole is empty.
pub proof fn lemma_after_newline_len(s: Seq<u8>)
    ensures
        after_newline(s).len() <= s.len(),
        s.len() > 0 ==> after_newline(s).len() < s.len(),
    decreases s.len(),
{
    if s.len() > 0 && s[0] != NEWLINE {
        lemma_after_newline_len(s.skip(1));
    }
}

/// Where a decoder stands in the text, with what it needs to go on. It takes the
/// characters one at a time and holds no more than half a byte.
#[derive(Clone, Copy, Debug)]
pub enum Decoder {
    /// In the address column, with `left` characters of it still to come.
    SkipAddress { left: u8 },
    /// In the digits of a line, with `left` bytes of it still to read; `high` is the
    /// high digit of the byte in progress.
    ReadPairs { left: u8, high: Option<u8> },
    /// Past the digits of a line, before its line feed.
    SkipToEol,
    /// At a character that is no digit where one was due: nothing more is read.
    EndOfInput,
}

/// The bytes given out in one step, as a sequence.
pub open spec fn emitted(byte: Option<u8>) -> Seq<u8> {
    match byte {
        Some(b) => seq![b],
        None => Seq::empty(),
    }
}

impl Decoder {
    /// The counts are within a line, and a digit held is a digit.
    pub open spec fn well_formed(self) -> bool {
        match self {
            Decoder::SkipAddress { left } => 1 <= left <= ADDRESS_WIDTH,
            Decoder::ReadPairs { left, high } => 1 <= left <= LINE_PAIRS && (high matches Some(h)
                ==> h < 16),
            Decoder::SkipToEol => true,
            Decoder::EndOfInput => true,
        }
    }

    /// The state after the character `c`, and the byte that `c` completes.
    pub open spec fn step(self, c: u8) -> (Decoder, Option<u8>) {
        if c == SPACE {
            (self, None)
        } else {
            match self {
                Decoder::SkipAddress { left } => if left > 1 {
                    (Decoder::SkipAddress { left: (left - 1) as u8 }, None)
                } else {
                    (Decoder::ReadPairs { left: LINE_PAIRS, high: None }, None)
                },
                Decoder::ReadPairs { left, high } => if !is_hex_char(c) {
                    (Decoder::EndOfInput, None)
                } else {
                    match high {
                        None => (
                            Decoder::ReadPairs { left, high: Some(char_digit(c) as u8) },
                            None,
                        ),
                        Some(h) => (
                            if left > 1 {
                                Decoder::ReadPairs { left: (left - 1) as u8, high: None }
                            } else {
                                Decoder::SkipToEol
                            },
                            Some((h * 16 + char_digit(c)) as u8),
                        ),
                    }
                },
                Decoder::SkipToEol => if c == NEWLINE {
                    (Decoder::SkipAddress { left: ADDRESS_WIDTH }, None)
                } else {
                    (Decoder::SkipToEol, None)
                },
                Decoder::EndOfInput => (Decoder::EndOfInput, None),
            }
        }
    }

    /// The bytes still to come when the text that follows, without its spaces, is `s`.
    pub open spec fn remaining(self, s: Seq<u8>) -> Seq<u8> {
        match self {
            Decoder::SkipAddress { left } => if s.len() < left {
                Seq::empty()
            } else {
                pairs_then_lines(s.skip(left as int), LINE_PAIRS as nat)
            },
            Decoder::ReadPairs { left, high: None } => pairs_then_lines(s, left as nat),
            Decoder::ReadPairs { left, high: Some(h) } => if s.len() < 1 || !is_hex_char(s[0]) {
                Seq::empty()
            } else {
                seq![(h * 16 + char_digit(s[0])) as u8] + pairs_then_lines(
                    s.skip(1),
                    (left - 1) as nat,
                )
            },
            Decoder::SkipToEol => decode_lines(after_newline(s)),
            Decoder::EndOfInput => Seq::empty(),
        }
    }

    /// A decoder at the start of a text.
    pub fn new() -> (decoder: Decoder)
        ensures
            decoder == (Decoder::SkipAddress { left: ADDRESS_WIDTH }),
            decoder.well_formed(),
    {
        Decoder::SkipAddress { left: ADDRESS_WIDTH }
    }

    /// Whether the decoder has stopped reading.
    pub fn is_done(&self) -> (done: bool)
        ensures
            done == (*self matches Decoder::EndOfInput),
    {
        match self {
            Decoder::EndOfInput => true,
            _ => false,
        }
    }

    /// Takes the next character of the text, and gives back the byte that it completes.
    pub fn feed(&mut self, c: u8) -> (byte: Option<u8>)
        requires
            old(self).well_formed(),
        ensures
            final(self).well_formed(),
            (*final(self), byte) == old(self).step(c),
    {
        if c == SPACE {
            return None;
        }
        match *self {
            Decoder::SkipAddress { left } => {
                if left > 1 {
                    *self = Decoder::SkipAddress { left: left - 1 };
                } else {
                    *self = Decoder::ReadPairs { left: LINE_PAIRS, high: None };
                }
                None
            },
            Decoder::ReadPairs { left, high } => {
                if !is_hex_digit(c) {
                    *self = Decoder::EndOfInput;
                    None
                } else {
                    let digit: u8 = ascii_to_hex(c);
                    match high {
                        None => {
                            *self = Decoder::ReadPairs { left, high: Some(digit) };
                            None
                        },
                        Some(h) => {
                            let byte: u8 = hex_to_u8((h, digit));
                            if left > 1 {
                                *self = Decoder::ReadPairs { left: left - 1, high: None };
                            } else {
                                *self = Decoder::SkipToEol;
                            }
                            Some(byte)
                        },
                    }
                }
            },
            Decoder::SkipToEol => {
                if c == NEWLINE {
                    *self = Decoder::SkipAddress { left: ADDRESS_WIDTH };
                }
                None
            },
            Decoder::EndOfInput => None,
        }
    }
}

/// Dropping the spaces of a text drops its first character if that is a space, and
/// keeps it otherwise.
pub proof fn lemma_visible_first(c: u8, rest: Seq<u8>)
    ensures
        visible(seq![c] + rest) == (if c == SPACE {
            Seq::<u8>::empty()
        } else {
            seq![c]
        }) + visible(rest),
{
    rest.lemma_filter_prepend(c, is_visible());
}

/// One step of a decoder gives out the first of the bytes still to come, if the
/// character completes one, and leaves the decoder where the rest of them are still to
/// come: the bytes that a decoder gives out, character by character, are those that the
/// text shows.
pub proof fn lemma_step_remaining(state: Decoder, c: u8, rest: Seq<u8>)
    requires
        state.well_formed(),
    ensures
        state.step(c).0.well_formed(),
        state.remaining(visible(seq![c] + rest)) == emitted(state.step(c).1) + state.step(
            c,
        ).0.remaining(visible(rest)),
{
    lemma_visible_first(c, rest);
    let tail = visible(rest);
    if c == SPACE {
        assert(Seq::<u8>::empty() + tail =~= tail);
        assert(Seq::<u8>::empty() + state.remaining(tail) =~= state.remaining(tail));
    } else {
        let s = seq![c] + tail;
        assert(s.skip(1) =~= tail);
        assert(s[0] == c);
        match state {
            Decoder::SkipAddress { left } => {
                if s.len() >= left {
                    assert(s.skip(left as int) =~= tail.skip(left - 1));
                    assert(tail.skip(0) =~= tail);
                }
            },
            Decoder::ReadPairs { left, high: None } => {
                if is_hex_char(c) {
                    if tail.len() >= 1 && is_hex_char(tail[0]) {
                        assert(s.skip(2) =~= tail.skip(1));
                        assert(s[1] == tail[0]);
                        lemma_leading_pairs_len(tail.skip(1), (left - 1) as nat);
                        if leading_pairs(s, left as nat).len() >= left {
                            assert(s.skip(2 * left) =~= tail.skip(1).skip(2 * (left - 1)));
                        }
                    }
                }
            },
            Decoder::ReadPairs { left, high: Some(h) } => {
                if is_hex_char(c) {
                    if left == 1 {
                        assert(tail.skip(0) =~= tail);
                    }
                }
            },
            Decoder::SkipToEol => {
                if c == NEWLINE {
                    assert(after_newline(s) == tail);
                } else {
                    assert(after_newline(s) == after_newline(tail));
                }
            },
            Decoder::EndOfInput => {},
        }
        assert(state.remaining(s) =~= emitted(state.step(c).1) + state.step(c).0.remaining(tail));
    }
}

/// Reads a dump back into the bytes that it shows.
pub fn decode(text: &[u8]) -> (bytes: Vec<u8>)
    ensures
        bytes@ == decode_text(text@),
{
    let mut bytes: Vec<u8> = Vec::new();
    let mut decoder = Decoder::new();
    let mut i: usize = 0;
    proof {
        assert(text@.skip(0) =~= text@);
    }
    while i < text.len() && !decoder.is_done()
        invariant
            i <= text.len(),
            decoder.well_formed(),
            bytes@ + decoder.remaining(visible(text@.skip(i as int))) == decode_text(text@),
        decreases text.len() - i,
    {
        proof {
            assert(text@.skip(i as int) =~= seq![text@[i as int]] + text@.skip(i + 1));
            lemma_step_remaining(decoder, text@[i as int], text@.skip(i + 1));
        }
        let ghost before = bytes@;
        let ghost state = decoder;
        let ghost tail = visible(text@.skip(i + 1));
        match decoder.feed(text[i]) {
            Some(byte) => {
                bytes.push(byte);
                assert(bytes@ + decoder.remaining(tail) =~= before + (seq![byte]
                    + decoder.remaining(tail)));
            },
            None => {
                assert(Seq::<u8>::empty() + decoder.remaining(tail) =~= decoder.remaining(tail));
            },
        }
        i += 1;
    }
    proof {
        if !(decoder matches Decoder::EndOfInput) {
            assert(text@.skip(i as int) =~= Seq::<u8>::empty());
            reveal(Seq::filter);
            assert(visible(Seq::<u8>::empty()) =~= Seq::<u8>::empty());
        }
        assert(decoder.remaining(visible(text@.skip(i as int))) =~= Seq::<u8>::empty());
        assert(bytes@ + Seq::<u8>::empty() =~= bytes@);
    }
    bytes
}

} // verus!
