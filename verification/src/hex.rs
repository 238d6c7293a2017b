//! Plain hexadecimal: two digits for every byte, and nothing between them.

use crate::convert::{
    ascii_to_hex, char_digit, digit_char, hex_to_ascii, hex_to_u8, is_hex_char, is_hex_digit,
    u8_to_hex,
};
use vstd::prelude::*;

verus! {

/// A byte as two hexadecimal digits, high digit first.
#[verifier::opaque]
pub open spec fn hex_pair(byte: u8) -> Seq<u8> {
    seq![digit_char((byte / 16) as u8) as u8, digit_char((byte % 16) as u8) as u8]
}

/// Bytes as hexadecimal digits, two for each byte, with nothing between them.
pub open spec fn hex_text(bytes: Seq<u8>) -> Seq<u8>
    decreases bytes.len(),
{
    if bytes.len() == 0 {
        Seq::empty()
    } else {
        hex_text(bytes.drop_last()) + hex_pair(bytes.last())
    }
}

/// The byte that two digits write, high digit first.
pub open spec fn pair_value(high: u8, low: u8) -> u8
    recommends
        is_hex_char(high),
        is_hex_char(low),
{
    (char_digit(high) * 16 + char_digit(low)) as u8
}

/// The bytes of the pairs of digits that `s` starts with, `count` of them at most.
pub open spec fn leading_pairs(s: Seq<u8>, count: nat) -> Seq<u8>
    decreases count,
{
    if count == 0 || s.len() < 2 || !is_hex_char(s[0]) || !is_hex_char(s[1]) {
        Seq::empty()
    } else {
        seq![pair_value(s[0], s[1])] + leading_pairs(s.skip(2), (count - 1) as nat)
    }
}

/// The bytes that a hexadecimal text writes: those of its pairs of digits, up to the
/// first that is none.
pub open spec fn hex_bytes(text: Seq<u8>) -> Seq<u8> {
    leading_pairs(text, text.len() / 2)
}

/// Appends the two hexadecimal digits of `byte` to `out`.
pub fn write_hex(byte: u8, out: &mut Vec<u8>)
    ensures
        final(out)@ == old(out)@ + hex_pair(byte),
{
    let hex = u8_to_hex(byte);
    out.push(hex_to_ascii(hex.0));
    out.push(hex_to_ascii(hex.1));
    proof {
        reveal(hex_pair);
        assert(out@ =~= old(out)@ + hex_pair(byte));
    }
}

/// Writes bytes in hexadecimal.
pub fn encode(bytes: &[u8]) -> (text: Vec<u8>)
    ensures
        text@ == hex_text(bytes@),
{
    let mut text: Vec<u8> = Vec::new();
    let mut i: usize = 0;
    while i < bytes.len()
        invariant
            i <= bytes.len(),
            text@ == hex_text(bytes@.take(i as int)),
        decreases bytes.len() - i,
    {
        write_hex(bytes[i], &mut text);
        proof {
            assert(bytes@.take(i + 1).drop_last() =~= bytes@.take(i as int));
        }
        i += 1;
    }
    proof {
        assert(bytes@.take(bytes.len() as int) =~= bytes@);
    }
    text
}

/// Reads two characters as a byte, high digit first, where both are digits.
pub fn decode_pair(high: u8, low: u8) -> (byte: Option<u8>)
    ensures
        byte == if is_hex_char(high) && is_hex_char(low) {
            Some(pair_value(high, low))
        } else {
            None
        },
{
    if is_hex_digit(high) && is_hex_digit(low) {
        Some(hex_to_u8((ascii_to_hex(high), ascii_to_hex(low))))
    } else {
        None
    }
}

/// Reads hexadecimal back into bytes, pair by pair. Reading ends with the text, and at
/// the first pair that holds a character which is no digit; a last character without a
/// partner is left out.
pub fn decode(text: &[u8]) -> (bytes: Vec<u8>)
    ensures
        bytes@ == hex_bytes(text@),
{
    let mut bytes: Vec<u8> = Vec::new();
    let pairs: usize = text.len() / 2;
    let mut n: usize = 0;
    proof {
        assert(text@.skip(0) =~= text@);
    }
    while n < pairs
        invariant
            n <= pairs,
            pairs == text@.len() / 2,
            2 * pairs <= text.len(),
            bytes@ + leading_pairs(text@.skip(2 * n), (pairs - n) as nat) == hex_bytes(text@),
        decreases pairs - n,
    {
        let ghost rest = text@.skip(2 * n);
        let ghost before = bytes@;
        proof {
            assert(rest[0] == text@[2 * n]);
            assert(rest[1] == text@[2 * n + 1]);
            assert(rest.skip(2) =~= text@.skip(2 * n + 2));
        }
        match decode_pair(text[2 * n], text[2 * n + 1]) {
            Some(byte) => {
                bytes.push(byte);
                proof {
                    let later = leading_pairs(rest.skip(2), (pairs - n - 1) as nat);
                    assert(bytes@ + later =~= before + (seq![byte] + later));
                }
            },
            None => {
                proof {
                    assert(bytes@ + Seq::<u8>::empty() =~= bytes@);
                }
                return bytes;
            },
        }
        n += 1;
    }
    proof {
        assert(bytes@ + Seq::<u8>::empty() =~= bytes@);
    }
    bytes
}

/// The two digits of a byte are hexadecimal digits, and they write that byte.
pub proof fn lemma_hex_pair(byte: u8)
    ensures
        hex_pair(byte).len() == 2,
        is_hex_char(hex_pair(byte)[0]),
        is_hex_char(hex_pair(byte)[1]),
        pair_value(hex_pair(byte)[0], hex_pair(byte)[1]) == byte,
        hex_pair(byte) == seq![
            digit_char((byte / 16) as u8) as u8,
            digit_char((byte % 16) as u8) as u8,
        ],
{
    reveal(hex_pair);
}

/// Hexadecimal text has two characters for each byte, all of them digits.
pub proof fn lemma_hex_text(bytes: Seq<u8>)
    ensures
        hex_text(bytes).len() == 2 * bytes.len(),
        forall|i: int| 0 <= i < hex_text(bytes).len() ==> is_hex_char(#[trigger] hex_text(bytes)[i]),
    decreases bytes.len(),
{
    if bytes.len() > 0 {
        lemma_hex_text(bytes.drop_last());
        lemma_hex_pair(bytes.last());
    }
}

/// The hexadecimal text of two sequences in a row is the text of the one, then the
/// text of the other.
pub proof fn lemma_hex_text_concat(a: Seq<u8>, b: Seq<u8>)
    ensures
        hex_text(a + b) == hex_text(a) + hex_text(b),
    decreases b.len(),
{
    if b.len() == 0 {
        assert(a + b =~= a);
        assert(hex_text(a) + hex_text(b) =~= hex_text(a));
    } else {
        lemma_hex_text_concat(a, b.drop_last());
        assert((a + b).drop_last() =~= a + b.drop_last());
        assert(hex_text(a + b) =~= hex_text(a) + hex_text(b));
    }
}

/// The hexadecimal text of two bytes or more ends with the digits of the last two.
pub proof fn lemma_hex_text_last_two(bytes: Seq<u8>)
    requires
        bytes.len() >= 2,
    ensures
        hex_text(bytes) == hex_text(bytes.take(bytes.len() - 2)) + (hex_pair(
            bytes[bytes.len() - 2],
        ) + hex_pair(bytes[bytes.len() - 1])),
{
    let front = bytes.take(bytes.len() - 2);
    let middle = bytes.drop_last();
    assert(middle.drop_last() =~= front);
    assert(middle.last() == bytes[bytes.len() - 2]);
    assert(hex_text(middle) == hex_text(front) + hex_pair(middle.last()));
    assert(hex_text(bytes) == hex_text(middle) + hex_pair(bytes.last()));
    assert(hex_text(front) + hex_pair(middle.last()) + hex_pair(bytes.last()) =~= hex_text(front)
        + (hex_pair(middle.last()) + hex_pair(bytes.last())));
}

/// Every byte read takes two characters.
pub proof fn lemma_leading_pairs_len(s: Seq<u8>, count: nat)
    ensures
        leading_pairs(s, count).len() <= count,
        2 * leading_pairs(s, count).len() <= s.len(),
    decreases count,
{
    if count == 0 || s.len() < 2 || !is_hex_char(s[0]) || !is_hex_char(s[1]) {
    } else {
        lemma_leading_pairs_len(s.skip(2), (count - 1) as nat);
    }
}

/// Reading pairs from the hexadecimal text of some bytes gives those bytes, and goes on
/// with what follows the text.
pub proof fn lemma_leading_pairs_of_hex(chunk: Seq<u8>, tail: Seq<u8>, count: nat)
    requires
        chunk.len() <= count,
    ensures
        leading_pairs(hex_text(chunk) + tail, count) == chunk + leading_pairs(
            tail,
            (count - chunk.len()) as nat,
        ),
    decreases chunk.len(),
{
    let s = hex_text(chunk) + tail;
    if chunk.len() == 0 {
        assert(hex_text(chunk) =~= Seq::<u8>::empty());
        assert(s =~= tail);
        assert(chunk + leading_pairs(tail, count) =~= leading_pairs(tail, count));
    } else {
        let first = chunk[0];
        let rest = chunk.skip(1);
        assert(chunk =~= seq![first] + rest);
        lemma_hex_text_concat(seq![first], rest);
        assert(hex_text(seq![first]) =~= hex_pair(first)) by {
            assert(seq![first].drop_last() =~= Seq::<u8>::empty());
            assert(hex_text(Seq::<u8>::empty()) =~= Seq::<u8>::empty());
        }
        lemma_hex_pair(first);
        assert(s =~= hex_pair(first) + (hex_text(rest) + tail));
        assert(s[0] == hex_pair(first)[0]);
        assert(s[1] == hex_pair(first)[1]);
        assert(s.skip(2) =~= hex_text(rest) + tail);
        lemma_leading_pairs_of_hex(rest, tail, (count - 1) as nat);
        assert(leading_pairs(s, count) =~= chunk + leading_pairs(
            tail,
            (count - chunk.len()) as nat,
        ));
    }
}

/// Reading the hexadecimal text of some bytes gives back those bytes.
pub proof fn lemma_hex_round_trip(bytes: Seq<u8>)
    ensures
        hex_bytes(hex_text(bytes)) == bytes,
{
    let none = Seq::<u8>::empty();
    lemma_hex_text(bytes);
    lemma_leading_pairs_of_hex(bytes, none, bytes.len());
    assert(hex_text(bytes) + none =~= hex_text(bytes));
    assert(bytes + leading_pairs(none, 0) =~= bytes);
}

} // verus!
