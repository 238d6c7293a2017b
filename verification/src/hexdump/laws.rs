//! What holds of every dump: where its lines, addresses and gutters stand, and that
//! reading a dump of full lines gives back the bytes dumped.

use crate::convert::is_hex_char;
use crate::hex::{
    hex_pair, hex_text, leading_pairs, lemma_hex_pair, lemma_hex_text, lemma_hex_text_last_two,
    lemma_leading_pairs_of_hex,
};
use crate::hexdump::decoder::{
    after_newline, decode_lines, decode_text, is_visible, lemma_visible_first, visible,
};
use crate::hexdump::layout::{
    address_text, chunk_at, dump_line, dump_lines, dump_text, group_text, groups_text,
    gutter_char, gutter_text, line_address, line_count, line_start, line_text, padding, shown,
    spaces, ADDRESS_SPACE, COLON, DOT, FULL_LINE_WIDTH, GROUPS_COLUMN, GUTTER_COLUMN, LINE_BYTES,
    NEWLINE, SPACE,
};
use vstd::prelude::*;

verus! {

/// An address is written in eight digits.
pub proof fn lemma_address_text(address: u32)
    ensures
        address_text(address).len() == 8,
        forall|i: int| 0 <= i < 8 ==> is_hex_char(#[trigger] address_text(address)[i]),
{
    reveal(address_text);
    lemma_hex_pair((address / 0x100_0000) as u8);
    lemma_hex_pair(((address / 0x1_0000) % 256) as u8);
    lemma_hex_pair(((address / 0x100) % 256) as u8);
    lemma_hex_pair((address % 256) as u8);
}

/// Groups take five characters for every two bytes.
pub proof fn lemma_groups_text_len(bytes: Seq<u8>)
    ensures
        groups_text(bytes).len() == 5 * (bytes.len() / 2),
    decreases bytes.len(),
{
    if bytes.len() >= 2 {
        lemma_groups_text_len(bytes.take(bytes.len() - 2));
        lemma_hex_pair(bytes[bytes.len() - 2]);
        lemma_hex_pair(bytes[bytes.len() - 1]);
    }
}

/// A text without spaces loses nothing when its spaces are dropped.
pub proof fn lemma_visible_without_spaces(s: Seq<u8>)
    requires
        forall|i: int| 0 <= i < s.len() ==> s[i] != SPACE,
    ensures
        visible(s) == s,
    decreases s.len(),
{
    reveal(Seq::filter);
    if s.len() > 0 {
        lemma_visible_without_spaces(s.drop_last());
        assert(s.drop_last().push(s.last()) =~= s);
    }
}

/// Nothing is left of a run of spaces when the spaces are dropped.
pub proof fn lemma_visible_spaces(count: nat)
    ensures
        visible(spaces(count)) == Seq::<u8>::empty(),
    decreases count,
{
    reveal(Seq::filter);
    if count > 0 {
        lemma_visible_spaces((count - 1) as nat);
        assert(spaces(count).drop_last() =~= spaces((count - 1) as nat));
    }
}

/// Dropping the spaces of two texts in a row drops them in each.
pub proof fn lemma_visible_concat(a: Seq<u8>, b: Seq<u8>)
    ensures
        visible(a + b) == visible(a) + visible(b),
{
    Seq::filter_distributes_over_add(a, b, is_visible());
}

/// Without its space, a group is the digits of its two bytes.
pub proof fn lemma_visible_group(first: u8, second: u8)
    ensures
        visible(group_text(first, second)) == hex_pair(first) + hex_pair(second),
{
    let digits = hex_pair(first) + hex_pair(second);
    lemma_hex_pair(first);
    lemma_hex_pair(second);
    assert(forall|i: int| 0 <= i < digits.len() ==> digits[i] != SPACE) by {
        assert(digits =~= seq![
            hex_pair(first)[0],
            hex_pair(first)[1],
            hex_pair(second)[0],
            hex_pair(second)[1],
        ]);
    }
    lemma_visible_without_spaces(digits);
    lemma_visible_concat(digits, seq![SPACE]);
    lemma_visible_spaces(1);
    assert(spaces(1) =~= seq![SPACE]);
    assert(digits + Seq::<u8>::empty() =~= digits);
}

/// Nothing is left of an empty text when the spaces are dropped.
pub proof fn lemma_visible_empty()
    ensures
        visible(Seq::<u8>::empty()) == Seq::<u8>::empty(),
{
    reveal(Seq::filter);
}

/// Without their spaces, groups are the hexadecimal text of their bytes.
pub proof fn lemma_visible_groups(bytes: Seq<u8>)
    requires
        bytes.len() % 2 == 0,
    ensures
        visible(groups_text(bytes)) == hex_text(bytes),
    decreases bytes.len(),
{
    if bytes.len() < 2 {
        lemma_visible_empty();
    } else {
        let front = bytes.take(bytes.len() - 2);
        let first = bytes[bytes.len() - 2];
        let second = bytes[bytes.len() - 1];
        lemma_visible_groups(front);
        lemma_visible_concat(groups_text(front), group_text(first, second));
        lemma_visible_group(first, second);
        lemma_hex_text_last_two(bytes);
    }
}

/// Whether the byte at `index`, of `len` bytes dumped, is written: every byte of a full
/// line is, and of the last line those that have a partner.
pub open spec fn is_shown(len: nat, index: int) -> bool {
    0 <= index < 16 * (len / 16) + 2 * ((len % 16) / 2)
}

/// The parts of a line and where they stand: the gutter starts at the same column on
/// every line, whether the line is full or not, and only the line feed follows it.
pub proof fn lemma_line_columns(address: u32, chunk: Seq<u8>)
    requires
        chunk.len() <= LINE_BYTES,
    ensures
        line_text(address, chunk).len() == GUTTER_COLUMN + shown(chunk).len() + 1,
        chunk.len() == LINE_BYTES ==> line_text(address, chunk).len() == FULL_LINE_WIDTH,
        line_text(address, chunk).take(8) == address_text(address),
        line_text(address, chunk)[8] == COLON,
        line_text(address, chunk)[9] == SPACE,
        line_text(address, chunk).subrange(GROUPS_COLUMN as int, GUTTER_COLUMN as int)
            == groups_text(shown(chunk)) + spaces(padding(chunk.len() / 2)),
        line_text(address, chunk).subrange(
            GUTTER_COLUMN as int,
            GUTTER_COLUMN + shown(chunk).len(),
        ) == gutter_text(shown(chunk)),
        line_text(address, chunk).last() == NEWLINE,
{
    let line = line_text(address, chunk);
    let head = address_text(address) + seq![COLON, SPACE];
    let middle = groups_text(shown(chunk)) + spaces(padding(chunk.len() / 2));
    let gutter = gutter_text(shown(chunk));
    lemma_address_text(address);
    lemma_groups_text_len(shown(chunk));
    assert(head.len() == 10);
    assert(middle.len() == 41);
    assert(line =~= head + middle + gutter + seq![NEWLINE]);
    assert(line.take(8) =~= address_text(address));
    assert(line.subrange(GROUPS_COLUMN as int, GUTTER_COLUMN as int) =~= middle);
    assert(line.subrange(GUTTER_COLUMN as int, GUTTER_COLUMN + shown(chunk).len()) =~= gutter);
}

/// Between the address and the gutter a line holds the digits of the bytes written,
/// two for each byte, and otherwise spaces; the gutter has one character for each of
/// those bytes.
pub proof fn lemma_line_digits(address: u32, chunk: Seq<u8>)
    requires
        chunk.len() <= LINE_BYTES,
    ensures
        visible(line_text(address, chunk).subrange(GROUPS_COLUMN as int, GUTTER_COLUMN as int))
            == hex_text(shown(chunk)),
        hex_text(shown(chunk)).len() == 2 * shown(chunk).len(),
        gutter_text(shown(chunk)).len() == shown(chunk).len(),
        shown(chunk).len() == 2 * (chunk.len() / 2),
{
    lemma_line_columns(address, chunk);
    lemma_visible_concat(groups_text(shown(chunk)), spaces(padding(chunk.len() / 2)));
    lemma_visible_groups(shown(chunk));
    lemma_visible_spaces(padding(chunk.len() / 2));
    lemma_hex_text(shown(chunk));
    assert(hex_text(shown(chunk)) + Seq::<u8>::empty() =~= hex_text(shown(chunk)));
}

/// A last line of an even number of bytes, `r`, holds `2 * r` digits, those of its bytes
/// and no others, and its gutter has `r` characters.
pub proof fn lemma_even_line_digits(address: u32, chunk: Seq<u8>)
    requires
        chunk.len() <= LINE_BYTES,
        chunk.len() % 2 == 0,
    ensures
        visible(line_text(address, chunk).subrange(GROUPS_COLUMN as int, GUTTER_COLUMN as int))
            == hex_text(chunk),
        hex_text(chunk).len() == 2 * chunk.len(),
        line_text(address, chunk).subrange(GUTTER_COLUMN as int, GUTTER_COLUMN + chunk.len())
            == gutter_text(chunk),
        line_text(address, chunk).len() == GUTTER_COLUMN + chunk.len() + 1,
{
    assert(shown(chunk) =~= chunk);
    lemma_line_columns(address, chunk);
    lemma_line_digits(address, chunk);
}

/// The dump of no bytes is one line: the address zero, spaces up to the gutter's column,
/// and the line feed.
pub proof fn lemma_empty_dump()
    ensures
        dump_text(Seq::<u8>::empty()) == address_text(0) + seq![COLON, SPACE] + spaces(41) + seq![
            NEWLINE,
        ],
        address_text(0) == seq![0x30u8, 0x30u8, 0x30u8, 0x30u8, 0x30u8, 0x30u8, 0x30u8, 0x30u8],
        dump_text(Seq::<u8>::empty()).len() == GUTTER_COLUMN + 1,
{
    let none = Seq::<u8>::empty();
    reveal(address_text);
    lemma_hex_pair(0);
    assert(line_count(0) == 1);
    assert(dump_lines(none, 1) == dump_lines(none, 0) + dump_line(none, 0));
    assert(chunk_at(none, 0) =~= none);
    assert(shown(none) =~= none);
    assert(groups_text(none) =~= none);
    assert(gutter_text(none) =~= none);
    assert(dump_text(none) =~= address_text(0) + seq![COLON, SPACE] + spaces(41) + seq![NEWLINE]);
    assert(address_text(0) =~= seq![
        0x30u8,
        0x30u8,
        0x30u8,
        0x30u8,
        0x30u8,
        0x30u8,
        0x30u8,
        0x30u8,
    ]);
}

/// Full lines have the same width: the first `count` lines of a dump, all of them
/// full, take `68 * count` characters.
pub proof fn lemma_full_lines_len(bytes: Seq<u8>, count: nat)
    requires
        line_address(count) <= bytes.len(),
    ensures
        dump_lines(bytes, count).len() == line_start(count),
    decreases count,
{
    if count > 0 {
        let k = (count - 1) as nat;
        lemma_full_lines_len(bytes, k);
        assert(chunk_at(bytes, k).len() == LINE_BYTES);
        lemma_line_columns(line_address(k) as u32, chunk_at(bytes, k));
    }
}

/// The first lines of a dump are the start of the dump.
pub proof fn lemma_dump_lines_prefix(bytes: Seq<u8>, fewer: nat, count: nat)
    requires
        fewer <= count,
    ensures
        dump_lines(bytes, fewer).len() <= dump_lines(bytes, count).len(),
        dump_lines(bytes, count).take(dump_lines(bytes, fewer).len() as int) == dump_lines(
            bytes,
            fewer,
        ),
    decreases count,
{
    if fewer == count {
        assert(dump_lines(bytes, count).take(dump_lines(bytes, count).len() as int)
            =~= dump_lines(bytes, count));
    } else {
        lemma_dump_lines_prefix(bytes, fewer, (count - 1) as nat);
        assert(dump_lines(bytes, count).take(dump_lines(bytes, fewer).len() as int)
            =~= dump_lines(bytes, (count - 1) as nat).take(dump_lines(bytes, fewer).len() as int));
    }
}

/// Line `k` of a dump starts `68 * k` characters into it.
pub proof fn lemma_line_position(bytes: Seq<u8>, k: nat)
    requires
        k < line_count(bytes.len()),
    ensures
        line_start(k) + dump_line(bytes, k).len() <= dump_text(bytes).len(),
        dump_text(bytes).subrange(
            line_start(k),
            line_start(k) + dump_line(bytes, k).len(),
        ) == dump_line(bytes, k),
{
    let count = line_count(bytes.len());
    lemma_full_lines_len(bytes, k);
    lemma_dump_lines_prefix(bytes, k + 1, count);
    let upto = dump_lines(bytes, k + 1);
    assert(upto == dump_lines(bytes, k) + dump_line(bytes, k));
    assert(upto.subrange(line_start(k), upto.len() as int) =~= dump_line(bytes, k));
    assert(dump_text(bytes).subrange(line_start(k), upto.len() as int) =~= upto.subrange(
        line_start(k),
        upto.len() as int,
    ));
}

/// Line `k` of a dump carries the address `16 * k`.
pub proof fn lemma_line_address(bytes: Seq<u8>, k: nat)
    requires
        k < line_count(bytes.len()),
    ensures
        line_start(k) + 8 <= dump_text(bytes).len(),
        dump_text(bytes).subrange(line_start(k), line_start(k) + 8) == address_text(
            line_address(k) as u32,
        ),
        bytes.len() <= ADDRESS_SPACE ==> line_address(k) <= u32::MAX,
{
    lemma_line_position(bytes, k);
    assert(chunk_at(bytes, k).len() <= LINE_BYTES);
    lemma_line_columns(line_address(k) as u32, chunk_at(bytes, k));
    let line = dump_line(bytes, k);
    assert(dump_text(bytes).subrange(line_start(k), line_start(k) + 8) =~= line.take(
        8,
    ));
}

/// A byte that is written stands on a line of the dump, among the bytes that the line
/// shows.
pub proof fn lemma_shown_byte_in_line(bytes: Seq<u8>, index: int)
    requires
        is_shown(bytes.len(), index),
    ensures
        0 <= index < bytes.len(),
        index / 16 < line_count(bytes.len()),
        chunk_at(bytes, (index / 16) as nat).len() <= LINE_BYTES,
        index % 16 < shown(chunk_at(bytes, (index / 16) as nat)).len(),
        shown(chunk_at(bytes, (index / 16) as nat))[index % 16] == bytes[index],
{
    let len = bytes.len() as int;
    let k = index / 16;
    let column = index % 16;
    assert(index == 16 * k + column);
    assert(len == 16 * (len / 16) + len % 16);
    if 16 * (k + 1) <= len {
        assert(chunk_at(bytes, k as nat).len() == 16);
    } else {
        assert(k == len / 16);
        assert(chunk_at(bytes, k as nat).len() == len % 16);
    }
}

/// The gutter shows every byte written by the byte itself where it is printable, from
/// the space to the tilde, and by a dot where it is not. The character for the byte at
/// `index` stands on line `index / 16`, at the gutter's column plus `index % 16`.
pub proof fn lemma_gutter_shows_byte(bytes: Seq<u8>, index: int)
    requires
        is_shown(bytes.len(), index),
    ensures
        0 <= index < bytes.len(),
        68 * (index / 16) + GUTTER_COLUMN + index % 16 < dump_text(bytes).len(),
        dump_text(bytes)[68 * (index / 16) + GUTTER_COLUMN + index % 16]
            == gutter_char(bytes[index]),
        gutter_char(bytes[index]) == if 0x20 <= bytes[index] <= 0x7e {
            bytes[index]
        } else {
            DOT
        },
{
    let k = (index / 16) as nat;
    let column = index % 16;
    let chunk = chunk_at(bytes, k);
    let line = dump_line(bytes, k);
    let start = line_start(k);
    lemma_shown_byte_in_line(bytes, index);
    lemma_line_position(bytes, k);
    lemma_line_columns(line_address(k) as u32, chunk);
    let gutter = line.subrange(GUTTER_COLUMN as int, GUTTER_COLUMN + shown(chunk).len());
    assert(gutter[column] == line[GUTTER_COLUMN + column]);
    assert(gutter[column] == gutter_char(shown(chunk)[column]));
    assert(dump_text(bytes).subrange(start, start + line.len())[GUTTER_COLUMN + column]
        == dump_text(bytes)[start + GUTTER_COLUMN + column]);
}

/// A gutter holds no line feed, so what follows the first line feed after a gutter is
/// what follows the line.
pub proof fn lemma_after_gutter(bytes: Seq<u8>, rest: Seq<u8>)
    ensures
        after_newline(visible(gutter_text(bytes)) + seq![NEWLINE] + rest) == rest,
    decreases bytes.len(),
{
    let s = visible(gutter_text(bytes)) + seq![NEWLINE] + rest;
    if bytes.len() == 0 {
        lemma_visible_empty();
        assert(gutter_text(bytes) =~= Seq::<u8>::empty());
        assert(s =~= seq![NEWLINE] + rest);
        assert(s.skip(1) =~= rest);
    } else {
        let first = gutter_char(bytes[0]);
        let later = bytes.skip(1);
        assert(gutter_text(bytes) =~= seq![first] + gutter_text(later));
        lemma_visible_first(first, gutter_text(later));
        lemma_after_gutter(later, rest);
        let next = visible(gutter_text(later)) + seq![NEWLINE] + rest;
        if first == SPACE {
            assert(s =~= next);
        } else {
            assert(s =~= seq![first] + next);
            assert(s.skip(1) =~= next);
            assert(first != NEWLINE);
        }
    }
}

/// An address holds no space.
pub proof fn lemma_visible_address(address: u32)
    ensures
        visible(address_text(address)) == address_text(address),
{
    let a = address_text(address);
    lemma_address_text(address);
    assert forall|i: int| 0 <= i < a.len() implies a[i] != SPACE by {
        assert(is_hex_char(a[i]));
    }
    lemma_visible_without_spaces(a);
}

/// Of the colon and the space after it, the colon is left.
pub proof fn lemma_visible_colon()
    ensures
        visible(seq![COLON, SPACE]) == seq![COLON],
{
    lemma_visible_first(COLON, seq![SPACE]);
    lemma_visible_spaces(1);
    assert(spaces(1) =~= seq![SPACE]);
    assert(seq![COLON] + seq![SPACE] =~= seq![COLON, SPACE]);
    assert(seq![COLON] + Seq::<u8>::empty() =~= seq![COLON]);
}

/// The line feed is no space.
pub proof fn lemma_visible_newline()
    ensures
        visible(seq![NEWLINE]) == seq![NEWLINE],
{
    lemma_visible_first(NEWLINE, Seq::<u8>::empty());
    lemma_visible_empty();
    assert(seq![NEWLINE] + Seq::<u8>::empty() =~= seq![NEWLINE]);
}

/// Dropping the spaces of six texts in a row drops them in each.
pub proof fn lemma_visible_parts(
    a: Seq<u8>,
    b: Seq<u8>,
    c: Seq<u8>,
    d: Seq<u8>,
    e: Seq<u8>,
    f: Seq<u8>,
)
    ensures
        visible(a + b + c + d + e + f) == visible(a) + visible(b) + visible(c) + visible(d)
            + visible(e) + visible(f),
{
    lemma_visible_concat(a + b + c + d + e, f);
    lemma_visible_concat(a + b + c + d, e);
    lemma_visible_concat(a + b + c, d);
    lemma_visible_concat(a + b, c);
    lemma_visible_concat(a, b);
}

/// The bytes written on a line are an even number of bytes.
pub proof fn lemma_shown_even(chunk: Seq<u8>)
    ensures
        shown(chunk).len() == 2 * (chunk.len() / 2),
        shown(chunk).len() % 2 == 0,
        chunk.len() % 2 == 0 ==> shown(chunk) == chunk,
{
    if chunk.len() % 2 == 0 {
        assert(shown(chunk) =~= chunk);
    }
}

/// Six texts in a row without their spaces, where the first and the last hold none and
/// the fourth holds nothing else.
pub proof fn lemma_visible_assembly(
    a: Seq<u8>,
    c: Seq<u8>,
    g: Seq<u8>,
    p: Seq<u8>,
    t: Seq<u8>,
    n: Seq<u8>,
)
    requires
        visible(a) == a,
        visible(p) == Seq::<u8>::empty(),
        visible(n) == n,
    ensures
        visible(a + c + g + p + t + n) == a + visible(c) + visible(g) + visible(t) + n,
{
    lemma_visible_parts(a, c, g, p, t, n);
    Seq::add_empty_right(a + visible(c) + visible(g), visible(p));
}

/// A line without its spaces: the address, the colon, the digits of the bytes written,
/// what is left of the gutter, and the line feed.
pub proof fn lemma_visible_line(address: u32, chunk: Seq<u8>)
    requires
        chunk.len() <= LINE_BYTES,
    ensures
        visible(line_text(address, chunk)) == address_text(address) + seq![COLON] + hex_text(
            shown(chunk),
        ) + visible(gutter_text(shown(chunk))) + seq![NEWLINE],
{
    lemma_visible_address(address);
    lemma_visible_colon();
    lemma_visible_newline();
    lemma_shown_even(chunk);
    lemma_visible_groups(shown(chunk));
    lemma_visible_spaces(padding(chunk.len() / 2));
    lemma_visible_assembly(
        address_text(address),
        seq![COLON, SPACE],
        groups_text(shown(chunk)),
        spaces(padding(chunk.len() / 2)),
        gutter_text(shown(chunk)),
        seq![NEWLINE],
    );
}

/// Reading a full line gives its sixteen bytes, and goes on with the next line.
pub proof fn lemma_decode_full_line(address: u32, chunk: Seq<u8>, rest: Seq<u8>)
    requires
        chunk.len() == LINE_BYTES,
    ensures
        decode_lines(visible(line_text(address, chunk)) + rest) == chunk + decode_lines(rest),
{
    let s = visible(line_text(address, chunk)) + rest;
    let after = visible(gutter_text(chunk)) + seq![NEWLINE] + rest;
    lemma_visible_line(address, chunk);
    lemma_address_text(address);
    lemma_hex_text(chunk);
    assert(shown(chunk) =~= chunk);
    assert(s =~= address_text(address) + seq![COLON] + (hex_text(chunk) + after));
    let body = s.skip(9);
    assert(body =~= hex_text(chunk) + after);
    lemma_leading_pairs_of_hex(chunk, after, 16);
    assert(leading_pairs(after, 0) =~= Seq::<u8>::empty());
    assert(leading_pairs(body, 16) =~= chunk);
    assert(body.skip(32) =~= after);
    lemma_after_gutter(chunk, rest);
}

/// Three texts in a row can be joined from either end.
pub proof fn lemma_concat_assoc(a: Seq<u8>, b: Seq<u8>, c: Seq<u8>)
    ensures
        (a + b) + c == a + (b + c),
{
    assert((a + b) + c =~= a + (b + c));
}

/// The bytes before a full line, and then its own, are the bytes up to the next line.
pub proof fn lemma_take_full_chunk(bytes: Seq<u8>, k: nat)
    requires
        line_address(k + 1) <= bytes.len(),
    ensures
        chunk_at(bytes, k).len() == LINE_BYTES,
        bytes.take(line_address(k)) + chunk_at(bytes, k) == bytes.take(line_address(k + 1)),
{
    assert(bytes.take(line_address(k)) + chunk_at(bytes, k) =~= bytes.take(line_address(k + 1)));
}

/// Reading the first lines of a dump, all of them full, gives the bytes dumped in them,
/// and goes on with what follows.
pub proof fn lemma_decode_full_lines(bytes: Seq<u8>, count: nat, rest: Seq<u8>)
    requires
        line_address(count) <= bytes.len(),
    ensures
        decode_lines(visible(dump_lines(bytes, count)) + rest) == bytes.take(line_address(count))
            + decode_lines(rest),
    decreases count,
{
    if count == 0 {
        lemma_visible_empty();
        assert(dump_lines(bytes, 0) == Seq::<u8>::empty());
        Seq::add_empty_left(visible(dump_lines(bytes, 0)), rest);
        Seq::add_empty_left(bytes.take(0), decode_lines(rest));
    } else {
        let k = (count - 1) as nat;
        let head = dump_lines(bytes, k);
        let line = dump_line(bytes, k);
        let chunk = chunk_at(bytes, k);
        let later = decode_lines(rest);
        assert(dump_lines(bytes, count) == head + line);
        lemma_visible_concat(head, line);
        lemma_concat_assoc(visible(head), visible(line), rest);
        lemma_decode_full_lines(bytes, k, visible(line) + rest);
        lemma_take_full_chunk(bytes, k);
        assert(decode_lines(visible(line) + rest) == chunk + later) by {
            lemma_decode_full_line(line_address(k) as u32, chunk, rest);
        }
        lemma_concat_assoc(bytes.take(line_address(k)), chunk, later);
    }
}

/// Reading the dump of a whole number of lines gives back the bytes dumped.
pub proof fn lemma_round_trip(bytes: Seq<u8>)
    requires
        bytes.len() % 16 == 0,
    ensures
        decode_text(dump_text(bytes)) == bytes,
{
    let none = Seq::<u8>::empty();
    if bytes.len() == 0 {
        lemma_empty_dump();
        assert(chunk_at(bytes, 0) =~= none);
        assert(dump_lines(bytes, 1) == dump_lines(bytes, 0) + dump_line(bytes, 0));
        assert(dump_text(bytes) =~= line_text(0, none));
        lemma_visible_line(0, none);
        lemma_visible_empty();
        lemma_address_text(0);
        assert(shown(none) =~= none);
        assert(gutter_text(none) =~= none);
        assert(hex_text(none) =~= none);
        let s = visible(dump_text(bytes));
        assert(s =~= address_text(0) + seq![COLON] + seq![NEWLINE]);
        assert(s.skip(9) =~= seq![NEWLINE]);
        assert(leading_pairs(s.skip(9), 16) =~= none);
        assert(bytes =~= none);
    } else {
        let count = line_count(bytes.len());
        assert(line_address(count) == bytes.len());
        lemma_decode_full_lines(bytes, count, none);
        assert(visible(dump_text(bytes)) + none =~= visible(dump_text(bytes)));
        assert(decode_lines(none) =~= none);
        assert(bytes.take(bytes.len() as int) + none =~= bytes);
    }
}

} // verus!
