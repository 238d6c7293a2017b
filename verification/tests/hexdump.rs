use binutils::hexdump::{decode, encode, encode_byte, Decoder, Encoder};
use binutils::hexdump::encoder::write_line;

fn spaces(count: usize) -> String {
    " ".repeat(count)
}

#[test]
fn encode_full_line() {
    let text = encode(b"0123456789abcdef");
    assert_eq!(
        text,
        b"00000000: 3031 3233 3435 3637 3839 6162 6364 6566  0123456789abcdef\n".to_vec()
    );
    assert_eq!(text.len(), 68);
}

#[test]
fn encode_empty_input_is_one_line_without_bytes() {
    let expected = format!("00000000: {}\n", spaces(41));
    let text = encode(b"");
    assert_eq!(text, expected.into_bytes());
    assert_eq!(text.len(), 52);
}

#[test]
fn encode_no_line_after_a_last_full_line() {
    let text = encode(&[0u8; 32]);
    let line0 = "00000000: 0000 0000 0000 0000 0000 0000 0000 0000  ................\n";
    let line1 = "00000010: 0000 0000 0000 0000 0000 0000 0000 0000  ................\n";
    assert_eq!(text, format!("{}{}", line0, line1).into_bytes());
}

#[test]
fn encode_partial_line_keeps_the_gutter_column() {
    let text = encode(b"ABCD");
    let expected = format!("00000000: 4142 4344 {}ABCD\n", spaces(31));
    assert_eq!(text, expected.into_bytes());
    assert_eq!(text[51], b'A');
    assert_eq!(text.len(), 51 + 4 + 1);
}

#[test]
fn encode_writes_whole_pairs_only() {
    let text = encode(&[0x41, 0x42, 0x0a]);
    let expected = format!("00000000: 4142 {}AB\n", spaces(36));
    assert_eq!(text, expected.into_bytes());
}

#[test]
fn encode_seventeen_bytes() {
    let mut input = vec![0x58u8; 16];
    input.push(0x59);
    let text = encode(&input);
    let line0 = "00000000: 5858 5858 5858 5858 5858 5858 5858 5858  XXXXXXXXXXXXXXXX\n";
    let line1 = format!("00000010: {}\n", spaces(41));
    assert_eq!(text, format!("{}{}", line0, line1).into_bytes());
}

#[test]
fn encode_eighteen_bytes() {
    let mut input = vec![0x58u8; 16];
    input.push(0x59);
    input.push(0x5a);
    let text = encode(&input);
    let line0 = "00000000: 5858 5858 5858 5858 5858 5858 5858 5858  XXXXXXXXXXXXXXXX\n";
    let line1 = format!("00000010: 595a {}YZ\n", spaces(36));
    assert_eq!(text, format!("{}{}", line0, line1).into_bytes());
}

#[test]
fn encode_addresses_count_sixteen_per_line() {
    let input = vec![0u8; 16 * 20];
    let text = encode(&input);
    assert_eq!(text.len(), 68 * 20);
    for k in 0..20usize {
        let address = format!("{:08x}", 16 * k);
        assert_eq!(&text[68 * k..68 * k + 8], address.as_bytes());
        assert_eq!(&text[68 * k + 8..68 * k + 10], b": ");
    }
    assert_eq!(&text[68 * 17..68 * 17 + 8], b"00000110");
}

#[test]
fn encode_gutter_shows_printable_bytes_and_dots() {
    let input: Vec<u8> = (0..=255u8).collect();
    let text = encode(&input);
    assert_eq!(text.len(), 68 * 16);
    for (i, &b) in input.iter().enumerate() {
        let shown = if (0x20..=0x7e).contains(&b) { b } else { b'.' };
        assert_eq!(text[68 * (i / 16) + 51 + i % 16], shown);
    }
}

#[test]
fn encode_gutter_starts_at_the_same_column_on_every_line() {
    for len in 0..=40usize {
        let input = vec![b'q'; len];
        let text = encode(&input);
        for line in text.split_inclusive(|&c| c == b'\n') {
            let shown = line.len() - 52;
            assert!(line.len() >= 52);
            assert_eq!(line[50], b' ');
            assert_eq!(line[line.len() - 1], b'\n');
            assert!(line[51..51 + shown].iter().all(|&c| c == b'q'));
            assert!(line[10..51].iter().all(|&c| c == b' ' || c == b'7' || c == b'1'));
        }
    }
}

#[test]
fn encode_last_line_of_even_length_has_two_digits_per_byte() {
    for r in [0usize, 2, 4, 6, 8, 10, 12, 14] {
        let mut input = vec![0x11u8; 16];
        input.extend(vec![0x22u8; r]);
        let text = encode(&input);
        if r == 0 {
            assert_eq!(text.len(), 68);
        } else {
            let last = &text[68..];
            let digits = last[10..51].iter().filter(|&&c| c != b' ').count();
            assert_eq!(digits, 2 * r);
            assert_eq!(last.len(), 51 + r + 1);
            assert_eq!(&last[51..51 + r], vec![b'"'; r].as_slice());
        }
    }
}

#[test]
fn encode_last_line_of_odd_length_leaves_out_the_lone_byte() {
    for r in [1usize, 3, 5, 7, 9, 11, 13, 15] {
        let input = vec![0x33u8; r];
        let text = encode(&input);
        let digits = text[10..51].iter().filter(|&&c| c != b' ').count();
        assert_eq!(digits, 2 * (r - 1));
        assert_eq!(text.len(), 51 + (r - 1) + 1);
    }
}

#[test]
fn encode_byte_appends_digits_and_gives_the_gutter_character() {
    let mut out = Vec::new();
    assert_eq!(encode_byte(b'A', &mut out), b'A');
    assert_eq!(encode_byte(0x0a, &mut out), b'.');
    assert_eq!(encode_byte(0x7f, &mut out), b'.');
    assert_eq!(encode_byte(b' ', &mut out), b' ');
    assert_eq!(encode_byte(b'~', &mut out), b'~');
    assert_eq!(out, b"410a7f207e".to_vec());
}

#[test]
fn write_line_takes_any_address() {
    let mut out = b">".to_vec();
    write_line(0xdead_bef0, b"hi", &mut out);
    let expected = format!(">deadbef0: 6869 {}hi\n", spaces(36));
    assert_eq!(out, expected.into_bytes());
}

#[test]
fn encoder_writes_each_line_when_it_is_full() {
    let mut encoder = Encoder::new();
    let mut out = Vec::new();
    for i in 0..15u8 {
        encoder.push(b'a' + i, &mut out);
        assert!(out.is_empty());
    }
    encoder.push(b'p', &mut out);
    assert_eq!(
        out,
        b"00000000: 6162 6364 6566 6768 696a 6b6c 6d6e 6f70  abcdefghijklmnop\n".to_vec()
    );
    encoder.push(b'q', &mut out);
    encoder.push(b'r', &mut out);
    assert_eq!(out.len(), 68);
    encoder.finish(&mut out);
    let last = format!("00000010: 7172 {}qr\n", spaces(36));
    assert_eq!(&out[68..], last.as_bytes());
}

#[test]
fn encoder_agrees_with_encode() {
    for len in 0..=50usize {
        let input: Vec<u8> = (0..len).map(|i| (i * 7 + 3) as u8).collect();
        let mut encoder = Encoder::new();
        let mut out = Vec::new();
        for &b in &input {
            encoder.push(b, &mut out);
        }
        encoder.finish(&mut out);
        assert_eq!(out, encode(&input));
    }
}

#[test]
fn decode_full_line() {
    let text = b"00000000: 3031 3233 3435 3637 3839 6162 6364 6566  0123456789abcdef\n";
    assert_eq!(decode(text), b"0123456789abcdef".to_vec());
}

#[test]
fn decode_does_not_look_at_the_address() {
    let text = b"zzzzzzzz: 3031 3233 3435 3637 3839 6162 6364 6566  0123456789abcdef\n\
                 00000000: 4142 4344 4546 4748 494a 4b4c 4d4e 4f50  ABCDEFGHIJKLMNOP\n";
    assert_eq!(decode(text), b"0123456789abcdefABCDEFGHIJKLMNOP".to_vec());
}

#[test]
fn decode_ignores_spaces_everywhere() {
    let text = b"0000 0000:30313233 34353637 38396162 63646566 gutter with spaces\n";
    assert_eq!(decode(text), b"0123456789abcdef".to_vec());
    let text = b"00000000:303132333435363738396162636465660123456789abcdef\n";
    assert_eq!(decode(text), b"0123456789abcdef".to_vec());
}

#[test]
fn decode_partial_line_stops_at_the_gutter() {
    let text = format!("00000000: 4142 0a{}AB.", spaces(34));
    assert_eq!(decode(text.as_bytes()), vec![0x41, 0x42, 0x0a]);
    let text = format!("00000000: 4142 0a{}AB.\n", spaces(34));
    assert_eq!(decode(text.as_bytes()), vec![0x41, 0x42, 0x0a]);
}

#[test]
fn decode_partial_line_may_read_the_gutter_as_digits() {
    let text = encode(b"ab");
    assert_eq!(decode(&text), vec![0x61, 0x62, 0xab]);
}

#[test]
fn decode_stops_where_the_text_ends() {
    assert_eq!(decode(b""), Vec::<u8>::new());
    assert_eq!(decode(b"0000"), Vec::<u8>::new());
    assert_eq!(decode(b"00000000:"), Vec::<u8>::new());
    assert_eq!(decode(b"00000000: 41"), vec![0x41]);
    assert_eq!(decode(b"00000000: 4142 4"), vec![0x41, 0x42]);
    let text = b"00000000: 3031 3233 3435 3637 3839 6162 6364 6566  0123456789abcdef";
    assert_eq!(decode(text), b"0123456789abcdef".to_vec());
}

#[test]
fn decode_stops_at_a_character_that_is_no_digit() {
    assert_eq!(decode(b"00000000: 4142 4x44"), vec![0x41, 0x42]);
    assert_eq!(decode(b"00000000: 4142 x344"), vec![0x41, 0x42]);
    assert_eq!(decode(b"00000000: 4142\n00000010: 4344"), vec![0x41, 0x42]);
    assert_eq!(decode(b"00000000: 41F2"), vec![0x41]);
}

#[test]
fn decode_keeps_the_bytes_of_a_line_that_breaks_off() {
    let text = b"00000000: 3031 3233 3435 3637 3839 6162 6364 6566  0123456789abcdef\n\
                 00000010: 4142 43";
    assert_eq!(decode(text), b"0123456789abcdefABC".to_vec());
}

#[test]
fn round_trip_of_whole_lines() {
    for lines in 0..=8usize {
        let input: Vec<u8> = (0..16 * lines).map(|i| (i * 37 + 11) as u8).collect();
        assert_eq!(decode(&encode(&input)), input);
    }
}

#[test]
fn round_trip_of_every_byte_value() {
    let input: Vec<u8> = (0..=255u8).collect();
    assert_eq!(decode(&encode(&input)), input);
    let spaces_and_newlines = b"  \n \n  a b \n\n   ".to_vec();
    assert_eq!(spaces_and_newlines.len(), 16);
    assert_eq!(decode(&encode(&spaces_and_newlines)), spaces_and_newlines);
}

#[test]
fn decoder_gives_each_byte_with_its_second_digit() {
    let mut decoder = Decoder::new();
    for &c in b"00000000: " {
        assert_eq!(decoder.feed(c), None);
    }
    assert_eq!(decoder.feed(b'4'), None);
    assert_eq!(decoder.feed(b'1'), Some(0x41));
    assert_eq!(decoder.feed(b' '), None);
    assert_eq!(decoder.feed(b'f'), None);
    assert!(!decoder.is_done());
    assert_eq!(decoder.feed(b'f'), Some(0xff));
    assert_eq!(decoder.feed(b'\n'), None);
    assert!(decoder.is_done());
    assert_eq!(decoder.feed(b'4'), None);
    assert_eq!(decoder.feed(b'1'), None);
}

#[test]
fn decoder_agrees_with_decode() {
    let input: Vec<u8> = (0..64usize).map(|i| (i * 5) as u8).collect();
    let text = encode(&input);
    let mut decoder = Decoder::new();
    let mut out = Vec::new();
    for &c in &text {
        if let Some(byte) = decoder.feed(c) {
            out.push(byte);
        }
    }
    assert_eq!(out, decode(&text));
    assert_eq!(out, input);
}
