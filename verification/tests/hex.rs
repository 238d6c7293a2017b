use binutils::hex::{decode, decode_pair, encode, write_hex};

#[test]
fn hex_encode_writes_two_digits_per_byte() {
    assert_eq!(encode(b"AB\n"), b"41420a".to_vec());
    assert_eq!(encode(&[0x00, 0xff, 0x1e]), b"00ff1e".to_vec());
    assert_eq!(encode(b""), Vec::<u8>::new());
}

#[test]
fn hex_decode_reads_pairs() {
    assert_eq!(decode(b"41420a"), b"AB\n".to_vec());
    assert_eq!(decode(b"00ff1e"), vec![0x00, 0xff, 0x1e]);
}

#[test]
fn hex_decode_leaves_out_a_lone_last_digit() {
    assert_eq!(decode(b"41420"), b"AB".to_vec());
    assert_eq!(decode(b"4"), Vec::<u8>::new());
}

#[test]
fn hex_decode_stops_at_the_first_pair_that_is_no_pair_of_digits() {
    assert_eq!(decode(b"4142\n4344"), b"AB".to_vec());
    assert_eq!(decode(b"41zz42"), b"A".to_vec());
    assert_eq!(decode(b"41A042"), b"A".to_vec());
    assert_eq!(decode(b" 4142"), Vec::<u8>::new());
}

#[test]
fn hex_round_trip_of_every_byte() {
    let bytes: Vec<u8> = (0..=255u8).collect();
    let text = encode(&bytes);
    assert_eq!(text.len(), 512);
    assert_eq!(decode(&text), bytes);
}

#[test]
fn write_hex_appends() {
    let mut out = b"x".to_vec();
    write_hex(0x7f, &mut out);
    write_hex(0x05, &mut out);
    assert_eq!(out, b"x7f05".to_vec());
}

#[test]
fn decode_pair_reads_lower_case_digits_only() {
    assert_eq!(decode_pair(b'0', b'0'), Some(0x00));
    assert_eq!(decode_pair(b'7', b'f'), Some(0x7f));
    assert_eq!(decode_pair(b'f', b'f'), Some(0xff));
    assert_eq!(decode_pair(b'a', b'5'), Some(0xa5));
    assert_eq!(decode_pair(b'A', b'5'), None);
    assert_eq!(decode_pair(b'5', b'g'), None);
    assert_eq!(decode_pair(b' ', b'1'), None);
    assert_eq!(decode_pair(b'1', b'\n'), None);
}
