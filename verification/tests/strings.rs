use binutils::strings::{read, scan, IsPrintable, Trailing};

#[test]
fn printable() {
    assert!(!b'\0'.is_printable());
    assert!(!b'\t'.is_printable());
    assert!(!b'\n'.is_printable());
    assert!(!b'\r'.is_printable());
    assert!(!b'\x1b'.is_printable());
    assert!(b'a'.is_printable());
    assert!(b'B'.is_printable());
    assert!(b'x'.is_printable());
    assert!(b'~'.is_printable());
}

#[test]
fn printable_range_is_space_to_tilde() {
    for b in 0..=255u8 {
        assert_eq!(b.is_printable(), (0x20..=0x7e).contains(&b));
    }
}

#[test]
fn trailing_fills_after_four_bytes() {
    let mut trailing = Trailing::new();
    assert!(!trailing.is_complete());
    assert!(!trailing.set(b'a'));
    assert!(!trailing.set(b'b'));
    assert!(!trailing.set(b'c'));
    assert!(trailing.set(b'd'));
    assert!(trailing.is_complete());
    assert_eq!(trailing.chars(), [b'a', b'b', b'c', b'd']);
}

#[test]
fn trailing_reset_empties() {
    let mut trailing = Trailing::new();
    trailing.set(b'x');
    trailing.set(b'y');
    trailing.reset();
    assert!(!trailing.is_complete());
    assert!(!trailing.set(b'1'));
    assert_eq!(trailing.chars()[0], b'1');
}

#[test]
fn read_keeps_runs_of_four_or_more() {
    assert_eq!(read(b"abc\0defgh\0ij"), b"defgh\n".to_vec());
}

#[test]
fn read_leaves_last_run_without_line_feed() {
    assert_eq!(read(b"abcd"), b"abcd".to_vec());
    assert_eq!(read(b"abcdef\x01xyz12"), b"abcdef\nxyz12".to_vec());
}

#[test]
fn read_drops_short_runs() {
    assert_eq!(read(b"abc"), Vec::<u8>::new());
    assert_eq!(read(b"abc\nabc\nabc"), Vec::<u8>::new());
    assert_eq!(read(b""), Vec::<u8>::new());
}

#[test]
fn read_treats_high_bytes_as_unprintable() {
    assert_eq!(read(b"good\xffbad\x80fine "), b"good\nfine ".to_vec());
}

#[test]
fn read_separates_consecutive_strings() {
    assert_eq!(read(b"one1\ntwo2\n"), b"one1\ntwo2\n".to_vec());
    assert_eq!(read(b"\0\0\0\0"), Vec::<u8>::new());
}

#[test]
fn trailing_starts_with_zeroed_slots() {
    let trailing = Trailing::new();
    assert_eq!(trailing.chars(), [0, 0, 0, 0]);
}

#[test]
fn trailing_reset_keeps_the_slots() {
    let mut trailing = Trailing::new();
    trailing.set(b'x');
    trailing.set(b'y');
    trailing.reset();
    assert_eq!(trailing.chars(), [b'x', b'y', 0, 0]);
    trailing.set(b'z');
    assert_eq!(trailing.chars(), [b'z', b'y', 0, 0]);
}

#[test]
fn scan_releases_a_run_with_its_fourth_byte() {
    let mut trailing = Trailing::new();
    let mut out = Vec::new();
    for &b in b"abc" {
        scan(&mut trailing, b, &mut out);
        assert!(out.is_empty());
    }
    scan(&mut trailing, b'd', &mut out);
    assert_eq!(out, b"abcd".to_vec());
    scan(&mut trailing, b'e', &mut out);
    assert_eq!(out, b"abcde".to_vec());
    scan(&mut trailing, 0, &mut out);
    assert_eq!(out, b"abcde\n".to_vec());
    scan(&mut trailing, 0, &mut out);
    assert_eq!(out, b"abcde\n".to_vec());
}

#[test]
fn scan_agrees_with_read() {
    let input = b"\x00\x01text\x02ab\x03longer text here\xffend";
    let mut trailing = Trailing::new();
    let mut out = Vec::new();
    for &b in input.iter() {
        scan(&mut trailing, b, &mut out);
    }
    assert_eq!(out, read(input));
    assert_eq!(out, b"text\nlonger text here\n".to_vec());
}
