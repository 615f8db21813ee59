use lib::reader::{is_whitespace, parse_u64, Reader};
use lib::stream::Stream;

#[test]
fn whitespace_characters() {
    for c in [0x00u8, 0x09, 0x0a, 0x0c, 0x0d, 0x20] {
        assert!(is_whitespace(c));
    }
    assert!(!is_whitespace(b'a'));
    assert!(!is_whitespace(b'0'));
}

#[test]
fn parse_u64_follows_str_parse() {
    assert_eq!(parse_u64(&b"123".to_vec()), Some(123));
    assert_eq!(parse_u64(&b"+7".to_vec()), Some(7));
    assert_eq!(parse_u64(&b"-7".to_vec()), None);
    assert_eq!(parse_u64(&b"+".to_vec()), None);
    assert_eq!(parse_u64(&b"".to_vec()), None);
    assert_eq!(parse_u64(&b"1 2".to_vec()), None);
    assert_eq!(parse_u64(&b"18446744073709551615".to_vec()), Some(u64::MAX));
    assert_eq!(parse_u64(&b"18446744073709551616".to_vec()), None);
    assert_eq!(parse_u64(&b"007".to_vec()), Some(7));
}

#[test]
fn find_moves_to_the_first_match() {
    let data = b"abcXYZdefXYZ".to_vec();
    let mut s = Stream::new(&data, data.len());
    assert!(Reader::find(&mut s, b"XYZ", 100));
    assert_eq!(s.pos(), 3);
    let mut t = Stream::new(&data, data.len());
    assert!(!Reader::find(&mut t, b"QQQ", 100));
    assert_eq!(t.pos(), 0);
}

#[test]
fn find_needs_a_byte_to_spare() {
    let data = b"XYZ".to_vec();
    let mut s = Stream::new(&data, data.len());
    assert!(!Reader::find(&mut s, b"XYZ", 100));
    let data2 = b"XYZ!".to_vec();
    let mut s2 = Stream::new(&data2, data2.len());
    assert!(Reader::find(&mut s2, b"XYZ", 100));
}

#[test]
fn find_checked_reports_panics() {
    let data = b"ab".to_vec();
    let mut s = Stream::new(&data, data.len());
    assert_eq!(Reader::find_checked(&mut s, b"abc", 10), None);
    let mut t = Stream::new(&data, data.len());
    t.set_pos(2);
    assert_eq!(Reader::find_checked(&mut t, b"a", 10), None);
}

#[test]
fn parse_startxref_reads_the_offset() {
    let data = b"%PDF-1.4\nstuff\nstartxref\n  1234\n%%EOF\n".to_vec();
    let mut s = Stream::new(&data, data.len());
    assert_eq!(Reader::parse_startxref(&mut s), 1234);
}

#[test]
fn parse_startxref_non_number_gives_zero() {
    let data = b"startxref\n12 34\n%%EOF".to_vec();
    let mut s = Stream::new(&data, data.len());
    assert_eq!(Reader::parse_startxref(&mut s), 0);
}

#[test]
fn parse_startxref_in_a_long_file() {
    let mut data = vec![b'x'; 3000];
    data.extend_from_slice(b"startxref\n42\n%%EOF\n");
    let mut s = Stream::new(&data, data.len());
    assert_eq!(Reader::parse_startxref(&mut s), 42);
}

#[test]
fn parse_startxref_checked_at_end_of_data() {
    let data = b"startxref   ".to_vec();
    let mut s = Stream::new(&data, data.len());
    assert_eq!(Reader::parse_startxref_checked(&mut s), None);
}
