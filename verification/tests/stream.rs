use lib::stream::Stream;

#[test]
fn new_stream_spans_the_buffer() {
    let data = vec![1u8, 2, 3, 4, 5];
    let s = Stream::new(&data, data.len());
    assert_eq!(s.start(), 0);
    assert_eq!(s.pos(), 0);
    assert_eq!(s.end(), 5);
    assert_eq!(s.len(), 5);
    assert!(!s.is_empty());
    let empty: Vec<u8> = Vec::new();
    let e = Stream::new(&empty, 0);
    assert!(e.is_empty());
}

#[test]
fn get_byte_reads_in_order_and_stops_at_end() {
    let data = vec![10u8, 20, 30];
    let mut s = Stream::new(&data, data.len());
    assert_eq!(s.peek_byte(), Some(10));
    assert_eq!(s.peek_byte(), Some(10));
    assert_eq!(s.get_byte(), Some(10));
    assert_eq!(s.get_byte(), Some(20));
    assert_eq!(s.pos(), 2);
    assert_eq!(s.get_byte(), Some(30));
    assert_eq!(s.get_byte(), None);
    assert_eq!(s.pos(), 3);
}

#[test]
fn end_mark_limits_reads() {
    let data = vec![1u8, 2, 3, 4];
    let mut s = Stream::new(&data, 2);
    assert_eq!(s.get_byte(), Some(1));
    assert_eq!(s.get_byte(), Some(2));
    assert_eq!(s.get_byte(), None);
}

#[test]
fn end_mark_past_the_data_gives_none() {
    let data = vec![7u8];
    let mut s = Stream::new(&data, 3);
    assert_eq!(s.get_byte(), Some(7));
    assert_eq!(s.get_byte(), None);
    assert_eq!(s.pos(), 1);
}

#[test]
fn uint16_and_int32_are_big_endian() {
    let data = vec![0x12u8, 0x34, 0xff, 0xff, 0xff, 0xfe, 0x00, 0x00, 0x01, 0x00];
    let mut s = Stream::new(&data, data.len());
    assert_eq!(s.get_uint16(), Some(0x1234));
    assert_eq!(s.get_int32(), Some(-2));
    assert_eq!(s.get_int32(), Some(256));
    assert_eq!(s.get_uint16(), None);
}

#[test]
fn uint16_with_one_byte_left_consumes_it() {
    let data = vec![0xabu8];
    let mut s = Stream::new(&data, 1);
    assert_eq!(s.get_uint16(), None);
    assert_eq!(s.pos(), 1);
}

#[test]
fn peek_bytes_does_not_move() {
    let data = vec![1u8, 2, 3, 4, 5];
    let mut s = Stream::new(&data, data.len());
    s.set_pos(1);
    assert_eq!(s.peek_bytes(3), Some(vec![2, 3, 4]));
    assert_eq!(s.pos(), 1);
    assert_eq!(s.peek_bytes(10), Some(vec![2, 3, 4, 5]));
    assert_eq!(s.peek_bytes(0), None);
}

#[test]
fn peek_bytes_pads_with_zeros_past_the_data() {
    let data = vec![1u8, 2];
    let mut s = Stream::new(&data, 4);
    assert_eq!(s.peek_bytes(4), Some(vec![1, 2, 0, 0]));
}

#[test]
fn get_bytes_steps_past_what_it_read() {
    let data = vec![1u8, 2, 3, 4, 5];
    let mut s = Stream::new(&data, data.len());
    assert_eq!(s.get_bytes(2), Some(vec![1, 2]));
    assert_eq!(s.pos(), 2);
    assert_eq!(s.get_bytes(10), Some(vec![3, 4, 5]));
    assert_eq!(s.pos(), 5);
    assert_eq!(s.get_bytes(1), None);
}

#[test]
fn get_byte_range_reads_at_the_cursor() {
    let data = vec![1u8, 2, 3, 4, 5];
    let mut s = Stream::new(&data, data.len());
    s.set_pos(2);
    assert_eq!(s.get_byte_range(0, 2), Some(vec![3, 4]));
    assert_eq!(s.pos(), 2);
    assert_eq!(s.get_byte_range(0, 2), Some(vec![5, 0]));
    assert_eq!(s.get_byte_range(0, 2), None);
    assert_eq!(s.get_byte_range(1, 100), None);
}

#[test]
fn seek_and_skip_move_both_ways() {
    let data = vec![1u8, 2, 3, 4, 5];
    let mut s = Stream::new(&data, data.len());
    s.seek_pos(3);
    assert_eq!(s.pos(), 3);
    assert_eq!(s.peek_byte(), Some(4));
    s.skip(-2);
    assert_eq!(s.pos(), 1);
    assert_eq!(s.get_byte(), Some(2));
    s.skip(-3);
    assert_eq!(s.pos(), u64::MAX);
    assert_eq!(s.peek_byte(), None);
}

#[test]
fn reset_and_move_start() {
    let data = vec![1u8, 2, 3, 4, 5];
    let mut s = Stream::new(&data, data.len());
    s.set_pos(2);
    s.move_start();
    assert_eq!(s.start(), 2);
    assert_eq!(s.len(), 3);
    s.set_pos(4);
    s.reset();
    assert_eq!(s.pos(), 2);
    assert_eq!(s.get_byte(), Some(3));
    s.rollback_pos();
    assert_eq!(s.pos(), 3);
    assert_eq!(s.peek_byte(), Some(4));
}

#[test]
fn substream_keeps_length_as_end_and_reads_first_at_cursor() {
    let data = vec![1u8, 2, 3, 4, 5, 6];
    let s = Stream::new(&data, data.len());
    let mut sub = s.make_substream(2);
    assert_eq!(sub.start(), 2);
    assert_eq!(sub.pos(), 2);
    assert_eq!(sub.end(), 6);
    assert_eq!(sub.peek_byte(), Some(1));
    assert_eq!(sub.peek_byte(), Some(3));
    let sub2 = s.new_sub(4);
    assert_eq!(sub2.len(), 2);
}

#[test]
fn reset_starts_reading_over() {
    let data = b"%PDF-1.4 rest".to_vec();
    let mut s = Stream::new(&data, data.len());
    let first = s.get_bytes(4);
    s.skip(3);
    let _ = s.get_byte();
    s.reset();
    assert_eq!(s.pos(), s.start());
    assert_eq!(s.get_bytes(4), first);
    assert_eq!(first, Some(b"%PDF".to_vec()));
    assert_eq!(s.get_bytes(0), None);
}
