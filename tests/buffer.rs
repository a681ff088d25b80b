use rust_dns::buffer::ByteBuffer;
use rust_dns::error::DnsError;

// --------------------------------------------------
// pos()
// --------------------------------------------------

#[test]
fn test_pos_returns_expected_position() {
    let bytes = vec![1, 2, 3, 4, 5];
    let mut buf = ByteBuffer::from(&bytes);
    buf.jump(3).unwrap();
    assert_eq!(buf.pos(), 3);
}

// --------------------------------------------------
// peek()
// --------------------------------------------------

#[test]
fn test_peek_returns_none_on_empty_buffer() {
    let bytes: Vec<u8> = vec![];
    let buf = ByteBuffer::from(&bytes);
    assert_eq!(buf.peek(), None);
}

#[test]
fn test_peek_returns_expected_value_for_buffer_len_1() {
    let bytes = vec![1];
    let buf = ByteBuffer::from(&bytes);
    assert_eq!(buf.peek(), Some(1));
}

#[test]
fn test_peek_returns_expected_values_for_buffer_len_3() {
    let bytes = vec![1, 2, 3];
    let mut buf = ByteBuffer::from(&bytes);
    assert_eq!(buf.peek(), Some(1));
    let _ = buf.read();
    assert_eq!(buf.peek(), Some(2));
    let _ = buf.read();
    assert_eq!(buf.peek(), Some(3));
}

#[test]
fn test_peek_returns_none_at_end_of_buffer_len_1() {
    let bytes = vec![1];
    let mut buf = ByteBuffer::from(&bytes);
    assert_eq!(buf.peek(), Some(1));
    let _ = buf.read();
    assert_eq!(buf.peek(), None);
}

#[test]
fn test_peek_does_not_update_pos() {
    let bytes = vec![1, 2];
    let buf = ByteBuffer::from(&bytes);
    let _ = buf.peek();
    assert_eq!(buf.pos(), 0);
}

// --------------------------------------------------
// read()
// --------------------------------------------------

#[test]
fn test_read_returns_none_on_empty_buffer() {
    let bytes: Vec<u8> = vec![];
    let mut buf = ByteBuffer::from(&bytes);
    assert_eq!(buf.read(), None);
}

#[test]
fn test_read_returns_expected_value_for_buffer_len_1() {
    let bytes = vec![1];
    let mut buf = ByteBuffer::from(&bytes);
    assert_eq!(buf.read(), Some(1));
}

#[test]
fn test_read_returns_expected_values_for_buffer_len_3() {
    let bytes = vec![1, 2, 3];
    let mut buf = ByteBuffer::from(&bytes);
    assert_eq!(buf.read(), Some(1));
    assert_eq!(buf.read(), Some(2));
    assert_eq!(buf.read(), Some(3));
}

#[test]
fn test_read_returns_none_at_end_of_buffer_len_1() {
    let bytes = vec![1];
    let mut buf = ByteBuffer::from(&bytes);
    assert_eq!(buf.read(), Some(1));
    assert_eq!(buf.read(), None);
}

#[test]
fn test_read_does_not_update_pos_for_empty_buffer() {
    let bytes: Vec<u8> = vec![];
    let mut buf = ByteBuffer::from(&bytes);
    let _ = buf.read();
    assert_eq!(buf.pos(), 0);
}

#[test]
fn test_read_updates_pos_for_buffer_len_1() {
    let bytes = vec![1];
    let mut buf = ByteBuffer::from(&bytes);
    let _ = buf.read();
    assert_eq!(buf.pos(), 1);
}

#[test]
fn test_read_updates_pos_for_buffer_len_3() {
    let bytes = vec![1, 2, 3];
    let mut buf = ByteBuffer::from(&bytes);
    assert_eq!(buf.pos(), 0);
    let _ = buf.read();
    assert_eq!(buf.pos(), 1);
    let _ = buf.read();
    assert_eq!(buf.pos(), 2);
    let _ = buf.read();
    assert_eq!(buf.pos(), 3);
    let _ = buf.read();
    assert_eq!(buf.pos(), 3);
}

// --------------------------------------------------
// read_range()
// --------------------------------------------------

#[test]
fn test_read_range_returns_error_on_empty_buf() {
    let bytes: Vec<u8> = vec![];
    let mut buf = ByteBuffer::from(&bytes);
    assert!(buf.read_range(1).is_err());
}

#[test]
fn test_read_range_returns_error_on_out_of_bounds() {
    let bytes = vec![1, 2, 3, 4, 5];
    let mut buf = ByteBuffer::from(&bytes);
    assert!(buf.read_range(10).is_err());
}

#[test]
fn test_read_range_returns_expected_value_on_buf_len_1() {
    let bytes = vec![1];
    let mut buf = ByteBuffer::from(&bytes);
    assert_eq!(buf.read_range(1).unwrap(), &bytes[0..1]);
}

#[test]
fn test_read_range_returns_expected_value_on_buf_len_3() {
    let bytes = vec![1, 2, 3];
    let mut buf = ByteBuffer::from(&bytes);
    assert_eq!(buf.read_range(3).unwrap(), &bytes[0..3]);
}

#[test]
fn read_range_fails_exactly_past_the_end() {
    let bytes = vec![1, 2, 3, 4, 5];
    for start in 0..=5usize {
        for n in 0..=5usize {
            let mut buf = ByteBuffer::from(&bytes);
            buf.read_range(start).unwrap();
            let r = buf.read_range(n);
            if start + n > bytes.len() {
                assert_eq!(r, Err(DnsError::OutOfBounds));
                assert_eq!(buf.pos(), start);
            } else {
                assert_eq!(r.unwrap(), &bytes[start..start + n]);
                assert_eq!(buf.pos(), start + n);
            }
        }
    }
}

#[test]
fn read_range_of_nothing_at_the_end_succeeds() {
    let bytes = vec![1, 2];
    let mut buf = ByteBuffer::from(&bytes);
    buf.read_range(2).unwrap();
    assert_eq!(buf.read_range(0).unwrap(), &bytes[2..2]);
    assert_eq!(buf.pos(), 2);
}

// --------------------------------------------------
// get(), jump(), read_u16(), read_i32()
// --------------------------------------------------

#[test]
fn get_reads_any_offset_without_moving() {
    let bytes = vec![7, 8, 9];
    let buf = ByteBuffer::from(&bytes);
    assert_eq!(buf.get(2), Some(9));
    assert_eq!(buf.get(3), None);
    assert_eq!(buf.pos(), 0);
}

#[test]
fn jump_accepts_only_offsets_of_bytes() {
    let bytes = vec![1, 2, 3];
    let mut buf = ByteBuffer::from(&bytes);
    assert_eq!(buf.jump(2), Ok(()));
    assert_eq!(buf.read(), Some(3));
    assert_eq!(buf.jump(3), Err(DnsError::OutOfBounds));
    assert_eq!(buf.pos(), 3);
    let empty: Vec<u8> = vec![];
    let mut buf = ByteBuffer::from(&empty);
    assert_eq!(buf.jump(0), Err(DnsError::OutOfBounds));
}

#[test]
fn read_u16_is_big_endian() {
    let bytes = vec![0x24, 0xB6, 0xFF];
    let mut buf = ByteBuffer::from(&bytes);
    assert_eq!(buf.read_u16(), Ok(9398));
    assert_eq!(buf.pos(), 2);
    assert_eq!(buf.read_u16(), Err(DnsError::OutOfBounds));
    assert_eq!(buf.pos(), 2);
}

#[test]
fn read_i32_is_big_endian_twos_complement() {
    let bytes = vec![0x00, 0x00, 0x00, 0xD7, 0xFF, 0xFF, 0xFF, 0xFE, 0x01];
    let mut buf = ByteBuffer::from(&bytes);
    assert_eq!(buf.read_i32(), Ok(215));
    assert_eq!(buf.read_i32(), Ok(-2));
    assert_eq!(buf.read_i32(), Err(DnsError::OutOfBounds));
    assert_eq!(buf.pos(), 8);
}
