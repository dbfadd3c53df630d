use artcodec::byte_helpers::{Buffer, ByteBuffer};
use artcodec::ArtError;

#[test]
fn byte_buffer_sequential_reads() {
    let mut b = ByteBuffer(vec![1u8, 2, 3]);
    assert!(!b.eof());
    assert_eq!(b.read(2).unwrap(), vec![1u8, 2]);
    assert!(!b.eof());
    assert_eq!(b.read(1).unwrap(), vec![3u8]);
    assert!(b.eof());
}

#[test]
fn byte_buffer_read_past_end_fails_without_truncation() {
    let mut b = ByteBuffer(vec![1u8, 2, 3]);
    assert_eq!(b.read(2).unwrap(), vec![1u8, 2]);
    // Only one byte remains: a two-byte read must fail outright, not
    // return a short result, and must leave the position where it was.
    assert_eq!(b.read(2).unwrap_err(), ArtError::OutOfBounds);
    assert_eq!(b.read(1).unwrap(), vec![3u8]);
}

#[test]
fn byte_buffer_read_on_empty_fails() {
    let mut b = ByteBuffer(Vec::new());
    assert!(b.eof());
    assert_eq!(b.read(1).unwrap_err(), ArtError::OutOfBounds);
}

#[test]
fn byte_buffer_seek_bounds() {
    let mut b = ByteBuffer(vec![9u8, 8, 7]);
    assert!(b.seek(3).is_ok());
    assert!(b.eof());
    assert_eq!(b.seek(4).unwrap_err(), ArtError::OutOfBounds);
    assert!(b.seek(1).is_ok());
    assert_eq!(b.read(2).unwrap(), vec![8u8, 7]);
}

#[test]
fn byte_buffer_read_le_uint_values() {
    let mut b = ByteBuffer(vec![0x34u8, 0x12, 0x78, 0x56, 0x01]);
    assert_eq!(b.read_le_uint(2).unwrap(), 0x1234);
    assert_eq!(b.read_le_uint(2).unwrap(), 0x5678);
    assert_eq!(b.read_le_uint(2).unwrap_err(), ArtError::OutOfBounds);
    assert_eq!(b.read_le_uint(1).unwrap(), 0x01);
}

#[test]
fn byte_buffer_read_le_uint_eight_bytes() {
    let mut b = ByteBuffer(vec![1u8, 2, 3, 4, 5, 6, 7, 8]);
    assert_eq!(b.read_le_uint(8).unwrap(), 0x0807060504030201);
    assert!(b.eof());
}

#[test]
fn generic_buffer_reads_and_seeks() {
    let mut b = Buffer(vec![10u16, 20, 30, 40]);
    assert!(!b.eof());
    assert_eq!(b.read(3).unwrap(), vec![10u16, 20, 30]);
    assert_eq!(b.read(2).unwrap_err(), ArtError::OutOfBounds);
    assert_eq!(b.read(1).unwrap(), vec![40u16]);
    assert!(b.eof());
    assert!(b.seek(0).is_ok());
    assert_eq!(b.read(1).unwrap(), vec![10u16]);
    assert_eq!(b.seek(5).unwrap_err(), ArtError::OutOfBounds);
}
