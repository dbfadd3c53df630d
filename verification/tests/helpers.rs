use artcodec::byte_helpers::{bytes_to_be_uint, bytes_to_le_uint, u8vec_to_u16vec, uint_to_le_bytes};

#[test]
fn le_uint_exact_value() {
    assert_eq!(bytes_to_le_uint(&vec![0x78u8, 0x56, 0x34, 0x12]), 0x12345678);
    assert_eq!(bytes_to_le_uint(&vec![0xffu8]), 0xff);
    assert_eq!(bytes_to_le_uint(&Vec::new()), 0);
}

#[test]
fn le_uint_eight_bytes() {
    assert_eq!(
        bytes_to_le_uint(&vec![1u8, 2, 3, 4, 5, 6, 7, 8]),
        0x0807060504030201
    );
    assert_eq!(bytes_to_le_uint(&vec![0xffu8; 8]), u64::MAX);
}

#[test]
fn be_uint_exact_value() {
    assert_eq!(bytes_to_be_uint(&vec![0x12u8, 0x34]), 0x1234);
    assert_eq!(bytes_to_be_uint(&vec![0x01u8, 0x02, 0x03, 0x04]), 0x01020304);
    assert_eq!(bytes_to_be_uint(&Vec::new()), 0);
}

#[test]
fn be_uint_eight_bytes() {
    assert_eq!(
        bytes_to_be_uint(&vec![1u8, 2, 3, 4, 5, 6, 7, 8]),
        0x0102030405060708
    );
    assert_eq!(bytes_to_be_uint(&vec![0xffu8; 8]), u64::MAX);
}

#[test]
fn uint_to_le_bytes_exact_value() {
    assert_eq!(uint_to_le_bytes(0x12345678, 4), vec![0x78u8, 0x56, 0x34, 0x12]);
    assert_eq!(uint_to_le_bytes(54, 4), vec![54u8, 0, 0, 0]);
    assert_eq!(uint_to_le_bytes(0, 0), Vec::<u8>::new());
}

#[test]
fn uint_to_le_bytes_drops_high_bytes() {
    assert_eq!(uint_to_le_bytes(0x12345678, 2), vec![0x78u8, 0x56]);
}

#[test]
fn le_round_trip() {
    let bytes = uint_to_le_bytes(0x00dead42, 4);
    assert_eq!(bytes_to_le_uint(&bytes), 0x00dead42);
}

#[test]
fn le_round_trip_eight_bytes() {
    let bytes = uint_to_le_bytes(0x1122334455667788, 8);
    assert_eq!(bytes, vec![0x88u8, 0x77, 0x66, 0x55, 0x44, 0x33, 0x22, 0x11]);
    assert_eq!(bytes_to_le_uint(&bytes), 0x1122334455667788);
    let max = uint_to_le_bytes(u64::MAX, 8);
    assert_eq!(bytes_to_le_uint(&max), u64::MAX);
}

#[test]
fn u16vec_pairing() {
    assert_eq!(
        u8vec_to_u16vec(&vec![0x34u8, 0x12, 0x78, 0x56]),
        vec![0x1234u16, 0x5678]
    );
    assert_eq!(u8vec_to_u16vec(&Vec::new()), Vec::<u16>::new());
}
