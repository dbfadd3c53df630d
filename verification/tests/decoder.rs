use artcodec::art::{
    decode_record, parse_map_tile, parse_static_tile, DecodedRecord, TRANSPARENT,
};
use artcodec::ArtError;

/// The visible half-width of diamond row `i`, as the format defines it.
fn row_half_width(i: usize) -> usize {
    if i < 22 {
        i + 1
    } else {
        44 - i
    }
}

/// A well-sized map-tile payload whose pixel stream is a low-byte counter,
/// so no decoded pixel collides with the transparency sentinel.
fn sample_map_payload() -> Vec<u8> {
    let mut payload = vec![0u8; 2048];
    payload[0] = 1; // header value 1
    for k in 4..2048 {
        payload[k] = (k % 0x7f) as u8;
    }
    payload
}

#[test]
fn map_tile_row_shapes() {
    let payload = sample_map_payload();
    let tile = parse_map_tile(payload).unwrap();
    assert_eq!(tile.header, 1);
    assert_eq!(tile.image.len(), 1936);
    for i in [0usize, 21, 22, 43] {
        let hw = row_half_width(i);
        let row = &tile.image[i * 44..(i + 1) * 44];
        for j in 0..(22 - hw) {
            assert_eq!(row[j], TRANSPARENT);
            assert_eq!(row[43 - j], TRANSPARENT);
        }
        for j in (22 - hw)..(22 + hw) {
            assert_ne!(row[j], TRANSPARENT);
        }
    }
}

#[test]
fn map_tile_first_pixels_come_from_stream() {
    let mut payload = vec![0u8; 2048];
    payload[4] = 0x11;
    payload[5] = 0x22;
    payload[6] = 0x33;
    payload[7] = 0x44;
    let tile = parse_map_tile(payload).unwrap();
    // Row 0 has half-width 1: columns 21 and 22 are the visible pair.
    assert_eq!(tile.image[21], 0x2211);
    assert_eq!(tile.image[22], 0x4433);
}

#[test]
fn map_tile_wrong_sizes_rejected() {
    assert_eq!(
        parse_map_tile(vec![0u8; 2047]).unwrap_err(),
        ArtError::WrongRecordSize
    );
    assert_eq!(
        parse_map_tile(vec![0u8; 2049]).unwrap_err(),
        ArtError::WrongRecordSize
    );
    assert_eq!(
        parse_map_tile(Vec::new()).unwrap_err(),
        ArtError::WrongRecordSize
    );
}

/// A static-tile payload from header fields, offset-table entries and the
/// raw run-stream bytes.
fn static_payload(width: u16, height: u16, offsets: &[u16], stream: &[u8]) -> Vec<u8> {
    let mut payload = Vec::new();
    payload.extend_from_slice(&[0, 0, 0, 0]); // size/flags and trigger
    payload.extend_from_slice(&width.to_le_bytes());
    payload.extend_from_slice(&height.to_le_bytes());
    for off in offsets {
        payload.extend_from_slice(&off.to_le_bytes());
    }
    payload.extend_from_slice(stream);
    payload
}

#[test]
fn static_zero_width_rejected() {
    let payload = static_payload(0, 2, &[0, 0], &[0, 0, 0, 0]);
    assert_eq!(
        parse_static_tile(payload).unwrap_err(),
        ArtError::InvalidDimensions
    );
}

#[test]
fn static_zero_height_rejected() {
    let payload = static_payload(4, 0, &[], &[]);
    assert_eq!(
        parse_static_tile(payload).unwrap_err(),
        ArtError::InvalidDimensions
    );
}

#[test]
fn static_height_1024_rejected() {
    let payload = static_payload(4, 1024, &[0], &[0, 0, 0, 0]);
    assert_eq!(
        parse_static_tile(payload).unwrap_err(),
        ArtError::InvalidDimensions
    );
}

#[test]
fn static_empty_rows_fill_with_sentinel() {
    // Two rows whose streams hold only the (0, 0) terminator.
    let payload = static_payload(4, 2, &[0, 4], &[0, 0, 0, 0, 0, 0, 0, 0]);
    let tile = parse_static_tile(payload).unwrap();
    assert_eq!(tile.width, 4);
    assert_eq!(tile.height, 2);
    assert_eq!(tile.image, vec![TRANSPARENT; 8]);
}

#[test]
fn static_run_pixels_decoded() {
    // One row: one transparent pixel, a two-pixel run, then the row is
    // topped up to its width of four.
    let stream = [
        1, 0, // padding 1
        2, 0, // run length 2
        0x34, 0x12, 0x78, 0x56, // the run's pixels
        0, 0, 0, 0, // terminator
    ];
    let payload = static_payload(4, 1, &[0], &stream);
    let tile = parse_static_tile(payload).unwrap();
    assert_eq!(tile.image, vec![TRANSPARENT, 0x1234, 0x5678, TRANSPARENT]);
}

#[test]
fn static_overlong_run_is_corrupt() {
    // padding 2000 plus run 100 can never fit a row.
    let stream = [0xd0, 0x07, 0x64, 0x00];
    let payload = static_payload(4, 1, &[0], &stream);
    assert_eq!(
        parse_static_tile(payload).unwrap_err(),
        ArtError::CorruptRunTable
    );
}

#[test]
fn static_truncated_payload_out_of_bounds() {
    assert_eq!(
        parse_static_tile(vec![0u8; 5]).unwrap_err(),
        ArtError::OutOfBounds
    );
    // Valid header, but no run stream at all.
    let payload = static_payload(4, 1, &[0], &[]);
    assert_eq!(
        parse_static_tile(payload).unwrap_err(),
        ArtError::OutOfBounds
    );
}

#[test]
fn record_classification_by_index() {
    let map = decode_record(0x0001, sample_map_payload()).unwrap();
    assert!(matches!(map, DecodedRecord::MapTile(_)));

    let sprite_payload = static_payload(4, 1, &[0], &[0, 0, 0, 0]);
    let stat = decode_record(0x4000, sprite_payload).unwrap();
    match stat {
        DecodedRecord::StaticTile(t) => assert_eq!(t.image, vec![TRANSPARENT; 4]),
        _ => panic!("expected a static tile"),
    }

    let high = decode_record(0x8000, vec![0u8; 16]).unwrap();
    assert!(matches!(high, DecodedRecord::Unrecognized));
}

#[test]
fn record_decode_errors_are_per_record() {
    assert_eq!(
        decode_record(0x0001, vec![0u8; 10]).unwrap_err(),
        ArtError::WrongRecordSize
    );
    assert_eq!(
        decode_record(0x4000, vec![0u8; 10]).unwrap_err(),
        ArtError::InvalidDimensions
    );
}
