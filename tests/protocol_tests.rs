use canvas_server::protocol::{
    decode_codes, decode_row, encode_codes, encode_row, parse_header, payload_len, Operation,
    ProtocolError, RequestHeader,
};

#[test]
fn header_is_little_endian() {
    let h = parse_header(&[1, 3, 2, 0, 4, 0]).unwrap();
    assert_eq!(h, RequestHeader { op: 1, slot: 3, height: 2, width: 4 });
    assert_eq!(h.operation(), Some(Operation::Save));
    let h = parse_header(&[2, 255, 0x40, 0x01, 0xF0, 0x00]).unwrap();
    assert_eq!((h.slot, h.height, h.width), (255, 320, 240));
    assert_eq!(h.operation(), Some(Operation::Load));
}

#[test]
fn header_unknown_operation_and_short_input() {
    let h = parse_header(&[7, 0, 0, 0, 0, 0]).unwrap();
    assert_eq!(h.operation(), None);
    assert_eq!(parse_header(&[1, 2, 3, 4, 5]), None);
}

#[test]
fn payload_lengths() {
    assert_eq!(payload_len(0, 240), 240);
    assert_eq!(payload_len(1, 240), 2);
    assert_eq!(payload_len(105, 240), 210);
}

#[test]
fn decode_raw_row() {
    assert_eq!(decode_row(0, &[0, 0, 0, 1], 4), Ok(vec![0xF800, 0xF800, 0xF800, 0x07E0]));
}

#[test]
fn decode_compressed_row() {
    assert_eq!(decode_row(1, &[0x42, 0x00], 4), Ok(vec![0x001F; 4]));
    assert_eq!(decode_codes(2, &[0x13, 0x00, 0x52, 0x00], 6), vec![3, 2, 2, 2, 2, 2]);
}

#[test]
fn decode_compressed_row_short_cover_is_zero_filled() {
    assert_eq!(decode_codes(1, &[0x27, 0x00], 4), vec![7, 7, 0, 0]);
    assert_eq!(decode_codes(1, &[0x57, 0x00], 4), vec![0, 0, 0, 0]);
}

#[test]
fn decode_rejects_invalid_code() {
    assert_eq!(decode_row(0, &[0, 9, 1], 3), Err(ProtocolError::InvalidCode));
    assert_eq!(decode_row(1, &[0x3C, 0x00], 3), Err(ProtocolError::InvalidCode));
}

#[test]
fn encode_prefers_compressed_form() {
    assert_eq!(encode_codes(&[0, 0, 0, 1]), vec![2, 0x30, 0x00, 0x11, 0x00]);
    assert_eq!(encode_row(&[0x001F; 4]), Ok(vec![1, 0x42, 0x00]));
}

#[test]
fn encode_long_run_uses_two_segments() {
    let codes = vec![6u8; 600];
    let frame = encode_codes(&codes);
    assert_eq!(frame, vec![2, 0xF6, 0x1F, 0x96, 0x05]);
}

#[test]
fn encode_falls_back_to_raw_above_limit() {
    let codes: Vec<u8> = (0..106).map(|i| (i % 2) as u8).collect();
    let frame = encode_codes(&codes);
    assert_eq!(frame[0], 0);
    assert_eq!(&frame[1..], &codes[..]);
}

#[test]
fn encode_at_limit_stays_compressed() {
    let codes: Vec<u8> = (0..105).map(|i| (i % 2) as u8).collect();
    let frame = encode_codes(&codes);
    assert_eq!(frame[0], 105);
    assert_eq!(frame.len(), 1 + 210);
}

#[test]
fn encode_empty_row() {
    assert_eq!(encode_codes(&[]), vec![0]);
}

#[test]
fn encode_rejects_unknown_color() {
    assert_eq!(encode_row(&[0xF800, 0x1234]), Err(ProtocolError::UnknownColor));
}

#[test]
fn frame_round_trip() {
    let colors: Vec<u16> = (0..50).map(|i| [0xF800, 0x07E0, 0x520A][i / 7 % 3]).collect();
    let frame = encode_row(&colors).unwrap();
    let mode = frame[0];
    assert_eq!(frame.len() - 1, payload_len(mode, colors.len()));
    assert_eq!(decode_row(mode, &frame[1..], colors.len()), Ok(colors));
}
