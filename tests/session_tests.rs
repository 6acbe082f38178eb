use canvas_server::protocol::{encode_row, parse_header, Operation, ProtocolError};
use canvas_server::session::{bmp_fits, load_frames, SaveSession};

#[test]
fn save_scenario_end_to_end() {
    let header = parse_header(&[1, 3, 2, 0, 4, 0]).unwrap();
    assert_eq!(header.operation(), Some(Operation::Save));
    assert_eq!(header.slot, 3);
    let mut session = SaveSession::new(header.height as usize, header.width as usize);
    assert_eq!(session.rows_left(), 2);
    assert_eq!(session.receive_row(0, &[0, 0, 0, 1]), Ok(()));
    assert_eq!(session.receive_row(1, &[0x42, 0x00]), Ok(()));
    assert_eq!(session.rows_left(), 0);
    assert!(bmp_fits(4, 2));
    let file = session.to_bmp();
    assert_eq!(file.len(), 54 + 16);
    assert_eq!(&file[54..62], &[0x1F, 0x00, 0x1F, 0x00, 0x1F, 0x00, 0x1F, 0x00]);
    assert_eq!(&file[62..70], &[0x00, 0xF8, 0x00, 0xF8, 0x00, 0xF8, 0xE0, 0x07]);
}

#[test]
fn save_rejects_invalid_row_and_keeps_state() {
    let mut session = SaveSession::new(1, 2);
    assert_eq!(session.receive_row(0, &[1, 12]), Err(ProtocolError::InvalidCode));
    assert_eq!(session.rows_left(), 1);
    assert_eq!(session.width(), 2);
}

#[test]
fn load_sends_stored_rows() {
    let mut session = SaveSession::new(2, 4);
    session.receive_row(0, &[0, 0, 0, 1]).unwrap();
    session.receive_row(1, &[0x42, 0x00]).unwrap();
    let file = session.to_bmp();
    let frames = load_frames(&file, 4, 2).unwrap();
    assert_eq!(frames, vec![vec![2, 0x30, 0x00, 0x11, 0x00], vec![1, 0x42, 0x00]]);
}

#[test]
fn load_missing_slot_sends_blank_rows() {
    let frames = load_frames(&[], 4, 2).unwrap();
    let blank = encode_row(&[0u16; 4]).unwrap();
    assert_eq!(blank, vec![1, 0x48, 0x00]);
    assert_eq!(frames, vec![blank.clone(), blank]);
}

#[test]
fn load_rejects_foreign_colors() {
    let grid = vec![vec![0x1234u16; 2]];
    let file = canvas_server::bitmap::encode_bmp(&grid, 2);
    assert_eq!(load_frames(&file, 2, 1), Err(ProtocolError::UnknownColor));
}

#[test]
fn bmp_size_limits() {
    assert!(bmp_fits(320, 240));
    assert!(!bmp_fits(65535, 65535));
    assert!(bmp_fits(0, 0));
}
