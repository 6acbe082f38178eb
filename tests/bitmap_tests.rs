use canvas_server::bitmap::{decode_bmp, encode_bmp};

fn header(width: u32, height: u32, image: u32) -> Vec<u8> {
    let mut h = vec![b'B', b'M'];
    h.extend_from_slice(&(54 + image).to_le_bytes());
    h.extend_from_slice(&[0, 0, 0, 0]);
    h.extend_from_slice(&54u32.to_le_bytes());
    h.extend_from_slice(&40u32.to_le_bytes());
    h.extend_from_slice(&width.to_le_bytes());
    h.extend_from_slice(&height.to_le_bytes());
    h.extend_from_slice(&[1, 0, 16, 0]);
    h.extend_from_slice(&[0, 0, 0, 0]);
    h.extend_from_slice(&image.to_le_bytes());
    h.extend_from_slice(&[0; 16]);
    h
}

#[test]
fn encode_layout_bottom_up() {
    let grid = vec![vec![0xF800u16, 0xF800, 0xF800, 0x07E0], vec![0x001F; 4]];
    let bytes = encode_bmp(&grid, 4);
    let mut expected = header(4, 2, 16);
    expected.extend_from_slice(&[0x1F, 0x00, 0x1F, 0x00, 0x1F, 0x00, 0x1F, 0x00]);
    expected.extend_from_slice(&[0x00, 0xF8, 0x00, 0xF8, 0x00, 0xF8, 0xE0, 0x07]);
    assert_eq!(bytes, expected);
}

#[test]
fn encode_pads_odd_width_rows() {
    let grid = vec![vec![0xFFFFu16, 0x0000, 0x07FF]];
    let bytes = encode_bmp(&grid, 3);
    let mut expected = header(3, 1, 8);
    expected.extend_from_slice(&[0xFF, 0xFF, 0x00, 0x00, 0xFF, 0x07, 0, 0]);
    assert_eq!(bytes, expected);
    assert_eq!(bytes.len(), 62);
}

#[test]
fn bmp_round_trip() {
    let palette = [0xF800u16, 0x07E0, 0x001F, 0x07FF, 0xF81F, 0xFFE0, 0xFFFF, 0x520A, 0x0000];
    for &(w, h) in &[(1usize, 1usize), (3, 2), (4, 5), (7, 3), (0, 0)] {
        let grid: Vec<Vec<u16>> = (0..h)
            .map(|i| (0..w).map(|j| palette[(i * 5 + j * 3) % 9]).collect())
            .collect();
        let bytes = encode_bmp(&grid, w);
        assert_eq!(decode_bmp(&bytes, w, h), grid);
    }
}

#[test]
fn dimension_mismatch_gives_blank() {
    let grid = vec![vec![0xFFFFu16; 10]; 10];
    let bytes = encode_bmp(&grid, 10);
    assert_eq!(decode_bmp(&bytes, 20, 20), vec![vec![0u16; 20]; 20]);
}

#[test]
fn missing_or_short_file_gives_blank() {
    assert_eq!(decode_bmp(&[], 3, 2), vec![vec![0u16; 3]; 2]);
    let grid = vec![vec![0x07E0u16; 4]; 2];
    let bytes = encode_bmp(&grid, 4);
    assert_eq!(decode_bmp(&bytes[..bytes.len() - 1], 4, 2), vec![vec![0u16; 4]; 2]);
}
