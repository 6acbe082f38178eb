use canvas_server::row_codec::{compress, uncompress};

fn word(code: u16, len: u16) -> u16 {
    (len << 4) | code
}

fn compress_all(codes: &[u8]) -> Vec<u16> {
    let mut segs = vec![0u16; codes.len() + 1];
    let (n, covered) = compress(&mut segs, codes);
    assert_eq!(covered, codes.len());
    segs.truncate(n);
    segs
}

#[test]
fn compress_merges_runs() {
    let mut segs = [0u16; 4];
    let r = compress(&mut segs, &[0, 0, 0, 1]);
    assert_eq!(r, (2, 4));
    assert_eq!(segs, [word(0, 3), word(1, 1), 0, 0]);
}

#[test]
fn compress_empty_row() {
    let mut segs = [7u16; 2];
    assert_eq!(compress(&mut segs, &[]), (0, 0));
    assert_eq!(segs, [7, 7]);
}

#[test]
fn compress_splits_long_runs() {
    let codes = vec![5u8; 600];
    let segs = compress_all(&codes);
    assert_eq!(segs, vec![word(5, 511), word(5, 89)]);
}

#[test]
fn compress_stops_when_buffer_full() {
    let mut segs = [0u16; 2];
    let r = compress(&mut segs, &[0, 1, 2, 3]);
    assert_eq!(r, (2, 2));
    assert_eq!(segs, [word(0, 1), word(1, 1)]);
}

#[test]
fn compress_adjacent_segments_differ() {
    let codes = [1u8, 1, 2, 2, 1, 8, 8, 8, 0];
    let segs = compress_all(&codes);
    assert_eq!(segs.len(), 5);
    for pair in segs.windows(2) {
        assert_ne!(pair[0] & 0xF, pair[1] & 0xF);
    }
    let sum: u32 = segs.iter().map(|s| ((s >> 4) & 0x1FF) as u32).sum();
    assert_eq!(sum, codes.len() as u32);
}

#[test]
fn uncompress_expands_segments() {
    let mut codes = [0u8; 4];
    assert_eq!(uncompress(&[word(2, 4)], &mut codes), 4);
    assert_eq!(codes, [2, 2, 2, 2]);
}

#[test]
fn uncompress_mixed_segments() {
    let mut codes = [0u8; 6];
    assert_eq!(uncompress(&[word(3, 2), word(7, 3), word(1, 1)], &mut codes), 6);
    assert_eq!(codes, [3, 3, 7, 7, 7, 1]);
}

#[test]
fn uncompress_stops_before_overflowing_segment() {
    let mut codes = [9u8; 4];
    assert_eq!(uncompress(&[word(1, 2), word(2, 3), word(3, 1)], &mut codes), 2);
    assert_eq!(codes, [1, 1, 9, 9]);
}

#[test]
fn uncompress_partial_cover_leaves_tail() {
    let mut codes = [0u8; 5];
    assert_eq!(uncompress(&[word(4, 3)], &mut codes), 3);
    assert_eq!(codes, [4, 4, 4, 0, 0]);
}

#[test]
fn row_round_trip() {
    let rows: Vec<Vec<u8>> = vec![
        vec![0, 0, 0, 1],
        vec![8; 320],
        (0..240).map(|i| (i % 9) as u8).collect(),
        (0..700).map(|i| if i < 650 { 6 } else { 7 }).collect(),
        vec![],
    ];
    for row in rows {
        let segs = compress_all(&row);
        let mut out = vec![0xAAu8; row.len()];
        assert_eq!(uncompress(&segs, &mut out), row.len());
        assert_eq!(out, row);
    }
}
