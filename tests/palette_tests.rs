use canvas_server::palette::{code_2_color, color_2_code};

const PALETTE: [u16; 9] = [
    0xF800, 0x07E0, 0x001F, 0x07FF, 0xF81F, 0xFFE0, 0xFFFF, 0x520A, 0x0000,
];

#[test]
fn palette_codes_match_table() {
    for (code, &color) in PALETTE.iter().enumerate() {
        assert_eq!(code_2_color(code as u8), Some(color));
        assert_eq!(color_2_code(color), Some(code as u8));
    }
}

#[test]
fn palette_round_trip_for_every_color() {
    for &color in PALETTE.iter() {
        let code = color_2_code(color).unwrap();
        assert_eq!(code_2_color(code), Some(color));
    }
}

#[test]
fn unknown_colors_have_no_code() {
    let mut unknown = 0;
    for v in 0..=u16::MAX {
        if !PALETTE.contains(&v) {
            assert_eq!(color_2_code(v), None);
            unknown += 1;
        }
    }
    assert_eq!(unknown, 65536 - 9);
}

#[test]
fn codes_above_eight_are_invalid() {
    for code in 9..=u8::MAX {
        assert_eq!(code_2_color(code), None);
    }
}
