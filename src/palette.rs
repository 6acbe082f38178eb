//! The fixed nine-entry palette: 4-bit color codes and their RGB565 values.

use vstd::prelude::*;

verus! {

/// Number of valid color codes (codes are `0..PALETTE_SIZE`).
pub const PALETTE_SIZE: u8 = 9;

/// The RGB565 value of a color code, if the code is one of the nine.
pub open spec fn spec_code_color(code: u8) -> Option<u16> {
    if code == 0 {
        Some(0xF800u16)
    } else if code == 1 {
        Some(0x07E0u16)
    } else if code == 2 {
        Some(0x001Fu16)
    } else if code == 3 {
        Some(0x07FFu16)
    } else if code == 4 {
        Some(0xF81Fu16)
    } else if code == 5 {
        Some(0xFFE0u16)
    } else if code == 6 {
        Some(0xFFFFu16)
    } else if code == 7 {
        Some(0x520Au16)
    } else if code == 8 {
        Some(0x0000u16)
    } else {
        None
    }
}

/// The code of an RGB565 value, if the value is one of the nine palette colors.
pub open spec fn spec_color_code(color: u16) -> Option<u8> {
    if color == 0xF800u16 {
        Some(0u8)
    } else if color == 0x07E0u16 {
        Some(1u8)
    } else if color == 0x001Fu16 {
        Some(2u8)
    } else if color == 0x07FFu16 {
        Some(3u8)
    } else if color == 0xF81Fu16 {
        Some(4u8)
    } else if color == 0xFFE0u16 {
        Some(5u8)
    } else if color == 0xFFFFu16 {
        Some(6u8)
    } else if color == 0x520Au16 {
        Some(7u8)
    } else if color == 0x0000u16 {
        Some(8u8)
    } else {
        None
    }
}

/// Whether a 16-bit value is one of the nine palette colors.
pub open spec fn is_palette_color(color: u16) -> bool {
    spec_color_code(color) is Some
}

/// Converts a 16-bit color to its code; `None` when the color is not in the palette.
pub fn color_2_code(color: u16) -> (r: Option<u8>)
    ensures
        r == spec_color_code(color),
{
    match color {
        0xF800u16 => Some(0),
        0x07E0u16 => Some(1),
        0x001Fu16 => Some(2),
        0x07FFu16 => Some(3),
        0xF81Fu16 => Some(4),
        0xFFE0u16 => Some(5),
        0xFFFFu16 => Some(6),
        0x520Au16 => Some(7),
        0x0000u16 => Some(8),
        _ => None,
    }
}

/// Converts a color code to its 16-bit color; `None` when the code is above 8.
pub fn code_2_color(code: u8) -> (r: Option<u16>)
    ensures
        r == spec_code_color(code),
        r is Some <==> code < PALETTE_SIZE,
{
    match code {
        0 => Some(0xF800u16),
        1 => Some(0x07E0u16),
        2 => Some(0x001Fu16),
        3 => Some(0x07FFu16),
        4 => Some(0xF81Fu16),
        5 => Some(0xFFE0u16),
        6 => Some(0xFFFFu16),
        7 => Some(0x520Au16),
        8 => Some(0x0000u16),
        _ => None,
    }
}

/// The palette is a bijection: every palette color maps to a code that maps
/// back to the same color, every valid code maps to a color that maps back to
/// the same code, and any other 16-bit value has no code.
pub proof fn lemma_palette_bijection(color: u16, code: u8)
    ensures
        is_palette_color(color) ==> spec_code_color(spec_color_code(color).unwrap()) == Some(
            color,
        ),
        !is_palette_color(color) ==> spec_color_code(color) is None,
        code < PALETTE_SIZE ==> spec_color_code(spec_code_color(code).unwrap()) == Some(code),
        code < PALETTE_SIZE <==> spec_code_color(code) is Some,
{
}

} // verus!
