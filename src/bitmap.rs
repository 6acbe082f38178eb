//! The 16-bit bitmap container that images are stored in: a 14-byte file
//! header, a 40-byte info header, then the rows from last to first, each row
//! its little-endian colors padded with zeros to a multiple of four bytes.

use vstd::prelude::*;
use crate::wire::{
    hi_byte, le32, le_bytes, lemma_le32_round_trip, lo_byte, lemma_word_bytes, push_u16_le, push_u32_le,
    read_u16_le, read_u32_le, u32_of, word_of,
};

verus! {

/// Bytes before the pixel data: the file header and the info header.
pub const PIXEL_OFFSET: usize = 54;

/// Largest width or height that the header's signed 32-bit fields hold.
pub const MAX_DIMENSION: usize = 0x7FFF_FFFF;

/// Zero bytes that bring a row of `width` colors to a multiple of four bytes.
pub open spec fn row_padding(width: nat) -> nat {
    ((4 - (2 * width) % 4) % 4) as nat
}

/// Bytes that one stored row takes, padding included.
pub open spec fn row_stride(width: nat) -> nat {
    2 * width + row_padding(width)
}

/// Size of the whole file for an image of `width` by `height`.
pub open spec fn file_size(width: nat, height: nat) -> nat {
    (PIXEL_OFFSET + row_stride(width) * height) as nat
}

/// Every row of the grid has `width` colors.
pub open spec fn is_rectangular(grid: Seq<Seq<u16>>, width: nat) -> bool {
    forall|i: int| 0 <= i < grid.len() ==> (#[trigger] grid[i]).len() == width
}

/// The rows of a grid as sequences.
pub open spec fn grid_view(grid: Seq<Vec<u16>>) -> Seq<Seq<u16>> {
    grid.map_values(|r: Vec<u16>| r@)
}

/// A grid of `height` rows of `width` colors, all 0.
pub open spec fn blank_grid(width: nat, height: nat) -> Seq<Seq<u16>> {
    Seq::new(height, |i: int| Seq::new(width, |j: int| 0u16))
}

/// The 54 header bytes of an image of `width` by `height`.
pub open spec fn header_bytes(width: nat, height: nat) -> Seq<u8> {
    let image = (row_stride(width) * height) as u32;
    seq![0x42u8, 0x4Du8] + le32((PIXEL_OFFSET + image) as u32) + le32(0) + le32(
        PIXEL_OFFSET as u32,
    ) + le32(40) + le32(width as u32) + le32(height as u32) + seq![1u8, 0u8, 16u8, 0u8] + le32(0)
        + le32(image) + le32(0) + le32(0) + le32(0) + le32(0)
}

/// One stored row: its colors, then the padding.
pub open spec fn row_bytes(row: Seq<u16>, width: nat) -> Seq<u8> {
    le_bytes(row) + Seq::new(row_padding(width), |k: int| 0u8)
}

/// The pixel data of the rows, the last row first.
pub open spec fn pixel_rows(rows: Seq<Seq<u16>>, width: nat) -> Seq<u8>
    decreases rows.len(),
{
    if rows.len() == 0 {
        Seq::empty()
    } else {
        pixel_rows(rows.skip(1), width) + row_bytes(rows[0], width)
    }
}

/// The file that stores `grid`, whose rows have `width` colors.
pub open spec fn bmp_bytes(grid: Seq<Seq<u16>>, width: nat) -> Seq<u8> {
    header_bytes(width, grid.len()) + pixel_rows(grid, width)
}

/// The width that a file's header declares.
pub open spec fn declared_width(bytes: Seq<u8>) -> nat {
    u32_of(bytes[18], bytes[19], bytes[20], bytes[21])
}

/// The height that a file's header declares.
pub open spec fn declared_height(bytes: Seq<u8>) -> nat {
    u32_of(bytes[22], bytes[23], bytes[24], bytes[25])
}

/// The file holds a whole image of the expected size.
pub open spec fn holds_image(bytes: Seq<u8>, width: nat, height: nat) -> bool {
    &&& bytes.len() >= PIXEL_OFFSET
    &&& declared_width(bytes) == width
    &&& declared_height(bytes) == height
    &&& bytes.len() >= file_size(width, height)
}

/// Offset in the file of the low byte of the color at row `i`, column `j`.
pub open spec fn pixel_offset(width: nat, height: nat, i: int, j: int) -> int {
    PIXEL_OFFSET + (height - 1 - i) * row_stride(width) + 2 * j
}

/// The color that a file stores at row `i`, column `j` of the logical grid.
pub open spec fn stored_color(bytes: Seq<u8>, width: nat, height: nat, i: int, j: int) -> u16 {
    word_of(
        bytes[pixel_offset(width, height, i, j)],
        bytes[pixel_offset(width, height, i, j) + 1],
    )
}

/// The grid that loading `bytes` gives: the stored image when the file holds
/// one of the expected size, else a blank grid of that size.
pub open spec fn loaded_grid(bytes: Seq<u8>, width: nat, height: nat) -> Seq<Seq<u16>> {
    if holds_image(bytes, width, height) {
        Seq::new(
            height,
            |i: int| Seq::new(width, |j: int| stored_color(bytes, width, height, i, j)),
        )
    } else {
        blank_grid(width, height)
    }
}

proof fn lemma_pixel_rows_len(rows: Seq<Seq<u16>>, width: nat)
    requires
        is_rectangular(rows, width),
    ensures
        pixel_rows(rows, width).len() == rows.len() * row_stride(width),
    decreases rows.len(),
{
    if rows.len() > 0 {
        let rest = rows.skip(1);
        assert(is_rectangular(rest, width)) by {
            assert forall|i: int| 0 <= i < rest.len() implies (#[trigger] rest[i]).len()
                == width by {
                assert(rest[i] == rows[i + 1]);
            }
        }
        lemma_pixel_rows_len(rest, width);
        assert(rows[0].len() == width);
        assert(rest.len() * row_stride(width) + row_stride(width) == rows.len() * row_stride(
            width,
        )) by (nonlinear_arith)
            requires
                rest.len() + 1 == rows.len(),
        ;
    }
}

proof fn lemma_rest_rectangular(rows: Seq<Seq<u16>>, width: nat)
    requires
        is_rectangular(rows, width),
        rows.len() > 0,
    ensures
        is_rectangular(rows.skip(1), width),
{
    let rest = rows.skip(1);
    assert forall|i: int| 0 <= i < rest.len() implies (#[trigger] rest[i]).len() == width by {
        assert(rest[i] == rows[i + 1]);
    }
}

/// Where the color at row `i`, column `j` lies in the pixel data.
proof fn lemma_pixel_at(rows: Seq<Seq<u16>>, width: nat, i: int, j: int)
    requires
        is_rectangular(rows, width),
        0 <= i < rows.len(),
        0 <= j < width,
    ensures
        pixel_rows(rows, width)[(rows.len() - 1 - i) * row_stride(width) + 2 * j] == lo_byte(
            rows[i][j],
        ),
        pixel_rows(rows, width)[(rows.len() - 1 - i) * row_stride(width) + 2 * j + 1] == hi_byte(
            rows[i][j],
        ),
    decreases rows.len(),
{
    let n = rows.len();
    let st = row_stride(width);
    let rest = rows.skip(1);
    lemma_rest_rectangular(rows, width);
    lemma_pixel_rows_len(rest, width);
    let p = pixel_rows(rest, width);
    let r = row_bytes(rows[0], width);
    assert(pixel_rows(rows, width) == p + r);
    if i == 0 {
        assert((n - 1 - i) * st == p.len());
        assert(rows[0].len() == width);
        assert((2 * j) / 2 == j && (2 * j) % 2 == 0);
        assert((2 * j + 1) / 2 == j && (2 * j + 1) % 2 == 1);
        assert(r[2 * j] == le_bytes(rows[0])[2 * j]);
        assert(r[2 * j + 1] == le_bytes(rows[0])[2 * j + 1]);
    } else {
        lemma_pixel_at(rest, width, i - 1, j);
        assert(rest[i - 1] == rows[i]);
        assert((n - 1 - i) * st + st <= (n - 1) * st) by (nonlinear_arith)
            requires
                1 <= i < n,
        ;
        assert((rest.len() - 1 - (i - 1)) == n - 1 - i);
    }
}

/// Storing a grid and loading it back with its own dimensions gives the
/// same grid, color for color.
pub proof fn lemma_bmp_round_trip(grid: Seq<Seq<u16>>, width: nat)
    requires
        is_rectangular(grid, width),
        width <= MAX_DIMENSION,
        grid.len() <= MAX_DIMENSION,
        file_size(width, grid.len()) <= u32::MAX,
    ensures
        loaded_grid(bmp_bytes(grid, width), width, grid.len()) == grid,
{
    let h = grid.len();
    let b = bmp_bytes(grid, width);
    let hd = header_bytes(width, h);
    lemma_pixel_rows_len(grid, width);
    assert(hd.len() == 54);
    assert(b.len() == file_size(width, h));
    assert(b[18] == le32(width as u32)[0] && b[19] == le32(width as u32)[1] && b[20] == le32(
        width as u32,
    )[2] && b[21] == le32(width as u32)[3]);
    assert(b[22] == le32(h as u32)[0] && b[23] == le32(h as u32)[1] && b[24] == le32(h as u32)[2]
        && b[25] == le32(h as u32)[3]);
    lemma_le32_round_trip(width as u32);
    lemma_le32_round_trip(h as u32);
    assert(holds_image(b, width, h));
    let l = loaded_grid(b, width, h);
    assert forall|i: int, j: int| 0 <= i < h && 0 <= j < width implies #[trigger] l[i][j]
        == grid[i][j] by {
        lemma_pixel_at(grid, width, i, j);
        lemma_word_bytes(grid[i][j]);
        let off = (h - 1 - i) * row_stride(width) + 2 * j;
        let st = row_stride(width);
        assert((h - 1 - i) * st + st <= h * st) by (nonlinear_arith)
            requires
                0 <= i < h,
        ;
        assert(off + 1 < pixel_rows(grid, width).len());
        assert(b[54 + off] == pixel_rows(grid, width)[off]);
        assert(b[54 + off + 1] == pixel_rows(grid, width)[off + 1]);
        assert(stored_color(b, width, h, i, j) == grid[i][j]);
    }
    assert forall|i: int| 0 <= i < h implies #[trigger] l[i] == grid[i] by {
        assert(l[i] =~= grid[i]);
    }
    assert(l =~= grid);
}

fn blank_image(width: usize, height: usize) -> (r: Vec<Vec<u16>>)
    ensures
        grid_view(r@) == blank_grid(width as nat, height as nat),
{
    let mut grid: Vec<Vec<u16>> = Vec::new();
    let mut i: usize = 0;
    while i < height
        invariant
            i <= height,
            grid@.len() == i,
            forall|k: int| 0 <= k < i ==> (#[trigger] grid@[k])@ == Seq::new(width as nat, |j: int| 0u16),
        decreases height - i,
    {
        let mut row: Vec<u16> = Vec::new();
        let mut j: usize = 0;
        while j < width
            invariant
                j <= width,
                row@ == Seq::new(j as nat, |k: int| 0u16),
            decreases width - j,
        {
            row.push(0);
            j = j + 1;
            proof {
                assert(row@ =~= Seq::new(j as nat, |k: int| 0u16));
            }
        }
        grid.push(row);
        i = i + 1;
    }
    proof {
        assert(grid_view(grid@) =~~= blank_grid(width as nat, height as nat));
    }
    grid
}

/// Appends one stored row to `out`: the colors, then the padding.
fn push_row(out: &mut Vec<u8>, row: &Vec<u16>, padding: usize)
    requires
        padding == row_padding(row@.len()),
    ensures
        final(out)@ == old(out)@ + row_bytes(row@, row@.len()),
{
    let ghost base = out@;
    let mut j: usize = 0;
    while j < row.len()
        invariant
            j <= row@.len(),
            out@ == base + le_bytes(row@.take(j as int)),
        decreases row@.len() - j,
    {
        push_u16_le(out, row[j]);
        j = j + 1;
        proof {
            let t = row@.take(j as int);
            assert forall|i: int| 0 <= i < 2 * (j - 1) implies #[trigger] le_bytes(t)[i]
                == le_bytes(row@.take(j - 1))[i] by {
                assert(i / 2 < j - 1);
            }
            assert((2 * (j - 1)) / 2 == j - 1 && (2 * (j - 1) + 1) / 2 == j - 1);
            assert(out@ =~= base + le_bytes(t));
        }
    }
    let mut k: usize = 0;
    while k < padding
        invariant
            k <= padding,
            j == row@.len(),
            out@ == base + le_bytes(row@.take(j as int)) + Seq::new(k as nat, |t: int| 0u8),
        decreases padding - k,
    {
        out.push(0);
        k = k + 1;
        proof {
            assert(out@ =~= base + le_bytes(row@.take(j as int)) + Seq::new(k as nat, |t: int| 0u8));
        }
    }
    proof {
        assert(row@.take(j as int) =~= row@);
        assert(out@ =~= base + row_bytes(row@, row@.len()));
    }
}

/// The bitmap file that stores `data`, a grid of rows of `width` colors.
pub fn encode_bmp(data: &[Vec<u16>], width: usize) -> (r: Vec<u8>)
    requires
        is_rectangular(grid_view(data@), width as nat),
        width <= MAX_DIMENSION,
        data@.len() <= MAX_DIMENSION,
        file_size(width as nat, data@.len()) <= u32::MAX,
    ensures
        r@ == bmp_bytes(grid_view(data@), width as nat),
{
    let ghost g = grid_view(data@);
    let height = data.len();
    let padding: usize = (4 - (2 * width) % 4) % 4;
    let stride: u64 = 2 * width as u64 + padding as u64;
    assert(stride * height <= u32::MAX);
    let image: u32 = (stride * height as u64) as u32;
    let mut out: Vec<u8> = Vec::new();
    out.push(0x42);
    out.push(0x4D);
    push_u32_le(&mut out, 54 + image);
    push_u32_le(&mut out, 0);
    push_u32_le(&mut out, 54);
    push_u32_le(&mut out, 40);
    push_u32_le(&mut out, width as u32);
    push_u32_le(&mut out, height as u32);
    out.push(1);
    out.push(0);
    out.push(16);
    out.push(0);
    push_u32_le(&mut out, 0);
    push_u32_le(&mut out, image);
    push_u32_le(&mut out, 0);
    push_u32_le(&mut out, 0);
    push_u32_le(&mut out, 0);
    push_u32_le(&mut out, 0);
    let ghost header = header_bytes(width as nat, height as nat);
    proof {
        assert(out@ =~= header);
        assert(g.skip(height as int) =~= Seq::<Seq<u16>>::empty());
    }
    let mut k: usize = 0;
    while k < height
        invariant
            k <= height == data@.len() == g.len(),
            g == grid_view(data@),
            is_rectangular(g, width as nat),
            padding == row_padding(width as nat),
            out@ == header + pixel_rows(g.skip(height - k), width as nat),
        decreases height - k,
    {
        let idx = height - 1 - k;
        let row = &data[idx];
        assert(row@ == g[idx as int]);
        push_row(&mut out, row, padding);
        k = k + 1;
        proof {
            let s = g.skip(height - k);
            assert(s.skip(1) =~= g.skip(height - (k - 1)));
            assert(s[0] == g[idx as int]);
            assert(out@ =~= header + pixel_rows(s, width as nat));
        }
    }
    proof {
        assert(g.skip(0) =~= g);
    }
    out
}

/// Reads a stored image of the expected size. When `bytes` is not a whole
/// file of that size (absent, short, or of other dimensions), the result is a
/// blank grid of the expected size, every color 0.
pub fn decode_bmp(bytes: &[u8], width: usize, height: usize) -> (r: Vec<Vec<u16>>)
    ensures
        grid_view(r@) == loaded_grid(bytes@, width as nat, height as nat),
{
    if bytes.len() < PIXEL_OFFSET {
        return blank_image(width, height);
    }
    let w = read_u32_le(bytes, 18);
    let h = read_u32_le(bytes, 22);
    if w as u64 != width as u64 || h as u64 != height as u64 {
        return blank_image(width, height);
    }
    if height == 0 {
        proof {
            assert(loaded_grid(bytes@, width as nat, 0) =~= Seq::<Seq<u16>>::empty());
        }
        return Vec::new();
    }
    let padding: u128 = if width % 2 == 1 {
        2
    } else {
        0
    };
    let stride_wide: u128 = 2 * width as u128 + padding;
    assert(stride_wide * height <= 0x4_0000_0000 * 0x1_0000_0000) by (nonlinear_arith)
        requires
            stride_wide <= 0x4_0000_0000,
            height <= 0xFFFF_FFFF,
    ;
    let need: u128 = 54 + stride_wide * height as u128;
    let len = bytes.len();
    if (len as u128) < need {
        return blank_image(width, height);
    }
    let ghost wn = width as nat;
    let ghost hn = height as nat;
    assert(stride_wide == row_stride(wn));
    assert(stride_wide <= stride_wide * height) by (nonlinear_arith)
        requires
            height >= 1,
    ;
    let stride: usize = stride_wide as usize;
    assert(holds_image(bytes@, wn, hn));
    let mut grid: Vec<Vec<u16>> = Vec::new();
    let mut i: usize = 0;
    while i < height
        invariant
            i <= height,
            wn == width,
            hn == height,
            stride == row_stride(wn),
            54 + stride * height <= bytes@.len() == len,
            grid@.len() == i,
            forall|ii: int|
                0 <= ii < i ==> (#[trigger] grid@[ii])@ == Seq::new(
                    wn,
                    |jj: int| stored_color(bytes@, wn, hn, ii, jj),
                ),
        decreases height - i,
    {
        assert((height - 1 - i) * stride + stride <= stride * height) by (nonlinear_arith)
            requires
                i < height,
        ;
        let base: usize = 54 + (height - 1 - i) * stride;
        let mut row: Vec<u16> = Vec::new();
        let mut j: usize = 0;
        while j < width
            invariant
                j <= width,
                wn == width,
                hn == height,
                i < height,
                stride == row_stride(wn),
                base == pixel_offset(wn, hn, i as int, 0),
                base + stride <= bytes@.len() == len,
                row@ == Seq::new(j as nat, |jj: int| stored_color(bytes@, wn, hn, i as int, jj)),
            decreases width - j,
        {
            assert(base + 2 * j + 1 < bytes@.len());
            let v = read_u16_le(bytes, base + 2 * j);
            row.push(v);
            j = j + 1;
            proof {
                assert(row@ =~= Seq::new(
                    j as nat,
                    |jj: int| stored_color(bytes@, wn, hn, i as int, jj),
                ));
            }
        }
        grid.push(row);
        i = i + 1;
    }
    proof {
        assert(grid_view(grid@) =~~= loaded_grid(bytes@, wn, hn));
    }
    grid
}

} // verus!
