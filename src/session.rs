//! One connection's work, apart from its I/O: a save session collects the
//! rows that the client sends and turns them into a bitmap file; a load
//! turns a stored file into the row messages to send.
//!
//! Nothing here coordinates two connections on the same slot: a save and a
//! load that overlap on one slot are not ordered, and the caller that owns
//! the storage decides what happens then.

use vstd::prelude::*;
use crate::bitmap::{
    decode_bmp, encode_bmp, file_size, grid_view, is_rectangular, loaded_grid, MAX_DIMENSION,
};
use crate::protocol::{
    all_palette_colors, codes_of, colors_of, decode_row, encode_row, spec_payload_len,
    spec_row_codes, spec_row_frame, all_valid_codes, ProtocolError,
};

verus! {

/// Whether an image of `width` by `height` can be stored: both dimensions
/// fit the header's signed 32-bit fields and the file size fits 32 bits.
pub open spec fn spec_bmp_fits(width: nat, height: nat) -> bool {
    &&& width <= MAX_DIMENSION
    &&& height <= MAX_DIMENSION
    &&& file_size(width, height) <= u32::MAX
}

/// Whether an image of `width` by `height` can be stored in a bitmap file.
pub fn bmp_fits(width: usize, height: usize) -> (r: bool)
    ensures
        r == spec_bmp_fits(width as nat, height as nat),
{
    if width > MAX_DIMENSION || height > MAX_DIMENSION {
        return false;
    }
    let stride: u64 = 2 * width as u64 + if width % 2 == 1 {
        2
    } else {
        0
    };
    assert(stride * height <= 0x1_0000_0002 * 0x8000_0000) by (nonlinear_arith)
        requires
            stride <= 0x1_0000_0002,
            height <= 0x8000_0000,
    ;
    54 + stride * height as u64 <= 0xFFFF_FFFF
}

/// The rows received so far for an image of `width` by `height`.
pub struct SaveSession {
    width: usize,
    height: usize,
    rows: Vec<Vec<u16>>,
}

impl SaveSession {
    /// The image's width.
    pub closed spec fn spec_width(&self) -> nat {
        self.width as nat
    }

    /// The image's height.
    pub closed spec fn spec_height(&self) -> nat {
        self.height as nat
    }

    /// The rows received so far, top row first.
    pub closed spec fn spec_rows(&self) -> Seq<Seq<u16>> {
        grid_view(self.rows@)
    }

    /// No more rows than the height, each of the width.
    pub open spec fn wf(&self) -> bool {
        &&& self.spec_rows().len() <= self.spec_height()
        &&& is_rectangular(self.spec_rows(), self.spec_width())
    }

    /// A session that has received no rows yet.
    pub fn new(height: usize, width: usize) -> (r: SaveSession)
        ensures
            r.wf(),
            r.spec_height() == height,
            r.spec_width() == width,
            r.spec_rows() == Seq::<Seq<u16>>::empty(),
    {
        let r = SaveSession { width, height, rows: Vec::new() };
        proof {
            assert(r.spec_rows() =~= Seq::<Seq<u16>>::empty());
        }
        r
    }

    /// The image's width.
    pub fn width(&self) -> (r: usize)
        ensures
            r == self.spec_width(),
    {
        self.width
    }

    /// Number of rows still to be received.
    pub fn rows_left(&self) -> (r: usize)
        requires
            self.wf(),
        ensures
            r == self.spec_height() - self.spec_rows().len(),
    {
        self.height - self.rows.len()
    }

    /// Takes the next row message. On success the row's colors are appended;
    /// on `InvalidCode` the session is unchanged.
    pub fn receive_row(&mut self, mode: u8, payload: &[u8]) -> (r: Result<(), ProtocolError>)
        requires
            old(self).wf(),
            old(self).spec_rows().len() < old(self).spec_height(),
            payload@.len() == spec_payload_len(mode, old(self).spec_width()),
        ensures
            final(self).wf(),
            final(self).spec_width() == old(self).spec_width(),
            final(self).spec_height() == old(self).spec_height(),
            r is Ok <==> all_valid_codes(spec_row_codes(mode, payload@, old(self).spec_width())),
            r is Ok ==> final(self).spec_rows() == old(self).spec_rows().push(
                colors_of(spec_row_codes(mode, payload@, old(self).spec_width())),
            ),
            r is Err ==> final(self).spec_rows() == old(self).spec_rows(),
            r matches Err(e) ==> e == ProtocolError::InvalidCode,
    {
        match decode_row(mode, payload, self.width) {
            Ok(colors) => {
                let ghost before = self.rows@;
                self.rows.push(colors);
                proof {
                    assert(grid_view(self.rows@) =~= grid_view(before).push(colors@));
                }
                Ok(())
            },
            Err(e) => Err(e),
        }
    }

    /// The bitmap file of the completed image.
    pub fn to_bmp(&self) -> (r: Vec<u8>)
        requires
            self.wf(),
            self.spec_rows().len() == self.spec_height(),
            spec_bmp_fits(self.spec_width(), self.spec_height()),
        ensures
            r@ == crate::bitmap::bmp_bytes(self.spec_rows(), self.spec_width()),
    {
        encode_bmp(self.rows.as_slice(), self.width)
    }
}

/// The row messages that answer a load: the stored file read as an image of
/// `width` by `height` (blank when it does not hold one of that size), each
/// row framed in turn; `UnknownColor` when a stored color is not in the palette.
pub fn load_frames(file: &[u8], width: usize, height: usize) -> (r: Result<
    Vec<Vec<u8>>,
    ProtocolError,
>)
    ensures
        r is Ok <==> forall|i: int|
            0 <= i < height ==> all_palette_colors(
                #[trigger] loaded_grid(file@, width as nat, height as nat)[i],
            ),
        r matches Ok(frames) ==> frames@.len() == height && forall|i: int|
            0 <= i < height ==> (#[trigger] frames@[i])@ == spec_row_frame(
                codes_of(loaded_grid(file@, width as nat, height as nat)[i]),
            ),
        r matches Err(e) ==> e == ProtocolError::UnknownColor,
{
    let grid = decode_bmp(file, width, height);
    let ghost g = loaded_grid(file@, width as nat, height as nat);
    let mut frames: Vec<Vec<u8>> = Vec::new();
    let mut i: usize = 0;
    while i < grid.len()
        invariant
            grid_view(grid@) == g,
            g == loaded_grid(file@, width as nat, height as nat),
            g.len() == height,
            i <= height,
            frames@.len() == i,
            forall|k: int| 0 <= k < i ==> all_palette_colors(#[trigger] g[k]),
            forall|k: int| 0 <= k < i ==> (#[trigger] frames@[k])@ == spec_row_frame(codes_of(g[k])),
        decreases height - i,
    {
        assert(grid@[i as int]@ == g[i as int]);
        match encode_row(grid[i].as_slice()) {
            Ok(frame) => frames.push(frame),
            Err(e) => {
                assert(!all_palette_colors(g[i as int]));
                return Err(e);
            },
        }
        i = i + 1;
    }
    Ok(frames)
}

} // verus!
