//! The transfer protocol: the six-byte request header and the framing of one
//! row as a mode byte and a payload.
//!
//! Mode 0 carries `width` raw color codes; mode `N > 0` carries `N`
//! little-endian segment words. The encoder uses the compressed form only
//! when the whole row fits in `MAX_SEGMENTS` segments.

use vstd::prelude::*;
use crate::palette::{code_2_color, color_2_code, spec_code_color, spec_color_code, PALETTE_SIZE};
use crate::row_codec::{
    codes_fit, compress, decoded, fit_count, lemma_row_round_trip, lemma_run_encoding, run_encoding,
    total, uncompress,
};
use crate::wire::{le_bytes, le_words, lemma_le_round_trip, push_u16_le, read_u16_le};

verus! {

/// Most segments that a compressed row may carry.
pub const MAX_SEGMENTS: usize = 105;

/// Length of the request header in bytes.
pub const HEADER_LEN: usize = 6;

/// What a connection asks for.
#[derive(PartialEq, Eq, Structural, Clone, Copy, Debug)]
pub enum Operation {
    /// The client uploads an image into a slot.
    Save,
    /// The client downloads the image of a slot.
    Load,
}

/// The header that starts every exchange.
#[derive(PartialEq, Eq, Structural, Clone, Copy, Debug)]
pub struct RequestHeader {
    /// 1 asks to save, 2 to load; other values ask for nothing.
    pub op: u8,
    /// Storage slot of the image.
    pub slot: u8,
    /// Number of rows.
    pub height: u16,
    /// Number of codes in each row.
    pub width: u16,
}

/// Why a row could not be translated.
#[derive(PartialEq, Eq, Structural, Clone, Copy, Debug)]
pub enum ProtocolError {
    /// A received code is not one of the palette's nine.
    InvalidCode,
    /// A stored color is not one of the palette's nine.
    UnknownColor,
}

impl RequestHeader {
    /// The operation that the header asks for, if any.
    pub open spec fn spec_operation(&self) -> Option<Operation> {
        if self.op == 1 {
            Some(Operation::Save)
        } else if self.op == 2 {
            Some(Operation::Load)
        } else {
            None
        }
    }

    /// The operation that the header asks for: `None` for an operation byte
    /// other than 1 or 2.
    pub fn operation(&self) -> (r: Option<Operation>)
        ensures
            r == self.spec_operation(),
    {
        if self.op == 1 {
            Some(Operation::Save)
        } else if self.op == 2 {
            Some(Operation::Load)
        } else {
            None
        }
    }
}

/// Reads the header from its six bytes: operation, slot, then height and
/// width as little-endian 16-bit integers. `None` when fewer than six bytes
/// are given; bytes after the sixth are ignored.
pub fn parse_header(bytes: &[u8]) -> (r: Option<RequestHeader>)
    ensures
        bytes@.len() < HEADER_LEN <==> r is None,
        r matches Some(h) ==> h.op == bytes@[0] && h.slot == bytes@[1] && h.height as int
            == bytes@[2] + 256 * bytes@[3] && h.width as int == bytes@[4] + 256 * bytes@[5],
{
    if bytes.len() < HEADER_LEN {
        return None;
    }
    let height = read_u16_le(bytes, 2);
    let width = read_u16_le(bytes, 4);
    Some(RequestHeader { op: bytes[0], slot: bytes[1], height, width })
}

/// Number of payload bytes that follow a mode byte in a row of `width` codes.
pub open spec fn spec_payload_len(mode: u8, width: nat) -> nat {
    if mode == 0 {
        width
    } else {
        2 * mode as nat
    }
}

/// Number of payload bytes that follow the mode byte `mode` in a row of
/// `width` codes: `width` raw codes, or two bytes for each segment.
pub fn payload_len(mode: u8, width: usize) -> (r: usize)
    ensures
        r == spec_payload_len(mode, width as nat),
{
    if mode == 0 {
        width
    } else {
        2 * mode as usize
    }
}

/// The codes that a row message stands for. A raw payload is the codes
/// themselves; a compressed one is expanded into a zeroed row of `width`
/// codes, stopping before a segment that would pass its end.
pub open spec fn spec_row_codes(mode: u8, payload: Seq<u8>, width: nat) -> Seq<u8> {
    if mode == 0 {
        payload
    } else {
        let segs = le_words(payload);
        let k = fit_count(segs, width) as int;
        decoded(segs.take(k)) + Seq::new(width, |i: int| 0u8).skip(total(segs.take(k)) as int)
    }
}

/// The row message that encodes `codes`: the compressed form when the
/// canonical encoding has at most `MAX_SEGMENTS` segments, else the raw form.
pub open spec fn spec_row_frame(codes: Seq<u8>) -> Seq<u8> {
    let e = run_encoding(codes);
    if e.len() <= MAX_SEGMENTS {
        seq![e.len() as u8] + le_bytes(e)
    } else {
        seq![0u8] + codes
    }
}

/// The colors of a row of codes, all of which are in the palette.
pub open spec fn colors_of(codes: Seq<u8>) -> Seq<u16> {
    codes.map_values(|c: u8| spec_code_color(c).unwrap())
}

/// The codes of a row of colors, all of which are in the palette.
pub open spec fn codes_of(colors: Seq<u16>) -> Seq<u8> {
    colors.map_values(|v: u16| spec_color_code(v).unwrap())
}

/// Every code of the row is one of the palette's nine.
pub open spec fn all_valid_codes(codes: Seq<u8>) -> bool {
    forall|i: int| 0 <= i < codes.len() ==> #[trigger] codes[i] < PALETTE_SIZE
}

/// Every color of the row is one of the palette's nine.
pub open spec fn all_palette_colors(colors: Seq<u16>) -> bool {
    forall|i: int| 0 <= i < colors.len() ==> (#[trigger] spec_color_code(colors[i])) is Some
}

/// The codes carried by one row message with mode byte `mode`. Any non-zero
/// mode is read as that many segments.
pub fn decode_codes(mode: u8, payload: &[u8], width: usize) -> (r: Vec<u8>)
    requires
        payload@.len() == spec_payload_len(mode, width as nat),
    ensures
        r@ == spec_row_codes(mode, payload@, width as nat),
        r@.len() == width,
{
    let mut codes: Vec<u8> = Vec::new();
    if mode == 0 {
        let mut i: usize = 0;
        while i < payload.len()
            invariant
                i <= payload@.len(),
                codes@ == payload@.take(i as int),
            decreases payload@.len() - i,
        {
            codes.push(payload[i]);
            i = i + 1;
            proof {
                assert(codes@ =~= payload@.take(i as int));
            }
        }
        proof {
            assert(payload@.take(i as int) =~= payload@);
        }
        return codes;
    }
    let n = mode as usize;
    let mut segs: Vec<u16> = Vec::new();
    let mut k: usize = 0;
    while k < n
        invariant
            k <= n,
            n == mode,
            payload@.len() == 2 * n,
            segs@ == le_words(payload@).take(k as int),
        decreases n - k,
    {
        segs.push(read_u16_le(payload, 2 * k));
        k = k + 1;
        proof {
            assert(segs@ =~= le_words(payload@).take(k as int));
        }
    }
    let mut j: usize = 0;
    while j < width
        invariant
            j <= width,
            codes@ == Seq::new(j as nat, |i: int| 0u8),
        decreases width - j,
    {
        codes.push(0);
        j = j + 1;
        proof {
            assert(codes@ =~= Seq::new(j as nat, |i: int| 0u8));
        }
    }
    proof {
        assert(segs@ =~= le_words(payload@));
    }
    let ghost zeros = codes@;
    uncompress(segs.as_slice(), codes.as_mut_slice());
    proof {
        let s = le_words(payload@);
        let t = s.take(fit_count(s, width as nat) as int);
        crate::row_codec::lemma_decoded_len(t);
        crate::row_codec::lemma_fit_count_bound(s, width as nat);
    }
    codes
}

/// Translates one received row message into colors; `InvalidCode` when a
/// code of the row is not in the palette.
pub fn decode_row(mode: u8, payload: &[u8], width: usize) -> (r: Result<Vec<u16>, ProtocolError>)
    requires
        payload@.len() == spec_payload_len(mode, width as nat),
    ensures
        r is Ok <==> all_valid_codes(spec_row_codes(mode, payload@, width as nat)),
        r matches Ok(colors) ==> colors@ == colors_of(spec_row_codes(mode, payload@, width as nat)),
        r matches Ok(colors) ==> colors@.len() == width,
        r matches Err(e) ==> e == ProtocolError::InvalidCode,
{
    let codes = decode_codes(mode, payload, width);
    let mut colors: Vec<u16> = Vec::new();
    let mut i: usize = 0;
    while i < codes.len()
        invariant
            i <= codes@.len(),
            codes@ == spec_row_codes(mode, payload@, width as nat),
            all_valid_codes(codes@.take(i as int)),
            colors@ == colors_of(codes@.take(i as int)),
        decreases codes@.len() - i,
    {
        match code_2_color(codes[i]) {
            Some(v) => colors.push(v),
            None => {
                proof {
                    assert(!all_valid_codes(codes@));
                }
                return Err(ProtocolError::InvalidCode);
            },
        }
        i = i + 1;
        proof {
            assert(colors@ =~= colors_of(codes@.take(i as int)));
            assert(all_valid_codes(codes@.take(i as int)));
        }
    }
    proof {
        assert(codes@.take(i as int) =~= codes@);
    }
    Ok(colors)
}

/// The row message for a row of codes, mode byte first.
pub fn encode_codes(codes: &[u8]) -> (r: Vec<u8>)
    requires
        codes_fit(codes@),
    ensures
        r@ == spec_row_frame(codes@),
{
    let mut segments: Vec<u16> = Vec::new();
    let mut j: usize = 0;
    while j < MAX_SEGMENTS
        invariant
            j <= MAX_SEGMENTS,
            segments@.len() == j,
        decreases MAX_SEGMENTS - j,
    {
        segments.push(0);
        j = j + 1;
    }
    let (n, covered) = compress(segments.as_mut_slice(), codes);
    let ghost e = run_encoding(codes@);
    let mut out: Vec<u8> = Vec::new();
    if covered == codes.len() {
        out.push(n as u8);
        let mut k: usize = 0;
        while k < n
            invariant
                k <= n == e.len() <= MAX_SEGMENTS,
                segments@.len() == MAX_SEGMENTS,
                segments@.take(n as int) == e.take(n as int),
                out@ == seq![n as u8] + le_bytes(e.take(k as int)),
            decreases n - k,
        {
            let ghost before = out@;
            push_u16_le(&mut out, segments[k]);
            k = k + 1;
            proof {
                assert(segments@[k - 1] == e[k - 1]) by {
                    assert(segments@.take(n as int)[k - 1] == e.take(n as int)[k - 1]);
                }
                assert(out@ =~= seq![n as u8] + le_bytes(e.take(k as int))) by {
                    assert forall|i: int| 0 <= i < 2 * (k - 1) implies #[trigger] le_bytes(
                        e.take(k as int))[i] == le_bytes(e.take(k - 1))[i] by {
                        assert(i / 2 < k - 1);
                    }
                    assert((2 * (k - 1)) / 2 == k - 1 && (2 * (k - 1) + 1) / 2 == k - 1);
                }
            }
        }
        proof {
            assert(e.take(n as int) =~= e);
        }
    } else {
        out.push(0);
        let mut k: usize = 0;
        while k < codes.len()
            invariant
                k <= codes@.len(),
                out@ == seq![0u8] + codes@.take(k as int),
            decreases codes@.len() - k,
        {
            out.push(codes[k]);
            k = k + 1;
            proof {
                assert(out@ =~= seq![0u8] + codes@.take(k as int));
            }
        }
        proof {
            assert(codes@.take(k as int) =~= codes@);
        }
    }
    out
}

/// Translates one row of stored colors into its row message;
/// `UnknownColor` when a color of the row is not in the palette.
pub fn encode_row(colors: &[u16]) -> (r: Result<Vec<u8>, ProtocolError>)
    ensures
        r is Ok <==> all_palette_colors(colors@),
        r matches Ok(bytes) ==> bytes@ == spec_row_frame(codes_of(colors@)),
        r matches Err(e) ==> e == ProtocolError::UnknownColor,
{
    let mut codes: Vec<u8> = Vec::new();
    let mut i: usize = 0;
    while i < colors.len()
        invariant
            i <= colors@.len(),
            all_palette_colors(colors@.take(i as int)),
            codes@ == codes_of(colors@.take(i as int)),
            codes_fit(codes@),
        decreases colors@.len() - i,
    {
        match color_2_code(colors[i]) {
            Some(c) => codes.push(c),
            None => {
                proof {
                    assert(!all_palette_colors(colors@));
                }
                return Err(ProtocolError::UnknownColor);
            },
        }
        i = i + 1;
        proof {
            assert(codes@ =~= codes_of(colors@.take(i as int)));
            assert(all_palette_colors(colors@.take(i as int)));
        }
    }
    proof {
        assert(colors@.take(i as int) =~= colors@);
    }
    Ok(encode_codes(codes.as_slice()))
}

/// Mode selection: a row whose canonical encoding has more than
/// `MAX_SEGMENTS` segments is sent raw, mode byte 0 and then the codes; any
/// other non-empty row is sent compressed, with a mode byte from 1 to
/// `MAX_SEGMENTS` that counts its segments.
pub proof fn lemma_mode_selection(codes: Seq<u8>)
    ensures
        run_encoding(codes).len() > MAX_SEGMENTS ==> spec_row_frame(codes) == seq![0u8] + codes,
        run_encoding(codes).len() <= MAX_SEGMENTS && codes.len() > 0 ==> 1 <= spec_row_frame(
            codes,
        )[0] <= MAX_SEGMENTS && spec_row_frame(codes)[0] == run_encoding(codes).len(),
{
    if codes.len() > 0 {
        crate::row_codec::lemma_run_encoding_nonempty(codes);
    }
}

/// A row message decodes to the row it was made from: its mode byte
/// announces a payload of the length that follows, and reading the payload
/// into a row of the same width gives back the codes.
pub proof fn lemma_frame_round_trip(codes: Seq<u8>)
    requires
        codes_fit(codes),
    ensures
        ({
            let f = spec_row_frame(codes);
            &&& f.len() >= 1
            &&& f.skip(1).len() == spec_payload_len(f[0], codes.len())
            &&& spec_row_codes(f[0], f.skip(1), codes.len()) == codes
        }),
{
    let e = run_encoding(codes);
    let f = spec_row_frame(codes);
    if e.len() <= MAX_SEGMENTS {
        assert(f.skip(1) =~= le_bytes(e));
        lemma_le_round_trip(e);
        if codes.len() == 0 {
            assert(f.skip(1) =~= codes);
        } else {
            crate::row_codec::lemma_run_encoding_nonempty(codes);
            lemma_row_round_trip(codes, Seq::new(codes.len(), |i: int| 0u8));
        }
    } else {
        assert(f.skip(1) =~= codes);
    }
}

} // verus!
