//! Little-endian byte order for the 16-bit words that the wire format and the
//! bitmap container carry.

use vstd::prelude::*;

verus! {

/// Low byte of a 16-bit word.
pub open spec fn lo_byte(w: u16) -> u8 {
    (w % 256) as u8
}

/// High byte of a 16-bit word.
pub open spec fn hi_byte(w: u16) -> u8 {
    (w / 256) as u8
}

/// The 16-bit word whose little-endian bytes are `lo`, `hi`.
pub open spec fn word_of(lo: u8, hi: u8) -> u16 {
    (lo as int + 256 * hi as int) as u16
}

/// Each word as two bytes, low byte first.
pub open spec fn le_bytes(words: Seq<u16>) -> Seq<u8> {
    Seq::new(
        2 * words.len(),
        |i: int|
            if i % 2 == 0 {
                lo_byte(words[i / 2])
            } else {
                hi_byte(words[i / 2])
            },
    )
}

/// Consecutive byte pairs read as little-endian words; an odd last byte is ignored.
pub open spec fn le_words(bytes: Seq<u8>) -> Seq<u16> {
    Seq::new(bytes.len() / 2, |i: int| word_of(bytes[2 * i], bytes[2 * i + 1]))
}

/// Splitting a word into bytes and joining them gives the word back.
pub proof fn lemma_word_bytes(w: u16)
    ensures
        word_of(lo_byte(w), hi_byte(w)) == w,
{
}

/// Reading back the bytes of a word sequence gives the same words.
pub proof fn lemma_le_round_trip(words: Seq<u16>)
    ensures
        le_words(le_bytes(words)) == words,
{
    let b = le_bytes(words);
    assert forall|i: int| 0 <= i < words.len() implies #[trigger] le_words(b)[i] == words[i] by {
        assert((2 * i) / 2 == i && (2 * i) % 2 == 0);
        assert((2 * i + 1) / 2 == i && (2 * i + 1) % 2 == 1);
        lemma_word_bytes(words[i]);
    }
    assert(le_words(b) =~= words);
}

/// Appends the two little-endian bytes of `w` to `out`.
pub fn push_u16_le(out: &mut Vec<u8>, w: u16)
    ensures
        final(out)@ == old(out)@.push(lo_byte(w)).push(hi_byte(w)),
{
    out.push((w % 256) as u8);
    out.push((w / 256) as u8);
}

/// Reads the little-endian word at `bytes[at]`, `bytes[at + 1]`.
pub fn read_u16_le(bytes: &[u8], at: usize) -> (r: u16)
    requires
        at + 1 < bytes@.len(),
    ensures
        r == word_of(bytes@[at as int], bytes@[at + 1]),
{
    bytes[at] as u16 + 256 * (bytes[at + 1] as u16)
}

/// The four bytes of a 32-bit integer, low byte first.
pub open spec fn le32(x: u32) -> Seq<u8> {
    seq![
        (x % 256) as u8,
        ((x / 256) % 256) as u8,
        ((x / 65536) % 256) as u8,
        (x / 16777216) as u8,
    ]
}

/// The 32-bit integer whose little-endian bytes are `b0` to `b3`.
pub open spec fn u32_of(b0: u8, b1: u8, b2: u8, b3: u8) -> nat {
    b0 as nat + 256 * b1 as nat + 65536 * b2 as nat + 16777216 * b3 as nat
}

/// Reading back the four bytes of a 32-bit integer gives the integer.
pub proof fn lemma_le32_round_trip(x: u32)
    ensures
        u32_of(le32(x)[0], le32(x)[1], le32(x)[2], le32(x)[3]) == x,
{
    let a = x as int;
    assert(a == a % 256 + 256 * ((a / 256) % 256) + 65536 * ((a / 65536) % 256) + 16777216 * (a
        / 16777216)) by (nonlinear_arith)
        requires
            0 <= a < 0x1_0000_0000,
    ;
}

/// Appends the four little-endian bytes of `x` to `out`.
pub fn push_u32_le(out: &mut Vec<u8>, x: u32)
    ensures
        final(out)@ == old(out)@ + le32(x),
{
    out.push((x % 256) as u8);
    out.push(((x / 256) % 256) as u8);
    out.push(((x / 65536) % 256) as u8);
    out.push((x / 16777216) as u8);
    proof {
        assert(out@ =~= old(out)@ + le32(x));
    }
}

/// Reads the little-endian 32-bit integer at `bytes[at..at + 4]`.
pub fn read_u32_le(bytes: &[u8], at: usize) -> (r: u32)
    requires
        at + 3 < bytes@.len(),
    ensures
        r == u32_of(bytes@[at as int], bytes@[at + 1], bytes@[at + 2], bytes@[at + 3]),
{
    bytes[at] as u32 + 256 * (bytes[at + 1] as u32) + 65536 * (bytes[at + 2] as u32) + 16777216 * (
    bytes[at + 3] as u32)
}

} // verus!
