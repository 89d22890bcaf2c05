//! The segment codec: a segment index stored as three colour bytes.

use vstd::prelude::*;

verus! {

/// Number of distinct segment indices that three bytes can hold.
pub const INDEX_RANGE: u64 = 16777216;

/// The three colour bytes that store the segment index `i`.
pub open spec fn encode(i: int) -> (u8, u8, u8) {
    ((i % 256) as u8, ((i / 256) % 256) as u8, ((i / 65536) % 256) as u8)
}

/// The segment index that the colour bytes `(r, g, b)` store.
pub open spec fn decode(r: u8, g: u8, b: u8) -> int {
    r + g * 256 + b * 65536
}

/// Decoding an encoded index gives the index back, modulo `INDEX_RANGE`.
pub proof fn lemma_decode_encode(i: int)
    requires
        i >= 0,
    ensures
        decode(encode(i).0, encode(i).1, encode(i).2) == i % (INDEX_RANGE as int),
{
    assert(((i / 256) / 256) == i / 65536) by {
        vstd::arithmetic::div_mod::lemma_div_denominator(i, 256, 256);
    }
    vstd::arithmetic::div_mod::lemma_fundamental_div_mod(i, 256);
    vstd::arithmetic::div_mod::lemma_fundamental_div_mod(i / 256, 256);
    vstd::arithmetic::div_mod::lemma_fundamental_div_mod(i / 65536, 256);
    vstd::arithmetic::div_mod::lemma_fundamental_div_mod(i, 16777216);
    assert(i / 16777216 == (i / 65536) / 256) by {
        vstd::arithmetic::div_mod::lemma_div_denominator(i, 65536, 256);
    }
}

/// Every index below `INDEX_RANGE` survives a round trip through the codec.
pub proof fn lemma_codec_round_trip(i: int)
    requires
        0 <= i < INDEX_RANGE,
    ensures
        decode(encode(i).0, encode(i).1, encode(i).2) == i,
{
    lemma_decode_encode(i);
}

/// Encodes the bytes of a decoded index back into the same bytes.
pub proof fn lemma_encode_decode(r: u8, g: u8, b: u8)
    ensures
        encode(decode(r, g, b)) == (r, g, b),
        0 <= decode(r, g, b) < INDEX_RANGE,
{
    let i = decode(r, g, b);
    assert(i % 256 == r as int && (i / 256) % 256 == g as int && (i / 65536) % 256 == b as int)
        by (nonlinear_arith)
        requires
            i == r + g * 256 + b * 65536,
            0 <= r < 256,
            0 <= g < 256,
            0 <= b < 256,
    ;
}

/// The colour bytes of segment index `ind`: `(ind % 256, (ind / 256) % 256, ind / 65536)`.
/// Indices at or above `INDEX_RANGE` wrap.
pub fn segment_index_to_rgb(ind: u32) -> (rgb: (u8, u8, u8))
    ensures
        rgb == encode(ind as int),
        decode(rgb.0, rgb.1, rgb.2) == ind as int % (INDEX_RANGE as int),
{
    proof {
        lemma_decode_encode(ind as int);
    }
    ((ind % 256) as u8, ((ind / 256) % 256) as u8, ((ind / 65536) % 256) as u8)
}

/// The segment index stored in the colour bytes `(r, g, b)`: `r + 256 g + 65536 b`.
pub fn rgb_to_index(r: u8, g: u8, b: u8) -> (ind: usize)
    ensures
        ind as int == decode(r, g, b),
        ind < INDEX_RANGE,
{
    (r as usize) + (g as usize) * 256 + (b as usize) * 65536
}

} // verus!
