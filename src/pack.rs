//! Packed `u32` pixels of the compact output mode: four 8-bit channels, red
//! in the lowest byte.
use vstd::prelude::*;

verus! {

/// Value of a pixel whose channels are `rgba`, red in the lowest byte.
pub open spec fn packed_value(rgba: [u8; 4]) -> nat {
    rgba[0] as nat + 256 * rgba[1] as nat + 65536 * rgba[2] as nat + 16777216 * rgba[3] as nat
}

/// Packs the four channel bytes of a pixel into one word.
pub fn pack_rgba8(rgba: [u8; 4]) -> (r: u32)
    ensures
        r as nat == packed_value(rgba),
{
    let r0 = rgba[0] as u32;
    let g0 = rgba[1] as u32;
    let b0 = rgba[2] as u32;
    let a0 = rgba[3] as u32;
    let w = r0 | (g0 << 8u32) | (b0 << 16u32) | (a0 << 24u32);
    assert(r0 < 256 && g0 < 256 && b0 < 256 && a0 < 256 ==> r0 | (g0 << 8u32) | (b0 << 16u32) | (
    a0 << 24u32) == r0 + 256 * g0 + 65536 * b0 + 16777216 * a0) by (bit_vector);
    w
}

/// Channel bytes of a packed pixel, red first.
pub fn unpack_rgba8(w: u32) -> (r: [u8; 4])
    ensures
        packed_value(r) == w as nat,
{
    assert((w & 0xff) < 256 && ((w >> 8u32) & 0xff) < 256 && ((w >> 16u32) & 0xff) < 256 && ((w
        >> 24u32) & 0xff) < 256) by (bit_vector);
    let r0 = (w & 0xff) as u8;
    let g0 = ((w >> 8u32) & 0xff) as u8;
    let b0 = ((w >> 16u32) & 0xff) as u8;
    let a0 = ((w >> 24u32) & 0xff) as u8;
    assert((w & 0xff) + 256 * ((w >> 8u32) & 0xff) + 65536 * ((w >> 16u32) & 0xff) + 16777216 * ((w
        >> 24u32) & 0xff) == w) by (bit_vector);
    [r0, g0, b0, a0]
}

/// Packing is one to one and fits a word: pixels with the same packed value
/// have the same channels, so unpacking a packed pixel gives back its channels.
pub proof fn lemma_pack_round_trip(a: [u8; 4], b: [u8; 4])
    ensures
        packed_value(a) == packed_value(b) ==> a@ == b@,
        packed_value(a) < 0x1_0000_0000,
{
    if packed_value(a) == packed_value(b) {
        assert(a@ =~= b@);
    }
}

} // verus!
