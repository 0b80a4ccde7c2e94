//! The frame buffer seen as raw little-endian RGB565 bytes for the display.
use vstd::prelude::*;

verus! {

/// Byte `j` of the little-endian encoding of `pixels`: the low byte of each
/// pixel comes first.
pub open spec fn le_byte(pixels: Seq<u16>, j: int) -> u8 {
    if j % 2 == 0 {
        (pixels[j / 2] % 256) as u8
    } else {
        (pixels[j / 2] / 256) as u8
    }
}

/// The little-endian encoding of `pixels`, two bytes per pixel.
pub open spec fn le_bytes(pixels: Seq<u16>) -> Seq<u8> {
    Seq::new(2 * pixels.len(), |j: int| le_byte(pixels, j))
}

/// Writes the pixels into `out` as little-endian bytes, two per pixel; the
/// byte buffer must be exactly twice as long as the pixel buffer.
pub fn pixels_to_le_bytes(pixels: &[u16], out: &mut [u8])
    requires
        old(out)@.len() == 2 * pixels@.len(),
    ensures
        final(out)@ == le_bytes(pixels@),
        forall|i: int|
            0 <= i < pixels@.len() ==> final(out)@[2 * i] == (#[trigger] pixels@[i] % 256) as u8
                && final(out)@[2 * i + 1] == (pixels@[i] / 256) as u8,
{
    let n: usize = pixels.len();
    let m: usize = out.len();
    let mut i: usize = 0;
    while i < n
        invariant
            n == pixels@.len(),
            out@.len() == 2 * n,
            m == out@.len(),
            i <= n,
            forall|j: int| 0 <= j < 2 * i ==> out@[j] == le_byte(pixels@, j),
        decreases n - i,
    {
        let v = pixels[i];
        out[2 * i] = (v % 256) as u8;
        out[2 * i + 1] = (v / 256) as u8;
        i = i + 1;
    }
    assert(out@ =~= le_bytes(pixels@));
    assert forall|i: int| 0 <= i < pixels@.len() implies out@[2 * i] == (#[trigger] pixels@[i] % 256) as u8
        && out@[2 * i + 1] == (pixels@[i] / 256) as u8 by {
        assert(out@[2 * i] == le_byte(pixels@, 2 * i));
        assert(out@[2 * i + 1] == le_byte(pixels@, 2 * i + 1));
    }
}

} // verus!
