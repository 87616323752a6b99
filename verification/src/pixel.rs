use vstd::prelude::*;

verus! {

/// A premultiplied 8-bit RGBA pixel, the unit of storage of every tile.
#[derive(Clone, Copy, Debug, PartialEq, Eq, Structural)]
pub struct Pixel {
    pub r: u8,
    pub g: u8,
    pub b: u8,
    pub a: u8,
}

/// The fully transparent pixel.
pub open spec fn transparent() -> Pixel {
    Pixel { r: 0, g: 0, b: 0, a: 0 }
}

/// One channel after erasing with strength `src_a`: the channel scaled by
/// `(255 - src_a) / 255`, rounded to nearest.
pub open spec fn erase_channel(dst: u8, src_a: u8) -> int {
    (dst * (255 - src_a) + 127) / 255
}

impl Pixel {
    /// The fully transparent pixel.
    pub fn transparent() -> (p: Pixel)
        ensures
            p == transparent(),
    {
        Pixel { r: 0, g: 0, b: 0, a: 0 }
    }

    /// Builds a pixel from premultiplied channels.
    pub fn from_rgba_premultiplied(r: u8, g: u8, b: u8, a: u8) -> (p: Pixel)
        ensures
            p == (Pixel { r, g, b, a }),
    {
        Pixel { r, g, b, a }
    }

    /// True exactly for the fully transparent pixel.
    pub fn is_transparent(&self) -> (res: bool)
        ensures
            res == (*self == transparent()),
    {
        self.r == 0 && self.g == 0 && self.b == 0 && self.a == 0
    }
}

fn erase_one(dst: u8, src_a: u8) -> (out: u8)
    ensures
        out == erase_channel(dst, src_a),
{
    let inv: u32 = 255 - src_a as u32;
    assert(dst as u32 * inv <= 255 * 255) by (nonlinear_arith)
        requires
            dst <= 255,
            inv <= 255,
    ;
    let v: u32 = (dst as u32 * inv + 127) / 255;
    assert(v <= 255);
    let m: u32 = if v < 255 { v } else { 255 };
    m as u8
}

/// Erase blend mode: every channel of `dst`, alpha included, is scaled by
/// the complement of the source alpha, rounded to nearest.
pub fn blend_erase(src: Pixel, dst: Pixel) -> (out: Pixel)
    ensures
        out.r == erase_channel(dst.r, src.a),
        out.g == erase_channel(dst.g, src.a),
        out.b == erase_channel(dst.b, src.a),
        out.a == erase_channel(dst.a, src.a),
{
    Pixel {
        r: erase_one(dst.r, src.a),
        g: erase_one(dst.g, src.a),
        b: erase_one(dst.b, src.a),
        a: erase_one(dst.a, src.a),
    }
}

} // verus!
