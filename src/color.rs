//! Packed 32-bit colors: red in the low byte, then green, blue and alpha.
use vstd::prelude::*;

verus! {

pub const ALPHA_MASK: u32 = 0xFF00_0000;

pub const BLUE_MASK: u32 = 0x00FF_0000;

pub const BLUE_SHIFT: u32 = 16;

pub const GREEN_MASK: u32 = 0x0000_FF00;

pub const GREEN_SHIFT: u32 = 8;

pub const RED_MASK: u32 = 0x0000_00FF;

/// The red channel of a packed color.
pub open spec fn red_of(c: u32) -> u32 {
    c % 256
}

/// The green channel of a packed color.
pub open spec fn green_of(c: u32) -> u32 {
    (c / 256) % 256
}

/// The blue channel of a packed color.
pub open spec fn blue_of(c: u32) -> u32 {
    (c / 65536) % 256
}

/// The alpha channel of a packed color.
pub open spec fn alpha_of(c: u32) -> u32 {
    c / 16777216
}

/// The fully opaque color with channels `r`, `g`, `b` (each below 256).
pub open spec fn opaque(r: u32, g: u32, b: u32) -> u32 {
    (0xFF00_0000 + b * 65536 + g * 256 + r) as u32
}

/// Red channel of `color`.
pub fn red(color: u32) -> (r: u32)
    ensures
        r == red_of(color),
{
    proof {
        assert(color & 0xFF == color % 256) by (bit_vector);
    }
    color & RED_MASK
}

/// Green channel of `color`.
pub fn green(color: u32) -> (r: u32)
    ensures
        r == green_of(color),
{
    proof {
        assert((color & 0xFF00) >> 8 == (color / 256) % 256) by (bit_vector);
    }
    (color & GREEN_MASK) >> GREEN_SHIFT
}

/// Blue channel of `color`.
pub fn blue(color: u32) -> (r: u32)
    ensures
        r == blue_of(color),
{
    proof {
        assert((color & 0xFF_0000) >> 16 == (color / 65536) % 256) by (bit_vector);
    }
    (color & BLUE_MASK) >> BLUE_SHIFT
}

/// Packs the low byte of each of `r`, `g`, `b` into a fully opaque color.
pub fn cal_color(r: u32, g: u32, b: u32) -> (c: u32)
    ensures
        c == opaque(r % 256, g % 256, b % 256),
{
    proof {
        assert(0xFF00_0000u32 | ((b << 16) & 0xFF_0000) | ((g << 8) & 0xFF00) | (r & 0xFF)
            == (0xFF00_0000 + (b % 256) * 65536 + (g % 256) * 256 + r % 256) as u32) by (bit_vector);
    }
    ALPHA_MASK | ((b << BLUE_SHIFT) & BLUE_MASK) | ((g << GREEN_SHIFT) & GREEN_MASK) | (r & RED_MASK)
}

/// The same color with its red and blue channels exchanged, made opaque.
pub fn rev_color(c: u32) -> (r: u32)
    ensures
        r == opaque(blue_of(c), green_of(c), red_of(c)),
{
    cal_color(blue(c), green(c), red(c))
}

/// Unpacking an opaque color gives back its channels, and its alpha is full.
pub proof fn lemma_pack_unpack(r: u32, g: u32, b: u32)
    requires
        r < 256,
        g < 256,
        b < 256,
    ensures
        red_of(opaque(r, g, b)) == r,
        green_of(opaque(r, g, b)) == g,
        blue_of(opaque(r, g, b)) == b,
        alpha_of(opaque(r, g, b)) == 255,
{
    let c = opaque(r, g, b);
    assert(c == (0xFF00_0000 + b * 65536 + g * 256 + r) as u32);
    assert(((0xFF00_0000 + b * 65536 + g * 256 + r) as u32) % 256 == r
        && (((0xFF00_0000 + b * 65536 + g * 256 + r) as u32) / 256) % 256 == g
        && (((0xFF00_0000 + b * 65536 + g * 256 + r) as u32) / 65536) % 256 == b
        && ((0xFF00_0000 + b * 65536 + g * 256 + r) as u32) / 16777216 == 255) by (bit_vector)
        requires
            r < 256,
            g < 256,
            b < 256,
    ;
}

/// Packing the channels of a color gives back the color itself once it is opaque.
pub proof fn lemma_unpack_pack(c: u32)
    requires
        alpha_of(c) == 255,
    ensures
        opaque(red_of(c), green_of(c), blue_of(c)) == c,
{
    assert((0xFF00_0000 + ((c / 65536) % 256) * 65536 + ((c / 256) % 256) * 256 + c % 256) as u32
        == c) by (bit_vector)
        requires
            c / 16777216 == 255,
    ;
}

} // verus!
