//! Colours of the frame buffer: four 8-bit channels, packed into a `u32` as
//! `0x00RRGGBB`.

use vstd::prelude::*;

verus! {

/// A colour. The alpha channel is carried but never shown: every constructor
/// sets it to 0, and packing leaves it out.
#[derive(Debug, Clone, Copy, PartialEq, Eq, Structural)]
pub struct Colour {
    pub r: u8,
    pub g: u8,
    pub b: u8,
    pub a: u8,
}

/// The packed form `0x00RRGGBB` of three channels.
pub open spec fn pack_0rgb(r: u8, g: u8, b: u8) -> int {
    r as int * 0x1_0000 + g as int * 0x100 + b as int
}

/// A channel raised by `intensity`, stopping at 255.
pub open spec fn saturating_sum(channel: u8, intensity: u8) -> u8 {
    if channel + intensity > 255 {
        255u8
    } else {
        (channel + intensity) as u8
    }
}

impl Colour {
    /// The colour with the given red, green and blue channels.
    pub fn new(r: u8, g: u8, b: u8) -> (c: Self)
        ensures
            c == (Colour { r, g, b, a: 0 }),
    {
        Colour { r, g, b, a: 0 }
    }

    /// Unpacks `0x00RRGGBB`. The top byte of `rgb` is ignored.
    pub fn from_u32(rgb: u32) -> (c: Self)
        ensures
            c.r == (rgb / 0x1_0000) % 0x100,
            c.g == (rgb / 0x100) % 0x100,
            c.b == rgb % 0x100,
            c.a == 0,
            pack_0rgb(c.r, c.g, c.b) == rgb % 0x100_0000,
    {
        let r = ((rgb & 0xff0000) >> 16) as u8;
        let g = ((rgb & 0xff00) >> 8) as u8;
        let b = (rgb & 0xff) as u8;
        assert(((rgb & 0xff0000) >> 16) == (rgb / 0x1_0000) % 0x100) by (bit_vector);
        assert(((rgb & 0xff00) >> 8) == (rgb / 0x100) % 0x100) by (bit_vector);
        assert((rgb & 0xff) == rgb % 0x100) by (bit_vector);
        proof {
            lemma_unpack_pack(rgb);
        }
        Colour { r, g, b, a: 0 }
    }

    /// Packs the colour as `0x00RRGGBB`.
    pub fn as_0rgb(&self) -> (rgb: u32)
        ensures
            rgb == pack_0rgb(self.r, self.g, self.b),
    {
        let r: u32 = self.r as u32;
        let g: u32 = self.g as u32;
        assert((r << 16) == r * 0x1_0000) by (bit_vector)
            requires
                r < 0x100,
        ;
        assert((g << 8) == g * 0x100) by (bit_vector)
            requires
                g < 0x100,
        ;
        ((self.r as u32) << 16) + ((self.g as u32) << 8) + (self.b as u32)
    }

    /// Blends a glyph pixel into the colour: adds `intensity` to the red,
    /// green and blue channels, each stopping at 255.
    pub fn add_intensity(&mut self, intensity: u8)
        ensures
            final(self).r == saturating_sum(old(self).r, intensity),
            final(self).g == saturating_sum(old(self).g, intensity),
            final(self).b == saturating_sum(old(self).b, intensity),
            final(self).a == old(self).a,
    {
        self.r = self.r.saturating_add(intensity);
        self.g = self.g.saturating_add(intensity);
        self.b = self.b.saturating_add(intensity);
    }
}

/// Unpacking is the inverse of packing: the channels of a packed colour are
/// the channels it was packed from.
pub proof fn lemma_pack_unpack(r: u8, g: u8, b: u8)
    ensures
        0 <= pack_0rgb(r, g, b) < 0x100_0000,
        (pack_0rgb(r, g, b) / 0x1_0000) % 0x100 == r,
        (pack_0rgb(r, g, b) / 0x100) % 0x100 == g,
        pack_0rgb(r, g, b) % 0x100 == b,
{
    let v = pack_0rgb(r, g, b);
    let low = g as int * 0x100 + b as int;
    assert(0 <= low < 0x1_0000);
    assert(v == r as int * 0x1_0000 + low);
    assert(v / 0x1_0000 == r);
    assert(v == (r as int * 0x100 + g as int) * 0x100 + b as int);
    assert(v / 0x100 == r as int * 0x100 + g as int);
    assert(v % 0x100 == b);
}

/// Packing is the inverse of unpacking: the channels of `rgb` pack to `rgb`
/// without its top byte.
pub proof fn lemma_unpack_pack(rgb: u32)
    ensures
        pack_0rgb(
            ((rgb / 0x1_0000) % 0x100) as u8,
            ((rgb / 0x100) % 0x100) as u8,
            (rgb % 0x100) as u8,
        ) == rgb % 0x100_0000,
{
    assert(((rgb / 0x1_0000) % 0x100) * 0x1_0000 + ((rgb / 0x100) % 0x100) * 0x100 + rgb % 0x100
        == rgb % 0x100_0000) by (bit_vector);
}

} // verus!
