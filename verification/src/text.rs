//! Text overlay: strings are drawn with a pre-rasterised monospaced font,
//! each glyph pixel blended into the frame buffer by a saturating add on
//! every colour channel, so that text stays readable over the scene.
//!
//! Text is addressed from the top left: the glyph row `r` of a string drawn
//! at `(x, y)` starts at buffer index `(y + r) * WIDTH + x`.

use vstd::prelude::*;
use crate::colour::{pack_0rgb, saturating_sum, Colour};
use crate::strings::{chars_of, views};
use crate::WIDTH;

verus! {

/// The weights in which the font comes.
#[derive(Debug, Clone, Copy, PartialEq, Eq, Structural)]
pub enum FontWeight {
    Light,
    Regular,
    Bold,
}

/// The heights, in pixels, in which the font comes.
#[derive(Debug, Clone, Copy, PartialEq, Eq, Structural)]
pub enum RasterHeight {
    Size16,
    Size20,
    Size24,
    Size32,
}

impl RasterHeight {
    /// The height in pixels.
    pub open spec fn pixels(self) -> int {
        match self {
            RasterHeight::Size16 => 16,
            RasterHeight::Size20 => 20,
            RasterHeight::Size24 => 24,
            RasterHeight::Size32 => 32,
        }
    }

    /// The height in pixels: the distance between two lines of text.
    pub fn val(self) -> (h: u32)
        ensures
            h == self.pixels(),
    {
        match self {
            RasterHeight::Size16 => 16,
            RasterHeight::Size20 => 20,
            RasterHeight::Size24 => 24,
            RasterHeight::Size32 => 32,
        }
    }
}

/// A rasterised character: rows of pixel intensities, top row first, and
/// the distance to the next character of a line.
#[derive(Debug, Clone, Copy)]
pub struct Glyph {
    pub rows: &'static [&'static [u8]],
    pub width: usize,
}

/// What a glyph holds, as mathematical values.
pub struct Raster {
    pub rows: Seq<Seq<u8>>,
    pub width: int,
}

impl View for Glyph {
    type V = Raster;

    open spec fn view(&self) -> Raster {
        Raster { rows: Seq::new(self.rows@.len(), |r: int| self.rows@[r]@), width: self.width as int }
    }
}

/// The view of a glyph that may be missing.
pub open spec fn glyph_view(g: Option<Glyph>) -> Option<Raster> {
    match g {
        Some(g) => Some(g@),
        None => None,
    }
}

/// What the font holds for the character `c` in the given weight and height,
/// or `None` where it has no such character.
pub uninterp spec fn font_raster(c: char, weight: FontWeight, height: RasterHeight) -> Option<Raster>;

/// Looks a character up in the font, with `get_raster` of the crate
/// `noto_sans_mono_bitmap`. Assumed of it: what it returns depends on the
/// character, the weight and the height alone, so that it can be given the
/// name `font_raster`. Nothing is assumed about which characters the font
/// has, nor about the size of a glyph.
#[verifier::external_body]
fn get_glyph(c: char, weight: FontWeight, height: RasterHeight) -> (g: Option<Glyph>)
    ensures
        glyph_view(g) == font_raster(c, weight, height),
{
    let style = match weight {
        FontWeight::Light => noto_sans_mono_bitmap::FontWeight::Light,
        FontWeight::Regular => noto_sans_mono_bitmap::FontWeight::Regular,
        FontWeight::Bold => noto_sans_mono_bitmap::FontWeight::Bold,
    };
    let size = match height {
        RasterHeight::Size16 => noto_sans_mono_bitmap::RasterHeight::Size16,
        RasterHeight::Size20 => noto_sans_mono_bitmap::RasterHeight::Size20,
        RasterHeight::Size24 => noto_sans_mono_bitmap::RasterHeight::Size24,
        RasterHeight::Size32 => noto_sans_mono_bitmap::RasterHeight::Size32,
    };
    noto_sans_mono_bitmap::get_raster(c, style, size).map(|r| Glyph { rows: r.raster(), width: r.width() })
}

/// The packed colour `pixel` with `intensity` added to each of its three
/// channels, each stopping at 255. The top byte of `pixel` is dropped.
pub open spec fn blended(pixel: u32, intensity: u8) -> int {
    pack_0rgb(
        saturating_sum(((pixel / 0x1_0000) % 0x100) as u8, intensity),
        saturating_sum(((pixel / 0x100) % 0x100) as u8, intensity),
        saturating_sum((pixel % 0x100) as u8, intensity),
    )
}

/// The buffer with `intensity` blended into the pixel at `index`; an index
/// outside the buffer changes nothing.
pub open spec fn blend_one(buf: Seq<u32>, index: int, intensity: u8) -> Seq<u32> {
    if 0 <= index < buf.len() {
        buf.update(index, blended(buf[index], intensity) as u32)
    } else {
        buf
    }
}

/// The buffer with the first `n` intensities of `row` blended in, from left
/// to right, the first of them at index `start`.
pub open spec fn blend_row(buf: Seq<u32>, row: Seq<u8>, start: int, n: int) -> Seq<u32>
    decreases n,
{
    if n <= 0 {
        buf
    } else {
        blend_one(blend_row(buf, row, start, n - 1), start + n - 1, row[n - 1])
    }
}

/// The buffer with the first `n` rows of a glyph blended in, from the top
/// down, each row one buffer row below the one before; the first row starts
/// at index `start`.
pub open spec fn blend_rows(buf: Seq<u32>, rows: Seq<Seq<u8>>, start: int, n: int) -> Seq<u32>
    decreases n,
{
    if n <= 0 {
        buf
    } else {
        blend_row(
            blend_rows(buf, rows, start, n - 1),
            rows[n - 1],
            start + (n - 1) * WIDTH,
            rows[n - 1].len() as int,
        )
    }
}

/// The buffer index at which the first row of the `i`-th character of a
/// string drawn at `(x, y)` starts, where each character is `width` wide.
pub open spec fn glyph_start(x: int, y: int, i: int, width: int) -> int {
    y * WIDTH + x + i * width
}

/// Whether the font has each of the first `n` characters of `msg`.
pub open spec fn all_known(msg: Seq<char>, weight: FontWeight, height: RasterHeight, n: int) -> bool {
    forall|i: int| 0 <= i < n ==> (#[trigger] font_raster(msg[i], weight, height)) is Some
}

/// The buffer with the first `n` characters of `msg` drawn into it at
/// `(x, y)`, from left to right.
pub open spec fn blend_text(
    buf: Seq<u32>,
    msg: Seq<char>,
    x: int,
    y: int,
    weight: FontWeight,
    height: RasterHeight,
    n: int,
) -> Seq<u32>
    decreases n,
{
    if n <= 0 {
        buf
    } else {
        match font_raster(msg[n - 1], weight, height) {
            Some(raster) => blend_rows(
                blend_text(buf, msg, x, y, weight, height, n - 1),
                raster.rows,
                glyph_start(x, y, n - 1, raster.width),
                raster.rows.len() as int,
            ),
            None => blend_text(buf, msg, x, y, weight, height, n - 1),
        }
    }
}

/// A character that the font does not have, and where it stands: in which
/// line of the text drawn, and at which place in that line.
#[derive(Debug, Clone, Copy, PartialEq, Eq, Structural)]
pub struct UnknownChar {
    pub line: usize,
    pub index: usize,
    pub c: char,
}

/// The buffer with the first `n` of the given lines drawn into it, from the
/// top down: line `i` at column `x`, `i` glyph heights below the top.
pub open spec fn blend_lines(
    buf: Seq<u32>,
    lines: Seq<Seq<char>>,
    x: int,
    weight: FontWeight,
    height: RasterHeight,
    n: int,
) -> Seq<u32>
    decreases n,
{
    if n <= 0 {
        buf
    } else {
        blend_text(
            blend_lines(buf, lines, x, weight, height, n - 1),
            lines[n - 1],
            x,
            (n - 1) * height.pixels(),
            weight,
            height,
            lines[n - 1].len() as int,
        )
    }
}

/// Blending into pixels that all lie past the end of the buffer changes
/// nothing.
proof fn lemma_blend_row_outside(buf: Seq<u32>, row: Seq<u8>, start: int, n: int)
    requires
        start >= buf.len(),
    ensures
        blend_row(buf, row, start, n) == buf,
    decreases n,
{
    if n > 0 {
        lemma_blend_row_outside(buf, row, start, n - 1);
    }
}

/// Blending a glyph that starts past the end of the buffer changes nothing.
proof fn lemma_blend_rows_outside(buf: Seq<u32>, rows: Seq<Seq<u8>>, start: int, n: int)
    requires
        start >= buf.len(),
    ensures
        blend_rows(buf, rows, start, n) == buf,
    decreases n,
{
    if n > 0 {
        lemma_blend_rows_outside(buf, rows, start, n - 1);
        assert((n - 1) * WIDTH >= 0) by (nonlinear_arith)
            requires
                n >= 1,
        ;
        lemma_blend_row_outside(buf, rows[n - 1], start + (n - 1) * WIDTH, rows[n - 1].len() as int);
    }
}

/// Blends `intensity` into the pixel at `index`, if the buffer has it.
fn blend_at(buffer: &mut Vec<u32>, index: u128, intensity: u8)
    ensures
        final(buffer)@ == blend_one(old(buffer)@, index as int, intensity),
{
    if index < buffer.len() as u128 {
        let i: usize = index as usize;
        let mut pixel = Colour::from_u32(buffer[i]);
        pixel.add_intensity(intensity);
        buffer.set(i, pixel.as_0rgb());
    }
}

/// Blends one row of a glyph into the buffer, its first pixel at `start`.
fn draw_glyph_row(buffer: &mut Vec<u32>, row: &[u8], start: u128)
    requires
        start <= 0xffff_ffff_ffff_ffff_ffff_ffff,
    ensures
        final(buffer)@ == blend_row(old(buffer)@, row@, start as int, row@.len() as int),
{
    let mut col: usize = 0;
    while col < row.len()
        invariant
            col <= row.len(),
            start <= 0xffff_ffff_ffff_ffff_ffff_ffff,
            buffer@ == blend_row(old(buffer)@, row@, start as int, col as int),
        decreases row.len() - col,
    {
        blend_at(buffer, start + col as u128, row[col]);
        col += 1;
    }
}

/// Blends a glyph into the buffer, row by row from the top. The first row
/// starts at index `start`, each further row `WIDTH` indices after the one
/// before. Pixels that fall outside the buffer are skipped.
pub fn draw_glyph(buffer: &mut Vec<u32>, glyph: Glyph, start: usize)
    ensures
        final(buffer)@ == blend_rows(
            old(buffer)@,
            glyph@.rows,
            start as int,
            glyph@.rows.len() as int,
        ),
{
    let mut r: usize = 0;
    while r < glyph.rows.len()
        invariant
            r <= glyph.rows.len(),
            buffer@ == blend_rows(old(buffer)@, glyph@.rows, start as int, r as int),
        decreases glyph.rows.len() - r,
    {
        draw_glyph_row(buffer, glyph.rows[r], start as u128 + (r as u128) * (WIDTH as u128));
        r += 1;
    }
}

/// Draws `msg` at `(x, y)`, one glyph after the other from left to right,
/// each blended into what the buffer shows. Pixels that fall outside the
/// buffer are skipped. Drawing stops at the first character that the font
/// does not have, which is returned.
pub fn draw_string(
    buffer: &mut Vec<u32>,
    msg: &str,
    x: u32,
    y: u32,
    weight: FontWeight,
    height: RasterHeight,
) -> (r: Result<(), UnknownChar>)
    ensures
        r is Ok <==> all_known(msg@, weight, height, msg@.len() as int),
        r is Ok ==> final(buffer)@ == blend_text(
            old(buffer)@,
            msg@,
            x as int,
            y as int,
            weight,
            height,
            msg@.len() as int,
        ),
        r matches Err(e) ==> {
            &&& e.line == 0
            &&& e.index < msg@.len()
            &&& e.c == msg@[e.index as int]
            &&& all_known(msg@, weight, height, e.index as int)
            &&& font_raster(e.c, weight, height) is None
            &&& final(buffer)@ == blend_text(
                old(buffer)@,
                msg@,
                x as int,
                y as int,
                weight,
                height,
                e.index as int,
            )
        },
{
    let chars = chars_of(msg);
    let mut i: usize = 0;
    while i < chars.len()
        invariant
            chars@ == msg@,
            i <= chars.len(),
            all_known(msg@, weight, height, i as int),
            buffer@ == blend_text(old(buffer)@, msg@, x as int, y as int, weight, height, i as int),
        decreases chars.len() - i,
    {
        let c = chars[i];
        match get_glyph(c, weight, height) {
            None => {
                return Err(UnknownChar { line: 0, index: i, c });
            },
            Some(glyph) => {
                assert(0 <= (i as int) * (glyph.width as int) <= 0xffff_ffff_ffff_ffff
                    * 0xffff_ffff_ffff_ffff) by (nonlinear_arith)
                    requires
                        0 <= i <= 0xffff_ffff_ffff_ffff,
                        0 <= glyph.width <= 0xffff_ffff_ffff_ffff,
                ;
                let start: u128 = (y as u128) * (WIDTH as u128) + (x as u128) + (i as u128) * (
                glyph.width as u128);
                assert(start == glyph_start(x as int, y as int, i as int, glyph@.width));
                if start < buffer.len() as u128 {
                    draw_glyph(buffer, glyph, start as usize);
                } else {
                    proof {
                        lemma_blend_rows_outside(
                            buffer@,
                            glyph@.rows,
                            start as int,
                            glyph@.rows.len() as int,
                        );
                    }
                }
            },
        }
        i += 1;
    }
    Ok(())
}

/// Draws lines of text below one another, the first at the top of the
/// buffer, each starting at column `x`. Drawing stops at the first character
/// that the font does not have, which is returned.
pub fn draw_lines(
    buffer: &mut Vec<u32>,
    lines: &Vec<&str>,
    x: u32,
    weight: FontWeight,
    height: RasterHeight,
) -> (r: Result<(), UnknownChar>)
    requires
        lines@.len() * height.pixels() <= u32::MAX,
    ensures
        r is Ok <==> forall|i: int|
            0 <= i < lines@.len() ==> all_known(
                (#[trigger] lines@[i])@,
                weight,
                height,
                lines@[i]@.len() as int,
            ),
        r is Ok ==> final(buffer)@ == blend_lines(
            old(buffer)@,
            views(lines@),
            x as int,
            weight,
            height,
            lines@.len() as int,
        ),
        r matches Err(e) ==> {
            &&& e.line < lines@.len()
            &&& e.index < lines@[e.line as int]@.len()
            &&& e.c == lines@[e.line as int]@[e.index as int]
            &&& forall|i: int|
                0 <= i < e.line ==> all_known(
                    (#[trigger] lines@[i])@,
                    weight,
                    height,
                    lines@[i]@.len() as int,
                )
            &&& all_known(lines@[e.line as int]@, weight, height, e.index as int)
            &&& font_raster(e.c, weight, height) is None
            &&& final(buffer)@ == blend_text(
                blend_lines(
                    old(buffer)@,
                    views(lines@),
                    x as int,
                    weight,
                    height,
                    e.line as int,
                ),
                lines@[e.line as int]@,
                x as int,
                e.line * height.pixels(),
                weight,
                height,
                e.index as int,
            )
        },
{
    let h: u32 = height.val();
    let mut i: usize = 0;
    while i < lines.len()
        invariant
            i <= lines.len(),
            h == height.pixels(),
            lines@.len() * height.pixels() <= u32::MAX,
            forall|k: int|
                0 <= k < i ==> all_known(
                    (#[trigger] lines@[k])@,
                    weight,
                    height,
                    lines@[k]@.len() as int,
                ),
            buffer@ == blend_lines(
                old(buffer)@,
                views(lines@),
                x as int,
                weight,
                height,
                i as int,
            ),
        decreases lines.len() - i,
    {
        assert(0 <= i * h <= lines@.len() * h) by (nonlinear_arith)
            requires
                0 <= i < lines@.len(),
                0 <= h,
        ;
        assert(views(lines@)[i as int] == lines@[i as int]@);
        let y: u32 = (i as u64 * h as u64) as u32;
        match draw_string(buffer, lines[i], x, y, weight, height) {
            Ok(()) => {},
            Err(e) => {
                return Err(UnknownChar { line: i, index: e.index, c: e.c });
            },
        }
        i += 1;
    }
    Ok(())
}

} // verus!
