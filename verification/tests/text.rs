use noto_sans_mono_bitmap::get_raster;
use soft_renderer::colour::Colour;
use soft_renderer::text::{
    draw_glyph, draw_lines, draw_string, FontWeight, Glyph, RasterHeight, UnknownChar,
};
use soft_renderer::{NUM_PIXELS, WIDTH};

fn outside_weight(w: FontWeight) -> noto_sans_mono_bitmap::FontWeight {
    match w {
        FontWeight::Light => noto_sans_mono_bitmap::FontWeight::Light,
        FontWeight::Regular => noto_sans_mono_bitmap::FontWeight::Regular,
        FontWeight::Bold => noto_sans_mono_bitmap::FontWeight::Bold,
    }
}

fn outside_height(h: RasterHeight) -> noto_sans_mono_bitmap::RasterHeight {
    match h {
        RasterHeight::Size16 => noto_sans_mono_bitmap::RasterHeight::Size16,
        RasterHeight::Size20 => noto_sans_mono_bitmap::RasterHeight::Size20,
        RasterHeight::Size24 => noto_sans_mono_bitmap::RasterHeight::Size24,
        RasterHeight::Size32 => noto_sans_mono_bitmap::RasterHeight::Size32,
    }
}

/// Draws `msg` the plain way: every glyph pixel added to the three channels
/// of the pixel it falls on.
fn by_hand(buffer: &mut Vec<u32>, msg: &str, x: usize, y: usize, w: FontWeight, h: RasterHeight) {
    for (char_i, c) in msg.chars().enumerate() {
        let glyph = get_raster(c, outside_weight(w), outside_height(h)).unwrap();
        for (row_i, row) in glyph.raster().iter().enumerate() {
            for (col_i, intensity) in row.iter().enumerate() {
                let index = char_i * glyph.width() + col_i + row_i * WIDTH + x + y * WIDTH;
                if index < buffer.len() {
                    let mut pixel = Colour::from_u32(buffer[index]);
                    pixel.add_intensity(*intensity);
                    buffer[index] = pixel.as_0rgb();
                }
            }
        }
    }
}

#[test]
fn test_raster_height_val() {
    assert_eq!(RasterHeight::Size16.val(), 16);
    assert_eq!(RasterHeight::Size20.val(), 20);
    assert_eq!(RasterHeight::Size24.val(), 24);
    assert_eq!(RasterHeight::Size32.val(), 32);
}

#[test]
fn test_draw_string_blends_the_glyphs_of_the_font() {
    let mut buffer = vec![0u32; NUM_PIXELS];
    let r = draw_string(&mut buffer, "Frame Rate 60 FPS", 520, 0, FontWeight::Regular, RasterHeight::Size20);
    assert_eq!(r, Ok(()));
    let mut expected = vec![0u32; NUM_PIXELS];
    by_hand(&mut expected, "Frame Rate 60 FPS", 520, 0, FontWeight::Regular, RasterHeight::Size20);
    assert_eq!(buffer, expected);
    assert!(buffer.iter().any(|&p| p != 0));
    // Nothing is drawn outside the 20 rows and 17 columns of 11 pixels.
    for (i, &p) in buffer.iter().enumerate() {
        let (row, col) = (i / WIDTH, i % WIDTH);
        if p != 0 {
            assert!(row < 20 && 520 <= col && col < 520 + 17 * 11);
        }
    }
}

#[test]
fn test_draw_string_in_every_weight_and_height() {
    for w in [FontWeight::Light, FontWeight::Regular, FontWeight::Bold] {
        for h in [
            RasterHeight::Size16,
            RasterHeight::Size20,
            RasterHeight::Size24,
            RasterHeight::Size32,
        ] {
            let mut buffer = vec![0x0010_2030u32; NUM_PIXELS];
            assert_eq!(draw_string(&mut buffer, "Ag", 7, 3, w, h), Ok(()));
            let mut expected = vec![0x0010_2030u32; NUM_PIXELS];
            by_hand(&mut expected, "Ag", 7, 3, w, h);
            assert_eq!(buffer, expected);
            let lowest = buffer.iter().rposition(|&p| p != 0x0010_2030).unwrap() / WIDTH;
            assert!(lowest < 3 + h.val() as usize);
        }
    }
}

#[test]
fn test_draw_string_adds_to_what_is_there() {
    let mut buffer = vec![0x00f0_8000u32; NUM_PIXELS];
    assert_eq!(draw_string(&mut buffer, "#", 0, 0, FontWeight::Bold, RasterHeight::Size32), Ok(()));
    let glyph = get_raster(
        '#',
        noto_sans_mono_bitmap::FontWeight::Bold,
        noto_sans_mono_bitmap::RasterHeight::Size32,
    )
    .unwrap();
    let mut strongest = 0u8;
    for (row_i, row) in glyph.raster().iter().enumerate() {
        for (col_i, &intensity) in row.iter().enumerate() {
            let c = Colour::from_u32(buffer[row_i * WIDTH + col_i]);
            assert_eq!(c.r, 0xf0u8.saturating_add(intensity));
            assert_eq!(c.g, 0x80u8.saturating_add(intensity));
            assert_eq!(c.b, intensity);
            strongest = strongest.max(intensity);
        }
    }
    assert!(strongest > 0x0f);
}

#[test]
fn test_draw_string_twice_adds_twice() {
    let mut once = vec![0u32; NUM_PIXELS];
    draw_string(&mut once, "H", 0, 0, FontWeight::Regular, RasterHeight::Size16).unwrap();
    let mut twice = once.clone();
    draw_string(&mut twice, "H", 0, 0, FontWeight::Regular, RasterHeight::Size16).unwrap();
    for (a, b) in once.iter().zip(twice.iter()) {
        let (a, b) = (Colour::from_u32(*a), Colour::from_u32(*b));
        assert_eq!(b.g, a.g.saturating_add(a.g));
    }
    assert_ne!(once, twice);
}

#[test]
fn test_draw_string_stops_at_an_unknown_character() {
    let mut buffer = vec![0u32; NUM_PIXELS];
    let r = draw_string(&mut buffer, "ab\u{4e2d}cd", 0, 0, FontWeight::Regular, RasterHeight::Size20);
    assert_eq!(r, Err(UnknownChar { line: 0, index: 2, c: '\u{4e2d}' }));
    let mut expected = vec![0u32; NUM_PIXELS];
    by_hand(&mut expected, "ab", 0, 0, FontWeight::Regular, RasterHeight::Size20);
    assert_eq!(buffer, expected);
}

#[test]
fn test_draw_empty_string() {
    let mut buffer = vec![5u32; NUM_PIXELS];
    assert_eq!(draw_string(&mut buffer, "", 0, 0, FontWeight::Regular, RasterHeight::Size20), Ok(()));
    assert_eq!(buffer, vec![5u32; NUM_PIXELS]);
}

#[test]
fn test_draw_string_skips_pixels_outside_the_buffer() {
    // The last rows of the glyphs fall below the end of the buffer.
    let mut buffer = vec![0u32; NUM_PIXELS];
    assert_eq!(
        draw_string(&mut buffer, "Help", 790, 590, FontWeight::Regular, RasterHeight::Size20),
        Ok(())
    );
    let mut expected = vec![0u32; NUM_PIXELS];
    by_hand(&mut expected, "Help", 790, 590, FontWeight::Regular, RasterHeight::Size20);
    assert_eq!(buffer, expected);

    let mut buffer = vec![0u32; 100];
    assert_eq!(
        draw_string(&mut buffer, "Help", u32::MAX, u32::MAX, FontWeight::Regular, RasterHeight::Size20),
        Ok(())
    );
    assert_eq!(buffer, vec![0u32; 100]);

    let mut empty: Vec<u32> = Vec::new();
    assert_eq!(draw_string(&mut empty, "Help", 0, 0, FontWeight::Regular, RasterHeight::Size20), Ok(()));
    assert!(empty.is_empty());
}

#[test]
fn test_draw_lines_puts_each_line_one_height_lower() {
    let lines = vec!["LMB   Select object", "RMB   Rotate object", "", "H     Toggle Help"];
    let mut buffer = vec![0u32; NUM_PIXELS];
    assert_eq!(draw_lines(&mut buffer, &lines, 4, FontWeight::Regular, RasterHeight::Size20), Ok(()));
    let mut expected = vec![0u32; NUM_PIXELS];
    for (i, line) in lines.iter().enumerate() {
        by_hand(&mut expected, line, 4, i * 20, FontWeight::Regular, RasterHeight::Size20);
    }
    assert_eq!(buffer, expected);
    assert!(buffer[60 * WIDTH..80 * WIDTH].iter().any(|&p| p != 0));
    assert!(buffer[40 * WIDTH..60 * WIDTH].iter().all(|&p| p == 0));
}

#[test]
fn test_draw_lines_reports_the_line_of_an_unknown_character() {
    let lines = vec!["ok", "no \u{4e2d}", "never drawn"];
    let mut buffer = vec![0u32; NUM_PIXELS];
    let r = draw_lines(&mut buffer, &lines, 0, FontWeight::Light, RasterHeight::Size16);
    assert_eq!(r, Err(UnknownChar { line: 1, index: 3, c: '\u{4e2d}' }));
    let mut expected = vec![0u32; NUM_PIXELS];
    by_hand(&mut expected, "ok", 0, 0, FontWeight::Light, RasterHeight::Size16);
    by_hand(&mut expected, "no ", 0, 16, FontWeight::Light, RasterHeight::Size16);
    assert_eq!(buffer, expected);
}

#[test]
fn test_draw_no_lines() {
    let mut buffer = vec![1u32; 10];
    assert_eq!(draw_lines(&mut buffer, &Vec::new(), 0, FontWeight::Bold, RasterHeight::Size24), Ok(()));
    assert_eq!(buffer, vec![1u32; 10]);
}

static SQUARE_TOP: [u8; 3] = [0, 255, 16];
static SQUARE_BOTTOM: [u8; 3] = [1, 2, 3];
static SQUARE: [&[u8]; 2] = [&SQUARE_TOP, &SQUARE_BOTTOM];

#[test]
fn test_draw_glyph_blends_every_pixel_of_every_row() {
    let glyph = Glyph { rows: &SQUARE, width: 3 };
    let mut buffer = vec![0x0010_f0ffu32; 2 * WIDTH];
    draw_glyph(&mut buffer, glyph, 5);
    let mut expected = vec![0x0010_f0ffu32; 2 * WIDTH];
    expected[5] = 0x0010_f0ff;
    expected[6] = 0x00ff_ffff;
    expected[7] = 0x0020_ffff;
    expected[WIDTH + 5] = 0x0011_f1ff;
    expected[WIDTH + 6] = 0x0012_f2ff;
    expected[WIDTH + 7] = 0x0013_f3ff;
    assert_eq!(buffer, expected);
}

#[test]
fn test_draw_glyph_drops_the_top_byte_of_a_pixel_it_touches() {
    let glyph = Glyph { rows: &SQUARE, width: 3 };
    let mut buffer = vec![0xab00_0000u32; 2 * WIDTH];
    draw_glyph(&mut buffer, glyph, 0);
    assert_eq!(buffer[0], 0x0000_0000);
    assert_eq!(buffer[1], 0x00ff_ffff);
    assert_eq!(buffer[2], 0x0010_1010);
    assert_eq!(buffer[3], 0xab00_0000);
    assert_eq!(buffer[WIDTH], 0x0001_0101);
}

#[test]
fn test_draw_glyph_skips_what_the_buffer_lacks() {
    let glyph = Glyph { rows: &SQUARE, width: 3 };
    // The second row starts past the end.
    let mut buffer = vec![0u32; 8];
    draw_glyph(&mut buffer, glyph, 6);
    assert_eq!(buffer, vec![0, 0, 0, 0, 0, 0, 0, 0x00ff_ffff]);
    let mut buffer = vec![0u32; 8];
    draw_glyph(&mut buffer, glyph, 8);
    assert_eq!(buffer, vec![0u32; 8]);
    draw_glyph(&mut buffer, glyph, usize::MAX);
    assert_eq!(buffer, vec![0u32; 8]);
}

#[test]
fn test_draw_glyph_rows_may_differ_in_length() {
    static SHORT: [u8; 1] = [9];
    static LONG: [u8; 4] = [1, 1, 1, 1];
    static RAGGED: [&[u8]; 3] = [&SHORT, &[], &LONG];
    let mut buffer = vec![0u32; 3 * WIDTH];
    draw_glyph(&mut buffer, Glyph { rows: &RAGGED, width: 7 }, 0);
    assert_eq!(buffer.iter().filter(|&&p| p != 0).count(), 5);
    assert_eq!(buffer[0], 0x0009_0909);
    assert_eq!(buffer[2 * WIDTH + 3], 0x0001_0101);
}
