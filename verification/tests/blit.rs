//! Sprites, maps and text.

use kuula::blit::{print, spr, sspr};
use kuula::buf::{Buf, BufKind, Number, Rect};
use kuula::font::GLYPH_WIDTH;
use kuula::pen::Pen;
use kuula::raster::Surface;
use kuula::resources::BufId;

/// A number as a buffer takes it.
fn num(v: f64) -> Number {
    Number {
        floor: v.floor() as i64,
        single: (v as f32).to_bits(),
    }
}

fn surface(w: u32, h: u32) -> (Buf, Pen) {
    let buf = Buf::new(BufKind::U8, w, h).unwrap();
    let pen = Pen::new(BufId::screen(), w, h);
    (buf, pen)
}

fn pixels(buf: &Buf) -> Vec<u8> {
    buf.as_u8().unwrap().to_vec()
}

/// Rows as strings of hex digits, '.' for zero.
fn ascii(buf: &Buf) -> Vec<String> {
    let w = buf.width() as usize;
    pixels(buf)
        .chunks(w)
        .map(|row| {
            row.iter()
                .map(|&p| {
                    if p == 0 {
                        '.'
                    } else {
                        char::from_digit(p as u32 % 16, 16).unwrap()
                    }
                })
                .collect()
        })
        .collect()
}

fn sheet_4x4() -> Buf {
    // 8x8 sheet: cell 0 is a 2x2 checker of 1/2 with 0 elsewhere,
    // cell 1 is solid 3.
    let mut b = Buf::new(BufKind::U8, 16, 8).unwrap();
    b.set(0, 0, num(1.0));
    b.set(1, 1, num(2.0));
    for y in 0..8 {
        for x in 8..16 {
            b.set(x, y, num(3.0));
        }
    }
    b
}

#[test]
fn spr_flips_and_goes_through_the_table() {
    let sheet = sheet_4x4();
    let (mut buf, mut pen) = surface(8, 8);
    let mut s = Surface::of(&mut buf).unwrap();
    spr(&mut s, &pen, &sheet, 0, 0, 0, 1, 1, false, false);
        assert_eq!(ascii(&buf)[0], "1.......");
    assert_eq!(ascii(&buf)[1], ".2......");
    buf.fill(num(0.0));
    let mut s = Surface::of(&mut buf).unwrap();
    spr(&mut s, &pen, &sheet, 0, 0, 0, 1, 1, true, false);
        assert_eq!(ascii(&buf)[0], ".......1");
    assert_eq!(ascii(&buf)[1], "......2.");
    buf.fill(num(0.0));
    let mut s = Surface::of(&mut buf).unwrap();
    spr(&mut s, &pen, &sheet, 0, 0, 0, 1, 1, true, true);
        assert_eq!(ascii(&buf)[7], ".......1");
    assert_eq!(ascii(&buf)[6], "......2.");
    // Transparent 0 keeps the background; remap changes the ink.
    buf.fill(num(9.0));
    pen.table.palt(0, true);
    pen.table.pal_map(1, 4);
    let mut s = Surface::of(&mut buf).unwrap();
    spr(&mut s, &pen, &sheet, 0, 0, 0, 1, 1, false, false);
        assert_eq!(ascii(&buf)[0], "49999999");
    assert_eq!(ascii(&buf)[1], "92999999");
    // Two cells wide, negative index and off-sheet index.
    buf.fill(num(0.0));
    let mut s = Surface::of(&mut buf).unwrap();
    spr(&mut s, &pen, &sheet, 0, -4, 0, 2, 1, false, false);
    spr(&mut s, &pen, &sheet, -1, 0, 0, 1, 1, false, false);
    spr(&mut s, &pen, &sheet, 7, 0, 4, 1, 1, false, false);
        assert!(ascii(&buf).iter().all(|r| r == "....3333"));
}

#[test]
fn spr_below_the_sheet_draws_nothing_even_for_huge_indices() {
    let sheet = sheet_4x4();
    let (mut buf, pen) = surface(8, 8);
    let mut s = Surface::of(&mut buf).unwrap();
    // Two cells per row, one row: cell 2 is already off the sheet and
    // i32::MAX would overflow the row multiplication if unchecked.
    spr(&mut s, &pen, &sheet, 2, 0, 0, 1, 1, false, false);
    spr(&mut s, &pen, &sheet, i32::MAX, 0, 0, 1, 1, false, false);
    spr(&mut s, &pen, &sheet, 536_870_912, 0, 0, 1, 1, false, false);
        assert!(ascii(&buf).iter().all(|row| row == "........"));
}

#[test]
fn sspr_scales_with_integer_sampling() {
    let sheet = sheet_4x4();
    let (mut buf, pen) = surface(8, 4);
    let mut s = Surface::of(&mut buf).unwrap();
    // 2x2 source to 8x4 destination: each source pixel covers 4x2.
    sspr(&mut s, &pen, &sheet, 0, 0, 2, 2, 0, 0, 8, 4, false, false);
        assert_eq!(
        ascii(&buf),
        ["1111....", "1111....", "....2222", "....2222"]
    );
    buf.fill(num(0.0));
    let mut s = Surface::of(&mut buf).unwrap();
    // Downscale 8x8 cell 1 (solid 3) to 4x2, flipped, partly off.
    sspr(&mut s, &pen, &sheet, 8, 0, 8, 8, -2, 3, 4, 2, true, true);
    sspr(&mut s, &pen, &sheet, 8, 0, 8, 8, 0, 0, 0, 5, false, false);
        assert_eq!(ascii(&buf)[3], "33......");
    assert_eq!(ascii(&buf)[2], "........");
}

#[test]
fn map_draws_visible_cells_and_skips_negative() {
    let sheet = sheet_4x4();
    let (mut buf, mut pen) = surface(16, 16);
    // 3x2 map: row 0 = [1, -1, 1], row 1 = [0, 1, 1].
    let cells: Vec<i16> = vec![1, -1, 1, 0, 1, 1];
    let mut s = Surface::of(&mut buf).unwrap();
    kuula::blit::map(&mut s, &pen, &sheet, &cells, 3, 2, 8, 0, 0, 0, 0, 3, 2);
        let a = ascii(&buf);
    assert_eq!(a[0], "33333333........");
    assert_eq!(a[7], "33333333........");
    assert_eq!(a[8], "1.......33333333");
    assert_eq!(a[15], "........33333333");
    // With the camera scrolled by 8 the third column appears.
    buf.fill(num(0.0));
    pen.camera = (8, 0);
    let mut s = Surface::of(&mut buf).unwrap();
    kuula::blit::map(&mut s, &pen, &sheet, &cells, 3, 2, 8, 0, 0, 0, 0, 3, 2);
        let a = ascii(&buf);
    assert_eq!(a[0], "........33333333");
    assert_eq!(a[8], "3333333333333333");
    // Starting at a cell outside the map draws nothing.
    buf.fill(num(0.0));
    pen.camera = (0, 0);
    let mut s = Surface::of(&mut buf).unwrap();
    kuula::blit::map(&mut s, &pen, &sheet, &cells, 3, 2, 8, 5, 5, 0, 0, 3, 2);
    kuula::blit::map(&mut s, &pen, &sheet, &cells, 3, 2, 8, -1, -1, 0, 0, 1, 1);
        assert!(pixels(&buf).iter().all(|&p| p == 0));
}

#[test]
fn print_places_glyphs_and_returns_the_end() {
    let (mut buf, mut pen) = surface(12, 8);
    let mut s = Surface::of(&mut buf).unwrap();
    assert_eq!(print(&mut s, &pen, "A", 1, 1, 7), 1 + GLYPH_WIDTH);
    assert_eq!(print(&mut s, &pen, "", 5, 5, 7), 5);
        let a = ascii(&buf);
    assert_eq!(a[1], ".777........");
    assert_eq!(a[2], ".7.7........");
    assert_eq!(a[3], ".777........");
    assert_eq!(a[5], ".7.7........");
    assert_eq!(a[6], "............");
    // Camera and clip apply; the return value is in cart coordinates.
    buf.fill(num(0.0));
    pen.camera = (1, 1);
    pen.clip = Rect::new(0, 0, 2, 8);
    let mut s = Surface::of(&mut buf).unwrap();
    assert_eq!(print(&mut s, &pen, "AB", 1, 1, 7), 1 + 2 * GLYPH_WIDTH);
        assert_eq!(ascii(&buf)[0], "77..........");
    assert_eq!(ascii(&buf)[1], "7...........");
    // Far away coordinates are safe.
    let mut s = Surface::of(&mut buf).unwrap();
    print(&mut s, &pen, "hello", i32::MAX - 1, i32::MAX - 1, 7);
    print(&mut s, &pen, "hello", i32::MIN, i32::MIN, 7);
}
