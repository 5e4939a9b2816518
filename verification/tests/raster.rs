//! Shapes.

use kuula::buf::{Buf, BufKind, Number, Rect};
use kuula::pen::{Colour, Fillp, Pen};
use kuula::raster::{circ, circfill, cls, pget, pset, rect, rectfill, Surface};
use kuula::resources::BufId;

/// A number as a buffer takes it.
fn num(v: f64) -> Number {
    Number {
        floor: v.floor() as i64,
        single: (v as f32).to_bits(),
    }
}

fn surface(w: u32, h: u32) -> (Buf, Pen) {
    let buf = Buf::new(BufKind::U8, w, h).unwrap();
    let pen = Pen::new(BufId::screen(), w, h);
    (buf, pen)
}

fn pixels(buf: &Buf) -> Vec<u8> {
    buf.as_u8().unwrap().to_vec()
}

/// Rows as strings of hex digits, '.' for zero.
fn ascii(buf: &Buf) -> Vec<String> {
    let w = buf.width() as usize;
    pixels(buf)
        .chunks(w)
        .map(|row| {
            row.iter()
                .map(|&p| {
                    if p == 0 {
                        '.'
                    } else {
                        char::from_digit(p as u32 % 16, 16).unwrap()
                    }
                })
                .collect()
        })
        .collect()
}

#[test]
fn pset_pget_camera_and_clip() {
    let (mut buf, mut pen) = surface(8, 8);
    {
        let mut s = Surface::of(&mut buf).unwrap();
        pset(&mut s, &pen, 1, 1, Colour::solid(5));
        assert_eq!(pget(&s, 1, 1), 5);
        assert_eq!(pget(&s, -1, 1), 0);
        assert_eq!(pget(&s, 8, 8), 0);
    }
    pen.camera = (2, 3);
    {
        let mut s = Surface::of(&mut buf).unwrap();
        pset(&mut s, &pen, 5, 5, Colour::solid(6));
        assert_eq!(pget(&s, 3, 2), 6, "camera subtracts");
        assert_eq!(pget(&s, 5, 5), 0);
    }
    pen.camera = (0, 0);
    pen.clip = Rect::new(2, 2, 2, 2);
    {
        let mut s = Surface::of(&mut buf).unwrap();
        pset(&mut s, &pen, 0, 0, Colour::solid(7));
        pset(&mut s, &pen, 3, 3, Colour::solid(7));
        pset(&mut s, &pen, 4, 4, Colour::solid(7));
        assert_eq!(pget(&s, 0, 0), 0);
        assert_eq!(pget(&s, 3, 3), 7);
        assert_eq!(pget(&s, 4, 4), 0);
    }
}

#[test]
fn cls_fills_only_the_clip_and_ignores_the_table() {
    let (mut buf, mut pen) = surface(4, 4);
    pen.table.palt(3, true);
    pen.fillp = Fillp {
        pattern: 0xffff,
        transparent: true,
    };
    pen.clip = Rect::new(1, 1, 2, 2);
    let mut s = Surface::of(&mut buf).unwrap();
    cls(&mut s, &pen, 3 | 0x80);
        assert_eq!(ascii(&buf), ["....", ".33.", ".33.", "...."]);
}

#[test]
fn rectfill_and_rect_in_any_corner_order() {
    let (mut buf, pen) = surface(6, 5);
    let mut s = Surface::of(&mut buf).unwrap();
    rectfill(&mut s, &pen, 4, 3, 1, 1, Colour::solid(2));
        assert_eq!(
        ascii(&buf),
        ["......", ".2222.", ".2222.", ".2222.", "......"]
    );
    buf.fill(num(0.0));
    let mut s = Surface::of(&mut buf).unwrap();
    rect(&mut s, &pen, 4, 3, 1, 1, Colour::solid(2));
    rect(&mut s, &pen, 0, 4, 0, 4, Colour::solid(9));
        assert_eq!(
        ascii(&buf),
        ["......", ".2222.", ".2..2.", ".2222.", "9....."]
    );
    // Partially and fully off the surface.
    buf.fill(num(0.0));
    let mut s = Surface::of(&mut buf).unwrap();
    rectfill(&mut s, &pen, -5, -5, 0, 0, Colour::solid(1));
    rectfill(&mut s, &pen, 100, 100, 200, 200, Colour::solid(1));
    rect(&mut s, &pen, -1, -1, 6, 5, Colour::solid(1));
        assert_eq!(pixels(&buf).iter().filter(|&&p| p == 1).count(), 1);
}

#[test]
fn fill_pattern_picks_secondary_or_skips() {
    let (mut buf, mut pen) = surface(4, 2);
    // Checkerboard: bits at even (x + y).
    pen.fillp = Fillp {
        pattern: 0b0101_1010_0101_1010,
        transparent: false,
    };
    let mut s = Surface::of(&mut buf).unwrap();
    rectfill(&mut s, &pen, 0, 0, 3, 1, Colour::from_i64(0x0201));
        assert_eq!(ascii(&buf), ["1212", "2121"]);
    pen.fillp.transparent = true;
    buf.fill(num(9.0));
    let mut s = Surface::of(&mut buf).unwrap();
    rectfill(&mut s, &pen, 0, 0, 3, 1, Colour::from_i64(0x0201));
        assert_eq!(ascii(&buf), ["1919", "9191"]);
    // The pattern is anchored to target coordinates, not the shape.
    buf.fill(num(0.0));
    let mut s = Surface::of(&mut buf).unwrap();
    rectfill(&mut s, &pen, 1, 0, 3, 1, Colour::from_i64(0x0201));
        assert_eq!(ascii(&buf), ["..1.", ".1.1"]);
}

#[test]
fn line_endpoints_slopes_and_long_lines() {
    let (mut buf, pen) = surface(5, 5);
    let mut s = Surface::of(&mut buf).unwrap();
    kuula::raster::line(&mut s, &pen, 0, 0, 4, 4, Colour::solid(1));
    kuula::raster::line(&mut s, &pen, 4, 0, 0, 2, Colour::solid(2));
    kuula::raster::line(&mut s, &pen, 2, 2, 2, 2, Colour::solid(3));
        assert_eq!(ascii(&buf), ["1...2", ".122.", "223..", "...1.", "....1"]);
    buf.fill(num(0.0));
    let mut s = Surface::of(&mut buf).unwrap();
    // A line far longer than the surface still draws the visible
    // segment and returns promptly.
    kuula::raster::line(
        &mut s,
        &pen,
        -1_000_000_000,
        2,
        1_000_000_000,
        2,
        Colour::solid(4),
    );
    kuula::raster::line(&mut s, &pen, 1, i32::MIN, 1, i32::MAX, Colour::solid(5));
    kuula::raster::line(
        &mut s,
        &pen,
        -1_000_000,
        -1_000_000,
        1_000_000,
        1_000_000,
        Colour::solid(6),
    );
        assert_eq!(ascii(&buf), ["65...", ".6...", "45644", ".5.6.", ".5..6"]);
}

#[test]
fn circles_are_symmetric_and_filled_matches_outline() {
    let (mut buf, pen) = surface(11, 11);
    let mut s = Surface::of(&mut buf).unwrap();
    circ(&mut s, &pen, 5, 5, 4, Colour::solid(1));
        let a = ascii(&buf);
    for y in 0..11 {
        assert_eq!(a[y], a[10 - y], "vertical symmetry row {y}");
        let rev: String = a[y].chars().rev().collect();
        assert_eq!(a[y], rev, "horizontal symmetry row {y}");
    }
    assert_eq!(a[5], ".1.......1.");
    assert_eq!(a[1], "....111....");
    let outline = pixels(&buf);
    buf.fill(num(0.0));
    let mut s = Surface::of(&mut buf).unwrap();
    circfill(&mut s, &pen, 5, 5, 4, Colour::solid(1));
        let filled = pixels(&buf);
    for (i, (&o, &f)) in outline.iter().zip(&filled).enumerate() {
        if o == 1 {
            assert_eq!(f, 1, "outline pixel {i} is inside the fill");
        }
    }
    // Half-widths of the midpoint circle at r = 4 are 4, 4, 3, 3, 1.
    assert_eq!(filled.iter().filter(|&&p| p == 1).count(), 61);
    // Radius 0 is a point; huge radii do not hang.
    buf.fill(num(0.0));
    let mut s = Surface::of(&mut buf).unwrap();
    circ(&mut s, &pen, 2, 2, 0, Colour::solid(2));
    circfill(&mut s, &pen, 5, 5, i32::MAX, Colour::solid(3));
    circ(&mut s, &pen, 5, 5, i32::MAX, Colour::solid(4));
    circ(&mut s, &pen, 1_000_000, 5, 10, Colour::solid(4));
        assert_eq!(pixels(&buf).iter().filter(|&&p| p == 3).count(), 121);
}

#[test]
fn a_disc_is_its_primary_colour_whatever_was_there() {
    let (mut buf, pen) = surface(5, 5);
    let mut s = Surface::of(&mut buf).unwrap();
    circfill(&mut s, &pen, 2, 2, 1, Colour { primary: 128 + 7, secondary: 0 });
    assert_eq!(ascii(&buf), [".....", "..7..", ".777.", "..7..", "....."]);
}
