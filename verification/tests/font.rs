//! The font.

use kuula::font::{glyph, GLYPHS, GLYPH_HEIGHT, GLYPH_WIDTH, PLACEHOLDER};

#[test]
fn a_is_the_familiar_shape() {
    assert_eq!(glyph('A'), [0b111, 0b101, 0b111, 0b101, 0b101]);
    assert_eq!(GLYPH_WIDTH, 4);
    assert_eq!(GLYPH_HEIGHT, 6);
}

#[test]
fn every_printable_ascii_has_a_glyph_and_the_rest_use_the_placeholder() {
    for code in 32u8..=126 {
        let g = glyph(code as char);
        assert_eq!(
            g,
            GLYPHS[(code - 32) as usize],
            "codepoint {code} has no glyph"
        );
        if code != b' ' {
            assert!(g.iter().any(|&r| r != 0), "codepoint {code} is blank");
        }
    }
    assert_eq!(glyph(127 as char), PLACEHOLDER);
    assert_eq!(glyph('\u{e9}'), PLACEHOLDER);
    assert_eq!(glyph('\u{1f600}'), PLACEHOLDER);
    assert_eq!(glyph('\n'), PLACEHOLDER);
}

#[test]
fn glyphs_stay_inside_the_ink_box() {
    for g in GLYPHS.iter() {
        assert!(g.iter().all(|&r| r & !0b111 == 0));
    }
}

#[test]
fn only_the_space_is_blank() {
    for code in 0..=300u32 {
        let c = char::from_u32(code).unwrap();
        let blank = kuula::font::glyph(c).iter().all(|&row| row == 0);
        assert_eq!(blank, c == ' ', "{code}");
    }
}
