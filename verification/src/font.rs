//! The built-in system font: 3x5 glyphs in a 4x6 cell, printable ASCII
//! 32 to 126. Anything else draws a placeholder box. Drawing is in
//! `blit::print`; this module is only the glyph data, kept here because
//! the error screen needs it without a guest.

use vstd::prelude::*;

verus! {

/// Pixel columns per glyph cell, including the one-column gap.
pub const GLYPH_WIDTH: i32 = 4;

/// Pixel rows per glyph cell, including the one-row gap.
pub const GLYPH_HEIGHT: i32 = 6;

pub const FIRST: usize = 32;

pub const LAST: usize = 126;

/// One glyph: five rows, bit 2 is the leftmost pixel.
pub type Glyph = [u8; 5];

/// Drawn for codepoints outside 32..=126.
pub const PLACEHOLDER: Glyph = [7, 5, 5, 5, 7];

/// The glyphs of 32 to 126, in order.
pub const GLYPHS: [[u8; 5]; 95] = [
    [0, 0, 0, 0, 0],
    [2, 2, 2, 0, 2],
    [5, 5, 0, 0, 0],
    [5, 7, 5, 7, 5],
    [3, 6, 2, 3, 6],
    [5, 1, 2, 4, 5],
    [2, 5, 2, 5, 3],
    [2, 2, 0, 0, 0],
    [2, 4, 4, 4, 2],
    [2, 1, 1, 1, 2],
    [5, 2, 7, 2, 5],
    [0, 2, 7, 2, 0],
    [0, 0, 0, 2, 4],
    [0, 0, 7, 0, 0],
    [0, 0, 0, 0, 2],
    [1, 1, 2, 4, 4],
    [7, 5, 5, 5, 7],
    [2, 6, 2, 2, 7],
    [7, 1, 7, 4, 7],
    [7, 1, 7, 1, 7],
    [5, 5, 7, 1, 1],
    [7, 4, 7, 1, 7],
    [7, 4, 7, 5, 7],
    [7, 1, 1, 1, 1],
    [7, 5, 7, 5, 7],
    [7, 5, 7, 1, 7],
    [0, 2, 0, 2, 0],
    [0, 2, 0, 2, 4],
    [1, 2, 4, 2, 1],
    [0, 7, 0, 7, 0],
    [4, 2, 1, 2, 4],
    [7, 1, 3, 0, 2],
    [2, 5, 7, 4, 3],
    [7, 5, 7, 5, 5],
    [6, 5, 6, 5, 6],
    [7, 4, 4, 4, 7],
    [6, 5, 5, 5, 6],
    [7, 4, 7, 4, 7],
    [7, 4, 7, 4, 4],
    [7, 4, 5, 5, 7],
    [5, 5, 7, 5, 5],
    [7, 2, 2, 2, 7],
    [1, 1, 1, 5, 7],
    [5, 5, 6, 5, 5],
    [4, 4, 4, 4, 7],
    [5, 7, 7, 5, 5],
    [6, 5, 5, 5, 5],
    [7, 5, 5, 5, 7],
    [7, 5, 7, 4, 4],
    [7, 5, 5, 7, 1],
    [7, 5, 6, 5, 5],
    [7, 4, 7, 1, 7],
    [7, 2, 2, 2, 2],
    [5, 5, 5, 5, 7],
    [5, 5, 5, 5, 2],
    [5, 5, 7, 7, 5],
    [5, 5, 2, 5, 5],
    [5, 5, 7, 2, 2],
    [7, 1, 2, 4, 7],
    [6, 4, 4, 4, 6],
    [4, 4, 2, 1, 1],
    [3, 1, 1, 1, 3],
    [2, 5, 0, 0, 0],
    [0, 0, 0, 0, 7],
    [4, 2, 0, 0, 0],
    [0, 3, 5, 5, 3],
    [4, 4, 6, 5, 6],
    [0, 3, 4, 4, 3],
    [1, 1, 3, 5, 3],
    [0, 2, 5, 6, 3],
    [3, 4, 6, 4, 4],
    [3, 5, 3, 1, 6],
    [4, 4, 6, 5, 5],
    [2, 0, 2, 2, 2],
    [1, 0, 1, 1, 6],
    [4, 5, 6, 5, 5],
    [2, 2, 2, 2, 1],
    [0, 5, 7, 5, 5],
    [0, 6, 5, 5, 5],
    [0, 2, 5, 5, 2],
    [6, 5, 6, 4, 4],
    [3, 5, 3, 1, 1],
    [0, 3, 4, 4, 4],
    [0, 3, 6, 1, 6],
    [2, 7, 2, 2, 1],
    [0, 5, 5, 5, 3],
    [0, 5, 5, 5, 2],
    [0, 5, 5, 7, 5],
    [0, 5, 2, 2, 5],
    [5, 5, 3, 1, 6],
    [0, 7, 3, 4, 7],
    [3, 2, 4, 2, 3],
    [2, 2, 2, 2, 2],
    [6, 2, 1, 2, 6],
    [0, 3, 6, 0, 0],
];

/// The glyph of a codepoint.
pub open spec fn glyph_of(c: char) -> Seq<u8> {
    if FIRST <= c as u32 <= LAST {
        GLYPHS@[c as u32 - FIRST]@
    } else {
        PLACEHOLDER@
    }
}

/// Glyph for a codepoint, or the placeholder.
pub fn glyph(c: char) -> (g: Glyph)
    ensures
        g@ == glyph_of(c),
{
    let code: usize = c as u32 as usize;
    if FIRST <= code && code <= LAST {
        GLYPHS[code - FIRST]
    } else {
        PLACEHOLDER
    }
}

/// What lies outside printable ASCII is the placeholder, a box; of all
/// characters only the space is blank; and every row stays inside the ink
/// box, three pixels wide.
pub proof fn law_only_the_space_is_blank(c: char)
    ensures
        glyph_of(c).len() == 5,
        !(32 <= c as u32 <= 126) ==> glyph_of(c) == seq![7u8, 5, 5, 5, 7],
        forall|row: int| 0 <= row < 5 ==> #[trigger] glyph_of(c)[row] < 8,
        forall|row: int| 0 <= row < 5 ==> #[trigger] glyph_of(c)[row] & !7u8 == 0,
        (forall|row: int| 0 <= row < 5 ==> #[trigger] glyph_of(c)[row] == 0) <==> c == ' ',
        c == 'A' ==> glyph_of(c) == seq![7u8, 5, 7, 5, 5],
{
    let g = glyph_of(c);
    assert(PLACEHOLDER@ =~= seq![7u8, 5, 5, 5, 7]);
    if c != ' ' {
        assert(g[0] != 0 || g[1] != 0 || g[2] != 0 || g[3] != 0 || g[4] != 0);
    }
    assert forall|row: int| 0 <= row < 5 implies #[trigger] g[row] & !7u8 == 0 by {
        let x = g[row];
        assert(x & !7u8 == 0) by (bit_vector)
            requires
                x < 8,
        ;
    }
    if c == 'A' {
        assert(g =~= seq![7u8, 5, 7, 5, 5]);
    }
}

} // verus!
