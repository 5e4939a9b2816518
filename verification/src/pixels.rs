//! What the drawing calls leave at a pixel, said of their arguments alone:
//! which pixel of which sheet, cell or glyph lands where.

use vstd::prelude::*;
use vstd::arithmetic::div_mod::*;
use crate::blit::{
    cell_dabs, copy_dabs, copy_row, copy_rows, glyph_dabs, ink, inked, layer_dabs, layer_row,
    layer_rows, map_drawn, print_drawn, sample_dab, sampled, spr_drawn, sspr_drawn,
    text_dabs, text_end, Layer, Stretch,
};
use crate::buf::{law_intersection_holds_what_both_hold, lemma_grid, Buf, Rect};
use crate::font::glyph_of;
use crate::math::saturated;
use crate::pen::{two_to, Colour, Fillp, Pen, TableView};
use crate::raster::{
    between, blended, cleared, column, drawn, law_a_shape_inks_its_points, least, lemma_dab_pixel,
    lemma_painted_add, lemma_painted_one, lemma_painted_wf, most, outline, painted, pset_drawn,
    rect_drawn, rectfill_drawn, row, rows, shape_dab, shape_dabs, Canvas, Dab,
};

verus! {

/// Whether a number is one of 32 bits.
pub open spec fn fits(v: int) -> bool {
    i32::MIN <= v <= i32::MAX
}

/// Whether a place is on a surface.
pub open spec fn on(s: Canvas, x: int, y: int) -> bool {
    0 <= x < s.width && 0 <= y < s.height
}

/// The pixel of a sheet at a column and a row, if the sheet has one there.
pub open spec fn sheet_pixel(sheet: Buf, col: int, row: int) -> Option<u8> {
    if sheet.data is U8 && 0 <= col < sheet.width && 0 <= row < sheet.height {
        Some(sheet.data->U8_0@[row * sheet.width + col])
    } else {
        None
    }
}

// ----- copies from a sheet --------------------------------------------------------------------

proof fn lemma_row_pixel(
    s: Canvas,
    clip: Rect,
    t: TableView,
    sheet: Buf,
    k: Stretch,
    x0: int,
    x1: int,
    at: int,
    x: int,
    y: int,
)
    requires
        s.wf(),
        s.holds(clip),
        on(s, x, y),
    ensures
        painted(s, clip, t, copy_row(sheet, k, x0, x1, at)).pixel(x, y) == (if y == at && x0 <= x
            < x1 && clip.has(x, y) {
            blended(t, sampled(sheet, k, x, y), s.pixel(x, y))
        } else {
            s.pixel(x, y)
        }),
    decreases x1 - x0,
{
    if x1 > x0 {
        let head = copy_row(sheet, k, x0, x1 - 1, at);
        let tail = sample_dab(sheet, k, x1 - 1, at);
        lemma_row_pixel(s, clip, t, sheet, k, x0, x1 - 1, at, x, y);
        lemma_painted_add(s, clip, t, head, tail);
        lemma_painted_wf(s, clip, t, head);
        let mid = painted(s, clip, t, head);
        match sampled(sheet, k, x1 - 1, at) {
            Some(c) => {
                let d = Dab { x: x1 - 1, y: at, src: Some(c) };
                assert(tail =~= seq![d]);
                lemma_painted_one(mid, clip, t, d);
                lemma_dab_pixel(mid, clip, t, d, x, y);
            },
            None => {
                assert(tail =~= seq![]);
            },
        }
    }
}

proof fn lemma_rows_pixel(
    s: Canvas,
    clip: Rect,
    t: TableView,
    sheet: Buf,
    k: Stretch,
    x0: int,
    x1: int,
    y0: int,
    y1: int,
    x: int,
    y: int,
)
    requires
        s.wf(),
        s.holds(clip),
        on(s, x, y),
    ensures
        painted(s, clip, t, copy_rows(sheet, k, x0, x1, y0, y1)).pixel(x, y) == (if y0 <= y < y1
            && x0 <= x < x1 && clip.has(x, y) {
            blended(t, sampled(sheet, k, x, y), s.pixel(x, y))
        } else {
            s.pixel(x, y)
        }),
    decreases y1 - y0,
{
    if y1 > y0 {
        let head = copy_rows(sheet, k, x0, x1, y0, y1 - 1);
        lemma_rows_pixel(s, clip, t, sheet, k, x0, x1, y0, y1 - 1, x, y);
        lemma_painted_add(s, clip, t, head, copy_row(sheet, k, x0, x1, y1 - 1));
        lemma_painted_wf(s, clip, t, head);
        lemma_row_pixel(painted(s, clip, t, head), clip, t, sheet, k, x0, x1, y1 - 1, x, y);
    }
}

/// A pixel after a copy: the destination takes what the sheet has there.
proof fn lemma_copy_pixel(
    s: Canvas,
    clip: Rect,
    t: TableView,
    sheet: Buf,
    k: Stretch,
    x: int,
    y: int,
)
    requires
        s.wf(),
        s.holds(clip),
        on(s, x, y),
        fits(k.dx) && fits(k.dy) && fits(k.dw) && fits(k.dh),
    ensures
        painted(s, clip, t, copy_dabs(sheet, clip, k)).pixel(x, y) == (if sheet.data is U8 && k.sw
            > 0 && k.sh > 0 && k.dx <= x < k.dx + k.dw && k.dy <= y < k.dy + k.dh && clip.has(
            x,
            y,
        ) {
            blended(t, sampled(sheet, k, x, y), s.pixel(x, y))
        } else {
            s.pixel(x, y)
        }),
{
    if sheet.data is U8 && k.sw > 0 && k.sh > 0 && k.dw > 0 && k.dh > 0 {
        let d = k.dest().crossed(clip);
        law_intersection_holds_what_both_hold(k.dest(), clip, x, y);
        lemma_rows_pixel(
            s,
            clip,
            t,
            sheet,
            k,
            d.x as int,
            d.right_of(),
            d.y as int,
            d.bottom_of(),
            x,
            y,
        );
    }
}

/// A scaled copy shows at each pixel of its destination the sheet's pixel
/// at the same share of the source, from the other side where it is
/// flipped; it shows nothing off the sheet, and leaves everything else
/// alone.
pub proof fn law_a_stretched_sprite_shows_its_source(
    s: Canvas,
    pen: Pen,
    sheet: Buf,
    sx: i32,
    sy: i32,
    sw: i32,
    sh: i32,
    dx: i32,
    dy: i32,
    dw: i32,
    dh: i32,
    flip_x: bool,
    flip_y: bool,
    i: int,
    j: int,
)
    requires
        s.wf(),
        s.holds(pen.clip),
        fits(dx - pen.camera.0) && fits(dy - pen.camera.1),
        on(s, dx - pen.camera.0 + i, dy - pen.camera.1 + j),
    ensures
        ({
            let x = dx - pen.camera.0 + i;
            let y = dy - pen.camera.1 + j;
            let after = sspr_drawn(
                s,
                pen,
                sheet,
                sx,
                sy,
                sw,
                sh,
                dx,
                dy,
                dw,
                dh,
                flip_x,
                flip_y,
            );
            let col = sx + (if flip_x {
                dw - 1 - i
            } else {
                i
            }) * sw / dw as int;
            let row = sy + (if flip_y {
                dh - 1 - j
            } else {
                j
            }) * sh / dh as int;
            after.pixels[y * s.width + x] == (if sw > 0 && sh > 0 && 0 <= i < dw && 0 <= j < dh
                && pen.clip.has(x, y) {
                blended(pen.table@, sheet_pixel(sheet, col, row), s.pixels[y * s.width + x])
            } else {
                s.pixels[y * s.width + x]
            })
        }),
{
    let x = dx - pen.camera.0 + i;
    let y = dy - pen.camera.1 + j;
    let k = Stretch {
        sx: sx as int,
        sy: sy as int,
        sw: sw as int,
        sh: sh as int,
        dx: pen.world_x(dx as int),
        dy: pen.world_y(dy as int),
        dw: dw as int,
        dh: dh as int,
        flip_x,
        flip_y,
    };
    lemma_copy_pixel(s, pen.clip, pen.table@, sheet, k, x, y);
    lemma_painted_wf(s, pen.clip, pen.table@, copy_dabs(sheet, pen.clip, k));
}

/// Sprite cell `n` lands pixel for pixel: cells of eight by eight pixels
/// are numbered along the sheet's rows, and a flip turns the whole sprite
/// about. Off the sheet and outside the clip nothing is drawn.
pub proof fn law_a_sprite_shows_its_cell(
    s: Canvas,
    pen: Pen,
    sheet: Buf,
    n: i32,
    x: i32,
    y: i32,
    w: i32,
    h: i32,
    flip_x: bool,
    flip_y: bool,
    i: int,
    j: int,
)
    requires
        s.wf(),
        s.holds(pen.clip),
        fits(x - pen.camera.0) && fits(y - pen.camera.1),
        on(s, x - pen.camera.0 + i, y - pen.camera.1 + j),
        n >= 0,
        sheet.width >= 8,
        fits(8 * w) && fits(8 * h),
    ensures
        ({
            let px = x - pen.camera.0 + i;
            let py = y - pen.camera.1 + j;
            let after = spr_drawn(s, pen, sheet, n, x, y, w, h, flip_x, flip_y);
            let across = sheet.width as int / 8;
            let col = n as int % across * 8 + (if flip_x {
                8 * w - 1 - i
            } else {
                i
            });
            let row = n as int / across * 8 + (if flip_y {
                8 * h - 1 - j
            } else {
                j
            });
            after.pixels[py * s.width + px] == (if 0 <= i < 8 * w && 0 <= j < 8 * h
                && pen.clip.has(px, py) {
                blended(pen.table@, sheet_pixel(sheet, col, row), s.pixels[py * s.width + px])
            } else {
                s.pixels[py * s.width + px]
            })
        }),
{
    let px = x - pen.camera.0 + i;
    let py = y - pen.camera.1 + j;
    let across = sheet.width as int / 8;
    let k = Stretch {
        sx: n as int % across * 8,
        sy: n as int / across * 8,
        sw: saturated(w * 8),
        sh: saturated(h * 8),
        dx: pen.world_x(x as int),
        dy: pen.world_y(y as int),
        dw: saturated(w * 8),
        dh: saturated(h * 8),
        flip_x,
        flip_y,
    };
    lemma_copy_pixel(s, pen.clip, pen.table@, sheet, k, px, py);
    lemma_painted_wf(s, pen.clip, pen.table@, copy_dabs(sheet, pen.clip, k));
    if 0 <= i < 8 * w && 0 <= j < 8 * h {
        let a = if flip_x { 8 * w - 1 - i } else { i };
        let b = if flip_y { 8 * h - 1 - j } else { j };
        lemma_div_by_multiple(a, 8 * w);
        lemma_div_by_multiple(b, 8 * h);
        lemma_div_pos_is_pos(n as int, across);
        if n as int / across * 8 >= sheet.height {
            assert(sheet_pixel(sheet, k.sx + a, k.sy + b) is None);
            assert(inked(s, pen, seq![]) == s);
        }
    } else {
        assert(inked(s, pen, seq![]) == s);
    }
}

// ----- maps -----------------------------------------------------------------------------------

/// Columns of tiles keep apart.
proof fn lemma_columns_apart(x: int, o: int, tile: int, c: int)
    requires
        tile > 0,
    ensures
        (o + c * tile <= x < o + c * tile + tile) <==> c == (x - o) / tile,
        x - (o + (x - o) / tile * tile) == (x - o) % tile,
{
    lemma_fundamental_div_mod(x - o, tile);
    lemma_mod_bound(x - o, tile);
    let q = (x - o) / tile;
    assert(tile * q == q * tile) by (nonlinear_arith);
    if o + c * tile <= x < o + c * tile + tile {
        let r = x - o - c * tile;
        lemma_fundamental_div_mod_converse(x - o, tile, c, r);
    }
}

/// The source colour that a layer has for a place.
spec fn layer_source(sheet: Buf, l: Layer, x: int, y: int) -> Option<u8> {
    let c = (x - l.ox) / l.tile;
    let r = (y - l.oy) / l.tile;
    let across = sheet.width as int / l.tile;
    match l.tile_at(c, r) {
        Some(t) => sheet_pixel(
            sheet,
            t % across * l.tile + (x - l.ox) % l.tile,
            t / across * l.tile + (y - l.oy) % l.tile,
        ),
        None => None,
    }
}

/// A layer that draws something.
spec fn drawable(sheet: Buf, l: Layer) -> bool {
    &&& 0 < l.tile <= i32::MAX
    &&& fits(l.ox) && fits(l.oy)
    &&& sheet.width as int / l.tile > 0
}

proof fn lemma_cell_pixel(
    s: Canvas,
    clip: Rect,
    t: TableView,
    sheet: Buf,
    l: Layer,
    c: int,
    r: int,
    x: int,
    y: int,
)
    requires
        s.wf(),
        s.holds(clip),
        on(s, x, y),
        drawable(sheet, l),
        0 <= c,
        0 <= r,
    ensures
        painted(s, clip, t, cell_dabs(sheet, clip, l, c, r)).pixel(x, y) == (if c == (x - l.ox)
            / l.tile && r == (y - l.oy) / l.tile && clip.has(x, y) {
            blended(t, layer_source(sheet, l, x, y), s.pixel(x, y))
        } else {
            s.pixel(x, y)
        }),
{
    let px = l.ox + c * l.tile;
    let py = l.oy + r * l.tile;
    lemma_columns_apart(x, l.ox, l.tile, c);
    lemma_columns_apart(y, l.oy, l.tile, r);
    assert(0 <= c * l.tile && 0 <= r * l.tile) by (nonlinear_arith)
        requires
            0 <= c,
            0 <= r,
            0 < l.tile,
    ;
    assert(painted(s, clip, t, seq![]) == s);
    match l.tile_at(c, r) {
        None => {},
        Some(n) => {
            if fits(px) && fits(py) {
                let across = sheet.width as int / l.tile;
                let k = Stretch {
                    sx: n % across * l.tile,
                    sy: n / across * l.tile,
                    sw: l.tile,
                    sh: l.tile,
                    dx: px,
                    dy: py,
                    dw: l.tile,
                    dh: l.tile,
                    flip_x: false,
                    flip_y: false,
                };
                lemma_copy_pixel(s, clip, t, sheet, k, x, y);
                if px <= x && py <= y {
                    lemma_div_by_multiple(x - px, l.tile);
                    lemma_div_by_multiple(y - py, l.tile);
                }
            }
        },
    }
}

proof fn lemma_layer_row_pixel(
    s: Canvas,
    clip: Rect,
    t: TableView,
    sheet: Buf,
    l: Layer,
    c0: int,
    c1: int,
    r: int,
    x: int,
    y: int,
)
    requires
        s.wf(),
        s.holds(clip),
        on(s, x, y),
        drawable(sheet, l),
        0 <= c0,
        0 <= r,
    ensures
        painted(s, clip, t, layer_row(sheet, clip, l, c0, c1, r)).pixel(x, y) == (if c0 <= (x
            - l.ox) / l.tile < c1 && r == (y - l.oy) / l.tile && clip.has(x, y) {
            blended(t, layer_source(sheet, l, x, y), s.pixel(x, y))
        } else {
            s.pixel(x, y)
        }),
    decreases c1 - c0,
{
    if c1 > c0 {
        let head = layer_row(sheet, clip, l, c0, c1 - 1, r);
        lemma_layer_row_pixel(s, clip, t, sheet, l, c0, c1 - 1, r, x, y);
        lemma_painted_add(s, clip, t, head, cell_dabs(sheet, clip, l, c1 - 1, r));
        lemma_painted_wf(s, clip, t, head);
        lemma_cell_pixel(painted(s, clip, t, head), clip, t, sheet, l, c1 - 1, r, x, y);
    }
}

proof fn lemma_layer_rows_pixel(
    s: Canvas,
    clip: Rect,
    t: TableView,
    sheet: Buf,
    l: Layer,
    r0: int,
    r1: int,
    x: int,
    y: int,
)
    requires
        s.wf(),
        s.holds(clip),
        on(s, x, y),
        drawable(sheet, l),
        0 <= r0,
    ensures
        painted(s, clip, t, layer_rows(sheet, clip, l, r0, r1)).pixel(x, y) == (if l.first_col(clip)
            <= (x - l.ox) / l.tile <= l.last_col(clip) && r0 <= (y - l.oy) / l.tile < r1
            && clip.has(x, y) {
            blended(t, layer_source(sheet, l, x, y), s.pixel(x, y))
        } else {
            s.pixel(x, y)
        }),
    decreases r1 - r0,
{
    if r1 > r0 {
        let head = layer_rows(sheet, clip, l, r0, r1 - 1);
        let c0 = l.first_col(clip);
        let c1 = l.last_col(clip) + 1;
        lemma_layer_rows_pixel(s, clip, t, sheet, l, r0, r1 - 1, x, y);
        lemma_painted_add(s, clip, t, head, layer_row(sheet, clip, l, c0, c1, r1 - 1));
        lemma_painted_wf(s, clip, t, head);
        lemma_layer_row_pixel(
            painted(s, clip, t, head),
            clip,
            t,
            sheet,
            l,
            c0,
            c1,
            r1 - 1,
            x,
            y,
        );
    }
}

/// Which cell of a map lands where: the tile of the cell `c` columns and
/// `r` rows on from the first one asked for is drawn `c` tiles right and
/// `r` tiles down from where the map is drawn, pixel for pixel. Tiles are
/// numbered along the sheet's rows. A cell that is off the map or negative,
/// and every cell that was not asked for, leaves what was there.
pub proof fn law_a_map_puts_each_cell_in_its_place(
    s: Canvas,
    pen: Pen,
    sheet: Buf,
    cells: Seq<i16>,
    map_w: int,
    map_h: int,
    tile: int,
    cell_x: i32,
    cell_y: i32,
    sx: i32,
    sy: i32,
    cell_w: i32,
    cell_h: i32,
    c: int,
    r: int,
    i: int,
    j: int,
)
    requires
        s.wf(),
        s.holds(pen.clip),
        0 < tile <= i32::MAX,
        tile <= sheet.width,
        fits(sx - pen.camera.0) && fits(sy - pen.camera.1),
        0 <= i < tile,
        0 <= j < tile,
        on(s, sx - pen.camera.0 + c * tile + i, sy - pen.camera.1 + r * tile + j),
    ensures
        ({
            let x = sx - pen.camera.0 + c * tile + i;
            let y = sy - pen.camera.1 + r * tile + j;
            let after = map_drawn(
                s,
                pen,
                sheet,
                cells,
                map_w,
                map_h,
                tile,
                cell_x,
                cell_y,
                sx,
                sy,
                cell_w,
                cell_h,
            );
            let n = cells[(cell_y + r) * map_w + (cell_x + c)] as int;
            let across = sheet.width as int / tile;
            after.pixels[y * s.width + x] == (if 0 <= c < cell_w && 0 <= r < cell_h && 0 <= cell_x
                + c < map_w && 0 <= cell_y + r < map_h && n >= 0 && pen.clip.has(x, y) {
                blended(
                    pen.table@,
                    sheet_pixel(sheet, n % across * tile + i, n / across * tile + j),
                    s.pixels[y * s.width + x],
                )
            } else {
                s.pixels[y * s.width + x]
            })
        }),
{
    let x = sx - pen.camera.0 + c * tile + i;
    let y = sy - pen.camera.1 + r * tile + j;
    let clip = pen.clip;
    let l = Layer {
        cells,
        map_w,
        map_h,
        tile,
        cell_x: cell_x as int,
        cell_y: cell_y as int,
        ox: pen.world_x(sx as int),
        oy: pen.world_y(sy as int),
        cell_w: cell_w as int,
        cell_h: cell_h as int,
    };
    lemma_painted_wf(s, clip, pen.table@, layer_dabs(sheet, clip, l));
    assert(sheet.width as int / tile >= 1) by {
        lemma_div_is_ordered(tile, sheet.width as int, tile);
        lemma_div_by_self(tile);
    }
    lemma_columns_apart(x, l.ox, tile, c);
    lemma_columns_apart(y, l.oy, tile, r);
    assert(painted(s, clip, pen.table@, seq![]) == s);
    if cell_w > 0 && cell_h > 0 {
        lemma_layer_rows_pixel(
            s,
            clip,
            pen.table@,
            sheet,
            l,
            l.first_row(clip),
            l.last_row(clip) + 1,
            x,
            y,
        );
        if clip.has(x, y) {
            lemma_div_is_ordered(clip.x - l.ox, x - l.ox, tile);
            lemma_div_is_ordered(x - l.ox, clip.right_of() - 1 - l.ox, tile);
            lemma_div_is_ordered(clip.y - l.oy, y - l.oy, tile);
            lemma_div_is_ordered(y - l.oy, clip.bottom_of() - 1 - l.oy, tile);
        }
    }
}

// ----- text -----------------------------------------------------------------------------------

/// A glyph's ink is its bits, the highest of three leftmost.
proof fn lemma_ink_is_a_bit(bits: u8, col: u8)
    requires
        col < 3,
    ensures
        ink(bits, col as int) <==> bits & (4u8 >> col) != 0,
{
    assert((bits & 4u8 != 0) == (bits / 4 % 2 == 1)) by (bit_vector);
    assert((bits & 2u8 != 0) == (bits / 2 % 2 == 1)) by (bit_vector);
    assert((bits & 1u8 != 0) == (bits % 2 == 1)) by (bit_vector);
    assert(4u8 >> 0u8 == 4 && 4u8 >> 1u8 == 2 && 4u8 >> 2u8 == 1) by (bit_vector);
}

proof fn lemma_glyph_pixel(
    s: Canvas,
    clip: Rect,
    t: TableView,
    g: Seq<u8>,
    k: int,
    gx: int,
    gy: int,
    c: u8,
    x: int,
    y: int,
)
    requires
        s.wf(),
        s.holds(clip),
        on(s, x, y),
        0 <= k <= 15,
        i32::MIN <= gx <= i32::MAX - 4,
        i32::MIN <= gy <= i32::MAX - 5,
    ensures
        painted(s, clip, t, glyph_dabs(g, k, gx, gy, c)).pixel(x, y) == (if 0 <= x - gx < 3 && 0
            <= y - gy < 5 && (y - gy) * 3 + (x - gx) >= k && ink(g[y - gy], x - gx) && clip.has(
            x,
            y,
        ) {
            t.look(c as int, s.pixel(x, y) as int) as u8
        } else {
            s.pixel(x, y)
        }),
    decreases 15 - k,
{
    if k < 15 {
        let rest = glyph_dabs(g, k + 1, gx, gy, c);
        let d = Dab { x: saturated(gx + k % 3), y: saturated(gy + k / 3), src: Some(c) };
        if ink(g[k / 3], k % 3) {
            lemma_painted_add(s, clip, t, seq![d], rest);
            lemma_painted_one(s, clip, t, d);
            lemma_painted_wf(s, clip, t, seq![d]);
            lemma_dab_pixel(s, clip, t, d, x, y);
            lemma_glyph_pixel(painted(s, clip, t, seq![d]), clip, t, g, k + 1, gx, gy, c, x, y);
        } else {
            assert(seq![] + rest =~= rest);
            lemma_glyph_pixel(s, clip, t, g, k + 1, gx, gy, c, x, y);
        }
    } else {
        assert(painted(s, clip, t, seq![]) == s);
    }
}

/// Whether a text has ink at some pixels right of and below its start:
/// each character has four columns, of which its glyph fills the first
/// three, and five rows.
pub open spec fn lettered(text: Seq<char>, dx: int, dy: int) -> bool {
    &&& 0 <= dx < 4 * text.len()
    &&& dx % 4 < 3
    &&& 0 <= dy < 5
    &&& glyph_of(text[dx / 4])[dy] & (4u8 >> ((dx % 4) as u8)) != 0
}

proof fn lemma_text_pixel(
    s: Canvas,
    clip: Rect,
    t: TableView,
    text: Seq<char>,
    tx: int,
    ty: int,
    c: u8,
    x: int,
    y: int,
)
    requires
        s.wf(),
        s.holds(clip),
        on(s, x, y),
        fits(tx),
        tx + 4 * text.len() <= i32::MAX,
        i32::MIN <= ty <= i32::MAX - 5,
    ensures
        painted(s, clip, t, text_dabs(text, tx, ty, c)).pixel(x, y) == (if lettered(
            text,
            x - tx,
            y - ty,
        ) && clip.has(x, y) {
            t.look(c as int, s.pixel(x, y) as int) as u8
        } else {
            s.pixel(x, y)
        }),
    decreases text.len(),
{
    if text.len() == 0 {
        assert(painted(s, clip, t, seq![]) == s);
    } else {
        let g = glyph_of(text[0]);
        let rest = text.skip(1);
        let first = glyph_dabs(g, 0, tx, ty, c);
        let mid = painted(s, clip, t, first);
        lemma_painted_add(s, clip, t, first, text_dabs(rest, tx + 4, ty, c));
        lemma_painted_wf(s, clip, t, first);
        lemma_glyph_pixel(s, clip, t, g, 0, tx, ty, c, x, y);
        lemma_text_pixel(mid, clip, t, rest, tx + 4, ty, c, x, y);
        let dx = x - tx;
        if 0 <= dx < 3 {
            lemma_ink_is_a_bit(g[y - ty], dx as u8);
        }
        if 4 <= dx < 4 * text.len() {
            assert(rest[(dx - 4) / 4] == text[dx / 4]);
        }
    }
}

/// A text pixel by pixel: the character `n` from the left stands four
/// pixels to the right for each one before it, and a pixel of its three by
/// five has the colour exactly where its glyph has the bit, the leftmost
/// the highest. Everything else is as it was.
pub proof fn law_a_text_is_its_glyphs(
    s: Canvas,
    pen: Pen,
    text: Seq<char>,
    x: i32,
    y: i32,
    c: u8,
    n: int,
    col: u8,
    row: int,
)
    requires
        s.wf(),
        s.holds(pen.clip),
        fits(x - pen.camera.0),
        x - pen.camera.0 + 4 * text.len() <= i32::MAX,
        i32::MIN <= y - pen.camera.1 <= i32::MAX - 5,
        col < 4,
        on(s, x - pen.camera.0 + 4 * n + col, y - pen.camera.1 + row),
    ensures
        ({
            let px = x - pen.camera.0 + 4 * n + col;
            let py = y - pen.camera.1 + row;
            let after = print_drawn(s, pen, text, x, y, c);
            after.pixels[py * s.width + px] == (if 0 <= n < text.len() && col < 3 && 0 <= row < 5
                && glyph_of(text[n])[row] & (4u8 >> col) != 0 && pen.clip.has(px, py) {
                pen.table@.look(c as int, s.pixels[py * s.width + px] as int) as u8
            } else {
                s.pixels[py * s.width + px]
            })
        }),
{
    let px = x - pen.camera.0 + 4 * n + col;
    let py = y - pen.camera.1 + row;
    let tx = pen.world_x(x as int);
    let ty = pen.world_y(y as int);
    lemma_text_pixel(s, pen.clip, pen.table@, text, tx, ty, c, px, py);
    lemma_painted_wf(s, pen.clip, pen.table@, text_dabs(text, tx, ty, c));
    assert((px - tx) / 4 == n);
    assert((px - tx) % 4 == col);
}

/// A text ends four pixels on for each of its characters.
pub proof fn law_a_text_ends_behind_its_last_glyph(x: int, n: nat)
    requires
        fits(x),
        x + 4 * n <= i32::MAX,
    ensures
        text_end(x, n) == x + 4 * n,
    decreases n,
{
    if n > 0 {
        law_a_text_ends_behind_its_last_glyph(x + 4, (n - 1) as nat);
    }
}

// ----- shapes ---------------------------------------------------------------------------------

/// The colour that a shape has for a place: bit `(y & 3) * 4 + (x & 3)` of
/// the pattern picks the secondary colour, or leaves the place out.
pub open spec fn patterned(f: Fillp, c: Colour, x: int, y: int) -> Option<u8> {
    let bit = (y % 4 * 4 + x % 4) as u16;
    if f.pattern & (1u16 << bit) == 0 {
        Some(c.primary)
    } else if f.transparent {
        None
    } else {
        Some(c.secondary)
    }
}

proof fn lemma_pattern_bit(p: u16, k: u16)
    requires
        k < 16,
    ensures
        p & (1u16 << k) != 0 <==> p as int / two_to(k as int) % 2 == 1,
{
    reveal_with_fuel(two_to, 17);
    let d = 1u16 << k;
    assert((p & (1u16 << k) != 0) == (p / (1u16 << k) % 2 == 1) && (1u16 << k) != 0) by (bit_vector)
        requires
            k < 16,
    ;
    assert(1u16 << 0u16 == 1 && 1u16 << 1u16 == 2 && 1u16 << 2u16 == 4 && 1u16 << 3u16 == 8 && 1u16
        << 4u16 == 16 && 1u16 << 5u16 == 32 && 1u16 << 6u16 == 64 && 1u16 << 7u16 == 128 && 1u16
        << 8u16 == 256 && 1u16 << 9u16 == 512 && 1u16 << 10u16 == 1024 && 1u16 << 11u16 == 2048
        && 1u16 << 12u16 == 4096 && 1u16 << 13u16 == 8192 && 1u16 << 14u16 == 16384 && 1u16
        << 15u16 == 32768) by (bit_vector);
}

/// A shape's pixel: its points inside the clip take the colour that the
/// pattern picks, the rest is as it was.
pub(crate) proof fn lemma_shape_pixel(
    s: Canvas,
    pen: Pen,
    points: Seq<(int, int)>,
    c: Colour,
    x: int,
    y: int,
)
    requires
        s.wf(),
        s.holds(pen.clip),
        pen.table.wf(),
        on(s, x, y),
    ensures
        drawn(s, pen, points, c).width == s.width,
        drawn(s, pen, points, c).pixel(x, y) == (if points.contains((x, y)) && pen.clip.has(x, y) {
            blended(pen.table@, patterned(pen.fillp, c, x, y), s.pixel(x, y))
        } else {
            s.pixel(x, y)
        }),
{
    law_a_shape_inks_its_points(s, pen, points, c, x, y);
    lemma_painted_wf(s, pen.clip, pen.table@, shape_dabs(pen.fillp, c, points));
    let d = shape_dab(pen.fillp, c, (x, y));
    lemma_dab_pixel(s, pen.clip, pen.table@, d, x, y);
    lemma_pattern_bit(pen.fillp.pattern, (y % 4 * 4 + x % 4) as u16);
}

/// A point sets its one pixel, moved by the camera.
pub proof fn law_a_point_is_one_pixel(
    s: Canvas,
    pen: Pen,
    x: i32,
    y: i32,
    c: Colour,
    px: int,
    py: int,
)
    requires
        s.wf(),
        s.holds(pen.clip),
        pen.table.wf(),
        on(s, px, py),
        fits(x - pen.camera.0) && fits(y - pen.camera.1),
    ensures
        pset_drawn(s, pen, x, y, c).pixels[py * s.width + px] == (if px == x - pen.camera.0 && py
            == y - pen.camera.1 && pen.clip.has(px, py) {
            blended(pen.table@, patterned(pen.fillp, c, px, py), s.pixels[py * s.width + px])
        } else {
            s.pixels[py * s.width + px]
        }),
{
    let points = seq![(pen.world_x(x as int), pen.world_y(y as int))];
    lemma_shape_pixel(s, pen, points, c, px, py);
    assert(points[0] == (pen.world_x(x as int), pen.world_y(y as int)));
}

proof fn lemma_in_rows(x0: int, x1: int, y0: int, y1: int, x: int, y: int)
    ensures
        rows(x0, x1, y0, y1).contains((x, y)) <==> x0 <= x <= x1 && y0 <= y <= y1,
    decreases y1 - y0 + 1,
{
    let all = rows(x0, x1, y0, y1);
    if y1 >= y0 {
        let head = rows(x0, x1, y0, y1 - 1);
        let last = row(x0, x1, y1);
        lemma_in_rows(x0, x1, y0, y1 - 1, x, y);
        if x0 <= x <= x1 && y0 <= y <= y1 {
            if y == y1 {
                assert(last[x - x0] == (x, y));
                assert(all[head.len() + (x - x0)] == (x, y));
            } else {
                let i = head.index_of((x, y));
                assert(all[i] == (x, y));
            }
        }
        if all.contains((x, y)) {
            let i = all.index_of((x, y));
            if i < head.len() {
                assert(head[i] == (x, y));
            } else {
                assert(last[i - head.len()] == (x, y));
            }
        }
    }
}

/// A filled rectangle is the pixels between its corners, both in it, in
/// whatever order the corners are given. Its sides fit in 32 bits.
pub proof fn law_a_filled_rectangle_is_between_its_corners(
    s: Canvas,
    pen: Pen,
    x0: i32,
    y0: i32,
    x1: i32,
    y1: i32,
    c: Colour,
    x: int,
    y: int,
)
    requires
        s.wf(),
        s.holds(pen.clip),
        pen.table.wf(),
        on(s, x, y),
        fits(x0 - pen.camera.0) && fits(y0 - pen.camera.1),
        fits(x1 - pen.camera.0) && fits(y1 - pen.camera.1),
        -i32::MAX < x1 - x0 < i32::MAX && -i32::MAX < y1 - y0 < i32::MAX,
    ensures
        ({
            let ax = x0 - pen.camera.0;
            let ex = x1 - pen.camera.0;
            let ay = y0 - pen.camera.1;
            let ey = y1 - pen.camera.1;
            rectfill_drawn(s, pen, x0, y0, x1, y1, c).pixels[y * s.width + x] == (if (ax <= x <= ex
                || ex <= x <= ax) && (ay <= y <= ey || ey <= y <= ay) && pen.clip.has(x, y) {
                blended(pen.table@, patterned(pen.fillp, c, x, y), s.pixels[y * s.width + x])
            } else {
                s.pixels[y * s.width + x]
            })
        }),
{
    let r = between(
        pen.world_x(x0 as int),
        pen.world_y(y0 as int),
        pen.world_x(x1 as int),
        pen.world_y(y1 as int),
    );
    let points = rows(r.x as int, r.right_of() - 1, r.y as int, r.bottom_of() - 1);
    lemma_shape_pixel(s, pen, points, c, x, y);
    lemma_in_rows(r.x as int, r.right_of() - 1, r.y as int, r.bottom_of() - 1, x, y);
}

/// A rectangle's outline is the pixels of the filled one that are on one
/// of its four sides.
pub proof fn law_a_rectangle_is_its_four_sides(
    s: Canvas,
    pen: Pen,
    x0: i32,
    y0: i32,
    x1: i32,
    y1: i32,
    c: Colour,
    x: int,
    y: int,
)
    requires
        s.wf(),
        s.holds(pen.clip),
        pen.table.wf(),
        on(s, x, y),
        fits(x0 - pen.camera.0) && fits(y0 - pen.camera.1),
        fits(x1 - pen.camera.0) && fits(y1 - pen.camera.1),
    ensures
        ({
            let ax = x0 - pen.camera.0;
            let ex = x1 - pen.camera.0;
            let ay = y0 - pen.camera.1;
            let ey = y1 - pen.camera.1;
            rect_drawn(s, pen, x0, y0, x1, y1, c).pixels[y * s.width + x] == (if (ax <= x <= ex
                || ex <= x <= ax) && (ay <= y <= ey || ey <= y <= ay) && (x == ax || x == ex || y
                == ay || y == ey) && pen.clip.has(x, y) {
                blended(pen.table@, patterned(pen.fillp, c, x, y), s.pixels[y * s.width + x])
            } else {
                s.pixels[y * s.width + x]
            })
        }),
{
    let ax = x0 - pen.camera.0;
    let ex = x1 - pen.camera.0;
    let ay = y0 - pen.camera.1;
    let ey = y1 - pen.camera.1;
    let points = outline(ax, ay, ex, ey);
    lemma_shape_pixel(s, pen, points, c, x, y);
    let left = least(ax, ex);
    let right = most(ax, ex);
    let top = least(ay, ey);
    let bottom = most(ay, ey);
    let p1 = row(left, right, top);
    let p2 = if bottom != top { row(left, right, bottom) } else { seq![] };
    let p3 = column(left, top + 1, bottom - 1);
    let p4 = if right != left { column(right, top + 1, bottom - 1) } else { seq![] };
    assert(points =~= p1 + p2 + p3 + p4);
    if points.contains((x, y)) {
        let i = points.index_of((x, y));
        if i < p1.len() {
            assert(p1[i] == (x, y));
        } else if i < p1.len() + p2.len() {
            assert(p2[i - p1.len()] == (x, y));
        } else if i < p1.len() + p2.len() + p3.len() {
            assert(p3[i - p1.len() - p2.len()] == (x, y));
        } else {
            assert(p4[i - p1.len() - p2.len() - p3.len()] == (x, y));
        }
    }
    if left <= x <= right && y == top {
        assert(p1[x - left] == (x, y));
        assert(points[x - left] == (x, y));
    } else if left <= x <= right && y == bottom {
        assert(p2[x - left] == (x, y));
        assert(points[p1.len() + (x - left)] == (x, y));
    } else if top < y < bottom && x == left {
        assert(p3[y - top - 1] == (x, y));
        assert(points[p1.len() + p2.len() + (y - top - 1)] == (x, y));
    } else if top < y < bottom && x == right {
        assert(p4[y - top - 1] == (x, y));
        assert(points[p1.len() + p2.len() + p3.len() + (y - top - 1)] == (x, y));
    }
}

/// Clearing sets every pixel of the clip to the colour's low seven bits,
/// whatever the pattern and the colour table, and no other.
pub proof fn law_clearing_fills_the_clip(s: Canvas, clip: Rect, c: u8, x: int, y: int)
    requires
        s.wf(),
        on(s, x, y),
    ensures
        cleared(s, clip, c).pixels[y * s.width + x] == (if clip.x <= x < clip.x + clip.w && clip.y
            <= y < clip.y + clip.h {
            c & 0x7f
        } else {
            s.pixels[y * s.width + x]
        }),
{
    let all = Rect { x: 0, y: 0, w: s.width as i32, h: s.height as i32 };
    law_intersection_holds_what_both_hold(clip, all, x, y);
    lemma_grid(x, y, s.width, s.height);
    assert(c & 0x7f == c % 128) by (bit_vector);
}

} // verus!
