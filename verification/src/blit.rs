//! Blits through the colour table: sprite cells, scaled sprites, map
//! layers and system-font text. No fill pattern applies to these.

use vstd::prelude::*;
use vstd::arithmetic::div_mod::*;
use vstd::string::*;
use crate::buf::{lemma_grid, Buf, BufData, Rect};
use crate::font::{glyph, glyph_of, GLYPH_WIDTH};
use crate::math::{floor_div, saturate, saturated};
use crate::pen::Pen;
use crate::raster::{blend, lemma_painted_add, lemma_painted_one, painted, Canvas, Dab, Surface};
use crate::text::chars_of;

verus! {

/// Side of a sprite cell.
pub const CELL: i32 = 8;

/// A scaled copy: the source rectangle, the destination rectangle in
/// target coordinates, and whether it is mirrored.
pub struct Stretch {
    pub sx: int,
    pub sy: int,
    pub sw: int,
    pub sh: int,
    pub dx: int,
    pub dy: int,
    pub dw: int,
    pub dh: int,
    pub flip_x: bool,
    pub flip_y: bool,
}

impl Stretch {
    /// The source column of a destination column.
    pub open spec fn column(self, x: int) -> int {
        let i = if self.flip_x {
            self.dw - 1 - (x - self.dx)
        } else {
            x - self.dx
        };
        self.sx + i * self.sw / self.dw
    }

    /// The source row of a destination row.
    pub open spec fn line(self, y: int) -> int {
        let j = if self.flip_y {
            self.dh - 1 - (y - self.dy)
        } else {
            y - self.dy
        };
        self.sy + j * self.sh / self.dh
    }

    /// The rectangle that is drawn.
    pub open spec fn dest(self) -> Rect {
        Rect { x: self.dx as i32, y: self.dy as i32, w: self.dw as i32, h: self.dh as i32 }
    }
}

/// The sheet's colour for a destination pixel, if the sheet has one there.
pub open spec fn sampled(sheet: Buf, k: Stretch, x: int, y: int) -> Option<u8> {
    let c = k.column(x);
    let r = k.line(y);
    if 0 <= r < sheet.height && 0 <= c < sheet.width {
        Some(sheet.data->U8_0@[r * sheet.width + c])
    } else {
        None
    }
}

pub open spec fn sample_dab(sheet: Buf, k: Stretch, x: int, y: int) -> Seq<Dab> {
    match sampled(sheet, k, x, y) {
        Some(c) => seq![Dab { x, y, src: Some(c) }],
        None => seq![],
    }
}

/// The dabs of one row of a copy, from `x0` up to `x1`.
pub open spec fn copy_row(sheet: Buf, k: Stretch, x0: int, x1: int, y: int) -> Seq<Dab>
    decreases x1 - x0,
{
    if x1 <= x0 {
        seq![]
    } else {
        copy_row(sheet, k, x0, x1 - 1, y) + sample_dab(sheet, k, x1 - 1, y)
    }
}

/// The dabs of the rows of a copy, from `y0` up to `y1`.
pub open spec fn copy_rows(sheet: Buf, k: Stretch, x0: int, x1: int, y0: int, y1: int) -> Seq<Dab>
    decreases y1 - y0,
{
    if y1 <= y0 {
        seq![]
    } else {
        copy_rows(sheet, k, x0, x1, y0, y1 - 1) + copy_row(sheet, k, x0, x1, y1 - 1)
    }
}

/// The dabs of a scaled copy, row by row over the visible part of its
/// destination.
pub open spec fn copy_dabs(sheet: Buf, clip: Rect, k: Stretch) -> Seq<Dab> {
    if !(sheet.data is U8) || k.sw <= 0 || k.sh <= 0 || k.dw <= 0 || k.dh <= 0 {
        seq![]
    } else {
        let d = k.dest().crossed(clip);
        copy_rows(sheet, k, d.x as int, d.right_of(), d.y as int, d.bottom_of())
    }
}

/// A surface after some dabs of a pen.
pub open spec fn inked(s: Canvas, pen: Pen, dabs: Seq<Dab>) -> Canvas {
    painted(s, pen.clip, pen.table@, dabs)
}

/// A sheet that a blit can read.
pub open spec fn readable(sheet: Buf) -> bool {
    sheet.wf() && sheet.width <= i32::MAX && sheet.height <= i32::MAX
}

/// A step along a scaled axis stays within the source.
proof fn lemma_scaled(i: int, n: int, d: int)
    requires
        0 <= i < d <= i32::MAX,
        0 < n <= i32::MAX,
    ensures
        0 <= i * n <= i32::MAX * i32::MAX,
        0 <= i * n / d < n,
{
    assert(0 <= i * n <= i32::MAX * i32::MAX && i * n < n * d) by (nonlinear_arith)
        requires
            0 <= i < d <= i32::MAX,
            0 < n <= i32::MAX,
    ;
    lemma_div_pos_is_pos(i * n, d);
    lemma_fundamental_div_mod(i * n, d);
    lemma_mod_bound(i * n, d);
    let q = i * n / d;
    assert(q < n) by (nonlinear_arith)
        requires
            i * n == d * q + i * n % d,
            0 <= i * n % d,
            i * n < n * d,
            d > 0,
    ;
}

/// The scaled copy, its destination in target coordinates.
#[verifier::rlimit(50)]
fn stretch(
    s: &mut Surface,
    pen: &Pen,
    sheet: &Buf,
    sx: i32,
    sy: i32,
    sw: i32,
    sh: i32,
    dx: i32,
    dy: i32,
    dw: i32,
    dh: i32,
    flip_x: bool,
    flip_y: bool,
)
    requires
        old(s)@.wf(),
        old(s)@.holds(pen.clip),
        pen.table.wf(),
        readable(*sheet),
    ensures
        final(s)@ == inked(
            old(s)@,
            *pen,
            copy_dabs(
                *sheet,
                pen.clip,
                (Stretch {
                    sx: sx as int,
                    sy: sy as int,
                    sw: sw as int,
                    sh: sh as int,
                    dx: dx as int,
                    dy: dy as int,
                    dw: dw as int,
                    dh: dh as int,
                    flip_x,
                    flip_y,
                }),
            ),
        ),
        final(s)@.wf(),
        final(s).width == old(s).width,
        final(s).height == old(s).height,
        *final(final(s).pixels) == *final(old(s).pixels),
{
    let ghost k = Stretch {
        sx: sx as int,
        sy: sy as int,
        sw: sw as int,
        sh: sh as int,
        dx: dx as int,
        dy: dy as int,
        dw: dw as int,
        dh: dh as int,
        flip_x,
        flip_y,
    };
    let ghost start = s@;
    let src = match &sheet.data {
        BufData::U8(v) => v,
        _ => return,
    };
    if sw <= 0 || sh <= 0 || dw <= 0 || dh <= 0 {
        return;
    }
    let dest = Rect::new(dx, dy, dw, dh).intersect(&pen.clip);
    let x0: i64 = dest.x as i64;
    let x1: i64 = dest.right() as i64;
    let y0: i64 = dest.y as i64;
    let y1: i64 = dest.bottom() as i64;
    let total: usize = src.len();
    let sheet_w: i64 = sheet.width as i64;
    let sheet_h: i64 = sheet.height as i64;
    if dest.is_empty() {
        assert(copy_rows(*sheet, k, x0 as int, x1 as int, y0 as int, y1 as int) =~= seq![]);
        return;
    }
    let mut py: i64 = y0;
    while py < y1
        invariant
            y0 <= py <= y1,
            x0 < x1,
            dx <= x0 && x1 <= dx + dw,
            dy <= y0 && y1 <= dy + dh,
            0 < sw && 0 < sh && 0 < dw && 0 < dh,
            k == (Stretch {
                sx: sx as int,
                sy: sy as int,
                sw: sw as int,
                sh: sh as int,
                dx: dx as int,
                dy: dy as int,
                dw: dw as int,
                dh: dh as int,
                flip_x,
                flip_y,
            }),
            readable(*sheet),
            sheet.data is U8,
            *src == sheet.data->U8_0,
            total == src@.len(),
            sheet_w == sheet.width,
            sheet_h == sheet.height,
            s@.wf(),
            s@.holds(pen.clip),
            pen.table.wf(),
            s.width == old(s).width,
            s.height == old(s).height,
            *final(s.pixels) == *final(old(s).pixels),
            s@ == inked(
                start,
                *pen,
                copy_rows(*sheet, k, x0 as int, x1 as int, y0 as int, py as int),
            ),
        decreases y1 - py,
    {
        let j0: i64 = py - dy as i64;
        let j: i64 = if flip_y { dh as i64 - 1 - j0 } else { j0 };
        proof {
            lemma_scaled(j as int, sh as int, dh as int);
        }
        let row: i64 = sy as i64 + j * sh as i64 / dh as i64;
        assert(row == k.line(py as int));
        let ghost before = s@;
        let mut px: i64 = x0;
        assert(painted(before, pen.clip, pen.table@, seq![]) == before);
        while px < x1
            invariant
                x0 <= px <= x1,
                y0 <= py < y1,
                dx <= x0 && x1 <= dx + dw,
                dy <= y0 && y1 <= dy + dh,
                0 < sw && 0 < sh && 0 < dw && 0 < dh,
                k == (Stretch {
                    sx: sx as int,
                    sy: sy as int,
                    sw: sw as int,
                    sh: sh as int,
                    dx: dx as int,
                    dy: dy as int,
                    dw: dw as int,
                    dh: dh as int,
                    flip_x,
                    flip_y,
                }),
                row == k.line(py as int),
                readable(*sheet),
                sheet.data is U8,
                *src == sheet.data->U8_0,
                total == src@.len(),
                sheet_w == sheet.width,
                sheet_h == sheet.height,
                s@.wf(),
                s@.holds(pen.clip),
                pen.table.wf(),
                s.width == old(s).width,
                s.height == old(s).height,
                *final(s.pixels) == *final(old(s).pixels),
                s@ == inked(before, *pen, copy_row(*sheet, k, x0 as int, px as int, py as int)),
            decreases x1 - px,
        {
            let i0: i64 = px - dx as i64;
            let i: i64 = if flip_x { dw as i64 - 1 - i0 } else { i0 };
            proof {
                lemma_scaled(i as int, sw as int, dw as int);
            }
            let col: i64 = sx as i64 + i * sw as i64 / dw as i64;
            assert(col == k.column(px as int));
            let ghost head = copy_row(*sheet, k, x0 as int, px as int, py as int);
            let ghost tail = sample_dab(*sheet, k, px as int, py as int);
            proof {
                lemma_painted_add(before, pen.clip, pen.table@, head, tail);
            }
            if 0 <= row && row < sheet_h && 0 <= col && col < sheet_w {
                proof {
                    lemma_grid(col as int, row as int, sheet_w as int, sheet_h as int);
                    lemma_grid(0, row as int, sheet_w as int, sheet_h as int);
                    lemma_painted_one(s@, pen.clip, pen.table@, tail[0]);
                    assert(tail =~= seq![tail[0]]);
                }
                let c = src[row as usize * sheet_w as usize + col as usize];
                blend(s, pen, px, py, c);
            } else {
                assert(tail =~= seq![]);
                assert(painted(s@, pen.clip, pen.table@, seq![]) == s@);
            }
            px += 1;
        }
        proof {
            lemma_painted_add(
                start,
                pen.clip,
                pen.table@,
                copy_rows(*sheet, k, x0 as int, x1 as int, y0 as int, py as int),
                copy_row(*sheet, k, x0 as int, x1 as int, py as int),
            );
        }
        py += 1;
    }
}

/// A surface after a scaled copy from a sheet.
pub open spec fn sspr_drawn(
    s: Canvas,
    pen: Pen,
    sheet: Buf,
    sx: i32,
    sy: i32,
    sw: i32,
    sh: i32,
    dx: i32,
    dy: i32,
    dw: i32,
    dh: i32,
    flip_x: bool,
    flip_y: bool,
) -> Canvas {
    inked(
        s,
        pen,
        copy_dabs(
            sheet,
            pen.clip,
            Stretch {
                sx: sx as int,
                sy: sy as int,
                sw: sw as int,
                sh: sh as int,
                dx: pen.world_x(dx as int),
                dy: pen.world_y(dy as int),
                dw: dw as int,
                dh: dh as int,
                flip_x,
                flip_y,
            },
        ),
    )
}

/// Scaled, flipped copy through the colour table. Source pixel for
/// destination column `i` is `sx + i * sw / dw`. Work is bounded by the
/// visible destination rectangle.
pub fn sspr(
    s: &mut Surface,
    pen: &Pen,
    sheet: &Buf,
    sx: i32,
    sy: i32,
    sw: i32,
    sh: i32,
    dx: i32,
    dy: i32,
    dw: i32,
    dh: i32,
    flip_x: bool,
    flip_y: bool,
)
    requires
        old(s)@.wf(),
        old(s)@.holds(pen.clip),
        pen.table.wf(),
        readable(*sheet),
    ensures
        final(s)@ == sspr_drawn(
            old(s)@,
            *pen,
            *sheet,
            sx,
            sy,
            sw,
            sh,
            dx,
            dy,
            dw,
            dh,
            flip_x,
            flip_y,
        ),
        final(s)@.wf(),
        final(s).width == old(s).width,
        final(s).height == old(s).height,
        *final(final(s).pixels) == *final(old(s).pixels),
{
    let (wx, wy) = pen.world(dx, dy);
    stretch(s, pen, sheet, sx, sy, sw, sh, wx, wy, dw, dh, flip_x, flip_y)
}

/// The dabs of sprite cell `n`: nothing for a cell that is not on the
/// sheet.
pub open spec fn sprite_dabs(
    sheet: Buf,
    pen: Pen,
    n: int,
    x: int,
    y: int,
    w: int,
    h: int,
    flip_x: bool,
    flip_y: bool,
) -> Seq<Dab> {
    let per_row = sheet.width as int / 8;
    if n < 0 || per_row == 0 || w <= 0 || h <= 0 || n / per_row * 8 >= sheet.height {
        seq![]
    } else {
        copy_dabs(
            sheet,
            pen.clip,
            Stretch {
                sx: n % per_row * 8,
                sy: n / per_row * 8,
                sw: saturated(w * 8),
                sh: saturated(h * 8),
                dx: pen.world_x(x),
                dy: pen.world_y(y),
                dw: saturated(w * 8),
                dh: saturated(h * 8),
                flip_x,
                flip_y,
            },
        )
    }
}

/// A surface after a sprite.
pub open spec fn spr_drawn(
    s: Canvas,
    pen: Pen,
    sheet: Buf,
    n: i32,
    x: i32,
    y: i32,
    w: i32,
    h: i32,
    flip_x: bool,
    flip_y: bool,
) -> Canvas {
    inked(
        s,
        pen,
        sprite_dabs(
            sheet,
            pen,
            n as int,
            x as int,
            y as int,
            w as int,
            h as int,
            flip_x,
            flip_y,
        ),
    )
}

/// Sprite cell `n` of `sheet`, `w` by `h` cells, optionally flipped.
pub fn spr(
    s: &mut Surface,
    pen: &Pen,
    sheet: &Buf,
    n: i32,
    x: i32,
    y: i32,
    w: i32,
    h: i32,
    flip_x: bool,
    flip_y: bool,
)
    requires
        old(s)@.wf(),
        old(s)@.holds(pen.clip),
        pen.table.wf(),
        readable(*sheet),
    ensures
        final(s)@ == spr_drawn(old(s)@, *pen, *sheet, n, x, y, w, h, flip_x, flip_y),
        final(s)@.wf(),
        final(s).width == old(s).width,
        final(s).height == old(s).height,
        *final(final(s).pixels) == *final(old(s).pixels),
{
    let per_row: i32 = (sheet.width / 8) as i32;
    if n < 0 || per_row == 0 || w <= 0 || h <= 0 {
        return;
    }
    let col: i32 = n % per_row;
    let row: i32 = n / per_row;
    if row as i64 * CELL as i64 >= sheet.height as i64 {
        return;
    }
    let sx: i32 = col * CELL;
    let sy: i32 = row * CELL;
    let sw = saturate(w as i64 * CELL as i64);
    let sh = saturate(h as i64 * CELL as i64);
    sspr(s, pen, sheet, sx, sy, sw, sh, x, y, sw, sh, flip_x, flip_y)
}

// ----- maps -----------------------------------------------------------------------------------

/// A map layer as it is drawn: its cells, their tiles, which cells are
/// asked for, and where the first of them lands in target coordinates.
pub struct Layer {
    pub cells: Seq<i16>,
    pub map_w: int,
    pub map_h: int,
    pub tile: int,
    pub cell_x: int,
    pub cell_y: int,
    pub ox: int,
    pub oy: int,
    pub cell_w: int,
    pub cell_h: int,
}

impl Layer {
    /// The first and last column whose tiles touch the clip.
    pub open spec fn first_col(self, clip: Rect) -> int {
        crate::raster::most((clip.x - self.ox) / self.tile, 0)
    }

    pub open spec fn last_col(self, clip: Rect) -> int {
        crate::raster::least((clip.right_of() - 1 - self.ox) / self.tile, self.cell_w - 1)
    }

    pub open spec fn first_row(self, clip: Rect) -> int {
        crate::raster::most((clip.y - self.oy) / self.tile, 0)
    }

    pub open spec fn last_row(self, clip: Rect) -> int {
        crate::raster::least((clip.bottom_of() - 1 - self.oy) / self.tile, self.cell_h - 1)
    }

    /// The tile of a cell, if the cell is on the map and has one.
    pub open spec fn tile_at(self, c: int, r: int) -> Option<int> {
        let mx = self.cell_x + c;
        let my = self.cell_y + r;
        if 0 <= mx < self.map_w && 0 <= my < self.map_h {
            let t = self.cells[my * self.map_w + mx] as int;
            if t < 0 {
                None
            } else {
                Some(t)
            }
        } else {
            None
        }
    }
}

pub open spec fn in_i32(v: int) -> bool {
    i32::MIN <= v <= i32::MAX
}

/// The dabs of one cell's tile.
pub open spec fn cell_dabs(sheet: Buf, clip: Rect, l: Layer, c: int, r: int) -> Seq<Dab> {
    let per_row = sheet.width as int / l.tile;
    let px = l.ox + c * l.tile;
    let py = l.oy + r * l.tile;
    match l.tile_at(c, r) {
        None => seq![],
        Some(t) => if !in_i32(px) || !in_i32(py) {
            seq![]
        } else {
            copy_dabs(
                sheet,
                clip,
                Stretch {
                    sx: t % per_row * l.tile,
                    sy: t / per_row * l.tile,
                    sw: l.tile,
                    sh: l.tile,
                    dx: px,
                    dy: py,
                    dw: l.tile,
                    dh: l.tile,
                    flip_x: false,
                    flip_y: false,
                },
            )
        },
    }
}

/// The dabs of a row's cells, from column `c0` up to `c1`.
pub open spec fn layer_row(sheet: Buf, clip: Rect, l: Layer, c0: int, c1: int, r: int) -> Seq<Dab>
    decreases c1 - c0,
{
    if c1 <= c0 {
        seq![]
    } else {
        layer_row(sheet, clip, l, c0, c1 - 1, r) + cell_dabs(sheet, clip, l, c1 - 1, r)
    }
}

/// The dabs of the rows from `r0` up to `r1`.
pub open spec fn layer_rows(sheet: Buf, clip: Rect, l: Layer, r0: int, r1: int) -> Seq<Dab>
    decreases r1 - r0,
{
    if r1 <= r0 {
        seq![]
    } else {
        layer_rows(sheet, clip, l, r0, r1 - 1) + layer_row(
            sheet,
            clip,
            l,
            l.first_col(clip),
            l.last_col(clip) + 1,
            r1 - 1,
        )
    }
}

/// The dabs of a layer: the cells whose tiles touch the clip, row by row.
pub open spec fn layer_dabs(sheet: Buf, clip: Rect, l: Layer) -> Seq<Dab> {
    if l.tile <= 0 || l.cell_w <= 0 || l.cell_h <= 0 || sheet.width as int / l.tile == 0 {
        seq![]
    } else {
        layer_rows(sheet, clip, l, l.first_row(clip), l.last_row(clip) + 1)
    }
}

/// The tile of one cell.
#[verifier::spinoff_prover]
#[verifier::rlimit(50)]
fn draw_cell(
    s: &mut Surface,
    pen: &Pen,
    sheet: &Buf,
    cells: &Vec<i16>,
    map_w: i32,
    map_h: i32,
    tile: i32,
    cell_x: i32,
    cell_y: i32,
    ox: i32,
    oy: i32,
    cell_w: i32,
    cell_h: i32,
    c: i64,
    r: i64,
)
    requires
        old(s)@.wf(),
        old(s)@.holds(pen.clip),
        pen.table.wf(),
        readable(*sheet),
        tile > 0,
        sheet.width as int / tile as int > 0,
        0 <= c < i32::MAX,
        0 <= r < i32::MAX,
        map_w > 0 && map_h > 0 ==> cells@.len() >= map_w * map_h,
    ensures
        final(s)@ == inked(
            old(s)@,
            *pen,
            cell_dabs(
                *sheet,
                pen.clip,
                (Layer {
                    cells: cells@,
                    map_w: map_w as int,
                    map_h: map_h as int,
                    tile: tile as int,
                    cell_x: cell_x as int,
                    cell_y: cell_y as int,
                    ox: ox as int,
                    oy: oy as int,
                    cell_w: cell_w as int,
                    cell_h: cell_h as int,
                }),
                c as int,
                r as int,
            ),
        ),
        final(s)@.wf(),
        final(s).width == old(s).width,
        final(s).height == old(s).height,
        *final(final(s).pixels) == *final(old(s).pixels),
{
    assert(painted(s@, pen.clip, pen.table@, seq![]) == s@);
    let mx: i64 = cell_x as i64 + c;
    let my: i64 = cell_y as i64 + r;
    if mx < 0 || mx >= map_w as i64 || my < 0 || my >= map_h as i64 {
        return;
    }
    proof {
        assert(cells.len() == cells@.len());
        lemma_grid(mx as int, my as int, map_w as int, map_h as int);
        lemma_grid(0, my as int, map_w as int, map_h as int);
    }
    let t = cells[my as usize * map_w as usize + mx as usize];
    if t < 0 {
        return;
    }
    let per_row: i32 = (sheet.width / tile as u32) as i32;
    let col: i32 = t as i32 % per_row;
    let row: i32 = t as i32 / per_row;
    proof {
        let w = sheet.width as int;
        lemma_fundamental_div_mod(w, tile as int);
        assert(col * tile <= w) by (nonlinear_arith)
            requires
                col < per_row,
                w == tile * per_row + w % tile as int,
                w % tile as int >= 0,
                tile > 0,
        ;
        assert(0 <= col * tile) by (nonlinear_arith)
            requires
                col >= 0,
                tile > 0,
        ;
        assert(0 <= c * tile <= i32::MAX * i32::MAX) by (nonlinear_arith)
            requires
                0 <= c < i32::MAX,
                0 < tile <= i32::MAX,
        ;
        assert(0 <= r * tile <= i32::MAX * i32::MAX) by (nonlinear_arith)
            requires
                0 <= r < i32::MAX,
                0 < tile <= i32::MAX,
        ;
        assert(0 <= row * tile <= 0x7fff * i32::MAX) by (nonlinear_arith)
            requires
                0 <= row <= 0x7fff,
                0 < tile <= i32::MAX,
        ;
    }
    let px: i64 = ox as i64 + c * tile as i64;
    let py: i64 = oy as i64 + r * tile as i64;
    if px < i32::MIN as i64 || px > i32::MAX as i64 || py < i32::MIN as i64 || py
        > i32::MAX as i64 {
        return;
    }
    let tsx: i32 = col * tile;
    let tsy: i64 = row as i64 * tile as i64;
    if tsy > i32::MAX as i64 {
        proof {
            lemma_below(*sheet, pen.clip, tsx as int, tsy as int, tile as int, px as int, py as int);
        }
        return;
    }
    stretch(s, pen, sheet, tsx, tsy as i32, tile, tile, px as i32, py as i32, tile, tile, false, false)
}

/// A tile below the sheet has no dabs.
proof fn lemma_below(sheet: Buf, clip: Rect, sx: int, sy: int, tile: int, px: int, py: int)
    requires
        readable(sheet),
        sy >= sheet.height,
        0 < tile <= i32::MAX,
        in_i32(px) && in_i32(py),
    ensures
        copy_dabs(
            sheet,
            clip,
            (Stretch {
                sx,
                sy,
                sw: tile,
                sh: tile,
                dx: px,
                dy: py,
                dw: tile,
                dh: tile,
                flip_x: false,
                flip_y: false,
            }),
        ) == Seq::<Dab>::empty(),
{
    let k = Stretch {
        sx,
        sy,
        sw: tile,
        sh: tile,
        dx: px,
        dy: py,
        dw: tile,
        dh: tile,
        flip_x: false,
        flip_y: false,
    };
    if sheet.data is U8 {
        let d = k.dest().crossed(clip);
        if !d.vacant() {
            lemma_rows_below(
                sheet,
                k,
                d.x as int,
                d.right_of(),
                d.y as int,
                d.bottom_of(),
            );
        }
    }
}

proof fn lemma_rows_below(sheet: Buf, k: Stretch, x0: int, x1: int, y0: int, y1: int)
    requires
        !k.flip_y,
        k.sy >= sheet.height,
        0 < k.sh <= i32::MAX,
        0 < k.dh <= i32::MAX,
        k.dy <= y0,
        y1 <= k.dy + k.dh,
    ensures
        copy_rows(sheet, k, x0, x1, y0, y1) == Seq::<Dab>::empty(),
    decreases y1 - y0,
{
    if y1 > y0 {
        lemma_rows_below(sheet, k, x0, x1, y0, y1 - 1);
        lemma_scaled(y1 - 1 - k.dy, k.sh, k.dh);
        lemma_row_below(sheet, k, x0, x1, y1 - 1);
        assert(Seq::<Dab>::empty() + Seq::<Dab>::empty() =~= Seq::<Dab>::empty());
    }
}

proof fn lemma_row_below(sheet: Buf, k: Stretch, x0: int, x1: int, y: int)
    requires
        k.line(y) >= sheet.height,
    ensures
        copy_row(sheet, k, x0, x1, y) == Seq::<Dab>::empty(),
    decreases x1 - x0,
{
    if x1 > x0 {
        lemma_row_below(sheet, k, x0, x1 - 1, y);
        assert(Seq::<Dab>::empty() + Seq::<Dab>::empty() =~= Seq::<Dab>::empty());
    }
}

/// A surface after some cells of a map layer.
pub open spec fn map_drawn(
    s: Canvas,
    pen: Pen,
    sheet: Buf,
    cells: Seq<i16>,
    map_w: int,
    map_h: int,
    tile: int,
    cell_x: i32,
    cell_y: i32,
    sx: i32,
    sy: i32,
    cell_w: i32,
    cell_h: i32,
) -> Canvas {
    inked(
        s,
        pen,
        layer_dabs(
            sheet,
            pen.clip,
            Layer {
                cells,
                map_w,
                map_h,
                tile,
                cell_x: cell_x as int,
                cell_y: cell_y as int,
                ox: pen.world_x(sx as int),
                oy: pen.world_y(sy as int),
                cell_w: cell_w as int,
                cell_h: cell_h as int,
            },
        ),
    )
}

/// Draw `cell_w` by `cell_h` cells of a map layer starting at
/// `(cell_x, cell_y)` with its top-left at `(sx, sy)`. Cells are read
/// from `cells`, which the caller has already sliced for the layer with
/// `map_w` columns and `map_h` rows. Negative cells draw nothing.
#[verifier::rlimit(40)]
pub fn map(
    s: &mut Surface,
    pen: &Pen,
    sheet: &Buf,
    cells: &Vec<i16>,
    map_w: i32,
    map_h: i32,
    tile: i32,
    cell_x: i32,
    cell_y: i32,
    sx: i32,
    sy: i32,
    cell_w: i32,
    cell_h: i32,
)
    requires
        old(s)@.wf(),
        old(s)@.holds(pen.clip),
        pen.table.wf(),
        readable(*sheet),
        map_w > 0 && map_h > 0 ==> cells@.len() >= map_w * map_h,
    ensures
        final(s)@ == map_drawn(
            old(s)@,
            *pen,
            *sheet,
            cells@,
            map_w as int,
            map_h as int,
            tile as int,
            cell_x,
            cell_y,
            sx,
            sy,
            cell_w,
            cell_h,
        ),
        final(s)@.wf(),
        final(s).width == old(s).width,
        final(s).height == old(s).height,
        *final(final(s).pixels) == *final(old(s).pixels),
{
    let (ox, oy) = pen.world(sx, sy);
    let ghost l = Layer {
        cells: cells@,
        map_w: map_w as int,
        map_h: map_h as int,
        tile: tile as int,
        cell_x: cell_x as int,
        cell_y: cell_y as int,
        ox: ox as int,
        oy: oy as int,
        cell_w: cell_w as int,
        cell_h: cell_h as int,
    };
    let ghost start = s@;
    assert(painted(s@, pen.clip, pen.table@, seq![]) == s@);
    if tile <= 0 || cell_w <= 0 || cell_h <= 0 || sheet.width / tile as u32 == 0 {
        return;
    }
    let t: i64 = tile as i64;
    let fc = floor_div(pen.clip.x as i64 - ox as i64, t);
    let lc = floor_div(pen.clip.right() as i64 - 1 - ox as i64, t);
    let fr = floor_div(pen.clip.y as i64 - oy as i64, t);
    let lr = floor_div(pen.clip.bottom() as i64 - 1 - oy as i64, t);
    let c0: i64 = if fc > 0 { fc } else { 0 };
    let c1: i64 = if lc < cell_w as i64 - 1 { lc } else { cell_w as i64 - 1 };
    let r0: i64 = if fr > 0 { fr } else { 0 };
    let r1: i64 = if lr < cell_h as i64 - 1 { lr } else { cell_h as i64 - 1 };
    let mut r: i64 = r0;
    while r <= r1
        invariant
            0 <= r0 <= r,
            r <= r1 + 1 || r == r0,
            r1 < cell_h,
            0 <= c0,
            c1 < cell_w,
            c0 == l.first_col(pen.clip),
            c1 == l.last_col(pen.clip),
            tile > 0,
            sheet.width as int / tile as int > 0,
            l == (Layer {
                cells: cells@,
                map_w: map_w as int,
                map_h: map_h as int,
                tile: tile as int,
                cell_x: cell_x as int,
                cell_y: cell_y as int,
                ox: ox as int,
                oy: oy as int,
                cell_w: cell_w as int,
                cell_h: cell_h as int,
            }),
            map_w > 0 && map_h > 0 ==> cells@.len() >= map_w * map_h,
            readable(*sheet),
            s@.wf(),
            s@.holds(pen.clip),
            pen.table.wf(),
            s.width == old(s).width,
            s.height == old(s).height,
            *final(s.pixels) == *final(old(s).pixels),
            s@ == inked(start, *pen, layer_rows(*sheet, pen.clip, l, r0 as int, r as int)),
        decreases r1 + 1 - r,
    {
        let ghost before = s@;
        assert(painted(s@, pen.clip, pen.table@, seq![]) == s@);
        let mut c: i64 = c0;
        while c <= c1
            invariant
                0 <= r < cell_h,
                0 <= c0 <= c,
                c <= c1 + 1 || c == c0,
                c1 < cell_w,
                tile > 0,
                sheet.width as int / tile as int > 0,
                l == (Layer {
                    cells: cells@,
                    map_w: map_w as int,
                    map_h: map_h as int,
                    tile: tile as int,
                    cell_x: cell_x as int,
                    cell_y: cell_y as int,
                    ox: ox as int,
                    oy: oy as int,
                    cell_w: cell_w as int,
                    cell_h: cell_h as int,
                }),
                map_w > 0 && map_h > 0 ==> cells@.len() >= map_w * map_h,
                readable(*sheet),
                s@.wf(),
                s@.holds(pen.clip),
                pen.table.wf(),
                s.width == old(s).width,
                s.height == old(s).height,
                *final(s.pixels) == *final(old(s).pixels),
                s@ == inked(
                    before,
                    *pen,
                    layer_row(*sheet, pen.clip, l, c0 as int, c as int, r as int),
                ),
            decreases c1 + 1 - c,
        {
            proof {
                lemma_painted_add(
                    before,
                    pen.clip,
                    pen.table@,
                    layer_row(*sheet, pen.clip, l, c0 as int, c as int, r as int),
                    cell_dabs(*sheet, pen.clip, l, c as int, r as int),
                );
            }
            draw_cell(
                s,
                pen,
                sheet,
                cells,
                map_w,
                map_h,
                tile,
                cell_x,
                cell_y,
                ox,
                oy,
                cell_w,
                cell_h,
                c,
                r,
            );
            c += 1;
        }
        proof {
            lemma_painted_add(
                start,
                pen.clip,
                pen.table@,
                layer_rows(*sheet, pen.clip, l, r0 as int, r as int),
                layer_row(*sheet, pen.clip, l, c0 as int, c1 + 1, r as int),
            );
            if c0 > c1 {
                assert(layer_row(*sheet, pen.clip, l, c0 as int, c as int, r as int) =~= layer_row(
                    *sheet,
                    pen.clip,
                    l,
                    c0 as int,
                    c1 + 1,
                    r as int,
                ));
            }
        }
        r += 1;
    }
    proof {
        if r0 > r1 {
            assert(layer_rows(*sheet, pen.clip, l, r0 as int, r as int) =~= layer_rows(
                *sheet,
                pen.clip,
                l,
                r0 as int,
                r1 + 1,
            ));
        }
    }
}

// ----- text -----------------------------------------------------------------------------------

/// Whether a glyph's row has ink in a column.
pub open spec fn ink(bits: u8, col: int) -> bool {
    if col == 0 {
        bits as int / 4 % 2 == 1
    } else if col == 1 {
        bits as int / 2 % 2 == 1
    } else {
        bits as int % 2 == 1
    }
}

/// The dabs of a glyph from its `k`-th place on, row by row.
pub open spec fn glyph_dabs(g: Seq<u8>, k: int, x: int, y: int, c: u8) -> Seq<Dab>
    decreases 15 - k,
{
    if k >= 15 {
        seq![]
    } else {
        (if ink(g[k / 3], k % 3) {
            seq![Dab { x: saturated(x + k % 3), y: saturated(y + k / 3), src: Some(c) }]
        } else {
            seq![]
        }) + glyph_dabs(g, k + 1, x, y, c)
    }
}

/// The dabs of a text.
pub open spec fn text_dabs(t: Seq<char>, x: int, y: int, c: u8) -> Seq<Dab>
    decreases t.len(),
{
    if t.len() == 0 {
        seq![]
    } else {
        glyph_dabs(glyph_of(t[0]), 0, x, y, c) + text_dabs(t.skip(1), saturated(x + 4), y, c)
    }
}

/// Where a text of some glyphs ends.
pub open spec fn text_end(x: int, n: nat) -> int
    decreases n,
{
    if n == 0 {
        x
    } else {
        text_end(saturated(x + 4), (n - 1) as nat)
    }
}

fn draw_glyph(s: &mut Surface, pen: &Pen, ch: char, x: i32, y: i32, c: u8)
    requires
        old(s)@.wf(),
        old(s)@.holds(pen.clip),
        pen.table.wf(),
    ensures
        final(s)@ == inked(old(s)@, *pen, glyph_dabs(glyph_of(ch), 0, x as int, y as int, c)),
        final(s)@.wf(),
        final(s).width == old(s).width,
        final(s).height == old(s).height,
        *final(final(s).pixels) == *final(old(s).pixels),
{
    let g = glyph(ch);
    let ghost start = s@;
    let ghost all = glyph_dabs(g@, 0, x as int, y as int, c);
    let mut k: usize = 0;
    while k < 15
        invariant
            k <= 15,
            s@.wf(),
            s@.holds(pen.clip),
            pen.table.wf(),
            s.width == old(s).width,
            s.height == old(s).height,
            *final(s.pixels) == *final(old(s).pixels),
            inked(start, *pen, all) == inked(
                s@,
                *pen,
                glyph_dabs(g@, k as int, x as int, y as int, c),
            ),
        decreases 15 - k,
    {
        let row: usize = k / 3;
        let col: usize = k % 3;
        let bits = g[row];
        let on = if col == 0 {
            bits / 4 % 2 == 1
        } else if col == 1 {
            bits / 2 % 2 == 1
        } else {
            bits % 2 == 1
        };
        let ghost rest = glyph_dabs(g@, k + 1, x as int, y as int, c);
        if on {
            let px = saturate(x as i64 + col as i64);
            let py = saturate(y as i64 + row as i64);
            proof {
                let d = Dab { x: px as int, y: py as int, src: Some(c) };
                lemma_painted_add(s@, pen.clip, pen.table@, seq![d], rest);
                lemma_painted_one(s@, pen.clip, pen.table@, d);
            }
            blend(s, pen, px as i64, py as i64, c);
        } else {
            assert(seq![] + rest =~= rest);
        }
        k += 1;
    }
    assert(painted(s@, pen.clip, pen.table@, seq![]) == s@);
}

/// A surface after a text.
pub open spec fn print_drawn(s: Canvas, pen: Pen, text: Seq<char>, x: i32, y: i32, c: u8) -> Canvas {
    inked(s, pen, text_dabs(text, pen.world_x(x as int), pen.world_y(y as int), c))
}

/// Text with the system font: camera, clip and colour table, no fill
/// pattern. Returns the x after the last glyph in cart coordinates.
pub fn print(s: &mut Surface, pen: &Pen, text: &str, x: i32, y: i32, c: u8) -> (end: i32)
    requires
        old(s)@.wf(),
        old(s)@.holds(pen.clip),
        pen.table.wf(),
    ensures
        end == text_end(x as int, text@.len()),
        final(s)@ == print_drawn(old(s)@, *pen, text@, x, y, c),
        final(s)@.wf(),
        final(s).width == old(s).width,
        final(s).height == old(s).height,
        *final(final(s).pixels) == *final(old(s).pixels),
{
    let (wx, wy) = pen.world(x, y);
    let cs = chars_of(text);
    let ghost start = s@;
    let ghost all = text_dabs(cs@, wx as int, wy as int, c);
    let mut cx: i32 = wx;
    let mut end: i32 = x;
    let mut i: usize = 0;
    assert(cs@.skip(0) =~= cs@);
    while i < cs.len()
        invariant
            i <= cs@.len(),
            s@.wf(),
            s@.holds(pen.clip),
            pen.table.wf(),
            s.width == old(s).width,
            s.height == old(s).height,
            *final(s.pixels) == *final(old(s).pixels),
            text_end(x as int, cs@.len()) == text_end(end as int, (cs@.len() - i) as nat),
            inked(start, *pen, all) == inked(
                s@,
                *pen,
                text_dabs(cs@.skip(i as int), cx as int, wy as int, c),
            ),
        decreases cs.len() - i,
    {
        proof {
            let t = cs@.skip(i as int);
            assert(t[0] == cs@[i as int]);
            assert(t.skip(1) =~= cs@.skip(i + 1));
            lemma_painted_add(
                s@,
                pen.clip,
                pen.table@,
                glyph_dabs(glyph_of(t[0]), 0, cx as int, wy as int, c),
                text_dabs(t.skip(1), saturated(cx + 4), wy as int, c),
            );
        }
        draw_glyph(s, pen, cs[i], cx, wy, c);
        cx = saturate(cx as i64 + GLYPH_WIDTH as i64);
        end = saturate(end as i64 + GLYPH_WIDTH as i64);
        i += 1;
    }
    assert(cs@.skip(i as int) =~= seq![]);
    assert(painted(s@, pen.clip, pen.table@, seq![]) == s@);
    end
}

} // verus!
