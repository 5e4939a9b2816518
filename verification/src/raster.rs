//! The software rasteriser: every primitive written once against a
//! borrowed `u8` surface, with the pen's clip, camera, fill pattern and
//! colour table applied in that order.
//!
//! What a primitive does is said as the sequence of dabs it gives the
//! surface. A dab outside the clip does nothing and is not counted.

use vstd::prelude::*;
use crate::buf::{lemma_grid, lemma_place_of, Buf, BufData, Rect};
use crate::math::{saturate, saturated};
use crate::pen::{law_lookup_is_idempotent, Colour, Fillp, Pen, TableView};

verus! {

/// Circles larger than this are clamped; the loops stay bounded.
pub const MAX_RADIUS: i32 = 0x8000;

/// A borrowed rectangle of colour indices.
pub struct Surface<'a> {
    pub pixels: &'a mut Vec<u8>,
    pub width: i32,
    pub height: i32,
    /// Pixels written or considered after clipping, for the cycle meter:
    /// drawing is priced by pixels touched after clipping. A transparent
    /// source pixel still counts; an off-clip one never does.
    pub touched: u64,
}

/// A surface as plain values.
pub struct Canvas {
    pub pixels: Seq<u8>,
    pub width: int,
    pub height: int,
    pub touched: int,
}

impl<'a> View for Surface<'a> {
    type V = Canvas;

    open spec fn view(&self) -> Canvas {
        Canvas {
            pixels: self.pixels@,
            width: self.width as int,
            height: self.height as int,
            touched: self.touched as int,
        }
    }
}

impl Canvas {
    pub open spec fn wf(self) -> bool {
        &&& 0 <= self.width <= i32::MAX
        &&& 0 <= self.height <= i32::MAX
        &&& self.pixels.len() == self.width * self.height
        &&& 0 <= self.touched <= u64::MAX
    }

    /// A clip inside the surface.
    pub open spec fn holds(self, clip: Rect) -> bool {
        clip.vacant() || (0 <= clip.x && 0 <= clip.y && clip.x + clip.w <= self.width && clip.y
            + clip.h <= self.height)
    }

    pub open spec fn pixel(self, x: int, y: int) -> u8 {
        self.pixels[y * self.width + x]
    }

    /// Some more pixels touched.
    pub open spec fn counted(self, n: int) -> Canvas {
        Canvas {
            touched: if self.touched + n > u64::MAX {
                u64::MAX as int
            } else {
                self.touched + n
            },
            ..self
        }
    }
}

/// What a place is given: a source colour, or nothing where the pattern
/// leaves it out.
pub struct Dab {
    pub x: int,
    pub y: int,
    pub src: Option<u8>,
}

/// A surface after a dab.
pub open spec fn dabbed(c: Canvas, clip: Rect, t: TableView, d: Dab) -> Canvas {
    if !clip.has(d.x, d.y) {
        c
    } else {
        match d.src {
            None => c.counted(1),
            Some(src) => Canvas {
                pixels: c.pixels.update(
                    d.y * c.width + d.x,
                    t.look(src as int, c.pixel(d.x, d.y) as int) as u8,
                ),
                ..c.counted(1)
            },
        }
    }
}

/// A surface after some dabs, one after the other.
pub open spec fn painted(c: Canvas, clip: Rect, t: TableView, dabs: Seq<Dab>) -> Canvas
    decreases dabs.len(),
{
    if dabs.len() == 0 {
        c
    } else {
        dabbed(painted(c, clip, t, dabs.drop_last()), clip, t, dabs.last())
    }
}

/// The dab of a shape at a place: the pattern picks the colour.
pub open spec fn shape_dab(f: Fillp, c: Colour, p: (int, int)) -> Dab {
    Dab {
        x: p.0,
        y: p.1,
        src: match f.picked(p.0, p.1) {
            None => None,
            Some(second) => Some(
                if second {
                    c.secondary
                } else {
                    c.primary
                },
            ),
        },
    }
}

pub open spec fn shape_dabs(f: Fillp, c: Colour, points: Seq<(int, int)>) -> Seq<Dab> {
    Seq::new(points.len(), |i: int| shape_dab(f, c, points[i]))
}

/// A surface after a shape's points.
pub open spec fn drawn(s: Canvas, pen: Pen, points: Seq<(int, int)>, c: Colour) -> Canvas {
    painted(s, pen.clip, pen.table@, shape_dabs(pen.fillp, c, points))
}

// ----- facts of painting ------------------------------------------------------------

pub proof fn lemma_painted_add(c: Canvas, clip: Rect, t: TableView, a: Seq<Dab>, b: Seq<Dab>)
    ensures
        painted(c, clip, t, a + b) == painted(painted(c, clip, t, a), clip, t, b),
    decreases b.len(),
{
    if b.len() == 0 {
        assert(a + b =~= a);
    } else {
        assert((a + b).drop_last() =~= a + b.drop_last());
        lemma_painted_add(c, clip, t, a, b.drop_last());
    }
}

pub proof fn lemma_painted_one(c: Canvas, clip: Rect, t: TableView, d: Dab)
    ensures
        painted(c, clip, t, seq![d]) == dabbed(c, clip, t, d),
{
    assert(seq![d].drop_last() =~= seq![]);
    assert(painted(c, clip, t, seq![]) == c);
}

/// Dabs outside the clip do nothing.
pub proof fn law_off_clip_is_untouched(c: Canvas, clip: Rect, t: TableView, dabs: Seq<Dab>)
    requires
        forall|i: int| 0 <= i < dabs.len() ==> !clip.has((#[trigger] dabs[i]).x, dabs[i].y),
    ensures
        painted(c, clip, t, dabs) == c,
    decreases dabs.len(),
{
    if dabs.len() > 0 {
        let r = dabs.drop_last();
        assert forall|i: int| 0 <= i < r.len() implies !clip.has((#[trigger] r[i]).x, r[i].y) by {
            assert(r[i] == dabs[i]);
        }
        law_off_clip_is_untouched(c, clip, t, r);
    }
}

pub proof fn lemma_painted_wf(c: Canvas, clip: Rect, t: TableView, dabs: Seq<Dab>)
    requires
        c.wf(),
        c.holds(clip),
    ensures
        painted(c, clip, t, dabs).wf(),
        painted(c, clip, t, dabs).width == c.width,
        painted(c, clip, t, dabs).height == c.height,
    decreases dabs.len(),
{
    if dabs.len() > 0 {
        lemma_painted_wf(c, clip, t, dabs.drop_last());
        let d = dabs.last();
        if clip.has(d.x, d.y) {
            lemma_grid(d.x, d.y, c.width, c.height);
        }
    }
}

/// What is left at a place of a source colour and what was there.
pub open spec fn blended(t: TableView, src: Option<u8>, was: u8) -> u8 {
    match src {
        Some(c) => t.look(c as int, was as int) as u8,
        None => was,
    }
}

/// A pixel after a dab.
pub proof fn lemma_dab_pixel(c: Canvas, clip: Rect, t: TableView, d: Dab, x: int, y: int)
    requires
        c.wf(),
        c.holds(clip),
        0 <= x < c.width,
        0 <= y < c.height,
    ensures
        dabbed(c, clip, t, d).pixel(x, y) == (if clip.has(x, y) && d.x == x && d.y == y {
            blended(t, d.src, c.pixel(x, y))
        } else {
            c.pixel(x, y)
        }),
{
    lemma_grid(x, y, c.width, c.height);
    if clip.has(d.x, d.y) {
        lemma_grid(d.x, d.y, c.width, c.height);
    }
}

pub proof fn lemma_drawn_add(
    s: Canvas,
    pen: Pen,
    a: Seq<(int, int)>,
    b: Seq<(int, int)>,
    c: Colour,
)
    ensures
        drawn(s, pen, a + b, c) == drawn(drawn(s, pen, a, c), pen, b, c),
{
    let x = shape_dabs(pen.fillp, c, a);
    let y = shape_dabs(pen.fillp, c, b);
    assert(shape_dabs(pen.fillp, c, a + b) =~= x + y);
    lemma_painted_add(s, pen.clip, pen.table@, x, y);
}

pub proof fn lemma_drawn_none(s: Canvas, pen: Pen, c: Colour)
    ensures
        drawn(s, pen, seq![], c) == s,
{
    assert(shape_dabs(pen.fillp, c, seq![]) =~= seq![]);
}

pub proof fn lemma_drawn_one(s: Canvas, pen: Pen, p: (int, int), c: Colour)
    ensures
        drawn(s, pen, seq![p], c) == dabbed(
            s,
            pen.clip,
            pen.table@,
            shape_dab(pen.fillp, c, p),
        ),
{
    assert(shape_dabs(pen.fillp, c, seq![p]) =~= seq![shape_dab(pen.fillp, c, p)]);
    lemma_painted_one(s, pen.clip, pen.table@, shape_dab(pen.fillp, c, p));
}

pub proof fn lemma_drawn_off(s: Canvas, pen: Pen, points: Seq<(int, int)>, c: Colour)
    requires
        forall|i: int|
            0 <= i < points.len() ==> !pen.clip.has((#[trigger] points[i]).0, points[i].1),
    ensures
        drawn(s, pen, points, c) == s,
{
    let d = shape_dabs(pen.fillp, c, points);
    assert forall|i: int| 0 <= i < d.len() implies !pen.clip.has((#[trigger] d[i]).x, d[i].y) by {
        assert(d[i] == shape_dab(pen.fillp, c, points[i]));
    }
    law_off_clip_is_untouched(s, pen.clip, pen.table@, d);
}

/// A shape inks the points it has inside the clip, each as if it were
/// drawn once, and leaves every other pixel as it was.
pub proof fn law_a_shape_inks_its_points(
    s: Canvas,
    pen: Pen,
    points: Seq<(int, int)>,
    c: Colour,
    x: int,
    y: int,
)
    requires
        s.wf(),
        s.holds(pen.clip),
        pen.table.wf(),
        0 <= x < s.width,
        0 <= y < s.height,
    ensures
        drawn(s, pen, points, c).pixel(x, y) == (if points.contains((x, y)) {
            dabbed(s, pen.clip, pen.table@, shape_dab(pen.fillp, c, (x, y))).pixel(x, y)
        } else {
            s.pixel(x, y)
        }),
    decreases points.len(),
{
    let d = shape_dabs(pen.fillp, c, points);
    lemma_painted_wf(s, pen.clip, pen.table@, d);
    lemma_grid(x, y, s.width, s.height);
    if points.len() == 0 {
        lemma_drawn_none(s, pen, c);
        assert(points =~= seq![]);
    } else {
        let rest = points.drop_last();
        let last = points.last();
        law_a_shape_inks_its_points(s, pen, rest, c, x, y);
        assert(d.drop_last() =~= shape_dabs(pen.fillp, c, rest));
        let before = drawn(s, pen, rest, c);
        lemma_painted_wf(s, pen.clip, pen.table@, d.drop_last());
        let e = shape_dab(pen.fillp, c, last);
        assert(drawn(s, pen, points, c) == dabbed(before, pen.clip, pen.table@, e));
        assert(points =~= rest.push(last));
        if rest.contains((x, y)) {
            let i = rest.index_of((x, y));
            assert(points[i] == (x, y));
        }
        if points.contains((x, y)) && last != (x, y) {
            let i = points.index_of((x, y));
            assert(rest[i] == (x, y));
        }
        if last == (x, y) {
            assert(points[points.len() - 1] == (x, y));
            if pen.clip.has(x, y) && e.src is Some {
                law_lookup_is_idempotent(pen.table@, e.src->0 as int, s.pixel(x, y) as int);
            }
        } else if pen.clip.has(last.0, last.1) {
            lemma_grid(last.0, last.1, s.width, s.height);
        }
    }
}

// ----- surfaces -------------------------------------------------------------------------

impl<'a> Surface<'a> {
    pub fn of(buf: &'a mut Buf) -> (r: Option<Surface<'a>>)
        requires
            old(buf).wf(),
            old(buf).width <= i32::MAX,
            old(buf).height <= i32::MAX,
        ensures
            match r {
                Some(s) => {
                    &&& old(buf).data is U8
                    &&& s@.wf()
                    &&& s@ == (Canvas {
                        pixels: old(buf).data->U8_0@,
                        width: old(buf).width as int,
                        height: old(buf).height as int,
                        touched: 0,
                    })
                    &&& *final(buf) == (Buf { data: BufData::U8(*final(s.pixels)), ..*old(buf) })
                },
                None => !(old(buf).data is U8) && *final(buf) == *old(buf),
            },
    {
        let width = buf.width as i32;
        let height = buf.height as i32;
        match &mut buf.data {
            BufData::U8(v) => Some(Surface { pixels: v, width, height, touched: 0 }),
            _ => None,
        }
    }

    pub fn bounds(&self) -> (r: Rect)
        ensures
            r == (Rect { x: 0, y: 0, w: self.width, h: self.height }),
    {
        Rect::new(0, 0, self.width, self.height)
    }

    fn index(&self, x: i64, y: i64) -> (i: usize)
        requires
            self@.wf(),
            0 <= x < self.width,
            0 <= y < self.height,
        ensures
            i == y * self.width + x,
            i < self@.pixels.len(),
    {
        proof {
            assert(self.pixels.len() == self.pixels@.len());
            lemma_grid(x as int, y as int, self.width as int, self.height as int);
            lemma_grid(0, y as int, self.width as int, self.height as int);
        }
        y as usize * self.width as usize + x as usize
    }

    /// Read a pixel; 0 outside.
    pub fn get(&self, x: i32, y: i32) -> (p: u8)
        requires
            self@.wf(),
        ensures
            p == (if 0 <= x < self.width && 0 <= y < self.height {
                self@.pixel(x as int, y as int)
            } else {
                0
            }),
    {
        if x < 0 || y < 0 || x >= self.width || y >= self.height {
            0
        } else {
            let i = self.index(x as i64, y as i64);
            self.pixels[i]
        }
    }
}

/// One dab.
pub(crate) fn dab(s: &mut Surface, pen: &Pen, x: i64, y: i64, src: Option<u8>)
    requires
        old(s)@.wf(),
        old(s)@.holds(pen.clip),
        pen.table.wf(),
    ensures
        final(s)@ == dabbed(
            old(s)@,
            pen.clip,
            pen.table@,
            (Dab { x: x as int, y: y as int, src }),
        ),
        final(s)@.wf(),
        final(s).width == old(s).width,
        final(s).height == old(s).height,
        *final(final(s).pixels) == *final(old(s).pixels),
{
    if x < pen.clip.x as i64 || y < pen.clip.y as i64 || x >= pen.clip.right() as i64 || y
        >= pen.clip.bottom() as i64 {
        return;
    }
    s.touched = s.touched.saturating_add(1);
    match src {
        None => {},
        Some(c) => {
            let i = s.index(x, y);
            let p = s.pixels[i];
            let q = pen.table.lookup(c, p);
            s.pixels.set(i, q);
        },
    }
}

/// Write one shape pixel: clip, fill pattern, colour table.
fn plot(s: &mut Surface, pen: &Pen, x: i64, y: i64, c: Colour)
    requires
        old(s)@.wf(),
        old(s)@.holds(pen.clip),
        pen.table.wf(),
    ensures
        final(s)@ == dabbed(
            old(s)@,
            pen.clip,
            pen.table@,
            shape_dab(pen.fillp, c, (x as int, y as int)),
        ),
        final(s)@.wf(),
        final(s).width == old(s).width,
        final(s).height == old(s).height,
        *final(final(s).pixels) == *final(old(s).pixels),
{
    if x < i32::MIN as i64 || x > i32::MAX as i64 || y < i32::MIN as i64 || y > i32::MAX as i64 {
        return;
    }
    let src = match pen.fillp.pick(x as i32, y as i32) {
        Some(false) => Some(c.primary),
        Some(true) => Some(c.secondary),
        None => None,
    };
    dab(s, pen, x, y, src)
}

/// Write one sprite or text pixel: clip and colour table, no pattern.
pub(crate) fn blend(s: &mut Surface, pen: &Pen, x: i64, y: i64, src: u8)
    requires
        old(s)@.wf(),
        old(s)@.holds(pen.clip),
        pen.table.wf(),
    ensures
        final(s)@ == dabbed(
            old(s)@,
            pen.clip,
            pen.table@,
            (Dab { x: x as int, y: y as int, src: Some(src) }),
        ),
        final(s)@.wf(),
        final(s).width == old(s).width,
        final(s).height == old(s).height,
        *final(final(s).pixels) == *final(old(s).pixels),
{
    dab(s, pen, x, y, Some(src))
}

// ----- points and spans -------------------------------------------------------------------

/// A surface after a point.
pub open spec fn pset_drawn(s: Canvas, pen: Pen, x: i32, y: i32, c: Colour) -> Canvas {
    drawn(s, pen, seq![(pen.world_x(x as int), pen.world_y(y as int))], c)
}

pub fn pset(s: &mut Surface, pen: &Pen, x: i32, y: i32, c: Colour)
    requires
        old(s)@.wf(),
        old(s)@.holds(pen.clip),
        pen.table.wf(),
    ensures
        final(s)@ == pset_drawn(old(s)@, *pen, x, y, c),
        final(s)@.wf(),
        final(s).width == old(s).width,
        final(s).height == old(s).height,
        *final(final(s).pixels) == *final(old(s).pixels),
{
    let (wx, wy) = pen.world(x, y);
    proof {
        lemma_drawn_one(s@, *pen, (wx as int, wy as int), c);
    }
    plot(s, pen, wx as i64, wy as i64, c)
}

/// Reads the target directly: no camera, no clip.
pub fn pget(s: &Surface, x: i32, y: i32) -> (p: u8)
    requires
        s@.wf(),
    ensures
        p == (if 0 <= x < s.width && 0 <= y < s.height {
            s@.pixel(x as int, y as int)
        } else {
            0
        }),
{
    s.get(x, y)
}

/// The points of a horizontal run, both ends in it.
pub open spec fn row(x0: int, x1: int, y: int) -> Seq<(int, int)> {
    Seq::new(
        (if x1 >= x0 {
            x1 - x0 + 1
        } else {
            0
        }) as nat,
        |i: int| (x0 + i, y),
    )
}

/// The points of a vertical run, both ends in it.
pub open spec fn column(x: int, y0: int, y1: int) -> Seq<(int, int)> {
    Seq::new(
        (if y1 >= y0 {
            y1 - y0 + 1
        } else {
            0
        }) as nat,
        |i: int| (x, y0 + i),
    )
}

/// Horizontal run in target coordinates, inclusive, clipped.
fn hspan(s: &mut Surface, pen: &Pen, x0: i64, x1: i64, y: i64, c: Colour)
    requires
        old(s)@.wf(),
        old(s)@.holds(pen.clip),
        pen.table.wf(),
    ensures
        final(s)@ == drawn(old(s)@, *pen, row(x0 as int, x1 as int, y as int), c),
        final(s)@.wf(),
        final(s).width == old(s).width,
        final(s).height == old(s).height,
        *final(final(s).pixels) == *final(old(s).pixels),
{
    let ghost start = s@;
    if y < pen.clip.y as i64 || y >= pen.clip.bottom() as i64 {
        proof {
            lemma_drawn_off(start, *pen, row(x0 as int, x1 as int, y as int), c);
        }
        return;
    }
    let a: i64 = if x0 > pen.clip.x as i64 { x0 } else { pen.clip.x as i64 };
    let right: i64 = pen.clip.right() as i64 - 1;
    let b: i64 = if x1 < right { x1 } else { right };
    if a > b {
        proof {
            lemma_drawn_off(start, *pen, row(x0 as int, x1 as int, y as int), c);
        }
        return;
    }
    proof {
        lemma_drawn_off(start, *pen, row(x0 as int, a - 1, y as int), c);
    }
    let mut x: i64 = a;
    while x <= b
        invariant
            x0 <= a <= x <= b + 1,
            b <= x1,
            b < i32::MAX,
            s@.wf(),
            s@.holds(pen.clip),
            pen.table.wf(),
            s.width == old(s).width,
            s.height == old(s).height,
            *final(s.pixels) == *final(old(s).pixels),
            s@ == drawn(start, *pen, row(x0 as int, x - 1, y as int), c),
        decreases b + 1 - x,
    {
        proof {
            let p = (x as int, y as int);
            assert(row(x0 as int, x as int, y as int) =~= row(x0 as int, x - 1, y as int) + seq![
                p,
            ]);
            lemma_drawn_add(start, *pen, row(x0 as int, x - 1, y as int), seq![p], c);
            lemma_drawn_one(s@, *pen, p, c);
        }
        plot(s, pen, x, y, c);
        x += 1;
    }
    proof {
        let done = row(x0 as int, b as int, y as int);
        let rest = row(b + 1, x1 as int, y as int);
        assert(row(x0 as int, x1 as int, y as int) =~= done + rest);
        lemma_drawn_add(start, *pen, done, rest, c);
        lemma_drawn_off(s@, *pen, rest, c);
    }
}

fn vspan(s: &mut Surface, pen: &Pen, x: i64, y0: i64, y1: i64, c: Colour)
    requires
        old(s)@.wf(),
        old(s)@.holds(pen.clip),
        pen.table.wf(),
    ensures
        final(s)@ == drawn(old(s)@, *pen, column(x as int, y0 as int, y1 as int), c),
        final(s)@.wf(),
        final(s).width == old(s).width,
        final(s).height == old(s).height,
        *final(final(s).pixels) == *final(old(s).pixels),
{
    let ghost start = s@;
    if x < pen.clip.x as i64 || x >= pen.clip.right() as i64 {
        proof {
            lemma_drawn_off(start, *pen, column(x as int, y0 as int, y1 as int), c);
        }
        return;
    }
    let a: i64 = if y0 > pen.clip.y as i64 { y0 } else { pen.clip.y as i64 };
    let bottom: i64 = pen.clip.bottom() as i64 - 1;
    let b: i64 = if y1 < bottom { y1 } else { bottom };
    if a > b {
        proof {
            lemma_drawn_off(start, *pen, column(x as int, y0 as int, y1 as int), c);
        }
        return;
    }
    proof {
        lemma_drawn_off(start, *pen, column(x as int, y0 as int, a - 1), c);
    }
    let mut y: i64 = a;
    while y <= b
        invariant
            y0 <= a <= y <= b + 1,
            b <= y1,
            b < i32::MAX,
            s@.wf(),
            s@.holds(pen.clip),
            pen.table.wf(),
            s.width == old(s).width,
            s.height == old(s).height,
            *final(s.pixels) == *final(old(s).pixels),
            s@ == drawn(start, *pen, column(x as int, y0 as int, y - 1), c),
        decreases b + 1 - y,
    {
        proof {
            let p = (x as int, y as int);
            assert(column(x as int, y0 as int, y as int) =~= column(x as int, y0 as int, y - 1)
                + seq![p]);
            lemma_drawn_add(start, *pen, column(x as int, y0 as int, y - 1), seq![p], c);
            lemma_drawn_one(s@, *pen, p, c);
        }
        plot(s, pen, x, y, c);
        y += 1;
    }
    proof {
        let done = column(x as int, y0 as int, b as int);
        let rest = column(x as int, b + 1, y1 as int);
        assert(column(x as int, y0 as int, y1 as int) =~= done + rest);
        lemma_drawn_add(start, *pen, done, rest, c);
        lemma_drawn_off(s@, *pen, rest, c);
    }
}

// ----- rectangles -------------------------------------------------------------------------

/// A surface with its clip filled.
pub open spec fn cleared(s: Canvas, clip: Rect, c: u8) -> Canvas {
    let r = clip.crossed(
        (Rect { x: 0, y: 0, w: s.width as i32, h: s.height as i32 }),
    );
    Canvas {
        pixels: Seq::new(
            s.pixels.len(),
            |i: int|
                if r.has(i % s.width, i / s.width) {
                    (c % 128) as u8
                } else {
                    s.pixels[i]
                },
        ),
        ..s.counted(r.w * r.h)
    }
}

/// Fill the clip rectangle directly, bypassing the table and pattern.
#[verifier::spinoff_prover]
#[verifier::rlimit(50)]
pub fn cls(s: &mut Surface, pen: &Pen, c: u8)
    requires
        old(s)@.wf(),
    ensures
        final(s)@ == cleared(old(s)@, pen.clip, c),
        final(s)@.wf(),
        final(s).width == old(s).width,
        final(s).height == old(s).height,
        *final(final(s).pixels) == *final(old(s).pixels),
{
    let r = pen.clip.intersect(&s.bounds());
    let ghost start = s@;
    let ghost want = cleared(start, pen.clip, c);
    let total: usize = s.pixels.len();
    if r.is_empty() {
        proof {
            assert(r == Rect::empty_rect());
            assert(r.w * r.h == 0) by (nonlinear_arith)
                requires
                    r.w == 0,
            ;
            assert(want.pixels =~= start.pixels);
            assert(want == start);
        }
        return;
    }
    let ink: u8 = c % 128;
    let mut y: i64 = r.y as i64;
    let bottom: i64 = r.bottom() as i64;
    let right: i64 = r.right() as i64;
    proof {
        assert forall|i: int| 0 <= i < total implies #[trigger] s.pixels@[i] == (if i / start.width
            < y {
            want.pixels[i]
        } else {
            start.pixels[i]
        }) by {
            lemma_place_of(i, start.width, start.height);
        }
    }
    while y < bottom
        invariant
            r == pen.clip.crossed(
                (Rect { x: 0, y: 0, w: start.width as i32, h: start.height as i32 }),
            ),
            !r.vacant(),
            ink == c % 128,
            start == old(s)@,
            start.wf(),
            want == cleared(start, pen.clip, c),
            0 <= r.x && right == r.right_of() && right <= start.width,
            0 <= r.y && bottom == r.bottom_of() && bottom <= start.height,
            r.y <= y <= bottom,
            s@.wf(),
            s.width == old(s).width,
            s.height == old(s).height,
            s.touched == old(s).touched,
            total == s.pixels@.len(),
            want.pixels.len() == total,
            start.pixels.len() == total,
            *final(s.pixels) == *final(old(s).pixels),
            forall|i: int|
                0 <= i < total ==> #[trigger] s.pixels@[i] == (if i / start.width < y {
                    want.pixels[i]
                } else {
                    start.pixels[i]
                }),
        decreases bottom - y,
    {
        let mut x: i64 = r.x as i64;
        proof {
            assert forall|i: int| 0 <= i < total implies #[trigger] s.pixels@[i] == (if i
                / start.width < y || (i / start.width == y && i % start.width < x) {
                want.pixels[i]
            } else {
                start.pixels[i]
            }) by {
                lemma_place_of(i, start.width, start.height);
            }
        }
        while x < right
            invariant
                r == pen.clip.crossed(
                    (Rect { x: 0, y: 0, w: start.width as i32, h: start.height as i32 }),
                ),
                ink == c % 128,
                start == old(s)@,
                start.wf(),
                want == cleared(start, pen.clip, c),
                0 <= r.x && right == r.right_of() && right <= start.width,
                0 <= r.y && bottom == r.bottom_of() && bottom <= start.height,
                r.y <= y < bottom,
                r.x <= x <= right,
                s@.wf(),
                s.width == old(s).width,
                s.height == old(s).height,
                s.touched == old(s).touched,
                total == s.pixels@.len(),
                want.pixels.len() == total,
                start.pixels.len() == total,
                *final(s.pixels) == *final(old(s).pixels),
                forall|i: int|
                    0 <= i < total ==> #[trigger] s.pixels@[i] == (if i / start.width < y || (i
                        / start.width == y && i % start.width < x) {
                        want.pixels[i]
                    } else {
                        start.pixels[i]
                    }),
            decreases right - x,
        {
            let d = s.index(x, y);
            let ghost before = s.pixels@;
            s.pixels.set(d, ink);
            proof {
                lemma_grid(x as int, y as int, start.width, start.height);
                assert forall|i: int| 0 <= i < total implies #[trigger] s.pixels@[i] == (if i
                    / start.width < y || (i / start.width == y && i % start.width < x + 1) {
                    want.pixels[i]
                } else {
                    start.pixels[i]
                }) by {
                    lemma_place_of(i, start.width, start.height);
                    if i != d {
                        assert(s.pixels@[i] == before[i]);
                    }
                }
            }
            x += 1;
        }
        proof {
            assert forall|i: int| 0 <= i < total implies #[trigger] s.pixels@[i] == (if i
                / start.width < y + 1 {
                want.pixels[i]
            } else {
                start.pixels[i]
            }) by {
                lemma_place_of(i, start.width, start.height);
            }
        }
        y += 1;
    }
    proof {
        assert forall|i: int| 0 <= i < total implies #[trigger] s.pixels@[i] == want.pixels[i] by {
            lemma_place_of(i, start.width, start.height);
        }
        assert(s.pixels@ =~= want.pixels);
        assert(0 <= r.w * r.h <= 0x7fff_ffff * 0x7fff_ffff) by (nonlinear_arith)
            requires
                0 <= r.w <= 0x7fff_ffff,
                0 <= r.h <= 0x7fff_ffff,
        ;
    }
    s.touched = s.touched.saturating_add(r.w as u64 * r.h as u64);
}

/// The points of a filled rectangle, row by row.
pub open spec fn rows(x0: int, x1: int, y0: int, y1: int) -> Seq<(int, int)>
    decreases y1 - y0 + 1,
{
    if y1 < y0 {
        seq![]
    } else {
        rows(x0, x1, y0, y1 - 1) + row(x0, x1, y1)
    }
}

pub open spec fn least(a: int, b: int) -> int {
    if a < b {
        a
    } else {
        b
    }
}

pub open spec fn most(a: int, b: int) -> int {
    if a > b {
        a
    } else {
        b
    }
}

/// The rectangle between two corners. Its sides are kept within 32 bits.
pub open spec fn between(x0: int, y0: int, x1: int, y1: int) -> Rect {
    Rect {
        x: least(x0, x1) as i32,
        y: least(y0, y1) as i32,
        w: saturated(saturated(most(x0, x1) - least(x0, x1)) + 1) as i32,
        h: saturated(saturated(most(y0, y1) - least(y0, y1)) + 1) as i32,
    }
}

proof fn lemma_rows_off(s: Canvas, pen: Pen, x0: int, x1: int, y0: int, y1: int, c: Colour)
    requires
        forall|x: int, y: int| y0 <= y <= y1 ==> !#[trigger] pen.clip.has(x, y),
    ensures
        drawn(s, pen, rows(x0, x1, y0, y1), c) == s,
    decreases y1 - y0 + 1,
{
    if y1 < y0 {
        lemma_drawn_none(s, pen, c);
    } else {
        lemma_rows_off(s, pen, x0, x1, y0, y1 - 1, c);
        lemma_drawn_add(s, pen, rows(x0, x1, y0, y1 - 1), row(x0, x1, y1), c);
        lemma_drawn_off(s, pen, row(x0, x1, y1), c);
    }
}

proof fn lemma_rows_split(x0: int, x1: int, y0: int, m: int, y1: int)
    requires
        y0 <= m + 1,
        m <= y1,
    ensures
        rows(x0, x1, y0, y1) == rows(x0, x1, y0, m) + rows(x0, x1, m + 1, y1),
    decreases y1 - m,
{
    if m < y1 {
        lemma_rows_split(x0, x1, y0, m, y1 - 1);
        assert(rows(x0, x1, y0, y1) =~= rows(x0, x1, y0, m) + (rows(x0, x1, m + 1, y1 - 1) + row(
            x0,
            x1,
            y1,
        )));
    } else {
        assert(rows(x0, x1, y0, y1) =~= rows(x0, x1, y0, m) + rows(x0, x1, m + 1, y1));
    }
}

/// A surface after a filled rectangle.
pub open spec fn rectfill_drawn(
    s: Canvas,
    pen: Pen,
    x0: i32,
    y0: i32,
    x1: i32,
    y1: i32,
    c: Colour,
) -> Canvas {
    let r = between(
        pen.world_x(x0 as int),
        pen.world_y(y0 as int),
        pen.world_x(x1 as int),
        pen.world_y(y1 as int),
    );
    drawn(s, pen, rows(r.x as int, r.right_of() - 1, r.y as int, r.bottom_of() - 1), c)
}

#[verifier::spinoff_prover]
#[verifier::rlimit(50)]
pub fn rectfill(s: &mut Surface, pen: &Pen, x0: i32, y0: i32, x1: i32, y1: i32, c: Colour)
    requires
        old(s)@.wf(),
        old(s)@.holds(pen.clip),
        pen.table.wf(),
    ensures
        final(s)@ == rectfill_drawn(old(s)@, *pen, x0, y0, x1, y1, c),
        final(s)@.wf(),
        final(s).width == old(s).width,
        final(s).height == old(s).height,
        *final(final(s).pixels) == *final(old(s).pixels),
{
    let (ax, ay) = pen.world(x0, y0);
    let (ex, ey) = pen.world(x1, y1);
    let left = if ax < ex { ax } else { ex };
    let right = if ax > ex { ax } else { ex };
    let top = if ay < ey { ay } else { ey };
    let bottom = if ay > ey { ay } else { ey };
    let w = saturate(saturate(right as i64 - left as i64) as i64 + 1);
    let h = saturate(saturate(bottom as i64 - top as i64) as i64 + 1);
    let full = Rect::new(left, top, w, h);
    let ghost start = s@;
    let fx0: i64 = full.x as i64;
    let fx1: i64 = full.right() as i64 - 1;
    let fy0: i64 = full.y as i64;
    let fy1: i64 = full.bottom() as i64 - 1;
    let r = full.intersect(&pen.clip);
    if r.is_empty() {
        proof {
            lemma_rows_apart(start, *pen, fx0 as int, fx1 as int, fy0 as int, fy1 as int, c);
        }
        return;
    }
    let ry0: i64 = r.y as i64;
    let ry1: i64 = r.bottom() as i64 - 1;
    proof {
        lemma_rows_off(start, *pen, fx0 as int, fx1 as int, fy0 as int, ry0 - 1, c);
    }
    let mut y: i64 = ry0;
    while y <= ry1
        invariant
            fy0 <= ry0 <= y <= ry1 + 1,
            ry1 <= fy1,
            ry1 < i32::MAX,
            s@.wf(),
            s@.holds(pen.clip),
            pen.table.wf(),
            s.width == old(s).width,
            s.height == old(s).height,
            *final(s.pixels) == *final(old(s).pixels),
            s@ == drawn(start, *pen, rows(fx0 as int, fx1 as int, fy0 as int, y - 1), c),
        decreases ry1 + 1 - y,
    {
        proof {
            lemma_drawn_add(
                start,
                *pen,
                rows(fx0 as int, fx1 as int, fy0 as int, y - 1),
                row(fx0 as int, fx1 as int, y as int),
                c,
            );
        }
        hspan(s, pen, fx0, fx1, y, c);
        y += 1;
    }
    proof {
        lemma_rows_split(fx0 as int, fx1 as int, fy0 as int, ry1 as int, fy1 as int);
        lemma_drawn_add(
            start,
            *pen,
            rows(fx0 as int, fx1 as int, fy0 as int, ry1 as int),
            rows(fx0 as int, fx1 as int, ry1 + 1, fy1 as int),
            c,
        );
        lemma_rows_off(s@, *pen, fx0 as int, fx1 as int, ry1 + 1, fy1 as int, c);
    }
}

/// Rows that the clip misses.
proof fn lemma_rows_apart(s: Canvas, pen: Pen, x0: int, x1: int, y0: int, y1: int, c: Colour)
    requires
        forall|x: int, y: int| x0 <= x <= x1 && y0 <= y <= y1 ==> !#[trigger] pen.clip.has(x, y),
    ensures
        drawn(s, pen, rows(x0, x1, y0, y1), c) == s,
    decreases y1 - y0 + 1,
{
    if y1 < y0 {
        lemma_drawn_none(s, pen, c);
    } else {
        lemma_rows_apart(s, pen, x0, x1, y0, y1 - 1, c);
        lemma_drawn_add(s, pen, rows(x0, x1, y0, y1 - 1), row(x0, x1, y1), c);
        lemma_drawn_off(s, pen, row(x0, x1, y1), c);
    }
}

/// The points of a rectangle's outline: top, bottom, left and right, each
/// corner once.
pub open spec fn outline(x0: int, y0: int, x1: int, y1: int) -> Seq<(int, int)> {
    let left = least(x0, x1);
    let right = most(x0, x1);
    let top = least(y0, y1);
    let bottom = most(y0, y1);
    row(left, right, top) + (if bottom != top {
        row(left, right, bottom)
    } else {
        seq![]
    }) + column(left, top + 1, bottom - 1) + (if right != left {
        column(right, top + 1, bottom - 1)
    } else {
        seq![]
    })
}

/// A surface after a rectangle's outline.
pub open spec fn rect_drawn(
    s: Canvas,
    pen: Pen,
    x0: i32,
    y0: i32,
    x1: i32,
    y1: i32,
    c: Colour,
) -> Canvas {
    drawn(
        s,
        pen,
        outline(
            pen.world_x(x0 as int),
            pen.world_y(y0 as int),
            pen.world_x(x1 as int),
            pen.world_y(y1 as int),
        ),
        c,
    )
}

pub fn rect(s: &mut Surface, pen: &Pen, x0: i32, y0: i32, x1: i32, y1: i32, c: Colour)
    requires
        old(s)@.wf(),
        old(s)@.holds(pen.clip),
        pen.table.wf(),
    ensures
        final(s)@ == rect_drawn(old(s)@, *pen, x0, y0, x1, y1, c),
        final(s)@.wf(),
        final(s).width == old(s).width,
        final(s).height == old(s).height,
        *final(final(s).pixels) == *final(old(s).pixels),
{
    let (ax, ay) = pen.world(x0, y0);
    let (ex, ey) = pen.world(x1, y1);
    let left: i64 = if ax < ex { ax as i64 } else { ex as i64 };
    let right: i64 = if ax > ex { ax as i64 } else { ex as i64 };
    let top: i64 = if ay < ey { ay as i64 } else { ey as i64 };
    let bottom: i64 = if ay > ey { ay as i64 } else { ey as i64 };
    let ghost start = s@;
    let ghost a = row(left as int, right as int, top as int);
    let ghost b = if bottom != top {
        row(left as int, right as int, bottom as int)
    } else {
        seq![]
    };
    let ghost l = column(left as int, top + 1, bottom - 1);
    let ghost r = if right != left {
        column(right as int, top + 1, bottom - 1)
    } else {
        seq![]
    };
    hspan(s, pen, left, right, top, c);
    let ghost one = s@;
    if bottom != top {
        hspan(s, pen, left, right, bottom, c);
    }
    let ghost two = s@;
    if bottom > top + 1 {
        vspan(s, pen, left, top + 1, bottom - 1, c);
        if right != left {
            vspan(s, pen, right, top + 1, bottom - 1, c);
        }
    }
    proof {
        lemma_drawn_none(one, *pen, c);
        lemma_drawn_none(two, *pen, c);
        let three = drawn(two, *pen, l, c);
        lemma_drawn_none(three, *pen, c);
        lemma_drawn_add(start, *pen, a, b, c);
        lemma_drawn_add(start, *pen, a + b, l, c);
        lemma_drawn_add(start, *pen, a + b + l, r, c);
        if bottom <= top + 1 {
            assert(l =~= seq![]);
            assert(r =~= seq![]);
        }
    }
}

// ----- lines ----------------------------------------------------------------------------------

/// A quotient rounded to nearest, halves away from zero.
pub open spec fn nearest(n: int, d: int) -> int {
    if n >= 0 {
        (n + d / 2) / d
    } else {
        -((-n + d / 2) / d)
    }
}

fn round_div(n: i128, d: i128) -> (r: i128)
    requires
        0 < d <= 0x1_0000_0000,
        -0x1_0000_0000_0000_0000 <= n <= 0x1_0000_0000_0000_0000,
    ensures
        r == nearest(n as int, d as int),
{
    if n >= 0 {
        (n + d / 2) / d
    } else {
        -((-n + d / 2) / d)
    }
}

pub open spec fn magnitude(n: int) -> int {
    if n < 0 {
        -n
    } else {
        n
    }
}

/// How many steps a line takes along its longer axis.
pub open spec fn steps_of(x0: int, y0: int, x1: int, y1: int) -> int {
    most(magnitude(x1 - x0), magnitude(y1 - y0))
}

/// The points of a line, both ends in it: one for each step along the
/// longer axis, the other axis rounded to nearest.
pub open spec fn line_points(x0: int, y0: int, x1: int, y1: int) -> Seq<(int, int)> {
    let n = steps_of(x0, y0, x1, y1);
    if n == 0 {
        seq![(x0, y0)]
    } else {
        Seq::new(
            (n + 1) as nat,
            |i: int| (x0 + nearest((x1 - x0) * i, n), y0 + nearest((y1 - y0) * i, n)),
        )
    }
}

/// Along the longer axis a line moves by one pixel a step.
pub(crate) proof fn lemma_major(d: int, n: int, i: int)
    requires
        n > 0,
        d == n || d == -n,
        0 <= i,
    ensures
        nearest(d * i, n) == (if d > 0 {
            i
        } else {
            -i
        }),
{
    let h = n / 2;
    assert(n * i >= 0) by (nonlinear_arith)
        requires
            n > 0,
            i >= 0,
    ;
    assert(n * i == i * n) by (nonlinear_arith);
    vstd::arithmetic::div_mod::lemma_fundamental_div_mod_converse(n * i + h, n, i, h);
    if d < 0 {
        assert(d * i == -(n * i)) by (nonlinear_arith)
            requires
                d == -n,
        ;
        if i == 0 {
            assert(d * i == 0) by (nonlinear_arith)
                requires
                    i == 0,
            ;
            assert(n * i == 0) by (nonlinear_arith)
                requires
                    i == 0,
            ;
        } else {
            assert(n * i > 0) by (nonlinear_arith)
                requires
                    n > 0,
                    i > 0,
            ;
        }
    }
}

/// Along the shorter axis it stays between its ends.
proof fn lemma_minor(d: int, n: int, i: int)
    requires
        n > 0,
        -n <= d <= n,
        0 <= i <= n,
    ensures
        -i <= nearest(d * i, n) <= i,
        magnitude(d * i) <= n * i,
        0 <= n * i <= n * n,
{
    let m = magnitude(d * i);
    let h = n / 2;
    assert(m <= n * i && 0 <= n * i <= n * n) by (nonlinear_arith)
        requires
            m == d * i || m == -(d * i),
            -n <= d <= n,
            0 <= i <= n,
    ;
    assert(n * i == i * n) by (nonlinear_arith);
    vstd::arithmetic::div_mod::lemma_fundamental_div_mod_converse(n * i + h, n, i, h);
    vstd::arithmetic::div_mod::lemma_div_is_ordered(m + h, n * i + h, n);
    vstd::arithmetic::div_mod::lemma_div_pos_is_pos(m + h, n);
}

/// A surface after a line.
pub open spec fn line_drawn(
    s: Canvas,
    pen: Pen,
    x0: i32,
    y0: i32,
    x1: i32,
    y1: i32,
    c: Colour,
) -> Canvas {
    drawn(
        s,
        pen,
        line_points(
            pen.world_x(x0 as int),
            pen.world_y(y0 as int),
            pen.world_x(x1 as int),
            pen.world_y(y1 as int),
        ),
        c,
    )
}

/// A DDA line, inclusive of both ends, walking only the part of the
/// major axis inside the clip so a long line costs the clip, not its
/// length.
#[verifier::rlimit(60)]
pub fn line(s: &mut Surface, pen: &Pen, x0: i32, y0: i32, x1: i32, y1: i32, c: Colour)
    requires
        old(s)@.wf(),
        old(s)@.holds(pen.clip),
        pen.table.wf(),
    ensures
        final(s)@ == line_drawn(old(s)@, *pen, x0, y0, x1, y1, c),
        final(s)@.wf(),
        final(s).width == old(s).width,
        final(s).height == old(s).height,
        *final(final(s).pixels) == *final(old(s).pixels),
{
    let (ax, ay) = pen.world(x0, y0);
    let (ex, ey) = pen.world(x1, y1);
    let dx: i64 = ex as i64 - ax as i64;
    let dy: i64 = ey as i64 - ay as i64;
    let adx: i64 = if dx < 0 { -dx } else { dx };
    let ady: i64 = if dy < 0 { -dy } else { dy };
    let steps: i64 = if adx > ady { adx } else { ady };
    let ghost start = s@;
    let ghost points = line_points(ax as int, ay as int, ex as int, ey as int);
    if steps == 0 {
        proof {
            lemma_drawn_one(s@, *pen, (ax as int, ay as int), c);
        }
        plot(s, pen, ax as i64, ay as i64, c);
        return;
    }
    let across = adx >= ady;
    let (major0, majord, lo, hi) = if across {
        (ax as i64, dx, pen.clip.x as i64, pen.clip.right() as i64 - 1)
    } else {
        (ay as i64, dy, pen.clip.y as i64, pen.clip.bottom() as i64 - 1)
    };
    let (a, b) = if majord > 0 { (lo - major0, hi - major0) } else { (major0 - hi, major0 - lo) };
    let i0: i64 = if a > 0 { a } else { 0 };
    let i1: i64 = if b < steps { b } else { steps };
    proof {
        assert forall|i: int| 0 <= i < points.len() && (i < i0 || i > i1) implies !pen.clip.has(
            (#[trigger] points[i]).0,
            points[i].1,
        ) by {
            lemma_major(majord as int, steps as int, i);
        }
    }
    if i0 > i1 {
        proof {
            lemma_drawn_off(start, *pen, points, c);
        }
        return;
    }
    proof {
        lemma_drawn_off(start, *pen, points.take(i0 as int), c);
    }
    let mut i: i64 = i0;
    while i <= i1
        invariant
            0 <= i0 <= i <= i1 + 1,
            i1 <= steps,
            0 < steps <= 0x1_0000_0000,
            dx == ex - ax,
            dy == ey - ay,
            -steps <= dx <= steps,
            -steps <= dy <= steps,
            steps == steps_of(ax as int, ay as int, ex as int, ey as int),
            points == line_points(ax as int, ay as int, ex as int, ey as int),
            points.len() == steps + 1,
            s@.wf(),
            s@.holds(pen.clip),
            pen.table.wf(),
            s.width == old(s).width,
            s.height == old(s).height,
            *final(s.pixels) == *final(old(s).pixels),
            s@ == drawn(start, *pen, points.take(i as int), c),
        decreases i1 + 1 - i,
    {
        proof {
            lemma_minor(dx as int, steps as int, i as int);
            lemma_minor(dy as int, steps as int, i as int);
            assert(steps * steps <= 0x1_0000_0000 * 0x1_0000_0000) by (nonlinear_arith)
                requires
                    0 < steps <= 0x1_0000_0000,
            ;
        }
        let x: i64 = ax as i64 + round_div(dx as i128 * i as i128, steps as i128) as i64;
        let y: i64 = ay as i64 + round_div(dy as i128 * i as i128, steps as i128) as i64;
        proof {
            let p = (x as int, y as int);
            assert(points[i as int] == p);
            assert(points.take(i + 1) =~= points.take(i as int) + seq![p]);
            lemma_drawn_add(start, *pen, points.take(i as int), seq![p], c);
            lemma_drawn_one(s@, *pen, p, c);
        }
        plot(s, pen, x, y, c);
        i += 1;
    }
    proof {
        let rest = points.skip(i1 + 1);
        assert(points =~= points.take(i1 + 1) + rest);
        lemma_drawn_add(start, *pen, points.take(i1 + 1), rest, c);
        assert forall|k: int| 0 <= k < rest.len() implies !pen.clip.has(
            (#[trigger] rest[k]).0,
            rest[k].1,
        ) by {
            assert(rest[k] == points[i1 + 1 + k]);
        }
        lemma_drawn_off(s@, *pen, rest, c);
    }
}

// ----- circles --------------------------------------------------------------------------------

/// The radius that is drawn.
pub open spec fn radius(r: int) -> int {
    if r < 0 {
        0
    } else if r > MAX_RADIUS {
        MAX_RADIUS as int
    } else {
        r
    }
}

fn radius_of(r: i32) -> (x: i32)
    ensures
        x == radius(r as int),
{
    if r < 0 {
        0
    } else if r > MAX_RADIUS {
        MAX_RADIUS
    } else {
        r
    }
}

/// One step of the midpoint walk: down one row, and one column in where
/// the error says so.
pub open spec fn walk(x: int, y: int, err: int) -> (int, int, int) {
    if err < 0 {
        (x, y + 1, err + 2 * (y + 1) + 1)
    } else {
        (x - 1, y + 1, err + 2 * ((y + 1) - (x - 1)) + 1)
    }
}

/// The eight points that mirror one point of a circle.
pub open spec fn eight(cx: int, cy: int, x: int, y: int) -> Seq<(int, int)> {
    seq![
        (cx + x, cy + y),
        (cx - x, cy + y),
        (cx + x, cy - y),
        (cx - x, cy - y),
        (cx + y, cy + x),
        (cx - y, cy + x),
        (cx + y, cy - x),
        (cx - y, cy - x),
    ]
}

/// The points of a midpoint circle from a step of the walk on.
pub open spec fn circle_from(cx: int, cy: int, x: int, y: int, err: int) -> Seq<(int, int)>
    decreases x - y + 2,
{
    if x < y {
        seq![]
    } else {
        let (x1, y1, err1) = walk(x, y, err);
        eight(cx, cy, x, y) + circle_from(cx, cy, x1, y1, err1)
    }
}

/// Whether the box around a circle meets the clip.
pub open spec fn in_view(clip: Rect, cx: int, cy: int, r: int) -> bool {
    let side = saturated(saturated(r * 2) + 1);
    !(Rect {
        x: saturated(cx - r) as i32,
        y: saturated(cy - r) as i32,
        w: side as i32,
        h: side as i32,
    }).crossed(clip).vacant()
}

/// The points of a circle that is in view.
pub open spec fn circle_points(clip: Rect, cx: int, cy: int, r: int) -> Seq<(int, int)> {
    if r == 0 {
        seq![(cx, cy)]
    } else if !in_view(clip, cx, cy, r) {
        seq![]
    } else {
        circle_from(cx, cy, r, 0, 1 - r)
    }
}

fn circle_visible(pen: &Pen, cx: i32, cy: i32, r: i32) -> (v: bool)
    requires
        0 <= r <= MAX_RADIUS,
    ensures
        v == in_view(pen.clip, cx as int, cy as int, r as int),
{
    let side = saturate(saturate(r as i64 * 2) as i64 + 1);
    let bbox = Rect::new(
        saturate(cx as i64 - r as i64),
        saturate(cy as i64 - r as i64),
        side,
        side,
    );
    !bbox.intersect(&pen.clip).is_empty()
}

/// The eight points of one step.
fn plot_eight(s: &mut Surface, pen: &Pen, cx: i64, cy: i64, x: i64, y: i64, c: Colour)
    requires
        old(s)@.wf(),
        old(s)@.holds(pen.clip),
        pen.table.wf(),
        i32::MIN <= cx <= i32::MAX,
        i32::MIN <= cy <= i32::MAX,
        -1 <= x <= MAX_RADIUS + 1,
        -1 <= y <= MAX_RADIUS + 1,
    ensures
        final(s)@ == drawn(old(s)@, *pen, eight(cx as int, cy as int, x as int, y as int), c),
        final(s)@.wf(),
        final(s).width == old(s).width,
        final(s).height == old(s).height,
        *final(final(s).pixels) == *final(old(s).pixels),
{
    let ghost start = s@;
    let ghost all = eight(cx as int, cy as int, x as int, y as int);
    let mut i: usize = 0;
    proof {
        lemma_drawn_none(start, *pen, c);
        assert(all.take(0) =~= seq![]);
    }
    while i < 8
        invariant
            i <= 8,
            i32::MIN <= cx <= i32::MAX,
            i32::MIN <= cy <= i32::MAX,
            -1 <= x <= MAX_RADIUS + 1,
            -1 <= y <= MAX_RADIUS + 1,
            all == eight(cx as int, cy as int, x as int, y as int),
            s@.wf(),
            s@.holds(pen.clip),
            pen.table.wf(),
            s.width == old(s).width,
            s.height == old(s).height,
            *final(s.pixels) == *final(old(s).pixels),
            s@ == drawn(start, *pen, all.take(i as int), c),
        decreases 8 - i,
    {
        let (a, b) = if i < 4 { (x, y) } else { (y, x) };
        let px: i64 = if i % 2 == 0 { cx + a } else { cx - a };
        let py: i64 = if i % 4 < 2 { cy + b } else { cy - b };
        proof {
            let p = (px as int, py as int);
            assert(i == 0 || i == 1 || i == 2 || i == 3 || i == 4 || i == 5 || i == 6 || i == 7);
            assert(all[i as int] == p);
            assert(all.take(i + 1) =~= all.take(i as int) + seq![p]);
            lemma_drawn_add(start, *pen, all.take(i as int), seq![p], c);
            lemma_drawn_one(s@, *pen, p, c);
        }
        plot(s, pen, px, py, c);
        i += 1;
    }
    assert(all.take(8) =~= all);
}

/// A surface after a circle.
pub open spec fn circ_drawn(s: Canvas, pen: Pen, cx: i32, cy: i32, r: i32, c: Colour) -> Canvas {
    drawn(
        s,
        pen,
        circle_points(
            pen.clip,
            pen.world_x(cx as int),
            pen.world_y(cy as int),
            radius(r as int),
        ),
        c,
    )
}

pub fn circ(s: &mut Surface, pen: &Pen, cx: i32, cy: i32, r: i32, c: Colour)
    requires
        old(s)@.wf(),
        old(s)@.holds(pen.clip),
        pen.table.wf(),
    ensures
        final(s)@ == circ_drawn(old(s)@, *pen, cx, cy, r, c),
        final(s)@.wf(),
        final(s).width == old(s).width,
        final(s).height == old(s).height,
        *final(final(s).pixels) == *final(old(s).pixels),
{
    let (wx, wy) = pen.world(cx, cy);
    let n = radius_of(r);
    let ghost start = s@;
    if n == 0 {
        proof {
            lemma_drawn_one(s@, *pen, (wx as int, wy as int), c);
        }
        plot(s, pen, wx as i64, wy as i64, c);
        return;
    }
    if !circle_visible(pen, wx, wy, n) {
        proof {
            lemma_drawn_none(start, *pen, c);
        }
        return;
    }
    let ghost all = circle_from(wx as int, wy as int, n as int, 0, 1 - n);
    let mut x: i64 = n as i64;
    let mut y: i64 = 0;
    let mut err: i64 = 1 - n as i64;
    while x >= y
        invariant
            0 < n <= MAX_RADIUS,
            -1 <= x <= n,
            0 <= y <= x + 2,
            -2 * n - 1 <= err <= 7 * y + 7,
            s@.wf(),
            s@.holds(pen.clip),
            pen.table.wf(),
            s.width == old(s).width,
            s.height == old(s).height,
            *final(s.pixels) == *final(old(s).pixels),
            drawn(start, *pen, all, c) == drawn(
                s@,
                *pen,
                circle_from(wx as int, wy as int, x as int, y as int, err as int),
                c,
            ),
        decreases x - y + 2,
    {
        proof {
            let (x1, y1, err1) = walk(x as int, y as int, err as int);
            lemma_drawn_add(
                s@,
                *pen,
                eight(wx as int, wy as int, x as int, y as int),
                circle_from(wx as int, wy as int, x1, y1, err1),
                c,
            );
        }
        plot_eight(s, pen, wx as i64, wy as i64, x, y, c);
        y += 1;
        if err < 0 {
            err = err + 2 * y + 1;
        } else {
            x -= 1;
            err = err + 2 * (y - x) + 1;
        }
    }
    proof {
        lemma_drawn_none(s@, *pen, c);
    }
}

/// The half-widths once a step of the walk was taken into them.
pub open spec fn widened(w: Seq<i32>, x: int, y: int) -> Seq<i32> {
    let v = w.update(y, most(w[y] as int, x) as i32);
    v.update(x, most(v[x] as int, y) as i32)
}

/// The half-widths from a step of the walk on.
pub open spec fn widths_from(w: Seq<i32>, x: int, y: int, err: int) -> Seq<i32>
    decreases x - y + 2,
{
    if x < y {
        w
    } else {
        let (x1, y1, err1) = walk(x, y, err);
        widths_from(widened(w, x, y), x1, y1, err1)
    }
}

/// Half-width of the midpoint circle at each distance from its middle
/// row.
pub open spec fn widths(r: int) -> Seq<i32> {
    widths_from(Seq::new((r + 1) as nat, |i: int| 0i32), r, 0, 1 - r)
}

fn half_widths(r: i32) -> (w: Vec<i32>)
    requires
        0 <= r <= MAX_RADIUS,
    ensures
        w@ == widths(r as int),
        w@.len() == r + 1,
        forall|i: int| 0 <= i < w@.len() ==> 0 <= #[trigger] w@[i] <= r,
{
    let mut w: Vec<i32> = vec![0i32; (r + 1) as usize];
    assert(w@ =~= Seq::new((r + 1) as nat, |i: int| 0i32));
    let mut x: i32 = r;
    let mut y: i32 = 0;
    let mut err: i32 = 1 - r;
    while x >= y
        invariant
            0 <= r <= MAX_RADIUS,
            -1 <= x <= r,
            0 <= y <= x + 2,
            -2 * r - 1 <= err <= 7 * y + 7,
            w@.len() == r + 1,
            forall|i: int| 0 <= i < w@.len() ==> 0 <= #[trigger] w@[i] <= r,
            widths_from(w@, x as int, y as int, err as int) == widths(r as int),
        decreases x - y + 2,
    {
        let ghost before = w@;
        let a = w[y as usize];
        w.set(y as usize, if a > x { a } else { x });
        let b = w[x as usize];
        w.set(x as usize, if b > y { b } else { y });
        assert(w@ =~= widened(before, x as int, y as int));
        y += 1;
        if err < 0 {
            err = err + 2 * y + 1;
        } else {
            x -= 1;
            err = err + 2 * (y - x) + 1;
        }
    }
    w
}

/// The points of a disc's rows from `y0` to `y1`.
pub open spec fn disc_rows(w: Seq<i32>, cx: int, cy: int, y0: int, y1: int) -> Seq<(int, int)>
    decreases y1 - y0 + 1,
{
    if y1 < y0 {
        seq![]
    } else {
        let hw = w[magnitude(y1 - cy)] as int;
        disc_rows(w, cx, cy, y0, y1 - 1) + row(cx - hw, cx + hw, y1)
    }
}

/// The points of a disc that is in view.
pub open spec fn disc_points(clip: Rect, cx: int, cy: int, r: int) -> Seq<(int, int)> {
    if !in_view(clip, cx, cy, r) {
        seq![]
    } else {
        disc_rows(widths(r), cx, cy, cy - r, cy + r)
    }
}

proof fn lemma_disc_off(
    s: Canvas,
    pen: Pen,
    w: Seq<i32>,
    cx: int,
    cy: int,
    y0: int,
    y1: int,
    c: Colour,
)
    requires
        forall|x: int, y: int| y0 <= y <= y1 ==> !#[trigger] pen.clip.has(x, y),
    ensures
        drawn(s, pen, disc_rows(w, cx, cy, y0, y1), c) == s,
    decreases y1 - y0 + 1,
{
    if y1 < y0 {
        lemma_drawn_none(s, pen, c);
    } else {
        let hw = w[magnitude(y1 - cy)] as int;
        lemma_disc_off(s, pen, w, cx, cy, y0, y1 - 1, c);
        lemma_drawn_add(
            s,
            pen,
            disc_rows(w, cx, cy, y0, y1 - 1),
            row(cx - hw, cx + hw, y1),
            c,
        );
        lemma_drawn_off(s, pen, row(cx - hw, cx + hw, y1), c);
    }
}

proof fn lemma_disc_split(w: Seq<i32>, cx: int, cy: int, y0: int, m: int, y1: int)
    requires
        y0 <= m + 1,
        m <= y1,
    ensures
        disc_rows(w, cx, cy, y0, y1) == disc_rows(w, cx, cy, y0, m) + disc_rows(
            w,
            cx,
            cy,
            m + 1,
            y1,
        ),
    decreases y1 - m,
{
    if m < y1 {
        let hw = w[magnitude(y1 - cy)] as int;
        lemma_disc_split(w, cx, cy, y0, m, y1 - 1);
        assert(disc_rows(w, cx, cy, y0, y1) =~= disc_rows(w, cx, cy, y0, m) + (disc_rows(
            w,
            cx,
            cy,
            m + 1,
            y1 - 1,
        ) + row(cx - hw, cx + hw, y1)));
    } else {
        assert(disc_rows(w, cx, cy, y0, y1) =~= disc_rows(w, cx, cy, y0, m) + disc_rows(
            w,
            cx,
            cy,
            m + 1,
            y1,
        ));
    }
}

/// A surface after a disc.
pub open spec fn circfill_drawn(s: Canvas, pen: Pen, cx: i32, cy: i32, r: i32, c: Colour) -> Canvas {
    drawn(
        s,
        pen,
        disc_points(
            pen.clip,
            pen.world_x(cx as int),
            pen.world_y(cy as int),
            radius(r as int),
        ),
        c,
    )
}

#[verifier::spinoff_prover]
#[verifier::rlimit(50)]
pub fn circfill(s: &mut Surface, pen: &Pen, cx: i32, cy: i32, r: i32, c: Colour)
    requires
        old(s)@.wf(),
        old(s)@.holds(pen.clip),
        pen.table.wf(),
    ensures
        final(s)@ == circfill_drawn(old(s)@, *pen, cx, cy, r, c),
        final(s)@.wf(),
        final(s).width == old(s).width,
        final(s).height == old(s).height,
        *final(final(s).pixels) == *final(old(s).pixels),
{
    let (wx, wy) = pen.world(cx, cy);
    let n = radius_of(r);
    let ghost start = s@;
    if !circle_visible(pen, wx, wy, n) {
        proof {
            lemma_drawn_none(start, *pen, c);
        }
        return;
    }
    let w = half_widths(n);
    let (mx, my) = (wx as i64, wy as i64);
    let full0: i64 = my - n as i64;
    let full1: i64 = my + n as i64;
    let top: i64 = pen.clip.y as i64;
    let bottom: i64 = pen.clip.bottom() as i64 - 1;
    let y0: i64 = if full0 > top { full0 } else { top };
    let y1: i64 = if full1 < bottom { full1 } else { bottom };
    if y0 > y1 {
        proof {
            lemma_disc_off(start, *pen, w@, mx as int, my as int, full0 as int, full1 as int, c);
        }
        return;
    }
    proof {
        lemma_disc_off(start, *pen, w@, mx as int, my as int, full0 as int, y0 - 1, c);
    }
    let mut y: i64 = y0;
    while y <= y1
        invariant
            full0 <= y0 <= y <= y1 + 1,
            y1 <= full1,
            full0 == my - n,
            full1 == my + n,
            0 <= n <= MAX_RADIUS,
            i32::MIN <= mx <= i32::MAX,
            i32::MIN <= my <= i32::MAX,
            w@.len() == n + 1,
            forall|i: int| 0 <= i < w@.len() ==> 0 <= #[trigger] w@[i] <= n,
            s@.wf(),
            s@.holds(pen.clip),
            pen.table.wf(),
            s.width == old(s).width,
            s.height == old(s).height,
            *final(s.pixels) == *final(old(s).pixels),
            s@ == drawn(
                start,
                *pen,
                disc_rows(w@, mx as int, my as int, full0 as int, y - 1),
                c,
            ),
        decreases y1 + 1 - y,
    {
        let away: i64 = if y < my { my - y } else { y - my };
        let hw: i64 = w[away as usize] as i64;
        proof {
            lemma_drawn_add(
                start,
                *pen,
                disc_rows(w@, mx as int, my as int, full0 as int, y - 1),
                row(mx - hw, mx + hw, y as int),
                c,
            );
        }
        hspan(s, pen, mx - hw, mx + hw, y, c);
        y += 1;
    }
    proof {
        let done = disc_rows(w@, mx as int, my as int, full0 as int, y1 as int);
        let rest = disc_rows(w@, mx as int, my as int, y1 + 1, full1 as int);
        lemma_disc_split(w@, mx as int, my as int, full0 as int, y1 as int, full1 as int);
        lemma_drawn_add(start, *pen, done, rest, c);
        lemma_disc_off(s@, *pen, w@, mx as int, my as int, y1 + 1, full1 as int, c);
    }
}

/// Pixels' worth of work a circle of radius `r` costs before clipping:
/// the midpoint walk plots about six points per unit of radius.
pub fn circle_work(r: i32) -> (n: u64)
    ensures
        n == radius(r as int) * 6,
{
    radius_of(r) as u64 * crate::meter::price::CIRCLE_WORK_PER_RADIUS
}

/// The walk only widens.
proof fn lemma_widths_grow(w: Seq<i32>, x: int, y: int, err: int)
    requires
        0 <= y <= x + 2,
        x < w.len() <= MAX_RADIUS + 1,
    ensures
        widths_from(w, x, y, err).len() == w.len(),
        forall|i: int|
            0 <= i < w.len() ==> #[trigger] widths_from(w, x, y, err)[i] >= w[i],
    decreases x - y + 2,
{
    if x >= y {
        let (x1, y1, err1) = walk(x, y, err);
        let v = widened(w, x, y);
        lemma_widths_grow(v, x1, y1, err1);
        assert forall|i: int| 0 <= i < w.len() implies #[trigger] widths_from(w, x, y, err)[i]
            >= w[i] by {
            assert(v[i] >= w[i]);
            assert(widths_from(v, x1, y1, err1)[i] >= v[i]);
        }
    }
}

proof fn lemma_on_disc(cx: int, cy: int, w: Seq<i32>, x: int, y: int, err: int, i: int)
    requires
        0 <= y <= x + 2,
        x < w.len() <= MAX_RADIUS + 1,
        0 <= i < circle_from(cx, cy, x, y, err).len(),
    ensures
        ({
            let p = circle_from(cx, cy, x, y, err)[i];
            &&& magnitude(p.1 - cy) < w.len()
            &&& magnitude(p.0 - cx) <= widths_from(w, x, y, err)[magnitude(p.1 - cy)]
        }),
    decreases x - y + 2,
{
    if x >= y {
        let (x1, y1, err1) = walk(x, y, err);
        let v = widened(w, x, y);
        lemma_widths_grow(v, x1, y1, err1);
        let f = widths_from(v, x1, y1, err1);
        let head = eight(cx, cy, x, y);
        if i < 8 {
            let p = head[i];
            assert(circle_from(cx, cy, x, y, err)[i] == p);
            assert(i == 0 || i == 1 || i == 2 || i == 3 || i == 4 || i == 5 || i == 6 || i == 7);
            assert(f[y] >= v[y]);
            assert(f[x] >= v[x]);
            assert(v[y] >= x);
            assert(v[x] >= y);
        } else {
            let rest = circle_from(cx, cy, x1, y1, err1);
            assert(circle_from(cx, cy, x, y, err)[i] == rest[i - 8]);
            lemma_on_disc(cx, cy, v, x1, y1, err1, i - 8);
        }
    }
}

/// Every point of a circle lies on the disc of the same radius, so `circ`
/// sits on `circfill`.
pub proof fn law_a_circle_sits_on_its_disc(cx: int, cy: int, r: int, i: int)
    requires
        0 <= r <= MAX_RADIUS,
        0 <= i < circle_from(cx, cy, r, 0, 1 - r).len(),
    ensures
        ({
            let p = circle_from(cx, cy, r, 0, 1 - r)[i];
            &&& magnitude(p.1 - cy) <= r
            &&& magnitude(p.0 - cx) <= widths(r)[magnitude(p.1 - cy)]
        }),
{
    lemma_on_disc(cx, cy, Seq::new((r + 1) as nat, |i: int| 0i32), r, 0, 1 - r, i);
}

#[verifier::spinoff_prover]
#[verifier::rlimit(40)]
proof fn lemma_mirrored(cx: int, cy: int, x: int, y: int, err: int, p: (int, int))
    requires
        circle_from(cx, cy, x, y, err).contains(p),
    ensures
        circle_from(cx, cy, x, y, err).contains((2 * cx - p.0, p.1)),
        circle_from(cx, cy, x, y, err).contains((p.0, 2 * cy - p.1)),
        circle_from(cx, cy, x, y, err).contains((cx + (p.1 - cy), cy + (p.0 - cx))),
    decreases x - y + 2,
{
    if x >= y {
        let (x1, y1, err1) = walk(x, y, err);
        let first = eight(cx, cy, x, y);
        let rest = circle_from(cx, cy, x1, y1, err1);
        let all = first + rest;
        assert(circle_from(cx, cy, x, y, err) == all);
        let i = choose|i: int| 0 <= i < all.len() && #[trigger] all[i] == p;
        if i < 8 {
            assert(i == 0 || i == 1 || i == 2 || i == 3 || i == 4 || i == 5 || i == 6 || i == 7);
            assert(all[0] == first[0] && all[1] == first[1] && all[2] == first[2] && all[3]
                == first[3] && all[4] == first[4] && all[5] == first[5] && all[6] == first[6]
                && all[7] == first[7]);
        } else {
            assert(rest[i - 8] == p);
            lemma_mirrored(cx, cy, x1, y1, err1, p);
            lemma_behind(first, rest, (2 * cx - p.0, p.1));
            lemma_behind(first, rest, (p.0, 2 * cy - p.1));
            lemma_behind(first, rest, (cx + (p.1 - cy), cy + (p.0 - cx)));
        }
    }
}

proof fn lemma_behind(a: Seq<(int, int)>, b: Seq<(int, int)>, p: (int, int))
    requires
        b.contains(p),
    ensures
        (a + b).contains(p),
{
    let i = choose|i: int| 0 <= i < b.len() && #[trigger] b[i] == p;
    assert((a + b)[a.len() + i] == p);
}

/// A circle is symmetric: mirrored left to right, top to bottom or along
/// the diagonal, each of its points is one of its points.
pub proof fn law_a_circle_is_symmetric(cx: int, cy: int, r: int, p: (int, int))
    requires
        0 <= r <= MAX_RADIUS,
        circle_from(cx, cy, r, 0, 1 - r).contains(p),
    ensures
        circle_from(cx, cy, r, 0, 1 - r).contains((2 * cx - p.0, p.1)),
        circle_from(cx, cy, r, 0, 1 - r).contains((p.0, 2 * cy - p.1)),
        circle_from(cx, cy, r, 0, 1 - r).contains((cx + (p.1 - cy), cy + (p.0 - cx))),
{
    lemma_mirrored(cx, cy, r, 0, 1 - r, p);
}

/// Whether a point lies on the disc of a radius around a centre.
pub open spec fn on_disc(cx: int, cy: int, r: int, x: int, y: int) -> bool {
    magnitude(y - cy) <= r && magnitude(x - cx) <= widths(r)[magnitude(y - cy)]
}

proof fn lemma_disc_rows(w: Seq<i32>, cx: int, cy: int, y0: int, y1: int, x: int, y: int)
    ensures
        disc_rows(w, cx, cy, y0, y1).contains((x, y)) <==> y0 <= y <= y1 && magnitude(x - cx)
            <= w[magnitude(y - cy)],
    decreases y1 - y0 + 1,
{
    let all = disc_rows(w, cx, cy, y0, y1);
    if y1 >= y0 {
        let hw = w[magnitude(y1 - cy)] as int;
        let rest = disc_rows(w, cx, cy, y0, y1 - 1);
        let last = row(cx - hw, cx + hw, y1);
        lemma_disc_rows(w, cx, cy, y0, y1 - 1, x, y);
        assert(all == rest + last);
        if all.contains((x, y)) {
            let i = choose|i: int| 0 <= i < all.len() && #[trigger] all[i] == (x, y);
            if i < rest.len() {
                assert(rest[i] == (x, y));
            } else {
                assert(last[i - rest.len()] == (x, y));
            }
        }
        if rest.contains((x, y)) {
            let i = choose|i: int| 0 <= i < rest.len() && #[trigger] rest[i] == (x, y);
            assert(all[i] == (x, y));
        } else if y == y1 && magnitude(x - cx) <= hw {
            let i = x - (cx - hw);
            assert(last[i] == (x, y));
            assert(all[rest.len() + i] == (x, y));
        }
    }
}

/// A disc in view holds the points that lie on it, and no others.
pub(crate) proof fn lemma_disc_points(clip: Rect, cx: int, cy: int, r: int, x: int, y: int)
    requires
        0 <= r <= MAX_RADIUS,
    ensures
        disc_points(clip, cx, cy, r).contains((x, y)) <==> in_view(clip, cx, cy, r) && on_disc(
            cx,
            cy,
            r,
            x,
            y,
        ),
{
    lemma_disc_rows(widths(r), cx, cy, cy - r, cy + r, x, y);
}

/// With a plain pen a filled circle sets exactly the pixels of its disc
/// that lie in the clip, each to the primary colour; the disc is symmetric
/// about the column and the row of its centre; and every pixel of the
/// circle's outline that lies in the clip is on it.
pub proof fn law_a_filled_circle_sets_its_disc(
    s: Canvas,
    pen: Pen,
    cx: i32,
    cy: i32,
    r: int,
    c: Colour,
    x: int,
    y: int,
)
    requires
        s.wf(),
        s.holds(pen.clip),
        pen.table.wf(),
        pen.table@ == TableView::plain(),
        pen.fillp.pattern == 0,
        0 <= r <= MAX_RADIUS,
        0 <= x < s.width,
        0 <= y < s.height,
    ensures
        ({
            let disc = disc_points(pen.clip, cx as int, cy as int, r);
            let outline = circle_points(pen.clip, cx as int, cy as int, r);
            &&& drawn(s, pen, disc, c).pixel(x, y) == (if disc.contains((x, y)) && pen.clip.has(
                x,
                y,
            ) {
                (c.primary % 128) as u8
            } else {
                s.pixel(x, y)
            })
            &&& disc.contains((x, y)) ==> disc.contains((2 * cx - x, y))
            &&& disc.contains((x, y)) ==> disc.contains((x, 2 * cy - y))
            &&& outline.contains((x, y)) && pen.clip.has(x, y) ==> disc.contains((x, y))
        }),
{
    let disc = disc_points(pen.clip, cx as int, cy as int, r);
    let outline = circle_points(pen.clip, cx as int, cy as int, r);
    law_a_shape_inks_its_points(s, pen, disc, c, x, y);
    lemma_grid(x, y, s.width, s.height);
    crate::pen::lemma_two_to(y % 4 * 4 + x % 4);
    assert(0int / crate::pen::two_to(y % 4 * 4 + x % 4) == 0) by {
        vstd::arithmetic::div_mod::lemma_div_basics(crate::pen::two_to(y % 4 * 4 + x % 4));
    }
    assert(pen.fillp.picked(x, y) == Some(false));
    assert(pen.table@.look(c.primary as int, s.pixel(x, y) as int) == c.primary as int % 128);
    lemma_disc_points(pen.clip, cx as int, cy as int, r, x, y);
    lemma_disc_points(pen.clip, cx as int, cy as int, r, 2 * cx - x, y);
    lemma_disc_points(pen.clip, cx as int, cy as int, r, x, 2 * cy - y);
    if outline.contains((x, y)) && pen.clip.has(x, y) {
        if r == 0 {
            assert(outline[0] == (cx as int, cy as int));
            assert(in_view(pen.clip, cx as int, cy as int, r));
            lemma_widths_grow(Seq::new((r + 1) as nat, |i: int| 0i32), r, 0, 1 - r);
            assert(widths(r)[0] >= 0);
        } else {
            let i = choose|i: int| 0 <= i < outline.len() && #[trigger] outline[i] == (x, y);
            law_a_circle_sits_on_its_disc(cx as int, cy as int, r, i);
        }
    }
}

/// A line joins its ends: it starts on one and stops on the other.
pub proof fn law_a_line_joins_its_ends(x0: int, y0: int, x1: int, y1: int)
    ensures
        line_points(x0, y0, x1, y1).len() == steps_of(x0, y0, x1, y1) + 1,
        line_points(x0, y0, x1, y1)[0] == (x0, y0),
        line_points(x0, y0, x1, y1).last() == (x1, y1),
{
    let n = steps_of(x0, y0, x1, y1);
    if n > 0 {
        lemma_whole_steps(x1 - x0, n);
        lemma_whole_steps(y1 - y0, n);
        assert((x1 - x0) * 0 == 0 && (y1 - y0) * 0 == 0);
    }
}

proof fn lemma_whole_steps(d: int, n: int)
    requires
        n > 0,
    ensures
        nearest(d * n, n) == d,
        nearest(0, n) == 0,
{
    assert(0 <= n / 2 < n);
    if d >= 0 {
        assert(d * n >= 0) by (nonlinear_arith)
            requires
                d >= 0,
                n > 0,
        ;
        vstd::arithmetic::div_mod::lemma_fundamental_div_mod_converse(d * n + n / 2, n, d, n / 2);
    } else {
        assert(d * n < 0) by (nonlinear_arith)
            requires
                d < 0,
                n > 0,
        ;
        assert(-(d * n) == (-d) * n) by (nonlinear_arith);
        vstd::arithmetic::div_mod::lemma_fundamental_div_mod_converse(
            (-d) * n + n / 2,
            n,
            -d,
            n / 2,
        );
    }
    vstd::arithmetic::div_mod::lemma_fundamental_div_mod_converse(n / 2, n, 0, n / 2);
}

} // verus!
