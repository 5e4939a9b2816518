//! Which pixels a line, a circle and a disc are made of, said of their
//! ends, their centre and their radius alone.

use vstd::prelude::*;
use vstd::arithmetic::div_mod::*;
use crate::buf::{law_intersection_holds_what_both_hold, Rect};
use crate::math::saturated;
use crate::pen::{Colour, Pen, TableView};
use crate::pixels::{fits, lemma_shape_pixel, on, patterned};
use crate::raster::{
    blended, circ_drawn, circfill_drawn, circle_from, circle_points, disc_points, eight, in_view,
    law_a_circle_sits_on_its_disc, lemma_disc_points, lemma_major, line_drawn, line_points,
    magnitude, most, nearest, on_disc, painted, radius, steps_of, walk, widened, widths,
    widths_from, Canvas, Dab, MAX_RADIUS,
};

verus! {

// ----- lines ----------------------------------------------------------------------------------

/// Whether `e` is between nothing and `d`.
pub open spec fn within(d: int, e: int) -> bool {
    (0 <= e <= d) || (d <= e <= 0)
}

/// Whether `k` is `m / n` rounded to the nearest whole number, a half
/// rounded up.
pub open spec fn rounds_to(k: int, m: int, n: int) -> bool {
    2 * (k * n) <= 2 * m + n < 2 * (k * n) + 2 * n
}

/// Whether a line that goes `dx` and `dy` from its start has the pixel that
/// is `ex` and `ey` from it: one pixel for each step along the longer
/// direction, at the place nearest to the straight course.
pub open spec fn on_course(dx: int, dy: int, ex: int, ey: int) -> bool {
    if dx == 0 && dy == 0 {
        ex == 0 && ey == 0
    } else if magnitude(dx) >= magnitude(dy) {
        within(dx, ex) && within(dy, ey) && rounds_to(
            magnitude(ey),
            magnitude(dy) * magnitude(ex),
            magnitude(dx),
        )
    } else {
        within(dy, ey) && within(dx, ex) && rounds_to(
            magnitude(ex),
            magnitude(dx) * magnitude(ey),
            magnitude(dy),
        )
    }
}

proof fn lemma_rounds(k: int, m: int, n: int)
    requires
        n > 0,
        m >= 0,
    ensures
        rounds_to(k, m, n) <==> k == (m + n / 2) / n,
        (m + n / 2) / n >= 0,
{
    let h = n / 2;
    let q = (m + h) / n;
    lemma_fundamental_div_mod(m + h, n);
    lemma_mod_bound(m + h, n);
    assert(n * q == q * n) by (nonlinear_arith);
    assert(rounds_to(q, m, n));
    assert(q >= 0) by (nonlinear_arith)
        requires
            q * n <= m + h < q * n + n,
            m + h >= 0,
            n > 0,
    ;
    if rounds_to(k, m, n) {
        assert(k == q) by (nonlinear_arith)
            requires
                2 * (k * n) <= 2 * m + n < 2 * (k * n) + 2 * n,
                2 * (q * n) <= 2 * m + n < 2 * (q * n) + 2 * n,
                n > 0,
        ;
    }
}

proof fn lemma_minor(d: int, i: int, n: int, k: int)
    requires
        n > 0,
        0 <= i <= n,
        magnitude(d) <= n,
    ensures
        k == nearest(d * i, n) <==> within(d, k) && rounds_to(magnitude(k), magnitude(d) * i, n),
{
    let a = magnitude(d);
    assert(a * i >= 0 && a * i <= a * n) by (nonlinear_arith)
        requires
            a >= 0,
            0 <= i <= n,
    ;
    lemma_rounds(magnitude(k), a * i, n);
    let q = (a * i + n / 2) / n;
    lemma_rounds(q, a * i, n);
    assert(q <= a) by (nonlinear_arith)
        requires
            2 * (q * n) <= 2 * (a * i) + n,
            a * i <= a * n,
            n > 0,
    ;
    lemma_rounds(0, a * i, n);
    if d < 0 {
        assert(d * i == -(a * i)) by (nonlinear_arith)
            requires
                a == -d,
        ;
    }
}

proof fn lemma_on_course(x0: int, y0: int, x1: int, y1: int, x: int, y: int)
    ensures
        line_points(x0, y0, x1, y1).contains((x, y)) <==> on_course(
            x1 - x0,
            y1 - y0,
            x - x0,
            y - y0,
        ),
{
    let dx = x1 - x0;
    let dy = y1 - y0;
    let n = steps_of(x0, y0, x1, y1);
    let all = line_points(x0, y0, x1, y1);
    if n == 0 {
        assert(all[0] == (x0, y0));
    } else {
        let wide = magnitude(dx) >= magnitude(dy);
        let i = if wide {
            magnitude(x - x0)
        } else {
            magnitude(y - y0)
        };
        if all.contains((x, y)) {
            let j = choose|j: int| 0 <= j < all.len() && #[trigger] all[j] == (x, y);
            if wide {
                lemma_major(dx, n, j);
                lemma_minor(dy, j, n, y - y0);
            } else {
                lemma_major(dy, n, j);
                lemma_minor(dx, j, n, x - x0);
            }
        }
        if on_course(dx, dy, x - x0, y - y0) {
            if wide {
                lemma_major(dx, n, i);
                lemma_minor(dy, i, n, y - y0);
            } else {
                lemma_major(dy, n, i);
                lemma_minor(dx, i, n, x - x0);
            }
            assert(all[i] == (x, y));
        }
    }
}

/// A line takes the pixels on the course from its start to its end, both
/// moved by the camera, and no others.
pub proof fn law_a_line_keeps_its_course(
    s: Canvas,
    pen: Pen,
    x0: i32,
    y0: i32,
    x1: i32,
    y1: i32,
    c: Colour,
    px: int,
    py: int,
)
    requires
        s.wf(),
        s.holds(pen.clip),
        pen.table.wf(),
        on(s, px, py),
        fits(x0 - pen.camera.0) && fits(y0 - pen.camera.1),
        fits(x1 - pen.camera.0) && fits(y1 - pen.camera.1),
    ensures
        line_drawn(s, pen, x0, y0, x1, y1, c).pixels[py * s.width + px] == (if pen.clip.has(px, py)
            && on_course(x1 - x0, y1 - y0, px - (x0 - pen.camera.0), py - (y0 - pen.camera.1)) {
            blended(pen.table@, patterned(pen.fillp, c, px, py), s.pixels[py * s.width + px])
        } else {
            s.pixels[py * s.width + px]
        }),
{
    let ax = x0 - pen.camera.0;
    let ay = y0 - pen.camera.1;
    let bx = x1 - pen.camera.0;
    let by = y1 - pen.camera.1;
    lemma_shape_pixel(s, pen, line_points(ax, ay, bx, by), c, px, py);
    lemma_on_course(ax, ay, bx, by, px, py);
}

// ----- circles --------------------------------------------------------------------------------

/// How far out a place at `a` and `b` from the centre of a circle starts:
/// its squared distance, less the larger of the two.
pub open spec fn inner_edge(a: int, b: int) -> int {
    a * a + b * b - most(a, b)
}

/// Whether a place at `a` and `b` from the centre is within half a pixel of
/// the circle, measured along the longer of the two.
pub open spec fn rings(r: int, a: int, b: int) -> bool {
    inner_edge(a, b) < r * r <= inner_edge(a, b) + 2 * most(a, b)
}

/// Whether a place at `a` and `b` from the centre is inside the circle's
/// outer edge.
pub open spec fn fills(r: int, a: int, b: int) -> bool {
    inner_edge(a, b) < r * r
}

spec fn walked(r: int, x: int, y: int, err: int) -> bool {
    &&& 1 <= r
    &&& 0 <= y <= x + 2
    &&& x <= r
    &&& y == 0 ==> x == r
    &&& err == (y + 1) * (y + 1) + x * x - x - r * r
    &&& x >= y ==> x * x - x + y * y < r * r
    &&& r * r <= x * x + x + y * y
}

proof fn lemma_walked(r: int, x: int, y: int, err: int)
    requires
        walked(r, x, y, err),
        x >= y,
    ensures
        ({
            let (x1, y1, err1) = walk(x, y, err);
            walked(r, x1, y1, err1)
        }),
{
    let y1 = y + 1;
    assert((y1 + 1) * (y1 + 1) == y1 * y1 + 2 * y1 + 1) by (nonlinear_arith);
    assert(y1 * y1 == y * y + 2 * y + 1) by (nonlinear_arith)
        requires
            y1 == y + 1,
    ;
    let x1 = x - 1;
    assert(x1 * x1 == x * x - 2 * x + 1) by (nonlinear_arith)
        requires
            x1 == x - 1,
    ;
}

proof fn lemma_larger(a: int, b: int)
    requires
        0 <= a <= b,
    ensures
        a * a <= b * b,
        a < b ==> a * a + a <= b * b - b,
        a * a - a <= b * b - b || a == 0,
{
    assert(a * a <= b * b) by (nonlinear_arith)
        requires
            0 <= a <= b,
    ;
    if a < b {
        assert(a * a + a <= b * b - b) by (nonlinear_arith)
            requires
                0 <= a,
                a + 1 <= b,
        ;
    }
}

/// Every point of the walk is on the ring.
proof fn lemma_points_ring(cx: int, cy: int, r: int, x: int, y: int, err: int, p: (int, int))
    requires
        walked(r, x, y, err),
        circle_from(cx, cy, x, y, err).contains(p),
    ensures
        rings(r, magnitude(p.0 - cx), magnitude(p.1 - cy)),
    decreases x - y + 2,
{
    if x >= y {
        let all = circle_from(cx, cy, x, y, err);
        let (x1, y1, err1) = walk(x, y, err);
        let rest = circle_from(cx, cy, x1, y1, err1);
        let head = eight(cx, cy, x, y);
        let i = choose|i: int| 0 <= i < all.len() && #[trigger] all[i] == p;
        if i < 8 {
            assert(head[i] == p);
            assert(i == 0 || i == 1 || i == 2 || i == 3 || i == 4 || i == 5 || i == 6 || i == 7);
        } else {
            assert(rest[i - 8] == p);
            lemma_walked(r, x, y, err);
            lemma_points_ring(cx, cy, r, x1, y1, err1, p);
        }
    }
}

/// Every place of the ring is a point of the walk.
proof fn lemma_ring_is_walked(
    cx: int,
    cy: int,
    r: int,
    x: int,
    y: int,
    err: int,
    tx: int,
    ty: int,
    p: (int, int),
)
    requires
        walked(r, x, y, err),
        y <= ty <= tx,
        rings(r, tx, ty),
        ({
            let a = magnitude(p.0 - cx);
            let b = magnitude(p.1 - cy);
            (a == tx && b == ty) || (a == ty && b == tx)
        }),
    ensures
        circle_from(cx, cy, x, y, err).contains(p),
    decreases x - y + 2,
{
    let all = circle_from(cx, cy, x, y, err);
    lemma_larger(y, ty);
    if x < y {
        if x < 0 {
            assert(x * x + x <= tx * tx - tx) by (nonlinear_arith)
                requires
                    x >= -1,
                    x < 0,
                    tx >= 0,
            ;
        } else {
            lemma_larger(x, tx);
        }
        assert(false);
    } else if ty == y {
        if x < tx {
            lemma_larger(x, tx);
        } else if tx < x {
            lemma_larger(tx, x);
        }
        assert(x == tx);
        let head = eight(cx, cy, x, y);
        assert forall|i: int| 0 <= i < 8 implies all[i] == head[i] by {}
        assert(head[0] == (cx + x, cy + y) && head[1] == (cx - x, cy + y) && head[2] == (
            cx + x,
            cy - y,
        ) && head[3] == (cx - x, cy - y) && head[4] == (cx + y, cy + x) && head[5] == (
            cx - y,
            cy + x,
        ) && head[6] == (cx + y, cy - x) && head[7] == (cx - y, cy - x));
        assert(p == head[0] || p == head[1] || p == head[2] || p == head[3] || p == head[4] || p
            == head[5] || p == head[6] || p == head[7]);
        assert(p == all[0] || p == all[1] || p == all[2] || p == all[3] || p == all[4] || p == all[5]
            || p == all[6] || p == all[7]);
    } else {
        let (x1, y1, err1) = walk(x, y, err);
        lemma_walked(r, x, y, err);
        lemma_ring_is_walked(cx, cy, r, x1, y1, err1, tx, ty, p);
        let rest = circle_from(cx, cy, x1, y1, err1);
        let i = choose|i: int| 0 <= i < rest.len() && #[trigger] rest[i] == p;
        assert(all[i + 8] == p);
    }
}

proof fn lemma_start(r: int)
    requires
        1 <= r,
    ensures
        walked(r, r, 0, 1 - r),
{
    assert(0int * 0 == 0);
    assert((0int + 1) * (0int + 1) == 1) by (nonlinear_arith);
}

proof fn lemma_circle(cx: int, cy: int, r: int, x: int, y: int)
    requires
        1 <= r,
    ensures
        circle_from(cx, cy, r, 0, 1 - r).contains((x, y)) <==> rings(
            r,
            magnitude(x - cx),
            magnitude(y - cy),
        ),
{
    let a = magnitude(x - cx);
    let b = magnitude(y - cy);
    lemma_start(r);
    if circle_from(cx, cy, r, 0, 1 - r).contains((x, y)) {
        lemma_points_ring(cx, cy, r, r, 0, 1 - r, (x, y));
    }
    if rings(r, a, b) {
        let tx = most(a, b);
        let ty = a + b - tx;
        lemma_ring_is_walked(cx, cy, r, r, 0, 1 - r, tx, ty, (x, y));
    }
}

proof fn lemma_fills_within(r: int, a: int, b: int)
    requires
        1 <= r,
        0 <= a,
        0 <= b,
        fills(r, a, b),
    ensures
        a <= r,
        b <= r,
{
    let m = most(a, b);
    let l = a + b - m;
    assert(l * l >= 0) by (nonlinear_arith);
    if m > r {
        lemma_larger(r, m);
    }
}

proof fn lemma_fills_less(r: int, a: int, t: int, b: int)
    requires
        1 <= r,
        0 <= a <= t,
        0 <= b,
        fills(r, t, b),
    ensures
        fills(r, a, b),
{
    lemma_larger(a, t);
    if a == 0 {
        assert(t * t - t >= 0) by (nonlinear_arith)
            requires
                t >= 0,
        ;
    }
    if t > b {
        lemma_larger(b, t);
    }
}

/// The outermost place of a row that is inside is on the ring.
proof fn lemma_reaches(cx: int, cy: int, r: int, a: int, b: int)
    requires
        1 <= r <= MAX_RADIUS,
        0 <= a,
        0 <= b,
        fills(r, a, b),
    ensures
        b <= r,
        a <= widths(r)[b],
    decreases r - a,
{
    lemma_fills_within(r, a, b);
    let n = a + 1;
    if fills(r, n, b) {
        lemma_fills_within(r, n, b);
        lemma_reaches(cx, cy, r, n, b);
    } else {
        assert(n * n == a * a + 2 * a + 1) by (nonlinear_arith)
            requires
                n == a + 1,
        ;
        assert(rings(r, a, b));
        lemma_circle(0, 0, r, a, b);
        let all = circle_from(0, 0, r, 0, 1 - r);
        let i = choose|i: int| 0 <= i < all.len() && #[trigger] all[i] == (a, b);
        law_a_circle_sits_on_its_disc(0, 0, r, i);
    }
}

proof fn lemma_widths_fill(r: int, w: Seq<i32>, x: int, y: int, err: int, b: int)
    requires
        walked(r, x, y, err),
        r <= MAX_RADIUS,
        w.len() == r + 1,
        forall|j: int| 0 <= j <= r ==> 0 <= #[trigger] w[j] && fills(r, w[j] as int, j),
        0 <= b <= r,
    ensures
        widths_from(w, x, y, err).len() == r + 1,
        0 <= widths_from(w, x, y, err)[b],
        fills(r, widths_from(w, x, y, err)[b] as int, b),
    decreases x - y + 2,
{
    if x >= y {
        let v = widened(w, x, y);
        let (x1, y1, err1) = walk(x, y, err);
        lemma_walked(r, x, y, err);
        lemma_widths_fill(r, v, x1, y1, err1, b);
    }
}

proof fn lemma_disc(cx: int, cy: int, r: int, x: int, y: int)
    requires
        1 <= r <= MAX_RADIUS,
    ensures
        on_disc(cx, cy, r, x, y) <==> fills(r, magnitude(x - cx), magnitude(y - cy)),
{
    let a = magnitude(x - cx);
    let b = magnitude(y - cy);
    if fills(r, a, b) {
        lemma_reaches(cx, cy, r, a, b);
    }
    if on_disc(cx, cy, r, x, y) {
        let w = Seq::new((r + 1) as nat, |i: int| 0i32);
        lemma_start(r);
        assert forall|j: int| 0 <= j <= r implies 0 <= #[trigger] w[j] && fills(
            r,
            w[j] as int,
            j,
        ) by {
            assert(0int * 0 == 0);
            assert(j * j - j < r * r) by (nonlinear_arith)
                requires
                    0 <= j <= r,
                    1 <= r,
            ;
        }
        lemma_widths_fill(r, w, r, 0, 1 - r, b);
        lemma_fills_less(r, a, widths(r)[b] as int, b);
    }
}

/// A circle with a pixel in the clip is in view.
proof fn lemma_in_view(s: Canvas, clip: Rect, cx: int, cy: int, r: int, x: int, y: int)
    requires
        s.wf(),
        s.holds(clip),
        on(s, x, y),
        clip.has(x, y),
        0 <= r <= MAX_RADIUS,
        fits(cx) && fits(cy),
        magnitude(x - cx) <= r,
        magnitude(y - cy) <= r,
    ensures
        in_view(clip, cx, cy, r),
{
    let side = saturated(saturated(r * 2) + 1);
    let b = Rect {
        x: saturated(cx - r) as i32,
        y: saturated(cy - r) as i32,
        w: side as i32,
        h: side as i32,
    };
    law_intersection_holds_what_both_hold(b, clip, x, y);
    assert(b.has(x, y));
    assert(b.crossed(clip).has(x, y));
}

/// A circle takes the pixels within half a pixel of its radius around its
/// centre, moved by the camera, and no others. One of radius 0 is a point,
/// and one beyond the largest is as large as that.
pub proof fn law_a_circle_keeps_its_radius(
    s: Canvas,
    pen: Pen,
    cx: i32,
    cy: i32,
    r: i32,
    c: Colour,
    px: int,
    py: int,
)
    requires
        s.wf(),
        s.holds(pen.clip),
        pen.table.wf(),
        on(s, px, py),
        fits(cx - pen.camera.0) && fits(cy - pen.camera.1),
    ensures
        ({
            let a = magnitude(px - (cx - pen.camera.0));
            let b = magnitude(py - (cy - pen.camera.1));
            let hit = if r <= 0 {
                a == 0 && b == 0
            } else if r < 0x8000 {
                rings(r as int, a, b)
            } else {
                rings(0x8000, a, b)
            };
            circ_drawn(s, pen, cx, cy, r, c).pixels[py * s.width + px] == (if pen.clip.has(px, py)
                && hit {
                blended(pen.table@, patterned(pen.fillp, c, px, py), s.pixels[py * s.width + px])
            } else {
                s.pixels[py * s.width + px]
            })
        }),
{
    let x = cx - pen.camera.0;
    let y = cy - pen.camera.1;
    let n = radius(r as int);
    let points = circle_points(pen.clip, x, y, n);
    lemma_shape_pixel(s, pen, points, c, px, py);
    if n == 0 {
        assert(points[0] == (x, y));
    } else {
        lemma_circle(x, y, n, px, py);
        if rings(n, magnitude(px - x), magnitude(py - y)) && pen.clip.has(px, py) {
            lemma_fills_within(n, magnitude(px - x), magnitude(py - y));
            lemma_in_view(s, pen.clip, x, y, n, px, py);
        }
    }
}

/// A filled circle takes the pixels inside the outer edge of the circle of
/// its centre and radius, and no others.
pub proof fn law_a_filled_circle_keeps_its_radius(
    s: Canvas,
    pen: Pen,
    cx: i32,
    cy: i32,
    r: i32,
    c: Colour,
    px: int,
    py: int,
)
    requires
        s.wf(),
        s.holds(pen.clip),
        pen.table.wf(),
        on(s, px, py),
        fits(cx - pen.camera.0) && fits(cy - pen.camera.1),
    ensures
        ({
            let a = magnitude(px - (cx - pen.camera.0));
            let b = magnitude(py - (cy - pen.camera.1));
            let hit = if r <= 0 {
                a == 0 && b == 0
            } else if r < 0x8000 {
                fills(r as int, a, b)
            } else {
                fills(0x8000, a, b)
            };
            circfill_drawn(s, pen, cx, cy, r, c).pixels[py * s.width + px] == (if pen.clip.has(
                px,
                py,
            ) && hit {
                blended(pen.table@, patterned(pen.fillp, c, px, py), s.pixels[py * s.width + px])
            } else {
                s.pixels[py * s.width + px]
            })
        }),
{
    let x = cx - pen.camera.0;
    let y = cy - pen.camera.1;
    let a = magnitude(px - x);
    let b = magnitude(py - y);
    let n = radius(r as int);
    lemma_shape_pixel(s, pen, disc_points(pen.clip, x, y, n), c, px, py);
    lemma_disc_points(pen.clip, x, y, n, px, py);
    if n == 0 {
        reveal_with_fuel(widths_from, 3);
        assert(widths(0)[0] == 0);
        if a == 0 && b == 0 && pen.clip.has(px, py) {
            lemma_in_view(s, pen.clip, x, y, n, px, py);
        }
    } else {
        lemma_disc(x, y, n, px, py);
        if fills(n, a, b) && pen.clip.has(px, py) {
            lemma_fills_within(n, a, b);
            lemma_in_view(s, pen.clip, x, y, n, px, py);
        }
    }
}

// ----- touched pixels -------------------------------------------------------------------------

/// How many of some places are inside a clip.
pub open spec fn inside(clip: Rect, dabs: Seq<Dab>) -> int
    decreases dabs.len(),
{
    if dabs.len() == 0 {
        0
    } else {
        inside(clip, dabs.skip(1)) + (if clip.has(dabs[0].x, dabs[0].y) {
            1int
        } else {
            0
        })
    }
}

proof fn lemma_inside_push(clip: Rect, dabs: Seq<Dab>, d: Dab)
    ensures
        inside(clip, dabs.push(d)) == inside(clip, dabs) + (if clip.has(d.x, d.y) {
            1int
        } else {
            0
        }),
        inside(clip, dabs) >= 0,
    decreases dabs.len(),
{
    let all = dabs.push(d);
    if dabs.len() > 0 {
        lemma_inside_push(clip, dabs.skip(1), d);
        assert(all.skip(1) =~= dabs.skip(1).push(d));
        assert(all[0] == dabs[0]);
    } else {
        assert(all.skip(1) =~= Seq::<Dab>::empty());
        reveal_with_fuel(inside, 2);
    }
}

/// Each place inside the clip that is drawn on is counted once, whether the
/// pattern leaves it out or not, and none outside; the count stops at the
/// largest number.
pub proof fn law_touched_pixels_are_counted(s: Canvas, clip: Rect, t: TableView, dabs: Seq<Dab>)
    requires
        0 <= s.touched <= u64::MAX,
    ensures
        painted(s, clip, t, dabs).touched == (if s.touched + inside(clip, dabs) > u64::MAX {
            u64::MAX as int
        } else {
            s.touched + inside(clip, dabs)
        }),
    decreases dabs.len(),
{
    if dabs.len() > 0 {
        let before = dabs.drop_last();
        law_touched_pixels_are_counted(s, clip, t, before);
        lemma_inside_push(clip, before, dabs.last());
        assert(before.push(dabs.last()) =~= dabs);
    }
}

} // verus!
