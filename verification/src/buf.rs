//! Typed 2D buffers: the one memory type a cart gets. A sprite sheet, a
//! map layer and the screen are all `Buf`s.

use vstd::prelude::*;
use vstd::arithmetic::power::pow;
use vstd::arithmetic::div_mod::*;
use vstd::string::*;
use crate::math::{saturate, saturated};
use crate::text::str_eq;
use crate::wire::{from_le, le, lemma_from_le, lemma_le_len, lemma_pow256, put_le};

verus! {

/// Largest side of a cart-allocated buffer.
pub const MAX_BUF_DIM: u32 = 4096;

/// Largest side of a sprite sheet.
pub const MAX_SHEET_DIM: u32 = 1024;

/// Largest side of a map layer, in cells.
pub const MAX_MAP_DIM: u32 = 256;

/// Most layers a map may have.
pub const MAX_MAP_LAYERS: u32 = 4;

#[derive(Debug, Clone, Copy, PartialEq, Eq, Hash, Structural)]
pub enum BufKind {
    U8,
    I16,
    I32,
    F32,
}

pub open spec fn kind_name(k: BufKind) -> Seq<char> {
    match k {
        BufKind::U8 => "u8"@,
        BufKind::I16 => "i16"@,
        BufKind::I32 => "i32"@,
        BufKind::F32 => "f32"@,
    }
}

/// Bytes of one element.
pub open spec fn width_of(k: BufKind) -> int {
    match k {
        BufKind::U8 => 1,
        BufKind::I16 => 2,
        BufKind::I32 => 4,
        BufKind::F32 => 4,
    }
}

impl BufKind {
    pub fn parse(name: &str) -> (r: Option<BufKind>)
        ensures
            match r {
                Some(k) => name@ == kind_name(k),
                None => forall|k: BufKind| name@ != #[trigger] kind_name(k),
            },
    {
        if str_eq(name, "u8") {
            Some(BufKind::U8)
        } else if str_eq(name, "i16") {
            Some(BufKind::I16)
        } else if str_eq(name, "i32") {
            Some(BufKind::I32)
        } else if str_eq(name, "f32") {
            Some(BufKind::F32)
        } else {
            None
        }
    }

    pub fn name(self) -> (s: &'static str)
        ensures
            s@ == kind_name(self),
    {
        match self {
            BufKind::U8 => "u8",
            BufKind::I16 => "i16",
            BufKind::I32 => "i32",
            BufKind::F32 => "f32",
        }
    }

    pub fn element_bytes(self) -> (n: usize)
        ensures
            n == width_of(self),
    {
        match self {
            BufKind::U8 => 1,
            BufKind::I16 => 2,
            BufKind::I32 => 4,
            BufKind::F32 => 4,
        }
    }
}

/// A kind is told by its name.
pub proof fn law_kinds_have_names(a: BufKind, b: BufKind)
    ensures
        kind_name(a) == kind_name(b) <==> a == b,
{
    reveal_strlit("u8");
    reveal_strlit("i16");
    reveal_strlit("i32");
    reveal_strlit("f32");
    assert("u8"@.len() == 2 && "i16"@.len() == 3 && "i32"@.len() == 3 && "f32"@.len() == 3);
    assert("i16"@[1] == '1' && "i32"@[1] == '3' && "f32"@[0] == 'f' && "i32"@[0] == 'i');
}

/// The elements of a buffer. Floats are kept as their bits.
#[derive(Debug, Clone, PartialEq, Eq)]
pub enum BufData {
    U8(Vec<u8>),
    I16(Vec<i16>),
    I32(Vec<i32>),
    F32(Vec<u32>),
}

/// One element: an integer, or the bits of a 32-bit float.
#[derive(Debug, Clone, Copy, PartialEq, Eq, Structural)]
pub enum Element {
    Int(i64),
    Single(u32),
}

/// A number as buffers take it: rounded down to an integer, and the bits
/// of it as a 32-bit float.
#[derive(Debug, Clone, Copy, PartialEq, Eq, Structural)]
pub struct Number {
    pub floor: i64,
    pub single: u32,
}

/// Metadata a map buffer carries so `map()` knows how to read it.
#[derive(Debug, Clone, Copy, PartialEq, Eq, Structural)]
pub struct MapInfo {
    /// Cells per layer vertically; the buffer is `layers * rows` tall.
    pub rows: u32,
    pub layers: u32,
    /// 8 or 16.
    pub tile_size: u32,
}

/// A rectangle of typed elements, row-major.
#[derive(Debug, Clone, PartialEq, Eq)]
pub struct Buf {
    pub kind: BufKind,
    pub width: u32,
    pub height: u32,
    pub data: BufData,
    pub map: Option<MapInfo>,
}

#[derive(Debug, Clone, Copy, PartialEq, Eq, Structural)]
pub struct Rect {
    pub x: i32,
    pub y: i32,
    pub w: i32,
    pub h: i32,
}

impl Rect {
    pub open spec fn empty_rect() -> Rect {
        Rect { x: 0, y: 0, w: 0, h: 0 }
    }

    pub open spec fn right_of(self) -> int {
        saturated(self.x + self.w)
    }

    pub open spec fn bottom_of(self) -> int {
        saturated(self.y + self.h)
    }

    /// Whether a point lies in the rectangle.
    pub open spec fn has(self, x: int, y: int) -> bool {
        self.x <= x < self.right_of() && self.y <= y < self.bottom_of()
    }

    pub open spec fn vacant(self) -> bool {
        self.w <= 0 || self.h <= 0
    }

    pub open spec fn crossed(self, other: Rect) -> Rect {
        let x0 = if self.x > other.x {
            self.x as int
        } else {
            other.x as int
        };
        let y0 = if self.y > other.y {
            self.y as int
        } else {
            other.y as int
        };
        let x1 = if self.right_of() < other.right_of() {
            self.right_of()
        } else {
            other.right_of()
        };
        let y1 = if self.bottom_of() < other.bottom_of() {
            self.bottom_of()
        } else {
            other.bottom_of()
        };
        if x1 <= x0 || y1 <= y0 {
            Rect::empty_rect()
        } else {
            Rect { x: x0 as i32, y: y0 as i32, w: (x1 - x0) as i32, h: (y1 - y0) as i32 }
        }
    }

    pub fn empty() -> (r: Rect)
        ensures
            r == Rect::empty_rect(),
    {
        Rect { x: 0, y: 0, w: 0, h: 0 }
    }

    pub fn new(x: i32, y: i32, w: i32, h: i32) -> (r: Rect)
        ensures
            r == (Rect { x, y, w, h }),
    {
        Rect { x, y, w, h }
    }

    pub fn is_empty(&self) -> (r: bool)
        ensures
            r == self.vacant(),
    {
        self.w <= 0 || self.h <= 0
    }

    pub fn right(&self) -> (r: i32)
        ensures
            r == self.right_of(),
    {
        saturate(self.x as i64 + self.w as i64)
    }

    pub fn bottom(&self) -> (r: i32)
        ensures
            r == self.bottom_of(),
    {
        saturate(self.y as i64 + self.h as i64)
    }

    pub fn contains(&self, x: i32, y: i32) -> (r: bool)
        ensures
            r == self.has(x as int, y as int),
    {
        x >= self.x && y >= self.y && x < self.right() && y < self.bottom()
    }

    pub fn intersect(&self, other: &Rect) -> (r: Rect)
        ensures
            r == self.crossed(*other),
    {
        let x0 = if self.x > other.x { self.x } else { other.x };
        let y0 = if self.y > other.y { self.y } else { other.y };
        let x1 = if self.right() < other.right() { self.right() } else { other.right() };
        let y1 = if self.bottom() < other.bottom() { self.bottom() } else { other.bottom() };
        if x1 <= x0 || y1 <= y0 {
            Rect::empty()
        } else {
            Rect::new(x0, y0, x1 - x0, y1 - y0)
        }
    }
}

/// The points of an intersection are the points of both rectangles.
pub proof fn law_intersection_holds_what_both_hold(a: Rect, b: Rect, x: int, y: int)
    ensures
        a.crossed(b).has(x, y) <==> a.has(x, y) && b.has(x, y),
        a.crossed(b) == b.crossed(a),
{
}

/// The error of a copy between kinds.
#[derive(Debug, Clone, PartialEq, Eq)]
pub enum BufError {
    KindMismatch { expected: BufKind, got: BufKind },
}

impl BufError {
    pub fn code(&self) -> (s: &'static str)
        ensures
            s@ == "buf_kind_mismatch"@,
    {
        match self {
            BufError::KindMismatch { expected: _, got: _ } => "buf_kind_mismatch",
        }
    }

    pub open spec fn text_of(self) -> Seq<char> {
        match self {
            BufError::KindMismatch { expected, got } => "buf_kind_mismatch"@
                + ": expected a "@ + kind_name(expected) + " buffer, got "@ + kind_name(got),
        }
    }

    pub fn text(&self) -> (s: String)
        ensures
            s@ == self.text_of(),
    {
        match self {
            BufError::KindMismatch { expected, got } => {
                let mut s = "buf_kind_mismatch".to_owned();
                s.append(": expected a ");
                s.append(expected.name());
                s.append(" buffer, got ");
                s.append(got.name());
                s
            },
        }
    }
}

/// A side as a signed number: what does not fit wraps.
pub open spec fn side(u: u32) -> int {
    if u <= i32::MAX {
        u as int
    } else {
        u - 0x1_0000_0000
    }
}

fn side_of(u: u32) -> (i: i32)
    ensures
        i == side(u),
{
    if u <= i32::MAX as u32 {
        u as i32
    } else {
        (u as i64 - 0x1_0000_0000) as i32
    }
}

/// An integer as a signed number of `m` values, wrapping.
pub open spec fn wrapped(v: int, m: int) -> int {
    if v % m >= m / 2 {
        v % m - m
    } else {
        v % m
    }
}

fn modulo(v: i64, m: i128) -> (r: i128)
    requires
        m == 0x100 || m == 0x1_0000 || m == 0x1_0000_0000,
    ensures
        r == v as int % m as int,
        0 <= r < m,
{
    let big: i128 = 0x1_0000_0000_0000_0000;
    proof {
        let k = big as int / m as int;
        assert(big as int == m as int * k) by {
            assert(big as int == 0x100 * 0x100_0000_0000_0000);
            assert(big as int == 0x1_0000 * 0x1_0000_0000_0000);
            assert(big as int == 0x1_0000_0000 * 0x1_0000_0000);
            assert(big as int / 0x100 == 0x100_0000_0000_0000);
            assert(big as int / 0x1_0000 == 0x1_0000_0000_0000);
            assert(big as int / 0x1_0000_0000 == 0x1_0000_0000);
        }
        lemma_mod_multiples_vanish(k, v as int, m as int);
    }
    (v as i128 + big) % m
}

/// What a buffer of a kind keeps of a number.
pub open spec fn kept(k: BufKind, n: Number) -> Element {
    match k {
        BufKind::U8 => Element::Int((n.floor as int % 0x100) as i64),
        BufKind::I16 => Element::Int(wrapped(n.floor as int, 0x1_0000) as i64),
        BufKind::I32 => Element::Int(wrapped(n.floor as int, 0x1_0000_0000) as i64),
        BufKind::F32 => Element::Single(n.single),
    }
}

fn keep_u8(n: Number) -> (v: u8)
    ensures
        Element::Int(v as i64) == kept(BufKind::U8, n),
{
    modulo(n.floor, 0x100) as u8
}

fn keep_i16(n: Number) -> (v: i16)
    ensures
        Element::Int(v as i64) == kept(BufKind::I16, n),
{
    let m = modulo(n.floor, 0x1_0000);
    if m >= 0x8000 {
        (m - 0x1_0000) as i16
    } else {
        m as i16
    }
}

fn keep_i32(n: Number) -> (v: i32)
    ensures
        Element::Int(v as i64) == kept(BufKind::I32, n),
{
    let m = modulo(n.floor, 0x1_0000_0000);
    if m >= 0x8000_0000 {
        (m - 0x1_0000_0000) as i32
    } else {
        m as i32
    }
}

/// The elements of some data.
pub open spec fn elements(d: BufData) -> Seq<Element> {
    match d {
        BufData::U8(v) => Seq::new(v@.len(), |i: int| Element::Int(v@[i] as i64)),
        BufData::I16(v) => Seq::new(v@.len(), |i: int| Element::Int(v@[i] as i64)),
        BufData::I32(v) => Seq::new(v@.len(), |i: int| Element::Int(v@[i] as i64)),
        BufData::F32(v) => Seq::new(v@.len(), |i: int| Element::Single(v@[i])),
    }
}

pub open spec fn kind_of(d: BufData) -> BufKind {
    match d {
        BufData::U8(_) => BufKind::U8,
        BufData::I16(_) => BufKind::I16,
        BufData::I32(_) => BufKind::I32,
        BufData::F32(_) => BufKind::F32,
    }
}

/// A place inside a grid has an index inside its storage.
pub proof fn lemma_grid(x: int, y: int, w: int, h: int)
    requires
        0 <= x < w,
        0 <= y < h,
    ensures
        0 <= y * w + x < w * h,
        (y * w + x) / w == y,
        (y * w + x) % w == x,
{
    assert(0 <= y * w && y * w + w <= w * h) by (nonlinear_arith)
        requires
            0 <= y < h,
            0 < w,
    ;
    assert(y * w == w * y) by (nonlinear_arith);
    lemma_fundamental_div_mod_converse(y * w + x, w, y, x);
}

/// An index inside a grid has a place.
pub proof fn lemma_place_of(i: int, w: int, h: int)
    requires
        0 <= i < w * h,
        w > 0,
    ensures
        0 <= i % w < w,
        0 <= i / w < h,
        i == (i / w) * w + i % w,
{
    lemma_fundamental_div_mod(i, w);
    lemma_mod_bound(i, w);
    let q = i / w;
    assert(w * q == q * w) by (nonlinear_arith);
    assert(0 <= q) by {
        lemma_div_pos_is_pos(i, w);
    }
    assert(q < h) by (nonlinear_arith)
        requires
            i == w * q + i % w,
            0 <= i % w,
            i < w * h,
            w > 0,
    ;
}

/// Whether a copy writes a place: it lies in the destination rectangle
/// and in the destination, what is copied there lies in the source, and
/// the clip, if there is one, holds it.
pub open spec fn copies(
    dst: (int, int),
    src: (int, int),
    from: (int, int),
    size: (int, int),
    to: (int, int),
    clip: Option<Rect>,
    x: int,
    y: int,
) -> bool {
    &&& 0 <= x - to.0 < size.0
    &&& 0 <= y - to.1 < size.1
    &&& 0 <= x < dst.0
    &&& 0 <= y < dst.1
    &&& 0 <= x - to.0 + from.0 < src.0
    &&& 0 <= y - to.1 + from.1 < src.1
    &&& clip matches Some(c) ==> c.has(x, y)
}

/// A copy between grids: the places that it writes take the source's
/// elements, the others keep theirs.
pub open spec fn copied<T>(
    d: Seq<T>,
    s: Seq<T>,
    dw: int,
    sw: int,
    from: (int, int),
    to: (int, int),
    writes: spec_fn(int, int) -> bool,
) -> Seq<T> {
    Seq::new(
        d.len(),
        |i: int|
            if writes(i % dw, i / dw) {
                s[(i / dw - to.1 + from.1) * sw + (i % dw - to.0 + from.0)]
            } else {
                d[i]
            },
    )
}

/// A resolved copy: source origin, destination origin, size.
#[derive(Debug, Clone, Copy)]
struct CopyRegion {
    sx: usize,
    sy: usize,
    dx: usize,
    dy: usize,
    w: usize,
    h: usize,
}

impl CopyRegion {
    spec fn holds(self, x: int, y: int) -> bool {
        self.dx <= x < self.dx + self.w && self.dy <= y < self.dy + self.h
    }
}

#[verifier::rlimit(80)]
fn copy_region(
    dst: Rect,
    src: Rect,
    sx: i32,
    sy: i32,
    w: i32,
    h: i32,
    dx: i32,
    dy: i32,
    clip: Option<Rect>,
) -> (r: Option<CopyRegion>)
    requires
        dst.x == 0 && dst.y == 0 && src.x == 0 && src.y == 0,
    ensures
        match r {
            None => forall|x: int, y: int|
                !#[trigger] copies(
                    (dst.w as int, dst.h as int),
                    (src.w as int, src.h as int),
                    (sx as int, sy as int),
                    (w as int, h as int),
                    (dx as int, dy as int),
                    clip,
                    x,
                    y,
                ),
            Some(c) => {
                &&& forall|x: int, y: int|
                    #[trigger] copies(
                    (dst.w as int, dst.h as int),
                    (src.w as int, src.h as int),
                    (sx as int, sy as int),
                    (w as int, h as int),
                    (dx as int, dy as int),
                    clip,
                    x,
                    y,
                ) <==> c.holds(x, y)
                &&& c.w > 0 && c.h > 0
                &&& c.sx - c.dx == sx - dx
                &&& c.sy - c.dy == sy - dy
                &&& c.dx + c.w <= dst.w && c.dy + c.h <= dst.h
                &&& c.sx + c.w <= src.w && c.sy + c.h <= src.h
            },
        },
{
    if w <= 0 || h <= 0 {
        return None;
    }
    let s = Rect::new(sx, sy, w, h).intersect(&src);
    if s.is_empty() {
        return None;
    }
    let tx = match dx.checked_add(s.x - sx) {
        Some(v) => v,
        None => return None,
    };
    let ty = match dy.checked_add(s.y - sy) {
        Some(v) => v,
        None => return None,
    };
    let mut d = Rect::new(tx, ty, s.w, s.h).intersect(&dst);
    if let Some(c) = clip {
        d = d.intersect(&c);
    }
    if d.is_empty() {
        return None;
    }
    Some(
        CopyRegion {
            sx: (s.x + (d.x - tx)) as usize,
            sy: (s.y + (d.y - ty)) as usize,
            dx: d.x as usize,
            dy: d.y as usize,
            w: d.w as usize,
            h: d.h as usize,
        },
    )
}

fn copy_rows<T: Copy>(
    dst: &mut Vec<T>,
    dw: usize,
    dh: usize,
    src: &Vec<T>,
    sw: usize,
    sh: usize,
    r: CopyRegion,
)
    requires
        old(dst)@.len() == dw * dh,
        src@.len() == sw * sh,
        r.w > 0 && r.h > 0,
        r.dx + r.w <= dw && r.dy + r.h <= dh,
        r.sx + r.w <= sw && r.sy + r.h <= sh,
    ensures
        final(dst)@ == copied(
            old(dst)@,
            src@,
            dw as int,
            sw as int,
            (r.sx as int, r.sy as int),
            (r.dx as int, r.dy as int),
            |x: int, y: int| r.holds(x, y),
        ),
{
    let ghost whole = copied(
        old(dst)@,
        src@,
        dw as int,
        sw as int,
        (r.sx as int, r.sy as int),
        (r.dx as int, r.dy as int),
        |x: int, y: int| r.holds(x, y),
    );
    let total: usize = dst.len();
    let all: usize = src.len();
    let mut row: usize = 0;
    while row < r.h
        invariant
            row <= r.h,
            total == dw * dh,
            all == sw * sh,
            dst@.len() == total,
            old(dst)@.len() == total,
            src@.len() == all,
            whole.len() == total,
            r.w > 0 && r.h > 0,
            r.dx + r.w <= dw && r.dy + r.h <= dh,
            r.sx + r.w <= sw && r.sy + r.h <= sh,
            whole == copied(
                old(dst)@,
                src@,
                dw as int,
                sw as int,
                (r.sx as int, r.sy as int),
                (r.dx as int, r.dy as int),
                |x: int, y: int| r.holds(x, y),
            ),
            forall|i: int|
                0 <= i < total ==> #[trigger] dst@[i] == (if i / dw as int - r.dy < row {
                    whole[i]
                } else {
                    old(dst)@[i]
                }),
        decreases r.h - row,
    {
        let mut k: usize = 0;
        proof {
            lemma_grid(r.dx as int, r.dy + row, dw as int, dh as int);
            lemma_grid(r.sx as int, r.sy + row, sw as int, sh as int);
            assert forall|i: int| 0 <= i < total implies #[trigger] dst@[i] == (if (i / dw as int
                - r.dy < row) || (i / dw as int - r.dy == row && i % dw as int - r.dx < 0) {
                whole[i]
            } else {
                old(dst)@[i]
            }) by {
                lemma_place_of(i, dw as int, dh as int);
            }
        }
        while k < r.w
            invariant
                k <= r.w,
                row < r.h,
                total == dw * dh,
                all == sw * sh,
                dst@.len() == total,
                old(dst)@.len() == total,
                src@.len() == all,
                whole.len() == total,
                r.dx + r.w <= dw && r.dy + r.h <= dh,
                r.sx + r.w <= sw && r.sy + r.h <= sh,
                whole == copied(
                    old(dst)@,
                    src@,
                    dw as int,
                    sw as int,
                    (r.sx as int, r.sy as int),
                    (r.dx as int, r.dy as int),
                    |x: int, y: int| r.holds(x, y),
                ),
                forall|i: int|
                    0 <= i < total ==> #[trigger] dst@[i] == (if (i / dw as int - r.dy < row) || (i
                        / dw as int - r.dy == row && i % dw as int - r.dx < k) {
                        whole[i]
                    } else {
                        old(dst)@[i]
                    }),
            decreases r.w - k,
        {
            proof {
                lemma_grid(r.dx + k, r.dy + row, dw as int, dh as int);
                lemma_grid(r.sx + k, r.sy + row, sw as int, sh as int);
                lemma_grid(0, r.dy + row, dw as int, dh as int);
                lemma_grid(0, r.sy + row, sw as int, sh as int);
            }
            let d: usize = (r.dy + row) * dw + (r.dx + k);
            let s: usize = (r.sy + row) * sw + (r.sx + k);
            let ghost before = dst@;
            let v = src[s];
            dst.set(d, v);
            proof {
                assert(whole[d as int] == v);
                assert forall|i: int| 0 <= i < total implies #[trigger] dst@[i] == (if (i
                    / dw as int - r.dy < row) || (i / dw as int - r.dy == row && i % dw as int
                    - r.dx < k + 1) {
                    whole[i]
                } else {
                    old(dst)@[i]
                }) by {
                    lemma_place_of(i, dw as int, dh as int);
                    if i != d {
                        assert(dst@[i] == before[i]);
                    }
                }
            }
            k += 1;
        }
        proof {
            assert forall|i: int| 0 <= i < total implies #[trigger] dst@[i] == (if i / dw as int
                - r.dy < row + 1 {
                whole[i]
            } else {
                old(dst)@[i]
            }) by {
                lemma_place_of(i, dw as int, dh as int);
            }
        }
        row += 1;
    }
    assert forall|i: int| 0 <= i < total implies #[trigger] dst@[i] == whole[i] by {
        lemma_place_of(i, dw as int, dh as int);
    }
    assert(dst@ =~= whole);
}

fn copy_vec<T: Copy>(v: &Vec<T>) -> (r: Vec<T>)
    ensures
        r@ == v@,
{
    let mut out: Vec<T> = Vec::new();
    let mut i: usize = 0;
    while i < v.len()
        invariant
            i <= v@.len(),
            out@ == v@.take(i as int),
        decreases v.len() - i,
    {
        out.push(v[i]);
        i += 1;
        assert(out@ =~= v@.take(i as int));
    }
    assert(v@.take(i as int) =~= v@);
    out
}

fn fill_vec<T: Copy>(v: &mut Vec<T>, x: T)
    ensures
        final(v)@ == Seq::new(old(v)@.len(), |i: int| x),
{
    let mut i: usize = 0;
    while i < v.len()
        invariant
            i <= v@.len(),
            v@.len() == old(v)@.len(),
            forall|k: int| 0 <= k < i ==> v@[k] == x,
        decreases v.len() - i,
    {
        v.set(i, x);
        i += 1;
    }
    assert(v@ =~= Seq::new(old(v)@.len(), |i: int| x));
}

/// The storage of a buffer, if it can be counted.
pub open spec fn storage(k: BufKind, width: u32, height: u32) -> Option<int> {
    if width * height * width_of(k) <= usize::MAX {
        Some(width * height * width_of(k))
    } else {
        None
    }
}

/// An element as little-endian bytes.
pub open spec fn element_le(k: BufKind, e: Element) -> Seq<u8> {
    match e {
        Element::Int(i) => le(
            (if i < 0 {
                i + (if k == BufKind::I16 {
                    0x1_0000int
                } else {
                    0x1_0000_0000int
                })
            } else {
                i as int
            }) as nat,
            width_of(k) as nat,
        ),
        Element::Single(u) => le(u as nat, 4),
    }
}

/// The bytes of the elements from `i` on.
pub open spec fn raw_from(k: BufKind, e: Seq<Element>, i: nat) -> Seq<u8>
    decreases e.len() - i,
{
    if i >= e.len() {
        seq![]
    } else {
        element_le(k, e[i as int]) + raw_from(k, e, (i + 1) as nat)
    }
}

impl Buf {
    /// As many elements as the sides say, of the kind it says.
    pub open spec fn wf(&self) -> bool {
        &&& self.kind == kind_of(self.data)
        &&& elements(self.data).len() == self.width * self.height
        &&& self.width * self.height * width_of(self.kind) <= usize::MAX
    }

    /// The same buffer with other elements.
    pub open spec fn same_shape(self, other: Buf) -> bool {
        &&& self.kind == other.kind
        &&& self.width == other.width
        &&& self.height == other.height
        &&& self.map == other.map
    }

    /// Allocate a zeroed buffer. Callers reserve in the ledger first; this
    /// only checks that the size arithmetic does not overflow.
    pub fn new(kind: BufKind, width: u32, height: u32) -> (r: Option<Buf>)
        ensures
            match r {
                Some(b) => {
                    &&& storage(kind, width, height) is Some
                    &&& b.wf()
                    &&& b.kind == kind && b.width == width && b.height == height
                    &&& b.map is None
                    &&& forall|i: int|
                        0 <= i < elements(b.data).len() ==> #[trigger] elements(b.data)[i] == (
                        if kind == BufKind::F32 {
                            Element::Single(0)
                        } else {
                            Element::Int(0)
                        })
                },
                None => storage(kind, width, height) is None,
            },
    {
        match Buf::bytes_for(kind, width, height) {
            Some(_) => {},
            None => return None,
        }
        proof {
            lemma_area(width, height);
            let a = width * height;
            assert(a <= a * width_of(kind)) by (nonlinear_arith)
                requires
                    a >= 0,
                    width_of(kind) >= 1,
            ;
        }
        let n: usize = (width as u64 * height as u64) as usize;
        let data = match kind {
            BufKind::U8 => BufData::U8(vec![0u8; n]),
            BufKind::I16 => BufData::I16(vec![0i16; n]),
            BufKind::I32 => BufData::I32(vec![0i32; n]),
            BufKind::F32 => BufData::F32(vec![0u32; n]),
        };
        Some(Buf { kind, width, height, data, map: None })
    }

    pub fn from_u8(width: u32, height: u32, pixels: Vec<u8>) -> (b: Buf)
        requires
            pixels@.len() == width * height,
        ensures
            b.wf(),
            b == (Buf { kind: BufKind::U8, width, height, data: BufData::U8(pixels), map: None }),
    {
        assert(pixels.len() == pixels@.len());
        Buf { kind: BufKind::U8, width, height, data: BufData::U8(pixels), map: None }
    }

    pub fn from_i16(width: u32, height: u32, cells: Vec<i16>, map: Option<MapInfo>) -> (b: Buf)
        requires
            cells@.len() == width * height,
            2 * cells@.len() <= usize::MAX,
        ensures
            b.wf(),
            b == (Buf { kind: BufKind::I16, width, height, data: BufData::I16(cells), map }),
    {
        Buf { kind: BufKind::I16, width, height, data: BufData::I16(cells), map }
    }

    /// Bytes this buffer's storage costs, for the ledger.
    pub fn bytes_for(kind: BufKind, width: u32, height: u32) -> (r: Option<usize>)
        ensures
            match (r, storage(kind, width, height)) {
                (Some(n), Some(m)) => n == m,
                (None, None) => true,
                _ => false,
            },
    {
        proof {
            lemma_area(width, height);
            let a = width * height;
            assert(a <= a * width_of(kind) <= a * 4) by (nonlinear_arith)
                requires
                    a >= 0,
                    1 <= width_of(kind) <= 4,
            ;
        }
        let area: u64 = width as u64 * height as u64;
        let bytes: u128 = area as u128 * kind.element_bytes() as u128;
        if bytes <= usize::MAX as u128 {
            Some(bytes as usize)
        } else {
            None
        }
    }

    pub fn bytes(&self) -> (n: usize)
        requires
            self.wf(),
        ensures
            n == self.width * self.height * width_of(self.kind),
    {
        match Buf::bytes_for(self.kind, self.width, self.height) {
            Some(n) => n,
            None => 0,
        }
    }

    pub fn kind(&self) -> (k: BufKind)
        ensures
            k == self.kind,
    {
        self.kind
    }

    pub fn width(&self) -> (w: u32)
        ensures
            w == self.width,
    {
        self.width
    }

    pub fn height(&self) -> (h: u32)
        ensures
            h == self.height,
    {
        self.height
    }

    pub fn map_info(&self) -> (m: Option<MapInfo>)
        ensures
            m == self.map,
    {
        self.map
    }

    pub open spec fn bounds_of(self) -> Rect {
        Rect { x: 0, y: 0, w: side(self.width) as i32, h: side(self.height) as i32 }
    }

    pub fn bounds(&self) -> (r: Rect)
        ensures
            r == self.bounds_of(),
    {
        Rect::new(0, 0, side_of(self.width), side_of(self.height))
    }

    pub fn as_u8(&self) -> (r: Option<&Vec<u8>>)
        ensures
            match self.data {
                BufData::U8(v) => r == Some(&v),
                _ => r is None,
            },
    {
        match &self.data {
            BufData::U8(v) => Some(v),
            _ => None,
        }
    }

    pub fn as_u8_mut(&mut self) -> (r: Option<&mut Vec<u8>>)
        ensures
            match r {
                Some(v) => old(self).data is U8 && *v == old(self).data->U8_0 && *final(self) == (
                Buf { data: BufData::U8(*final(v)), ..*old(self) }),
                None => !(old(self).data is U8) && *final(self) == *old(self),
            },
    {
        match &mut self.data {
            BufData::U8(v) => Some(v),
            _ => None,
        }
    }

    pub fn as_i16(&self) -> (r: Option<&Vec<i16>>)
        ensures
            match self.data {
                BufData::I16(v) => r == Some(&v),
                _ => r is None,
            },
    {
        match &self.data {
            BufData::I16(v) => Some(v),
            _ => None,
        }
    }

    /// Whether a place lies in the buffer.
    pub open spec fn inside(self, x: int, y: int) -> bool {
        0 <= x < side(self.width) && 0 <= y < side(self.height)
    }

    pub open spec fn index_of(self, x: int, y: int) -> int {
        y * self.width + x
    }

    fn index(&self, x: i32, y: i32) -> (r: Option<usize>)
        requires
            self.wf(),
        ensures
            match r {
                Some(i) => self.inside(x as int, y as int) && i == self.index_of(
                    x as int,
                    y as int,
                ) && i < elements(self.data).len(),
                None => !self.inside(x as int, y as int),
            },
    {
        if x < 0 || y < 0 || x >= side_of(self.width) || y >= side_of(self.height) {
            return None;
        }
        proof {
            lemma_grid(x as int, y as int, self.width as int, self.height as int);
            lemma_grid(0, y as int, self.width as int, self.height as int);
            let a = self.width * self.height;
            assert(a <= a * width_of(self.kind)) by (nonlinear_arith)
                requires
                    a >= 0,
                    width_of(self.kind) >= 1,
            ;
        }
        Some(y as usize * self.width as usize + x as usize)
    }

    /// Read one element. `None` outside the buffer.
    pub fn get(&self, x: i32, y: i32) -> (r: Option<Element>)
        requires
            self.wf(),
        ensures
            match r {
                Some(e) => self.inside(x as int, y as int) && e == elements(
                    self.data,
                )[self.index_of(x as int, y as int)],
                None => !self.inside(x as int, y as int),
            },
    {
        match self.index(x, y) {
            None => None,
            Some(i) => Some(
                match &self.data {
                    BufData::U8(v) => Element::Int(v[i] as i64),
                    BufData::I16(v) => Element::Int(v[i] as i64),
                    BufData::I32(v) => Element::Int(v[i] as i64),
                    BufData::F32(v) => Element::Single(v[i]),
                },
            ),
        }
    }

    /// Write one element, converting as the kind asks. Outside the buffer
    /// is ignored.
    pub fn set(&mut self, x: i32, y: i32, value: Number)
        requires
            old(self).wf(),
        ensures
            final(self).wf(),
            final(self).same_shape(*old(self)),
            elements(final(self).data) == (if old(self).inside(x as int, y as int) {
                elements(old(self).data).update(
                    old(self).index_of(x as int, y as int),
                    kept(old(self).kind, value),
                )
            } else {
                elements(old(self).data)
            }),
    {
        if let Some(i) = self.index(x, y) {
            match &mut self.data {
                BufData::U8(v) => v.set(i, keep_u8(value)),
                BufData::I16(v) => v.set(i, keep_i16(value)),
                BufData::I32(v) => v.set(i, keep_i32(value)),
                BufData::F32(v) => v.set(i, value.single),
            }
            assert(elements(self.data) =~= elements(old(self).data).update(
                old(self).index_of(x as int, y as int),
                kept(old(self).kind, value),
            ));
        }
    }

    pub fn fill(&mut self, value: Number)
        requires
            old(self).wf(),
        ensures
            final(self).wf(),
            final(self).same_shape(*old(self)),
            elements(final(self).data) == Seq::new(
                elements(old(self).data).len(),
                |i: int| kept(old(self).kind, value),
            ),
    {
        match &mut self.data {
            BufData::U8(v) => fill_vec(v, keep_u8(value)),
            BufData::I16(v) => fill_vec(v, keep_i16(value)),
            BufData::I32(v) => fill_vec(v, keep_i32(value)),
            BufData::F32(v) => fill_vec(v, value.single),
        }
        assert(elements(self.data) =~= Seq::new(
            elements(old(self).data).len(),
            |i: int| kept(old(self).kind, value),
        ));
    }

    /// What a copy leaves in a buffer.
    pub open spec fn after_copy(
        self,
        src: Buf,
        from: (int, int),
        size: (int, int),
        to: (int, int),
        clip: Option<Rect>,
    ) -> Seq<Element> {
        copied(
            elements(self.data),
            elements(src.data),
            self.width as int,
            src.width as int,
            from,
            to,
            |x: int, y: int|
                copies(
                    (side(self.width), side(self.height)),
                    (side(src.width), side(src.height)),
                    from,
                    size,
                    to,
                    clip,
                    x,
                    y,
                ),
        )
    }

    /// Copy a `w` by `h` rectangle from `(sx, sy)` of `src` to `(dx, dy)`
    /// of `self`, clipped to both buffers and to `clip` in destination
    /// coordinates when given. Both must be the same kind.
    pub fn copy_from(
        &mut self,
        src: &Buf,
        sx: i32,
        sy: i32,
        w: i32,
        h: i32,
        dx: i32,
        dy: i32,
        clip: Option<Rect>,
    ) -> (r: Result<(), BufError>)
        requires
            old(self).wf(),
            src.wf(),
        ensures
            final(self).wf(),
            final(self).same_shape(*old(self)),
            match r {
                Ok(_) => src.kind == old(self).kind && elements(final(self).data) == old(
                    self,
                ).after_copy(
                    *src,
                    (sx as int, sy as int),
                    (w as int, h as int),
                    (dx as int, dy as int),
                    clip,
                ),
                Err(e) => src.kind != old(self).kind && *final(self) == *old(self) && e == (
                BufError::KindMismatch { expected: old(self).kind, got: src.kind }),
            },
    {
        if src.kind != self.kind {
            return Err(BufError::KindMismatch { expected: self.kind, got: src.kind });
        }
        let ghost want = self.after_copy(
            *src,
            (sx as int, sy as int),
            (w as int, h as int),
            (dx as int, dy as int),
            clip,
        );
        let ghost writes = |x: int, y: int|
            copies(
                (side(self.width), side(self.height)),
                (side(src.width), side(src.height)),
                (sx as int, sy as int),
                (w as int, h as int),
                (dx as int, dy as int),
                clip,
                x,
                y,
            );
        assert(self.bounds_of().w as int == side(self.width));
        assert(self.bounds_of().h as int == side(self.height));
        assert(src.bounds_of().w as int == side(src.width));
        assert(src.bounds_of().h as int == side(src.height));
        let c = match copy_region(self.bounds(), src.bounds(), sx, sy, w, h, dx, dy, clip) {
            Some(c) => c,
            None => {
                assert(elements(self.data) =~= want) by {
                    assert forall|i: int| 0 <= i < want.len() implies elements(self.data)[i]
                        == #[trigger] want[i] by {
                        let x = i % self.width as int;
                        let y = i / self.width as int;
                        assert(!copies(
                            (self.bounds_of().w as int, self.bounds_of().h as int),
                            (src.bounds_of().w as int, src.bounds_of().h as int),
                            (sx as int, sy as int),
                            (w as int, h as int),
                            (dx as int, dy as int),
                            clip,
                            x,
                            y,
                        ));
                        assert(!writes(x, y));
                    }
                }
                return Ok(());
            },
        };
        let dw = self.width as usize;
        let dh = self.height as usize;
        let sw = src.width as usize;
        let sh = src.height as usize;
        assert forall|i: int| true implies #[trigger] writes(
            i % self.width as int,
            i / self.width as int,
        ) == c.holds(i % self.width as int, i / self.width as int) by {}
        match &mut self.data {
            BufData::U8(d) => match &src.data {
                BufData::U8(s) => copy_rows(d, dw, dh, s, sw, sh, c),
                _ => {},
            },
            BufData::I16(d) => match &src.data {
                BufData::I16(s) => copy_rows(d, dw, dh, s, sw, sh, c),
                _ => {},
            },
            BufData::I32(d) => match &src.data {
                BufData::I32(s) => copy_rows(d, dw, dh, s, sw, sh, c),
                _ => {},
            },
            BufData::F32(d) => match &src.data {
                BufData::F32(s) => copy_rows(d, dw, dh, s, sw, sh, c),
                _ => {},
            },
        }
        proof {
            assert(elements(self.data).len() == want.len());
            assert forall|i: int| 0 <= i < want.len() implies elements(self.data)[i]
                == #[trigger] want[i] by {
                let x = i % self.width as int;
                let y = i / self.width as int;
                lemma_place_of(i, self.width as int, self.height as int);
                assert(writes(x, y) == c.holds(x, y));
                if c.holds(x, y) {
                    lemma_grid(x - c.dx + c.sx, y - c.dy + c.sy, src.width as int, src.height as int);
                }
            }
            assert(elements(self.data) =~= want);
        }
        Ok(())
    }

    /// Copy a rectangle within one buffer, overlap-safe: as if through a
    /// temporary.
    pub fn copy_within(
        &mut self,
        sx: i32,
        sy: i32,
        w: i32,
        h: i32,
        dx: i32,
        dy: i32,
        clip: Option<Rect>,
    )
        requires
            old(self).wf(),
        ensures
            final(self).wf(),
            final(self).same_shape(*old(self)),
            elements(final(self).data) == old(self).after_copy(
                *old(self),
                (sx as int, sy as int),
                (w as int, h as int),
                (dx as int, dy as int),
                clip,
            ),
    {
        let data = match &self.data {
            BufData::U8(v) => BufData::U8(copy_vec(v)),
            BufData::I16(v) => BufData::I16(copy_vec(v)),
            BufData::I32(v) => BufData::I32(copy_vec(v)),
            BufData::F32(v) => BufData::F32(copy_vec(v)),
        };
        assert(elements(data) =~= elements(self.data));
        let temporary = Buf {
            kind: self.kind,
            width: self.width,
            height: self.height,
            data,
            map: self.map,
        };
        match self.copy_from(&temporary, sx, sy, w, h, dx, dy, clip) {
            Ok(_) => {},
            Err(_) => {},
        }
    }

    /// Every element as little-endian bytes, for the codec's blob form.
    pub fn raw_bytes(&self) -> (out: Vec<u8>)
        requires
            self.wf(),
        ensures
            out@ == raw_from(self.kind, elements(self.data), 0),
    {
        let mut out: Vec<u8> = Vec::new();
        let n: usize = match &self.data {
            BufData::U8(v) => v.len(),
            BufData::I16(v) => v.len(),
            BufData::I32(v) => v.len(),
            BufData::F32(v) => v.len(),
        };
        let width = self.kind.element_bytes();
        let ghost e = elements(self.data);
        let mut i: usize = 0;
        assert(out@ + raw_from(self.kind, e, 0) =~= raw_from(self.kind, e, 0));
        while i < n
            invariant
                i <= n,
                self.wf(),
                e == elements(self.data),
                n == e.len(),
                width == width_of(self.kind),
                out@ + raw_from(self.kind, e, i as nat) =~= raw_from(self.kind, e, 0),
            decreases n - i,
        {
            let v: u64 = match &self.data {
                BufData::U8(v) => v[i] as u64,
                BufData::I16(v) => if v[i] < 0 {
                    (v[i] as i64 + 0x1_0000) as u64
                } else {
                    v[i] as u64
                },
                BufData::I32(v) => if v[i] < 0 {
                    (v[i] as i64 + 0x1_0000_0000) as u64
                } else {
                    v[i] as u64
                },
                BufData::F32(v) => v[i] as u64,
            };
            let ghost before = out@;
            put_le(&mut out, v, width);
            assert(le(v as nat, width as nat) == element_le(self.kind, e[i as int]));
            assert(before + (element_le(self.kind, e[i as int]) + raw_from(
                self.kind,
                e,
                (i + 1) as nat,
            )) =~= out@ + raw_from(self.kind, e, (i + 1) as nat));
            i += 1;
        }
        assert(out@ + Seq::<u8>::empty() =~= out@);
        out
    }
}

/// The bytes of one element of a run of bytes.
pub open spec fn chunk(b: Seq<u8>, k: BufKind, i: int) -> Seq<u8> {
    b.subrange(i * width_of(k), i * width_of(k) + width_of(k))
}

proof fn lemma_le_spells(s: Seq<u8>)
    ensures
        le(from_le(s), s.len()) == s,
    decreases s.len(),
{
    if s.len() > 0 {
        lemma_le_spells(s.skip(1));
        let n = from_le(s);
        assert(n % 256 == s[0]);
        assert(n / 256 == from_le(s.skip(1)));
        assert(le(n, s.len()) =~= seq![s[0]] + s.skip(1));
        assert(s =~= seq![s[0]] + s.skip(1));
    }
}

/// Elements that spell the bytes piece by piece spell them all.
proof fn lemma_raw_spells(k: BufKind, e: Seq<Element>, b: Seq<u8>, i: nat)
    requires
        i <= e.len(),
        b.len() == e.len() * width_of(k),
        forall|j: int| 0 <= j < e.len() ==> element_le(k, #[trigger] e[j]) == chunk(b, k, j),
    ensures
        i * width_of(k) <= b.len(),
        raw_from(k, e, i) == b.skip(i * width_of(k)),
    decreases e.len() - i,
{
    let w = width_of(k);
    assert(i * w <= e.len() * w) by (nonlinear_arith)
        requires
            i <= e.len(),
            w >= 0,
    ;
    if i < e.len() {
        lemma_raw_spells(k, e, b, (i + 1) as nat);
        assert((i + 1) * w == i * w + w) by (nonlinear_arith);
        assert(element_le(k, e[i as int]) == chunk(b, k, i as int));
        assert(b.skip(i * w) =~= chunk(b, k, i as int) + b.skip(i * w + w));
    } else {
        assert(b.skip(i * w) =~= seq![]);
    }
}

proof fn lemma_chunk_2(b: Seq<u8>, at: int)
    requires
        0 <= at,
        at + 2 <= b.len(),
    ensures
        le((b[at] + 256 * b[at + 1]) as nat, 2) == b.subrange(at, at + 2),
{
    let s = b.subrange(at, at + 2);
    lemma_le_spells(s);
    assert(s.skip(1).skip(1) =~= seq![]);
    assert(from_le(s.skip(1).skip(1)) == 0);
    assert(from_le(s.skip(1)) == b[at + 1]);
    assert(from_le(s) == b[at] + 256 * b[at + 1]);
}

proof fn lemma_chunk_4(b: Seq<u8>, at: int)
    requires
        0 <= at,
        at + 4 <= b.len(),
    ensures
        le((b[at] + 256 * b[at + 1] + 65536 * b[at + 2] + 16777216 * b[at + 3]) as nat, 4)
            == b.subrange(at, at + 4),
{
    let s = b.subrange(at, at + 4);
    lemma_le_spells(s);
    let s1 = s.skip(1);
    let s2 = s1.skip(1);
    let s3 = s2.skip(1);
    assert(s3.skip(1) =~= seq![]);
    assert(from_le(s3.skip(1)) == 0);
    assert(from_le(s3) == b[at + 3]);
    assert(from_le(s2) == b[at + 2] + 256 * b[at + 3]);
    assert(from_le(s1) == b[at + 1] + 256 * (b[at + 2] + 256 * b[at + 3]));
    assert(from_le(s) == b[at] + 256 * (b[at + 1] + 256 * (b[at + 2] + 256 * b[at + 3])));
}

proof fn lemma_chunk_1(b: Seq<u8>, at: int)
    requires
        0 <= at < b.len(),
    ensures
        le(b[at] as nat, 1) == b.subrange(at, at + 1),
{
    let s = b.subrange(at, at + 1);
    lemma_le_spells(s);
    assert(s.skip(1) =~= seq![]);
    assert(from_le(s.skip(1)) == 0);
}

fn word16(b: &[u8], at: usize) -> (v: u32)
    requires
        at + 2 <= b@.len(),
    ensures
        v <= 0xffff,
        le(v as nat, 2) == b@.subrange(at as int, at + 2),
{
    proof {
        lemma_chunk_2(b@, at as int);
    }
    b[at] as u32 + 256 * b[at + 1] as u32
}

fn word32(b: &[u8], at: usize) -> (v: u32)
    requires
        at + 4 <= b@.len(),
    ensures
        le(v as nat, 4) == b@.subrange(at as int, at + 4),
{
    proof {
        lemma_chunk_4(b@, at as int);
    }
    b[at] as u32 + 256 * b[at + 1] as u32 + 65536 * b[at + 2] as u32 + 16777216 * b[at + 3] as u32
}

impl Buf {
    /// Replace every element from little-endian bytes. `false`, and no
    /// change, when the length is not exactly the buffer's storage.
    pub fn set_raw_bytes(&mut self, bytes: &[u8]) -> (r: bool)
        requires
            old(self).wf(),
        ensures
            final(self).wf(),
            final(self).same_shape(*old(self)),
            r == (bytes@.len() == old(self).width * old(self).height * width_of(old(self).kind)),
            if r {
                raw_from(final(self).kind, elements(final(self).data), 0) == bytes@
            } else {
                *final(self) == *old(self)
            },
    {
        if bytes.len() != self.bytes() {
            return false;
        }
        let kind = self.kind;
        let width = kind.element_bytes();
        let ghost n = elements(self.data).len();
        let total: usize = bytes.len();
        let mut at: usize = 0;
        let mut i: usize = 0;
        while at < total
            invariant
                total == bytes@.len(),
                total == n * width,
                width == width_of(kind),
                at == i * width,
                at <= total,
                self.wf(),
                self.same_shape(*old(self)),
                kind == self.kind,
                n == elements(self.data).len(),
                forall|j: int|
                    0 <= j < i ==> element_le(kind, #[trigger] elements(self.data)[j]) == chunk(
                        bytes@,
                        kind,
                        j,
                    ),
            decreases total - at,
        {
            proof {
                assert(i < n) by (nonlinear_arith)
                    requires
                        i * width < n * width,
                        width > 0,
                ;
                assert((i + 1) * width == i * width + width) by (nonlinear_arith);
                assert((i + 1) * width <= n * width) by (nonlinear_arith)
                    requires
                        i + 1 <= n,
                        width >= 0,
                ;
                if kind == BufKind::U8 {
                    lemma_chunk_1(bytes@, at as int);
                }
            }
            let ghost before = elements(self.data);
            match &mut self.data {
                BufData::U8(v) => {
                    v.set(i, bytes[at]);
                },
                BufData::I16(v) => {
                    let u = word16(bytes, at);
                    v.set(i, if u >= 0x8000 { (u as i32 - 0x1_0000) as i16 } else { u as i16 });
                },
                BufData::I32(v) => {
                    let u = word32(bytes, at);
                    v.set(
                        i,
                        if u >= 0x8000_0000 { (u as i64 - 0x1_0000_0000) as i32 } else { u as i32 },
                    );
                },
                BufData::F32(v) => {
                    v.set(i, word32(bytes, at));
                },
            }
            proof {
                let after = elements(self.data);
                assert(element_le(kind, after[i as int]) == chunk(bytes@, kind, i as int));
                assert forall|j: int| 0 <= j < i + 1 implies element_le(kind, #[trigger] after[j])
                    == chunk(bytes@, kind, j) by {
                    if j < i {
                        assert(after[j] == before[j]);
                    }
                }
            }
            at = at + width;
            i = i + 1;
        }
        proof {
            assert(i == n) by (nonlinear_arith)
                requires
                    i * width == n * width,
                    width > 0,
            ;
            lemma_raw_spells(kind, elements(self.data), bytes@, 0);
            assert(bytes@.skip(0) =~= bytes@);
        }
        true
    }
}

proof fn lemma_area(width: u32, height: u32)
    ensures
        0 <= width * height <= u64::MAX,
{
    assert(0 <= width * height <= 0xffff_ffff * 0xffff_ffff) by (nonlinear_arith)
        requires
            width <= 0xffff_ffff,
            height <= 0xffff_ffff,
    ;
}

/// Whether an element is one that a kind can hold.
pub open spec fn fits_kind(k: BufKind, e: Element) -> bool {
    match (k, e) {
        (BufKind::U8, Element::Int(i)) => 0 <= i < 0x100,
        (BufKind::I16, Element::Int(i)) => -0x8000 <= i < 0x8000,
        (BufKind::I32, Element::Int(i)) => -0x8000_0000 <= i < 0x8000_0000,
        (BufKind::F32, Element::Single(_)) => true,
        _ => false,
    }
}

proof fn lemma_element_bytes_differ(k: BufKind, x: Element, y: Element)
    requires
        fits_kind(k, x),
        fits_kind(k, y),
        element_le(k, x) == element_le(k, y),
    ensures
        x == y,
{
    lemma_pow256();
    let number = |e: Element|
        match e {
            Element::Int(i) => (if i < 0 {
                i + (if k == BufKind::I16 {
                    0x1_0000int
                } else {
                    0x1_0000_0000int
                })
            } else {
                i as int
            }) as nat,
            Element::Single(u) => u as nat,
        };
    let w = width_of(k) as nat;
    assert(element_le(k, x) == le(number(x), w));
    assert(element_le(k, y) == le(number(y), w));
    assert(number(x) < pow(256, w) && number(y) < pow(256, w));
    lemma_from_le(number(x), w);
    lemma_from_le(number(y), w);
}

proof fn lemma_raw_bytes_differ(k: BufKind, a: Seq<Element>, b: Seq<Element>, i: nat)
    requires
        a.len() == b.len(),
        i <= a.len(),
        forall|j: int| 0 <= j < a.len() ==> fits_kind(k, #[trigger] a[j]),
        forall|j: int| 0 <= j < b.len() ==> fits_kind(k, #[trigger] b[j]),
        raw_from(k, a, i) == raw_from(k, b, i),
    ensures
        forall|j: int| i <= j < a.len() ==> #[trigger] a[j] == b[j],
    decreases a.len() - i,
{
    if i < a.len() {
        let x = element_le(k, a[i as int]);
        let y = element_le(k, b[i as int]);
        let p = raw_from(k, a, (i + 1) as nat);
        let q = raw_from(k, b, (i + 1) as nat);
        lemma_element_len(k, a[i as int]);
        lemma_element_len(k, b[i as int]);
        assert((x + p).take(x.len() as int) =~= x);
        assert((y + q).take(y.len() as int) =~= y);
        assert((x + p).skip(x.len() as int) =~= p);
        assert((y + q).skip(y.len() as int) =~= q);
        lemma_element_bytes_differ(k, a[i as int], b[i as int]);
        lemma_raw_bytes_differ(k, a, b, (i + 1) as nat);
    }
}

proof fn lemma_element_len(k: BufKind, e: Element)
    requires
        fits_kind(k, e),
    ensures
        element_le(k, e).len() == width_of(k),
{
    match e {
        Element::Int(i) => {
            let n = (if i < 0 {
                i + (if k == BufKind::I16 {
                    0x1_0000int
                } else {
                    0x1_0000_0000int
                })
            } else {
                i as int
            }) as nat;
            lemma_le_len(n, width_of(k) as nat);
        },
        Element::Single(u) => {
            lemma_le_len(u as nat, 4);
        },
    }
}

/// The raw bytes of a buffer restore its elements: a buffer of the same
/// shape that has the same bytes has the same elements.
pub proof fn law_raw_bytes_restore_the_elements(a: Buf, b: Buf)
    requires
        a.wf(),
        b.wf(),
        a.same_shape(b),
        raw_from(a.kind, elements(a.data), 0) == raw_from(b.kind, elements(b.data), 0),
    ensures
        elements(a.data) == elements(b.data),
{
    let x = elements(a.data);
    let y = elements(b.data);
    assert forall|j: int| 0 <= j < x.len() implies fits_kind(a.kind, #[trigger] x[j]) by {}
    assert forall|j: int| 0 <= j < y.len() implies fits_kind(b.kind, #[trigger] y[j]) by {}
    lemma_raw_bytes_differ(a.kind, x, y, 0);
    assert(x =~= y);
}

} // verus!
