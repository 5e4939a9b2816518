//! What a buffer keeps of a number, where a copy puts its rectangle, and
//! how numbers are spelled in bytes.

use vstd::prelude::*;
use vstd::arithmetic::div_mod::*;
use crate::buf::{
    elements, kept, lemma_grid, storage, width_of, Buf, BufKind, Element, Number, Rect,
};
use crate::draw::DrawState;
use crate::resources::{dropped, made, BufId, GfxError, Resources};
use crate::wire::{field, le};

verus! {

proof fn lemma_turns(v: int, m: int)
    requires
        m == 0x100 || m == 0x1_0000 || m == 0x1_0000_0000,
    ensures
        0 <= v % m < m,
        (v - v % m) % m == 0,
        (v - (v % m - m)) % m == 0,
        0 <= v < m ==> v % m == v,
        -m <= v < 0 ==> v % m == v + m,
{
    let q = v / m;
    lemma_fundamental_div_mod(v, m);
    lemma_mod_bound(v, m);
    lemma_mod_multiples_basic(q, m);
    lemma_mod_multiples_basic(q + 1, m);
    assert(m * q == q * m && (q + 1) * m == q * m + m) by (nonlinear_arith);
    if 0 <= v < m {
        lemma_small_mod(v as nat, m as nat);
    }
    if -m <= v < 0 {
        lemma_fundamental_div_mod_converse(v, m, -1, v + m);
    }
}

/// A buffer keeps a number in the range of its kind: an integer that
/// differs from it by a whole turn of that range, and so the number itself
/// where it fits. A float buffer keeps the float.
pub proof fn law_a_buffer_keeps_numbers_in_range(n: Number)
    ensures
        kept(BufKind::U8, n) matches Element::Int(v) && 0 <= v <= 255 && (n.floor - v) % 0x100 == 0,
        kept(BufKind::I16, n) matches Element::Int(v) && -0x8000 <= v <= 0x7fff && (n.floor - v)
            % 0x1_0000 == 0,
        kept(BufKind::I32, n) matches Element::Int(v) && -0x8000_0000 <= v <= 0x7fff_ffff && (
        n.floor - v) % 0x1_0000_0000 == 0,
        kept(BufKind::F32, n) == Element::Single(n.single),
        0 <= n.floor <= 255 ==> kept(BufKind::U8, n) == Element::Int(n.floor),
        -0x8000 <= n.floor <= 0x7fff ==> kept(BufKind::I16, n) == Element::Int(n.floor),
        -0x8000_0000 <= n.floor <= 0x7fff_ffff ==> kept(BufKind::I32, n) == Element::Int(n.floor),
{
    let v = n.floor as int;
    lemma_turns(v, 0x100);
    lemma_turns(v, 0x1_0000);
    lemma_turns(v, 0x1_0000_0000);
}

/// The element of a buffer at a column and a row.
pub open spec fn element_at(b: Buf, x: int, y: int) -> Element {
    elements(b.data)[y * b.width + x]
}

/// A copy moves a rectangle: a place of it that lies in both buffers and in
/// the clip takes the source's element as far right and down of the
/// rectangle's corner there; every other place keeps its own.
pub proof fn law_a_copy_moves_its_rectangle(
    d: Buf,
    s: Buf,
    from: (int, int),
    size: (int, int),
    to: (int, int),
    clip: Option<Rect>,
    x: int,
    y: int,
)
    requires
        d.wf(),
        s.wf(),
        d.width <= i32::MAX && d.height <= i32::MAX,
        s.width <= i32::MAX && s.height <= i32::MAX,
        0 <= x < d.width,
        0 <= y < d.height,
    ensures
        ({
            let right = x - to.0;
            let down = y - to.1;
            let col = from.0 + right;
            let row = from.1 + down;
            let moved = 0 <= right < size.0 && 0 <= down < size.1 && 0 <= col < s.width && 0 <= row
                < s.height && (clip is None || clip->0.has(x, y));
            d.after_copy(s, from, size, to, clip)[y * d.width + x] == (if moved {
                element_at(s, col, row)
            } else {
                element_at(d, x, y)
            })
        }),
        d.after_copy(s, from, size, to, clip).len() == d.width * d.height,
{
    lemma_grid(x, y, d.width as int, d.height as int);
}

proof fn lemma_le_step(n: nat, k: nat)
    requires
        k > 0,
    ensures
        le(n, k) == seq![(n % 256) as u8] + le(n / 256, (k - 1) as nat),
{
}

/// Numbers go low byte first.
pub proof fn law_numbers_go_low_byte_first(n: nat)
    ensures
        le(n, 1) == seq![(n % 0x100) as u8],
        le(n, 2) == seq![(n % 0x100) as u8, (n / 0x100 % 0x100) as u8],
        le(n, 4) == seq![
            (n % 0x100) as u8,
            (n / 0x100 % 0x100) as u8,
            (n / 0x1_0000 % 0x100) as u8,
            (n / 0x100_0000 % 0x100) as u8,
        ],
{
    assert(n / 0x100 / 0x100 == n / 0x1_0000);
    assert(n / 0x100 / 0x100 / 0x100 == n / 0x100_0000);
    lemma_le_step(n, 1);
    lemma_le_step(n, 2);
    lemma_le_step(n / 0x100, 1);
    lemma_le_step(n, 4);
    lemma_le_step(n / 0x100, 3);
    lemma_le_step(n / 0x100 / 0x100, 2);
    lemma_le_step(n / 0x100 / 0x100 / 0x100, 1);
    assert(le(n / 0x100, 0) == Seq::<u8>::empty());
    assert(le(n, 1) =~= seq![(n % 0x100) as u8]);
    assert(le(n / 0x100, 1) =~= seq![(n / 0x100 % 0x100) as u8]);
    assert(le(n, 2) =~= seq![(n % 0x100) as u8, (n / 0x100 % 0x100) as u8]);
    assert(le(n / 0x100 / 0x100 / 0x100, 1) =~= seq![(n / 0x100_0000 % 0x100) as u8]);
    assert(le(n, 4) =~= seq![
        (n % 0x100) as u8,
        (n / 0x100 % 0x100) as u8,
        (n / 0x1_0000 % 0x100) as u8,
        (n / 0x100_0000 % 0x100) as u8,
    ]);
}

/// A field is its length in four bytes, low byte first, and then itself.
pub proof fn law_a_field_starts_with_its_length(b: Seq<u8>)
    requires
        b.len() <= u32::MAX,
    ensures
        field(b).len() == b.len() + 4,
        field(b)[0] + 0x100 * field(b)[1] + 0x1_0000 * field(b)[2] + 0x100_0000 * field(b)[3]
            == b.len(),
        field(b).skip(4) == b,
{
    let n = b.len();
    law_numbers_go_low_byte_first(n);
    assert(n / 0x100 / 0x100 == n / 0x1_0000);
    assert(n / 0x100 / 0x100 / 0x100 == n / 0x100_0000);
    assert(field(b).skip(4) =~= b);
}

/// A kind's element takes one byte, two or four.
pub proof fn law_a_kind_takes_its_bytes(w: u32, h: u32)
    requires
        w * h * 4 <= usize::MAX,
    ensures
        storage(BufKind::U8, w, h) == Some(w * h),
        storage(BufKind::I16, w, h) == Some(2 * (w * h)),
        storage(BufKind::I32, w, h) == Some(4 * (w * h)),
        storage(BufKind::F32, w, h) == Some(4 * (w * h)),
{
    let a = w * h;
    assert(a >= 0) by (nonlinear_arith)
        requires
            a == w * h,
            w >= 0,
            h >= 0,
    ;
    assert(a * width_of(BufKind::U8) == a && a * width_of(BufKind::I16) == 2 * a && a * width_of(
        BufKind::I32,
    ) == 4 * a && a * width_of(BufKind::F32) == 4 * a) by (nonlinear_arith)
        requires
            width_of(BufKind::U8) == 1,
            width_of(BufKind::I16) == 2,
            width_of(BufKind::I32) == 4,
            width_of(BufKind::F32) == 4,
    ;
}

/// A new buffer is charged for its elements and nothing else changes: every
/// other handle stands for what it stood for. Once it is released its bytes
/// are free and its handle stands for nothing.
pub proof fn law_a_buffer_is_charged_for_its_elements(
    was: Resources,
    now: Resources,
    later: Resources,
    w: u32,
    h: u32,
    id: BufId,
    other: BufId,
)
    requires
        made(was, now, BufKind::I16, w, h, id),
        dropped(now, later, id),
        other != id,
    ensures
        now.ledger.used == was.ledger.used + 2 * (w * h),
        now.live(id) is Some && now.live(id)->0.width == w && now.live(id)->0.height == h,
        now.live(other) == was.live(other),
        later.live(id) is None,
        later.live(other) == was.live(other),
        later.ledger.used == was.ledger.used,
{
    let a = w * h;
    assert(a * width_of(BufKind::I16) == 2 * a) by (nonlinear_arith)
        requires
            width_of(BufKind::I16) == 2,
    ;
}

/// A handle is a slot and a generation, and no two have both.
pub proof fn law_handles_are_told_apart(slot: int, generation: int, s: int, g: int)
    requires
        0 <= slot < 0x1_0000_0000 && 0 <= generation < 0x1_0000_0000,
        0 <= s < 0x1_0000_0000 && 0 <= g < 0x1_0000_0000,
    ensures
        BufId::of(slot, generation).slot_of() == slot,
        BufId::of(slot, generation).generation_of() == generation,
        BufId::of(slot, generation) == BufId::of(s, g) <==> slot == s && generation == g,
{
    lemma_fundamental_div_mod_converse(
        generation * 0x1_0000_0000 + slot,
        0x1_0000_0000,
        generation,
        slot,
    );
    lemma_fundamental_div_mod_converse(g * 0x1_0000_0000 + s, 0x1_0000_0000, g, s);
}

/// A map keeps its layers below each other: the cell of a layer at a column
/// and a row stands as many rows down as the layers above it have.
pub proof fn law_layers_stand_below_each_other(b: Buf, layer: int, x: int, y: int)
    requires
        b.data is I16,
        b.map is Some,
        b.data->I16_0@.len() == b.width * b.height,
        0 <= layer,
        (layer + 1) * b.map->0.rows <= b.height,
        0 <= x < b.width,
        0 <= y < b.map->0.rows,
    ensures
        DrawState::layer_cells(b, layer)[y * b.width + x] == b.data->I16_0@[(layer * b.map->0.rows
            + y) * b.width + x],
{
    let w = b.width as int;
    let r = b.map->0.rows as int;
    let per = w * r;
    lemma_grid(x, y, w, r);
    assert((layer * r + y) * w + x == layer * per + (y * w + x)) by (nonlinear_arith)
        requires
            per == w * r,
    ;
    assert((layer + 1) * per == layer * per + per) by (nonlinear_arith);
    assert(0 <= layer * per) by (nonlinear_arith)
        requires
            layer >= 0,
            per == w * r,
            w >= 0,
            r >= 0,
    ;
    assert((layer + 1) * per <= w * b.height) by (nonlinear_arith)
        requires
            per == w * r,
            (layer + 1) * r <= b.height,
            w >= 0,
    ;
}

/// A cart draws from its sheet where it has one that is live and is not what
/// it draws on.
pub proof fn law_a_sheet_is_live_and_another(d: DrawState)
    ensures
        d.sheet_refusal() is None <==> d.pen.sheet is Some && d.res.live(d.pen.sheet->0) is Some
            && d.pen.sheet->0 != (if d.res.live(d.pen.target) is Some {
            d.pen.target
        } else {
            BufId::screen_id()
        }),
        d.pen.sheet is None ==> d.sheet_refusal() == Some(GfxError::NoSheet),
{
}

} // verus!
