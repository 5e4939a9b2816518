//! Small rules that the rest leans on: rounding, bounds, buttons, the log,
//! colour numbers and the table that colours are drawn through.

use vstd::prelude::*;
use vstd::arithmetic::div_mod::*;
use vstd::utf8::*;
use crate::assets::{masked, palette_bytes};
use crate::draw::DrawState;
use crate::input::{FrameInput, BTN_A, BTN_B, BTN_DOWN, BTN_LEFT, BTN_RIGHT, BTN_UP};
use crate::math::{clamp, saturated, trunc_div};
use crate::palette::Rgb;
use crate::pen::{TableCall, TableView};
use crate::wire::clipped;

verus! {

/// Division rounds towards zero: what is left over is less than the
/// divisor and has the sign of what was divided, and the sign of a number
/// does not change how far it is from zero.
pub proof fn law_division_rounds_towards_zero(a: int, b: int)
    requires
        b > 0,
    ensures
        a >= 0 ==> 0 <= a - b * trunc_div(a, b) < b,
        a <= 0 ==> -b < a - b * trunc_div(a, b) <= 0,
        trunc_div(-a, b) == -trunc_div(a, b),
{
    let m = if a < 0 {
        -a
    } else {
        a
    };
    lemma_fundamental_div_mod(m, b);
    lemma_mod_bound(m, b);
    let q = m / b;
    assert(b * (-q) == -(b * q)) by (nonlinear_arith);
    if a == 0 {
        lemma_div_basics(b);
    }
}

/// A number that is kept within bounds is itself where it is within them,
/// and the bound that it is beyond where it is not.
pub proof fn law_a_number_is_kept_within_bounds(a: int, lo: int, hi: int)
    requires
        lo <= hi,
    ensures
        lo <= clamp(a, lo, hi) <= hi,
        lo <= a <= hi ==> clamp(a, lo, hi) == a,
        a < lo ==> clamp(a, lo, hi) == lo,
        a > hi ==> clamp(a, lo, hi) == hi,
        saturated(a) == clamp(a, -0x8000_0000, 0x7fff_ffff),
{
}

/// Up, down, left, right, A and B are the buttons from 0 to 5, each with a
/// bit of its own; there are no others.
pub proof fn law_each_button_has_its_bit(i: FrameInput, n: u8)
    ensures
        i.holds(0) <==> i.buttons & BTN_UP != 0,
        i.holds(1) <==> i.buttons & BTN_DOWN != 0,
        i.holds(2) <==> i.buttons & BTN_LEFT != 0,
        i.holds(3) <==> i.buttons & BTN_RIGHT != 0,
        i.holds(4) <==> i.buttons & BTN_A != 0,
        i.holds(5) <==> i.buttons & BTN_B != 0,
        n > 5 ==> !i.holds(n),
        BTN_UP == 1 && BTN_DOWN == 2 && BTN_LEFT == 4 && BTN_RIGHT == 8 && BTN_A == 16 && BTN_B
            == 32,
{
    assert(1u8 << 0u8 == 1 && 1u8 << 1u8 == 2 && 1u8 << 2u8 == 4 && 1u8 << 3u8 == 8 && 1u8 << 4u8
        == 16 && 1u8 << 5u8 == 32) by (bit_vector);
}

/// A line is logged behind those before it, as it is where it fits; a
/// longer one is cut and ends in dots, and the line behind the 256th says
/// that the rest is missing.
pub proof fn law_a_line_is_logged_behind_the_others(log: Seq<Seq<char>>, line: Seq<char>)
    ensures
        ({
            let now = DrawState::logged(log, line);
            let long = encode_utf8(line).len() > crate::draw::MAX_LOG_LINE_BYTES;
            &&& log.len() < 256 && !long ==> now == log.push(line)
            &&& log.len() < 256 && long ==> now == log.push(
                clipped(line, crate::draw::MAX_LOG_LINE_BYTES as nat) + "..."@,
            )
            &&& log.len() == 256 ==> now == log.push("... log truncated at 256 lines"@)
            &&& log.len() > 256 ==> now == log
        }),
{
}

/// A palette's bytes are red, green and blue of one colour after the other.
pub proof fn law_palette_bytes_are_colour_by_colour(p: Seq<Rgb>, n: nat, i: int, k: int)
    requires
        n <= p.len(),
        0 <= i < n,
        0 <= k < 3,
    ensures
        palette_bytes(p, n).len() == 3 * n,
        palette_bytes(p, n)[3 * i + k] == p[i]@[k],
    decreases n,
{
    let m = (n - 1) as nat;
    if n > 1 {
        let j = if i < m {
            i
        } else {
            0
        };
        law_palette_bytes_are_colour_by_colour(p, m, j, k);
    } else {
        assert(palette_bytes(p, 0).len() == 0);
    }
}

/// A pixel keeps the low seven bits of a colour number.
pub proof fn law_a_pixel_is_seven_bits(pixels: Seq<u8>, i: int)
    requires
        0 <= i < pixels.len(),
    ensures
        masked(pixels).len() == pixels.len(),
        masked(pixels)[i] < 128,
        pixels[i] < 128 ==> masked(pixels)[i] == pixels[i],
        pixels[i] >= 128 ==> masked(pixels)[i] == pixels[i] - 128,
{
}

/// A plain table draws every colour as it is. A colour that is remapped is
/// drawn as the one it is mapped to, and no other is changed; one that is
/// set transparent leaves what is there, until it is set opaque.
pub proof fn law_a_table_draws_what_it_was_told(t: TableView, from: u8, to: u8, src: int, dst: int)
    requires
        t.remap.len() == 128,
        t.transparent.len() == 128,
        forall|i: int| 0 <= i < 128 ==> #[trigger] t.remap[i] < 128,
        from < 128,
        to < 128,
        0 <= src < 128,
        0 <= dst < 128,
    ensures
        TableView::plain().look(src, dst) == src,
        ({
            let m = t.with(TableCall::Remap(from, to));
            &&& m.look(from as int, dst) == (if t.transparent[to as int] {
                dst
            } else {
                to as int
            })
            &&& src != from ==> m.look(src, dst) == t.look(src, dst)
        }),
        ({
            let m = t.with(TableCall::Transparent(to, true));
            &&& t.remap[src] == to ==> m.look(src, dst) == dst
            &&& t.remap[src] != to ==> m.look(src, dst) == t.look(src, dst)
        }),
        ({
            let m = t.with(TableCall::Transparent(to, false));
            &&& t.remap[src] == to ==> m.look(src, dst) == to
            &&& t.remap[src] != to ==> m.look(src, dst) == t.look(src, dst)
        }),
        t.with(TableCall::Reset) == TableView::plain(),
        t.with(TableCall::ClearMap).transparent == t.transparent,
        t.with(TableCall::ClearMap).remap == TableView::plain().remap,
        t.with(TableCall::ClearTransparent).remap == t.remap,
        t.with(TableCall::ClearTransparent).transparent == TableView::plain().transparent,
{
    assert(t.remap[src] < 128);
}

} // verus!
