//! Draw state that is not pixels: the pen the API mutates and the
//! rasteriser reads, with its colour table and fill pattern.

use vstd::prelude::*;
use crate::buf::Rect;
use crate::math::{saturate, saturated};
use crate::resources::BufId;

verus! {

/// A primary colour and, for the fill pattern, a secondary one.
#[derive(Debug, Clone, Copy, PartialEq, Eq, Structural)]
pub struct Colour {
    pub primary: u8,
    pub secondary: u8,
}

impl Colour {
    pub fn solid(c: u8) -> (r: Colour)
        ensures
            r == (Colour { primary: (c % 128) as u8, secondary: 0 }),
    {
        Colour { primary: c % 128, secondary: 0 }
    }

    /// Low 7 bits are the primary colour, bits 8 to 14 the secondary.
    pub fn from_i64(c: i64) -> (r: Colour)
        ensures
            r.primary == c as int % 128,
            r.secondary == c as int / 256 % 128,
    {
        let q = crate::math::floor_div(c, 256);
        let p = crate::math::floor_div(c, 128);
        let s = crate::math::floor_div(q, 128);
        proof {
            vstd::arithmetic::div_mod::lemma_fundamental_div_mod(c as int, 128);
            vstd::arithmetic::div_mod::lemma_fundamental_div_mod(q as int, 128);
        }
        Colour {
            primary: (c as i128 - p as i128 * 128) as u8,
            secondary: (q as i128 - s as i128 * 128) as u8,
        }
    }
}

/// A 4x4 two-colour dither. Bit `(y & 3) * 4 + (x & 3)` set selects the
/// secondary colour, or skips the pixel when `transparent`.
#[derive(Debug, Clone, Copy, PartialEq, Eq, Structural)]
pub struct Fillp {
    pub pattern: u16,
    pub transparent: bool,
}

/// Two to a small power.
pub open spec fn two_to(n: int) -> int
    decreases n,
{
    if n <= 0 {
        1
    } else {
        2 * two_to(n - 1)
    }
}

pub proof fn lemma_two_to(n: int)
    ensures
        two_to(n) >= 1,
    decreases n,
{
    if n > 0 {
        lemma_two_to(n - 1);
    }
}

impl Fillp {
    /// Whether the pattern's bit for a place is set. Places repeat every
    /// four pixels.
    pub open spec fn set_at(self, x: int, y: int) -> bool {
        self.pattern as int / two_to(y % 4 * 4 + x % 4) % 2 == 1
    }

    pub open spec fn picked(self, x: int, y: int) -> Option<bool> {
        if !self.set_at(x, y) {
            Some(false)
        } else if self.transparent {
            None
        } else {
            Some(true)
        }
    }

    /// `Some(true)` for the secondary colour, `Some(false)` for the
    /// primary, `None` to skip.
    pub fn pick(&self, x: i32, y: i32) -> (r: Option<bool>)
        ensures
            r == self.picked(x as int, y as int),
    {
        let cx: u64 = (x as i64 + 0x1_0000_0000) as u64 % 4;
        let cy: u64 = (y as i64 + 0x1_0000_0000) as u64 % 4;
        let bit: u64 = cy * 4 + cx;
        let mut p: u16 = self.pattern;
        let mut i: u64 = 0;
        while i < bit
            invariant
                i <= bit < 16,
                p as int == self.pattern as int / two_to(i as int),
                two_to(i as int) > 0,
            decreases bit - i,
        {
            proof {
                let t = two_to(i as int);
                vstd::arithmetic::div_mod::lemma_div_denominator(self.pattern as int, t, 2);
                assert(t * 2 == two_to(i + 1));
            }
            p = p / 2;
            i += 1;
        }
        if p % 2 == 0 {
            Some(false)
        } else if self.transparent {
            None
        } else {
            Some(true)
        }
    }
}

impl Default for Fillp {
    fn default() -> (f: Fillp)
        ensures
            f == (Fillp { pattern: 0, transparent: false }),
    {
        Fillp { pattern: 0, transparent: false }
    }
}

/// The remap, then the transparency: what a source colour leaves of a
/// destination colour.
pub open spec fn looked(remap: Seq<u8>, transparent: Seq<bool>, src: int, dst: int) -> int {
    if transparent[remap[src % 128] as int] {
        dst % 128
    } else {
        remap[src % 128] as int
    }
}

/// The 128x128 lookup, kept alongside the remap and transparency it is
/// built from.
#[derive(Debug, Clone, PartialEq, Eq)]
pub struct ColourTable {
    pub table: Vec<[u8; 128]>,
    pub remap: [u8; 128],
    pub transparent: [bool; 128],
}

/// Every colour maps to itself.
pub open spec fn identity() -> Seq<u8> {
    Seq::new(128, |i: int| i as u8)
}

pub open spec fn opaque_all() -> Seq<bool> {
    Seq::new(128, |i: int| false)
}

/// A colour table as the remap and the transparency.
pub struct TableView {
    pub remap: Seq<u8>,
    pub transparent: Seq<bool>,
}

impl View for ColourTable {
    type V = TableView;

    open spec fn view(&self) -> TableView {
        TableView { remap: self.remap@, transparent: self.transparent@ }
    }
}

/// A call that changes a colour table.
pub enum TableCall {
    Remap(u8, u8),
    ClearMap,
    Transparent(u8, bool),
    ClearTransparent,
    Reset,
}

impl TableView {
    /// The table that nothing was set in.
    pub open spec fn plain() -> TableView {
        TableView { remap: identity(), transparent: opaque_all() }
    }

    /// The table after a call.
    pub open spec fn with(self, c: TableCall) -> TableView {
        match c {
            TableCall::Remap(from, to) => TableView {
                remap: self.remap.update(from as int % 128, (to % 128) as u8),
                ..self
            },
            TableCall::ClearMap => TableView { remap: identity(), ..self },
            TableCall::Transparent(i, on) => TableView {
                transparent: self.transparent.update(i as int % 128, on),
                ..self
            },
            TableCall::ClearTransparent => TableView { transparent: opaque_all(), ..self },
            TableCall::Reset => TableView::plain(),
        }
    }

    /// The table after the first `k` of some calls.
    pub open spec fn after(calls: Seq<TableCall>, k: int) -> TableView
        decreases k,
    {
        if k <= 0 {
            TableView::plain()
        } else {
            TableView::after(calls, k - 1).with(calls[k - 1])
        }
    }

    pub open spec fn look(self, src: int, dst: int) -> int {
        looked(self.remap, self.transparent, src, dst)
    }
}

impl ColourTable {
    /// Colours below 128, and a row of the lookup that says what the remap
    /// and the transparency say.
    pub open spec fn row_right(&self, src: int) -> bool {
        forall|dst: int|
            0 <= dst < 128 ==> #[trigger] self.table@[src]@[dst] == looked(
                self.remap@,
                self.transparent@,
                src,
                dst,
            )
    }

    pub open spec fn shaped(&self) -> bool {
        &&& self.table@.len() == 128
        &&& forall|i: int| 0 <= i < 128 ==> #[trigger] self.remap@[i] < 128
    }

    pub open spec fn wf(&self) -> bool {
        &&& self.shaped()
        &&& forall|src: int| 0 <= src < 128 ==> #[trigger] self.row_right(src)
    }

    /// `table[src][dst] = transparent[remap[src]] ? dst : remap[src]`.
    fn rebuild_row(&mut self, src: usize)
        requires
            old(self).shaped(),
            src < 128,
        ensures
            final(self).shaped(),
            final(self)@ == old(self)@,
            final(self).row_right(src as int),
            forall|i: int| 0 <= i < 128 && i != src ==> final(self).table@[i] == old(self).table@[i],
    {
        let mapped = self.remap[src];
        let mut row: [u8; 128] = [mapped; 128];
        if self.transparent[mapped as usize] {
            let mut d: usize = 0;
            while d < 128
                invariant
                    d <= 128,
                    forall|k: int| 0 <= k < d ==> row@[k] == k,
                decreases 128 - d,
            {
                row[d] = d as u8;
                d += 1;
            }
        }
        self.table.set(src, row);
    }

    fn rebuild_all(&mut self)
        requires
            old(self).shaped(),
        ensures
            final(self).wf(),
            final(self)@ == old(self)@,
    {
        let mut src: usize = 0;
        while src < 128
            invariant
                src <= 128,
                self.shaped(),
                self@ == old(self)@,
                forall|i: int| 0 <= i < src ==> #[trigger] self.row_right(i),
            decreases 128 - src,
        {
            let ghost before = *self;
            self.rebuild_row(src);
            assert forall|i: int| 0 <= i < src + 1 implies #[trigger] self.row_right(i) by {
                if i < src {
                    assert(before.row_right(i));
                    assert(self.table@[i] == before.table@[i]);
                }
            }
            src += 1;
        }
    }

    fn identity_map() -> (r: [u8; 128])
        ensures
            r@ == identity(),
    {
        let mut remap: [u8; 128] = [0; 128];
        let mut i: usize = 0;
        while i < 128
            invariant
                i <= 128,
                forall|k: int| 0 <= k < i ==> remap@[k] == k,
            decreases 128 - i,
        {
            remap[i] = i as u8;
            i += 1;
        }
        assert(remap@ =~= identity());
        remap
    }

    pub fn reset(&mut self)
        requires
            old(self).table@.len() == 128,
        ensures
            final(self).wf(),
            final(self)@ == old(self)@.with(TableCall::Reset),
    {
        self.remap = ColourTable::identity_map();
        self.transparent = [false; 128];
        assert(self.transparent@ =~= opaque_all());
        assert(self.shaped()) by {
            assert forall|i: int| 0 <= i < 128 implies #[trigger] self.remap@[i] < 128 by {
                assert(identity()[i] == i);
            }
        }
        self.rebuild_all();
    }

    /// Draw-time remap of `from` to `to`.
    pub fn pal_map(&mut self, from: u8, to: u8)
        requires
            old(self).wf(),
        ensures
            final(self).wf(),
            final(self)@ == old(self)@.with(TableCall::Remap(from, to)),
    {
        let f: usize = (from % 128) as usize;
        let ghost before = *self;
        self.remap[f] = to % 128;
        self.rebuild_row(f);
        assert forall|i: int| 0 <= i < 128 implies #[trigger] self.row_right(i) by {
            if i != f {
                assert(before.row_right(i));
                assert(self.table@[i] == before.table@[i]);
                assert forall|dst: int| 0 <= dst < 128 implies #[trigger] self.table@[i]@[dst]
                    == looked(self.remap@, self.transparent@, i, dst) by {
                    assert(before.table@[i]@[dst] == looked(
                        before.remap@,
                        before.transparent@,
                        i,
                        dst,
                    ));
                }
            }
        }
    }

    pub fn clear_remap(&mut self)
        requires
            old(self).wf(),
        ensures
            final(self).wf(),
            final(self)@ == old(self)@.with(TableCall::ClearMap),
    {
        self.remap = ColourTable::identity_map();
        assert(self.shaped()) by {
            assert forall|i: int| 0 <= i < 128 implies #[trigger] self.remap@[i] < 128 by {
                assert(identity()[i] == i);
            }
        }
        self.rebuild_all();
    }

    /// Source colour `i` (after remap) leaves the destination alone.
    pub fn palt(&mut self, i: u8, transparent: bool)
        requires
            old(self).wf(),
        ensures
            final(self).wf(),
            final(self)@ == old(self)@.with(TableCall::Transparent(i, transparent)),
    {
        self.transparent[(i % 128) as usize] = transparent;
        self.rebuild_all();
    }

    pub fn clear_transparency(&mut self)
        requires
            old(self).wf(),
        ensures
            final(self).wf(),
            final(self)@ == old(self)@.with(TableCall::ClearTransparent),
    {
        self.transparent = [false; 128];
        assert(self.transparent@ =~= opaque_all());
        self.rebuild_all();
    }

    pub fn lookup(&self, src: u8, dst: u8) -> (c: u8)
        requires
            self.wf(),
        ensures
            c == self@.look(src as int, dst as int),
    {
        assert(self.row_right(src as int % 128));
        self.table[(src % 128) as usize][(dst % 128) as usize]
    }
}

impl Default for ColourTable {
    fn default() -> (t: ColourTable)
        ensures
            t.wf(),
            t@ == TableView::plain(),
    {
        let mut table: Vec<[u8; 128]> = Vec::new();
        let mut i: usize = 0;
        while i < 128
            invariant
                i <= 128,
                table@.len() == i,
            decreases 128 - i,
        {
            table.push([0; 128]);
            i += 1;
        }
        let mut t = ColourTable { table, remap: [0; 128], transparent: [false; 128] };
        t.reset();
        t
    }
}

/// What a colour is mapped to after the first `k` of some calls: the last
/// mapping of it, or itself.
pub open spec fn mapped_to(calls: Seq<TableCall>, k: int, i: int) -> int
    decreases k,
{
    if k <= 0 {
        i
    } else {
        match calls[k - 1] {
            TableCall::Remap(from, to) if from as int % 128 == i => to as int % 128,
            TableCall::ClearMap | TableCall::Reset => i,
            _ => mapped_to(calls, k - 1, i),
        }
    }
}

/// Whether a colour is transparent after the first `k` of some calls: as
/// the last call that set it says.
pub open spec fn seen_through(calls: Seq<TableCall>, k: int, i: int) -> bool
    decreases k,
{
    if k <= 0 {
        false
    } else {
        match calls[k - 1] {
            TableCall::Transparent(at, on) if at as int % 128 == i => on,
            TableCall::ClearTransparent | TableCall::Reset => false,
            _ => seen_through(calls, k - 1, i),
        }
    }
}

proof fn lemma_after(calls: Seq<TableCall>, k: int, i: int)
    requires
        0 <= k <= calls.len(),
        0 <= i < 128,
    ensures
        TableView::after(calls, k).remap.len() == 128,
        TableView::after(calls, k).transparent.len() == 128,
        TableView::after(calls, k).remap[i] == mapped_to(calls, k, i),
        TableView::after(calls, k).transparent[i] == seen_through(calls, k, i),
        0 <= mapped_to(calls, k, i) < 128,
    decreases k,
{
    if k > 0 {
        lemma_after(calls, k - 1, i);
    }
}

/// A colour is looked up through the last mapping of it and then the last
/// word on whether that is transparent, in whatever order the calls were
/// made.
pub proof fn law_remap_comes_before_transparency(
    calls: Seq<TableCall>,
    k: int,
    src: u8,
    dst: u8,
)
    requires
        0 <= k <= calls.len(),
    ensures
        ({
            let m = mapped_to(calls, k, src as int % 128);
            TableView::after(calls, k).look(src as int, dst as int) == (if seen_through(
                calls,
                k,
                m,
            ) {
                dst as int % 128
            } else {
                m
            })
        }),
{
    lemma_after(calls, k, src as int % 128);
    lemma_after(calls, k, mapped_to(calls, k, src as int % 128));
}

/// Looking a colour up twice gives what once gave, so drawing a pixel
/// twice draws it once.
pub proof fn law_lookup_is_idempotent(t: TableView, src: int, dst: int)
    requires
        t.remap.len() == 128,
        forall|i: int| 0 <= i < 128 ==> #[trigger] t.remap[i] < 128,
    ensures
        t.look(src, t.look(src, dst)) == t.look(src, dst),
        0 <= t.look(src, dst) < 128,
{
    assert(t.remap[src % 128] < 128);
}

/// Draw state that is not pixels: what the API mutates and the
/// rasteriser reads.
#[derive(Debug)]
pub struct Pen {
    pub target: BufId,
    /// In target coordinates, always inside the target.
    pub clip: Rect,
    pub camera: (i32, i32),
    pub fillp: Fillp,
    pub table: ColourTable,
    pub sheet: Option<BufId>,
}

impl Pen {
    /// A place as the camera sees it.
    pub open spec fn world_x(self, x: int) -> int {
        saturated(x - self.camera.0)
    }

    pub open spec fn world_y(self, y: int) -> int {
        saturated(y - self.camera.1)
    }

    pub fn new(target: BufId, width: u32, height: u32) -> (p: Pen)
        requires
            width <= i32::MAX,
            height <= i32::MAX,
        ensures
            p.table.wf(),
            p.table@ == (TableView { remap: identity(), transparent: opaque_all() }),
            p.target == target,
            p.clip == (Rect { x: 0, y: 0, w: width as i32, h: height as i32 }),
            p.camera == (0i32, 0i32),
            p.fillp == (Fillp { pattern: 0, transparent: false }),
            p.sheet is None,
    {
        Pen {
            target,
            clip: Rect::new(0, 0, width as i32, height as i32),
            camera: (0, 0),
            fillp: Fillp::default(),
            table: ColourTable::default(),
            sheet: None,
        }
    }

    pub(crate) fn world(&self, x: i32, y: i32) -> (r: (i32, i32))
        ensures
            r.0 == self.world_x(x as int),
            r.1 == self.world_y(y as int),
    {
        (
            saturate(x as i64 - self.camera.0 as i64),
            saturate(y as i64 - self.camera.1 as i64),
        )
    }
}

} // verus!
