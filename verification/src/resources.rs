//! The allocation ledger and the buffer slab that hands out handles.
//! Every cart-visible buffer lives here; the screen is slot 0.

use vstd::prelude::*;
use vstd::string::*;
use crate::buf::{
    elements, kind_name, storage, width_of, Buf, BufError, BufKind, Element, MAX_BUF_DIM,
};
use crate::palette::PaletteError;
use crate::shared::{without, Named};
use crate::text::{dec, push_dec};

verus! {

/// Provisional graphics budget: all live sheets, maps and cart buffers.
pub const GRAPHICS_CAP: usize = 8 * 1024 * 1024;

/// One category of the process-wide allocation ledger.
#[derive(Debug, Clone, Copy, PartialEq, Eq, Structural)]
pub struct Ledger {
    pub used: usize,
    pub cap: usize,
}

impl Ledger {
    pub fn new(cap: usize) -> (l: Ledger)
        ensures
            l == (Ledger { used: 0, cap }),
    {
        Ledger { used: 0, cap }
    }

    pub fn used(&self) -> (n: usize)
        ensures
            n == self.used,
    {
        self.used
    }

    pub fn cap(&self) -> (n: usize)
        ensures
            n == self.cap,
    {
        self.cap
    }

    /// The error of a reservation that does not fit.
    pub open spec fn refusal(self, bytes: usize) -> GfxError {
        GfxError::BudgetExceeded { requested: bytes, used: self.used, cap: self.cap }
    }

    /// Reserve `bytes` or fail without changing anything.
    pub fn reserve(&mut self, bytes: usize) -> (r: Result<(), GfxError>)
        ensures
            if old(self).used + bytes <= old(self).cap {
                r is Ok && *final(self) == (Ledger {
                    used: (old(self).used + bytes) as usize,
                    ..*old(self)
                })
            } else {
                r == Err::<(), GfxError>(old(self).refusal(bytes)) && *final(self) == *old(self)
            },
    {
        if self.used <= self.cap && bytes <= self.cap - self.used {
            self.used = self.used + bytes;
            Ok(())
        } else {
            Err(GfxError::BudgetExceeded { requested: bytes, used: self.used, cap: self.cap })
        }
    }

    pub fn release(&mut self, bytes: usize)
        ensures
            final(self).cap == old(self).cap,
            final(self).used == (if bytes > old(self).used {
                0
            } else {
                old(self).used - bytes
            }),
    {
        self.used = if bytes > self.used { 0 } else { self.used - bytes };
    }
}

/// A handle to a buffer in the slab: slot index in the low 32 bits and a
/// generation in the high 32, so a released slot is never mistaken for
/// its successor.
#[derive(Debug, Clone, Copy, PartialEq, Eq, Hash, Structural)]
pub struct BufId {
    pub raw: u64,
}

impl BufId {
    pub open spec fn slot_of(self) -> int {
        self.raw as int % 0x1_0000_0000
    }

    pub open spec fn generation_of(self) -> int {
        self.raw as int / 0x1_0000_0000
    }

    /// The handle of a slot in a generation.
    pub open spec fn of(slot: int, generation: int) -> BufId {
        BufId { raw: (generation * 0x1_0000_0000 + slot) as u64 }
    }

    /// The screen's handle.
    pub open spec fn screen_id() -> BufId {
        BufId { raw: 0 }
    }

    pub fn screen() -> (id: BufId)
        ensures
            id == BufId::screen_id(),
    {
        BufId { raw: 0 }
    }

    fn new(slot: usize, generation: u32) -> (id: BufId)
        requires
            slot < 0x1_0000_0000,
        ensures
            id == BufId::of(slot as int, generation as int),
            id.slot_of() == slot,
            id.generation_of() == generation,
    {
        BufId { raw: generation as u64 * 0x1_0000_0000 + slot as u64 }
    }

    fn slot(self) -> (s: usize)
        ensures
            s == self.slot_of(),
    {
        (self.raw % 0x1_0000_0000) as usize
    }

    fn generation(self) -> (g: u32)
        ensures
            g == self.generation_of(),
    {
        (self.raw / 0x1_0000_0000) as u32
    }

    pub fn raw(self) -> (r: u64)
        ensures
            r == self.raw,
    {
        self.raw
    }

    pub fn from_raw(raw: u64) -> (id: BufId)
        ensures
            id.raw == raw,
    {
        BufId { raw }
    }
}

/// Every error the graphics side can raise. The code is the stable,
/// agent-facing name; the text is `code: detail`.
#[derive(Debug, Clone, PartialEq, Eq)]
pub enum GfxError {
    BudgetExceeded { requested: usize, used: usize, cap: usize },
    BadDimensions { width: u32, height: u32, max: u32 },
    BufReleased,
    BufProtected,
    Aliased,
    KindMismatch { expected: BufKind, got: BufKind },
    NoSheet,
    NotAMap,
    Palette(PaletteError),
    AssetNotFound { path: String },
    AssetInvalid { path: String, why: String },
    AssetTooLarge { path: String, why: String },
}

/// The stable name of an error.
pub open spec fn code_of(e: GfxError) -> Seq<char> {
    match e {
        GfxError::BudgetExceeded { requested: _, used: _, cap: _ } => "graphics_budget_exceeded"@,
        GfxError::BadDimensions { width: _, height: _, max: _ } => "buf_bad_dimensions"@,
        GfxError::BufReleased => "buf_released"@,
        GfxError::BufProtected => "buf_protected"@,
        GfxError::Aliased => "buf_aliased"@,
        GfxError::KindMismatch { expected: _, got: _ } => "buf_kind_mismatch"@,
        GfxError::NoSheet => "no_sheet"@,
        GfxError::NotAMap => "not_a_map"@,
        GfxError::Palette(p) => match p {
            PaletteError::OutOfRange { index: _ } => "palette_index_out_of_range"@,
            PaletteError::Locked { index: _ } => "palette_index_locked"@,
        },
        GfxError::AssetNotFound { path: _ } => "asset_not_found"@,
        GfxError::AssetInvalid { path: _, why: _ } => "asset_invalid"@,
        GfxError::AssetTooLarge { path: _, why: _ } => "asset_too_large"@,
    }
}

/// The detail behind the name.
pub open spec fn detail_of(e: GfxError) -> Seq<char> {
    match e {
        GfxError::BudgetExceeded { requested, used, cap } => dec(requested as nat)
            + " bytes requested with "@ + dec(used as nat) + " of "@ + dec(cap as nat)
            + " in use"@,
        GfxError::BadDimensions { width, height, max } => dec(width as nat) + "x"@ + dec(
            height as nat,
        ) + " is not within 1..="@ + dec(max as nat) + " on each side"@,
        GfxError::BufReleased => "buffer has been released"@,
        GfxError::BufProtected => "the screen cannot be released"@,
        GfxError::Aliased => "source and destination are the same buffer"@,
        GfxError::KindMismatch { expected, got } => "expected a "@ + kind_name(expected)
            + " buffer, got "@ + kind_name(got),
        GfxError::NoSheet => "no sheet selected; call sheet(b) first"@,
        GfxError::NotAMap => "buffer was not loaded with load_map"@,
        GfxError::Palette(p) => match p {
            PaletteError::OutOfRange { index } => "palette index "@ + dec(index as nat)
                + " out of range 0..128"@,
            PaletteError::Locked { index } => "palette index "@ + dec(index as nat)
                + " is a locked system colour"@,
        },
        GfxError::AssetNotFound { path } => path@ + " is not in the cart"@,
        GfxError::AssetInvalid { path, why } => path@ + ": "@ + why@,
        GfxError::AssetTooLarge { path, why } => path@ + ": "@ + why@,
    }
}

impl GfxError {
    pub fn code(&self) -> (s: &'static str)
        ensures
            s@ == code_of(*self),
    {
        match self {
            GfxError::BudgetExceeded { .. } => "graphics_budget_exceeded",
            GfxError::BadDimensions { .. } => "buf_bad_dimensions",
            GfxError::BufReleased => "buf_released",
            GfxError::BufProtected => "buf_protected",
            GfxError::Aliased => "buf_aliased",
            GfxError::KindMismatch { .. } => "buf_kind_mismatch",
            GfxError::NoSheet => "no_sheet",
            GfxError::NotAMap => "not_a_map",
            GfxError::Palette(e) => e.code(),
            GfxError::AssetNotFound { .. } => "asset_not_found",
            GfxError::AssetInvalid { .. } => "asset_invalid",
            GfxError::AssetTooLarge { .. } => "asset_too_large",
        }
    }

    /// The code and the detail.
    pub fn text(&self) -> (s: String)
        ensures
            s@ == code_of(*self) + ": "@ + detail_of(*self),
    {
        let mut s = self.code().to_owned();
        s.append(": ");
        let ghost head = s@;
        match self {
            GfxError::BudgetExceeded { requested, used, cap } => {
                push_dec(&mut s, *requested as u64);
                s.append(" bytes requested with ");
                push_dec(&mut s, *used as u64);
                s.append(" of ");
                push_dec(&mut s, *cap as u64);
                s.append(" in use");
            },
            GfxError::BadDimensions { width, height, max } => {
                push_dec(&mut s, *width as u64);
                s.append("x");
                push_dec(&mut s, *height as u64);
                s.append(" is not within 1..=");
                push_dec(&mut s, *max as u64);
                s.append(" on each side");
            },
            GfxError::BufReleased => s.append("buffer has been released"),
            GfxError::BufProtected => s.append("the screen cannot be released"),
            GfxError::Aliased => s.append("source and destination are the same buffer"),
            GfxError::KindMismatch { expected, got } => {
                s.append("expected a ");
                s.append(expected.name());
                s.append(" buffer, got ");
                s.append(got.name());
            },
            GfxError::NoSheet => s.append("no sheet selected; call sheet(b) first"),
            GfxError::NotAMap => s.append("buffer was not loaded with load_map"),
            GfxError::Palette(e) => {
                let t = e.text();
                s.append(t.as_str());
            },
            GfxError::AssetNotFound { path } => {
                s.append(path.as_str());
                s.append(" is not in the cart");
            },
            GfxError::AssetInvalid { path, why } => {
                s.append(path.as_str());
                s.append(": ");
                s.append(why.as_str());
            },
            GfxError::AssetTooLarge { path, why } => {
                s.append(path.as_str());
                s.append(": ");
                s.append(why.as_str());
            },
        }
        assert(s@ =~= head + detail_of(*self));
        s
    }

    /// Whether the error says that an asset is invalid, and why.
    pub open spec fn says_invalid(self, path: Seq<char>, why: Seq<char>) -> bool {
        self matches GfxError::AssetInvalid { path: p, why: w } && p@ == path && w@ == why
    }

    pub open spec fn says_too_large(self, path: Seq<char>, why: Seq<char>) -> bool {
        self matches GfxError::AssetTooLarge { path: p, why: w } && p@ == path && w@ == why
    }

    pub open spec fn says_not_found(self, path: Seq<char>) -> bool {
        self matches GfxError::AssetNotFound { path: p } && p@ == path
    }

    pub fn asset_invalid(path: &str, why: &str) -> (e: GfxError)
        ensures
            e.says_invalid(path@, why@),
    {
        GfxError::AssetInvalid { path: path.to_owned(), why: why.to_owned() }
    }

    pub fn asset_too_large(path: &str, why: &str) -> (e: GfxError)
        ensures
            e.says_too_large(path@, why@),
    {
        GfxError::AssetTooLarge { path: path.to_owned(), why: why.to_owned() }
    }

    pub fn of_buf(e: BufError) -> (g: GfxError)
        ensures
            e matches BufError::KindMismatch { expected, got } && g == (GfxError::KindMismatch {
                expected,
                got,
            }),
    {
        match e {
            BufError::KindMismatch { expected, got } => GfxError::KindMismatch { expected, got },
        }
    }
}

/// One place of the slab.
#[derive(Debug)]
pub struct Slot {
    pub generation: u32,
    pub buf: Option<Buf>,
    /// Ledger bytes charged for this buffer; 0 for the screen.
    pub charged: usize,
}

/// Every live buffer, addressed by handle, plus the ledger and the name
/// cache for loaded assets.
#[derive(Debug)]
pub struct Resources {
    pub slots: Vec<Slot>,
    pub free: Vec<usize>,
    pub ledger: Ledger,
    pub names: Named<u64>,
}

/// The bytes that slots are charged for.
pub open spec fn charged_sum(s: Seq<Slot>) -> int
    decreases s.len(),
{
    if s.len() == 0 {
        0
    } else {
        charged_sum(s.drop_last()) + s.last().charged
    }
}

proof fn lemma_sum_update(s: Seq<Slot>, i: int, x: Slot)
    requires
        0 <= i < s.len(),
    ensures
        charged_sum(s.update(i, x)) == charged_sum(s) - s[i].charged + x.charged,
    decreases s.len(),
{
    let u = s.update(i, x);
    if i == s.len() - 1 {
        assert(u.drop_last() =~= s.drop_last());
    } else {
        lemma_sum_update(s.drop_last(), i, x);
        assert(u.drop_last() =~= s.drop_last().update(i, x));
    }
}

/// Slots that are charged at least a byte each are few.
proof fn lemma_sum_counts(s: Seq<Slot>)
    requires
        forall|i: int| 0 < i < s.len() ==> (#[trigger] s[i]).charged >= 1,
    ensures
        charged_sum(s) >= s.len() - 1,
        charged_sum(s) >= 0,
    decreases s.len(),
{
    if s.len() > 0 {
        let t = s.drop_last();
        assert forall|i: int| 0 < i < t.len() implies (#[trigger] t[i]).charged >= 1 by {
            assert(t[i] == s[i]);
        }
        lemma_sum_counts(t);
    }
}

proof fn lemma_sum_holds(s: Seq<Slot>, i: int)
    requires
        0 <= i < s.len(),
    ensures
        charged_sum(s) >= s[i].charged,
        charged_sum(s) >= 0,
    decreases s.len(),
{
    let t = s.drop_last();
    if i < t.len() {
        assert(t[i] == s[i]);
        lemma_sum_holds(t, i);
    } else if t.len() > 0 {
        lemma_sum_holds(t, 0);
    } else {
        assert(charged_sum(t) == 0);
    }
}

/// The bytes of a buffer's elements.
pub open spec fn bytes_of(b: Buf) -> int {
    b.width * b.height * width_of(b.kind)
}

/// A map's buffer holds its layers, one below the other.
pub open spec fn map_sound(b: Buf) -> bool {
    b.map matches Some(m) ==> {
        &&& b.kind == BufKind::I16
        &&& b.height == m.rows * m.layers
        &&& 1 <= m.rows && 1 <= m.layers
        &&& m.tile_size == 8 || m.tile_size == 16
    }
}

/// A buffer whose sides can be drawn on.
pub open spec fn sound(b: Buf) -> bool {
    b.wf() && b.width <= i32::MAX && b.height <= i32::MAX && map_sound(b)
}

impl Resources {
    pub open spec fn wf(&self) -> bool {
        let s = self.slots@;
        &&& 0 < s.len() <= GRAPHICS_CAP + 1
        &&& s[0].generation == 0 && s[0].charged == 0
        &&& s[0].buf matches Some(b) && b.kind == BufKind::U8
        &&& forall|i: int| 0 <= i < s.len() ==> ((#[trigger] s[i]).buf matches Some(b) ==> sound(b))
        &&& forall|i: int|
            0 < i < s.len() ==> (#[trigger] s[i]).charged == (match s[i].buf {
                Some(b) => bytes_of(b),
                None => 0,
            })
        &&& forall|i: int|
            0 < i < s.len() ==> ((#[trigger] s[i]).buf is Some ==> s[i].charged >= 1)
        &&& forall|j: int|
            0 <= j < self.free@.len() ==> 0 < #[trigger] self.free@[j] < s.len()
                && s[self.free@[j] as int].buf is None
        &&& forall|j: int, k: int|
            0 <= j < k < self.free@.len() ==> #[trigger] self.free@[j] != #[trigger] self.free@[k]
        &&& forall|i: int| 0 < i < s.len() && (#[trigger] s[i]).buf is None ==> self.listed(i)
        &&& charged_sum(s) <= self.ledger.used <= self.ledger.cap
        &&& self.ledger.cap == GRAPHICS_CAP
    }

    /// Whether a slot is on the list of free slots.
    pub open spec fn listed(&self, i: int) -> bool {
        exists|j: int| 0 <= j < self.free@.len() && #[trigger] self.free@[j] == i
    }

    /// The buffer that a handle stands for, if it is live.
    pub open spec fn live(&self, id: BufId) -> Option<Buf> {
        if id.slot_of() < self.slots@.len() && self.slots@[id.slot_of()].generation
            == id.generation_of() {
            self.slots@[id.slot_of()].buf
        } else {
            None
        }
    }

    /// The handle that the next buffer gets: the slot freed last, or a new
    /// one.
    pub open spec fn next_id(&self) -> BufId {
        if self.free@.len() > 0 {
            let slot = self.free@.last() as int;
            BufId::of(slot, self.slots@[slot].generation as int)
        } else {
            BufId::of(self.slots@.len() as int, 0)
        }
    }

    /// The screen.
    pub open spec fn screen_of(&self) -> Buf {
        self.slots@[0].buf->0
    }

    /// A slab whose slot 0 is a zeroed `u8` screen of the given size.
    pub fn new(width: u32, height: u32) -> (r: Resources)
        requires
            storage(BufKind::U8, width, height) is Some,
            width <= i32::MAX,
            height <= i32::MAX,
        ensures
            r.wf(),
            r.slots@.len() == 1,
            r.free@.len() == 0,
            r.ledger == (Ledger { used: 0, cap: GRAPHICS_CAP }),
            r.names@ == Map::<Seq<char>, u64>::empty(),
            r.screen_of().width == width,
            r.screen_of().height == height,
            r.screen_of().map is None,
            forall|i: int|
                0 <= i < elements(r.screen_of().data).len() ==> #[trigger] elements(
                    r.screen_of().data,
                )[i] == Element::Int(0),
    {
        let screen = Buf::new(BufKind::U8, width, height);
        let mut slots: Vec<Slot> = Vec::new();
        slots.push(Slot { generation: 0, buf: screen, charged: 0 });
        proof {
            let s = slots@;
            assert(charged_sum(s) == 0) by {
                assert(s.drop_last() =~= seq![]);
                assert(charged_sum(seq![]) == 0);
            }
        }
        Resources { slots, free: Vec::new(), ledger: Ledger::new(GRAPHICS_CAP), names: Named::new() }
    }

    pub fn ledger(&self) -> (l: &Ledger)
        ensures
            *l == self.ledger,
    {
        &self.ledger
    }

    pub fn screen(&self) -> (b: &Buf)
        requires
            self.wf(),
        ensures
            *b == self.screen_of(),
            sound(*b),
            b.kind == BufKind::U8,
    {
        self.slots[0].buf.as_ref().unwrap()
    }

    /// Allocate a zeroed cart buffer, charged to the ledger.
    pub fn allocate(&mut self, kind: BufKind, width: u32, height: u32) -> (r: Result<BufId, GfxError>)
        requires
            old(self).wf(),
        ensures
            final(self).wf(),
            final(self).names@ == old(self).names@,
            ({
                let bytes = width * height * width_of(kind);
                if !(1 <= width <= MAX_BUF_DIM && 1 <= height <= MAX_BUF_DIM) {
                    &&& r == Err::<BufId, GfxError>(
                        GfxError::BadDimensions { width, height, max: MAX_BUF_DIM },
                    )
                    &&& *final(self) == *old(self)
                } else if old(self).ledger.used + bytes > old(self).ledger.cap {
                    &&& r == Err::<BufId, GfxError>(old(self).ledger.refusal(bytes as usize))
                    &&& *final(self) == *old(self)
                } else {
                    r is Ok && made(*old(self), *final(self), kind, width, height, r->Ok_0)
                }
            }),
    {
        if width == 0 || height == 0 || width > MAX_BUF_DIM || height > MAX_BUF_DIM {
            return Err(GfxError::BadDimensions { width, height, max: MAX_BUF_DIM });
        }
        proof {
            assert(1 <= width * height <= 4096 * 4096) by (nonlinear_arith)
                requires
                    1 <= width <= 4096,
                    1 <= height <= 4096,
            ;
            let a = width * height;
            assert(a <= a * width_of(kind) <= 4 * a) by (nonlinear_arith)
                requires
                    a >= 0,
                    1 <= width_of(kind) <= 4,
            ;
        }
        let bytes: usize = match Buf::bytes_for(kind, width, height) {
            Some(n) => n,
            None => return Err(GfxError::BadDimensions { width, height, max: MAX_BUF_DIM }),
        };
        if let Err(e) = self.ledger.reserve(bytes) {
            return Err(e);
        }
        match Buf::new(kind, width, height) {
            Some(buf) => Ok(self.insert(buf, bytes)),
            None => {
                assert(false);
                Err(GfxError::BadDimensions { width, height, max: MAX_BUF_DIM })
            },
        }
    }

    /// Put an already-decoded buffer into the slab, charging its bytes,
    /// which the caller has reserved.
    pub fn insert_charged(&mut self, buf: Buf) -> (id: BufId)
        requires
            old(self).wf(),
            sound(buf),
            ({
                let bytes = bytes_of(buf);
                1 <= bytes && charged_sum(old(self).slots@) + bytes <= old(self).ledger.used
            }),
        ensures
            final(self).wf(),
            final(self).names@ == old(self).names@,
            final(self).ledger == old(self).ledger,
            id == old(self).next_id(),
            old(self).live(id) is None,
            final(self).live(id) == Some(buf),
            charged_sum(final(self).slots@) == charged_sum(old(self).slots@) + bytes_of(
                buf,
            ),
            forall|o: BufId| o != id ==> #[trigger] final(self).live(o) == old(self).live(o),
            placed(*old(self), *final(self), buf),
    {
        let bytes = buf.bytes();
        self.insert(buf, bytes)
    }

    /// Reserve bytes ahead of a decode. On failure nothing is charged; on
    /// success the caller must either `insert_charged` a buffer of exactly
    /// that size or `unreserve`.
    pub fn reserve(&mut self, bytes: usize) -> (r: Result<(), GfxError>)
        requires
            old(self).wf(),
        ensures
            final(self).wf(),
            final(self).slots == old(self).slots,
            final(self).free == old(self).free,
            final(self).names == old(self).names,
            if old(self).ledger.used + bytes <= old(self).ledger.cap {
                r is Ok && final(self).ledger == (Ledger {
                    used: (old(self).ledger.used + bytes) as usize,
                    ..old(self).ledger
                })
            } else {
                r == Err::<(), GfxError>(old(self).ledger.refusal(bytes)) && *final(self) == *old(
                    self,
                )
            },
    {
        self.ledger.reserve(bytes)
    }

    pub fn unreserve(&mut self, bytes: usize)
        requires
            old(self).wf(),
            charged_sum(old(self).slots@) + bytes <= old(self).ledger.used,
        ensures
            final(self).wf(),
            final(self).slots == old(self).slots,
            final(self).free == old(self).free,
            final(self).names == old(self).names,
            final(self).ledger == (Ledger {
                used: (old(self).ledger.used - bytes) as usize,
                ..old(self).ledger
            }),
    {
        proof {
            lemma_sum_holds(self.slots@, 0);
        }
        self.ledger.release(bytes)
    }

    fn insert(&mut self, buf: Buf, charged: usize) -> (id: BufId)
        requires
            old(self).wf(),
            charged_sum(old(self).slots@) + charged <= old(self).ledger.used,
            sound(buf),
            charged >= 1,
            charged == bytes_of(buf),
        ensures
            final(self).wf(),
            final(self).names == old(self).names,
            final(self).ledger == old(self).ledger,
            id == old(self).next_id(),
            old(self).live(id) is None,
            final(self).live(id) == Some(buf),
            charged_sum(final(self).slots@) == charged_sum(old(self).slots@) + charged,
            forall|o: BufId| o != id ==> #[trigger] final(self).live(o) == old(self).live(o),
            placed(*old(self), *final(self), buf),
    {
        let ghost before = *self;
        let ghost s = self.slots@;
        let count: usize = self.slots.len();
        match self.free.pop() {
            Some(slot) => {
                let generation = self.slots[slot].generation;
                proof {
                    assert(before.free@[before.free@.len() - 1] == slot);
                    assert(s[slot as int].charged == 0);
                    lemma_sum_update(
                        s,
                        slot as int,
                        Slot { generation, buf: Some(buf), charged },
                    );
                }
                self.slots.set(slot, Slot { generation, buf: Some(buf), charged });
                proof {
                    lemma_few(before, charged as int);
                    assert forall|i: int| 0 < i < self.slots@.len() && (
                    #[trigger] self.slots@[i]).buf is None implies self.listed(i) by {
                        assert(s[i].buf is None);
                        assert(before.listed(i));
                        let j = choose|j: int|
                            0 <= j < before.free@.len() && #[trigger] before.free@[j] == i;
                        assert(j < self.free@.len());
                        assert(self.free@[j] == i);
                    }
                    assert forall|j: int| 0 <= j < self.free@.len() implies 0
                        < #[trigger] self.free@[j] < self.slots@.len()
                        && self.slots@[self.free@[j] as int].buf is None by {
                        assert(self.free@[j] == before.free@[j]);
                        assert(before.free@[j] != before.free@[before.free@.len() - 1]);
                    }
                    assert forall|j: int, k: int|
                        0 <= j < k < self.free@.len() implies #[trigger] self.free@[j]
                        != #[trigger] self.free@[k] by {
                        assert(before.free@[j] != before.free@[k]);
                    }
                }
                BufId::new(slot, generation)
            },
            None => {
                proof {
                    lemma_few(before, charged as int);
                }
                self.slots.push(Slot { generation: 0, buf: Some(buf), charged });
                proof {
                    assert(self.slots@.drop_last() =~= s);
                }
                BufId::new(count, 0)
            },
        }
    }

    /// Free a buffer and return its bytes to the ledger. The screen is
    /// protected; an already-freed id is `BufReleased`.
    pub fn free(&mut self, id: BufId) -> (r: Result<(), GfxError>)
        requires
            old(self).wf(),
        ensures
            final(self).wf(),
            if id == BufId::screen_id() {
                r == Err::<(), GfxError>(GfxError::BufProtected) && *final(self) == *old(self)
            } else if old(self).live(id) is None {
                r == Err::<(), GfxError>(GfxError::BufReleased) && *final(self) == *old(self)
            } else {
                r is Ok && dropped(*old(self), *final(self), id)
            },
    {
        if id.raw == 0 {
            return Err(GfxError::BufProtected);
        }
        let slot = id.slot();
        if slot >= self.slots.len() {
            return Err(GfxError::BufReleased);
        }
        let generation = self.slots[slot].generation;
        if generation != id.generation() || self.slots[slot].buf.is_none() {
            return Err(GfxError::BufReleased);
        }
        let ghost before = *self;
        let ghost s = self.slots@;
        proof {
            if slot == 0 {
                assert(id.raw == 0);
            }
            lemma_sum_holds(s, slot as int);
        }
        let charged = self.slots[slot].charged;
        let next: u32 = if generation == u32::MAX { 0 } else { generation + 1 };
        proof {
            lemma_sum_update(s, slot as int, Slot { generation: next, buf: None, charged: 0 });
        }
        self.slots.set(slot, Slot { generation: next, buf: None, charged: 0 });
        self.ledger.release(charged);
        self.free.push(slot);
        self.names.forget(id.raw);
        proof {
            assert forall|i: int| 0 < i < self.slots@.len() && (#[trigger] self.slots@[i]).buf
                is None implies self.listed(i) by {
                if i == slot {
                    assert(self.free@[self.free@.len() - 1] == i);
                } else {
                    assert(s[i].buf is None);
                    assert(before.listed(i));
                    let j = choose|j: int|
                        0 <= j < before.free@.len() && #[trigger] before.free@[j] == i;
                    assert(self.free@[j] == i);
                }
            }
            assert forall|j: int| 0 <= j < self.free@.len() implies 0 < #[trigger] self.free@[j]
                < self.slots@.len() && self.slots@[self.free@[j] as int].buf is None by {
                if j < before.free@.len() {
                    assert(self.free@[j] == before.free@[j]);
                }
            }
            assert forall|j: int, k: int| 0 <= j < k < self.free@.len() implies #[trigger] self.free@[j]
                != #[trigger] self.free@[k] by {
                assert(self.free@[j] == before.free@[j]);
                if k < before.free@.len() {
                    assert(before.free@[j] != before.free@[k]);
                }
            }
            assert forall|o: BufId| o != id implies #[trigger] self.live(o) == before.live(o) by {
                if o.slot_of() == slot && o.generation_of() == generation {
                    lemma_ids(o, id);
                }
            }
        }
        Ok(())
    }

    /// Free an id if it is still live; used by the guest's graveyard where
    /// a double free is normal.
    pub fn free_if_live(&mut self, id: BufId)
        requires
            old(self).wf(),
        ensures
            final(self).wf(),
            id != BufId::screen_id() ==> final(self).live(id) is None,
            forall|o: BufId| o != id ==> #[trigger] final(self).live(o) == old(self).live(o),
            if id == BufId::screen_id() || old(self).live(id) is None {
                *final(self) == *old(self)
            } else {
                dropped(*old(self), *final(self), id)
            },
    {
        match self.free(id) {
            Ok(_) => {},
            Err(_) => {},
        }
    }

    pub fn is_live(&self, id: BufId) -> (r: bool)
        ensures
            r == (self.live(id) is Some),
    {
        self.get(id).is_ok()
    }

    pub fn get(&self, id: BufId) -> (r: Result<&Buf, GfxError>)
        ensures
            match (r, self.live(id)) {
                (Ok(b), Some(c)) => *b == c,
                (Err(e), None) => e == GfxError::BufReleased,
                _ => false,
            },
    {
        let slot = id.slot();
        if slot >= self.slots.len() || self.slots[slot].generation != id.generation() {
            return Err(GfxError::BufReleased);
        }
        match &self.slots[slot].buf {
            Some(b) => Ok(b),
            None => Err(GfxError::BufReleased),
        }
    }

    pub fn named(&self, name: &str) -> (r: Option<BufId>)
        ensures
            match r {
                Some(id) => self.names@.contains_key(name@) && self.names@[name@] == id.raw
                    && self.live(id) is Some,
                None => !self.names@.contains_key(name@) || self.live(
                    (BufId { raw: self.names@[name@] }),
                ) is None,
            },
    {
        match self.names.get(name) {
            None => None,
            Some(raw) => {
                let id = BufId { raw: *raw };
                if self.is_live(id) {
                    Some(id)
                } else {
                    None
                }
            },
        }
    }

    pub fn set_name(&mut self, name: &str, id: BufId)
        requires
            old(self).wf(),
        ensures
            final(self).wf(),
            final(self).slots == old(self).slots,
            final(self).free == old(self).free,
            final(self).ledger == old(self).ledger,
            final(self).names@ == old(self).names@.insert(name@, id.raw),
    {
        self.names.set(name, id.raw)
    }

    /// Live slots among the first `n`.
    pub open spec fn live_among(&self, n: int) -> int
        decreases n,
    {
        if n <= 0 {
            0
        } else {
            self.live_among(n - 1) + (if self.slots@[n - 1].buf is Some {
                1int
            } else {
                0
            })
        }
    }

    /// Number of live buffers including the screen.
    pub fn live_count(&self) -> (n: usize)
        ensures
            n == self.live_among(self.slots@.len() as int),
    {
        let mut n: usize = 0;
        let mut i: usize = 0;
        while i < self.slots.len()
            invariant
                i <= self.slots@.len(),
                n <= i,
                n == self.live_among(i as int),
            decreases self.slots.len() - i,
        {
            if self.slots[i].buf.is_some() {
                n += 1;
            }
            i += 1;
        }
        n
    }
}

/// A slab with another buffer in a slot.
pub open spec fn put_in(r: Resources, s: Resources, slot: int, b: Buf) -> bool {
    &&& s.slots@ =~= r.slots@.update(slot, Slot { buf: Some(b), ..r.slots@[slot] })
    &&& s.free == r.free
    &&& s.ledger == r.ledger
    &&& s.names == r.names
}

/// Putting a sound buffer where one was keeps the slab in order, and
/// changes what one handle stands for.
pub proof fn lemma_put_in(r: Resources, s: Resources, id: BufId, b: Buf)
    requires
        r.wf(),
        r.live(id) is Some,
        put_in(r, s, id.slot_of(), b),
        sound(b),
        b.same_shape(r.live(id)->0),
    ensures
        s.wf(),
        s.live(id) == Some(b),
        forall|o: BufId| o != id ==> #[trigger] s.live(o) == r.live(o),
        charged_sum(s.slots@) == charged_sum(r.slots@),
        id != BufId::screen_id() ==> s.screen_of() == r.screen_of(),
{
    let slot = id.slot_of();
    let x = Slot { buf: Some(b), ..r.slots@[slot] };
    lemma_sum_update(r.slots@, slot, x);
    assert forall|i: int| 0 < i < s.slots@.len() && (#[trigger] s.slots@[i]).buf
        is None implies s.listed(i) by {
        assert(r.slots@[i].buf is None);
        assert(r.listed(i));
    }
    assert forall|j: int| 0 <= j < s.free@.len() implies 0 < #[trigger] s.free@[j]
        < s.slots@.len() && s.slots@[s.free@[j] as int].buf is None by {
        assert(r.slots@[r.free@[j] as int].buf is None);
    }
    assert forall|o: BufId| o != id implies #[trigger] s.live(o) == r.live(o) by {
        if o.slot_of() == slot && o.generation_of() == r.slots@[slot].generation {
            lemma_ids(o, id);
        }
    }
    if slot == 0 {
        lemma_ids(id, BufId::screen_id());
    }
}

impl Resources {
    pub fn get_mut(&mut self, id: BufId) -> (r: Result<&mut Buf, GfxError>)
        ensures
            match r {
                Ok(b) => old(self).live(id) == Some(*b) && put_in(
                    *old(self),
                    *final(self),
                    id.slot_of(),
                    *final(b),
                ),
                Err(e) => old(self).live(id) is None && e == GfxError::BufReleased && *final(self)
                    == *old(self),
            },
    {
        let slot = id.slot();
        if slot >= self.slots.len() || self.slots[slot].generation != id.generation() {
            return Err(GfxError::BufReleased);
        }
        if self.slots[slot].buf.is_none() {
            return Err(GfxError::BufReleased);
        }
        Ok(self.slots[slot].buf.as_mut().unwrap())
    }

    pub fn screen_mut(&mut self) -> (b: &mut Buf)
        requires
            old(self).wf(),
        ensures
            *b == old(self).screen_of(),
            put_in(*old(self), *final(self), 0, *final(b)),
    {
        self.slots[0].buf.as_mut().unwrap()
    }

    /// Borrow two distinct buffers, the first mutably. `Aliased` when they
    /// are the same buffer.
    pub fn pair_mut(&mut self, dst: BufId, src: BufId) -> (r: Result<(&mut Buf, &Buf), GfxError>)
        ensures
            match r {
                Ok((d, s)) => {
                    &&& old(self).live(dst) == Some(*d)
                    &&& old(self).live(src) == Some(*s)
                    &&& dst.slot_of() != src.slot_of()
                    &&& put_in(*old(self), *final(self), dst.slot_of(), *final(d))
                },
                Err(e) => {
                    &&& *final(self) == *old(self)
                    &&& if old(self).live(dst) is None || old(self).live(src) is None {
                        e == GfxError::BufReleased
                    } else {
                        dst == src && e == GfxError::Aliased
                    }
                },
            },
    {
        if !self.is_live(dst) || !self.is_live(src) {
            return Err(GfxError::BufReleased);
        }
        let d = dst.slot();
        let s = src.slot();
        if d == s {
            proof {
                lemma_ids(dst, src);
            }
            return Err(GfxError::Aliased);
        }
        let slots = self.slots.as_mut_slice();
        if d < s {
            let (lo, hi) = slots.split_at_mut(s);
            let a = lo[d].buf.as_mut().unwrap();
            let b = hi[0].buf.as_ref().unwrap();
            Ok((a, b))
        } else {
            let (lo, hi) = slots.split_at_mut(d);
            let a = hi[0].buf.as_mut().unwrap();
            let b = lo[s].buf.as_ref().unwrap();
            Ok((a, b))
        }
    }
}

/// The next handle is that of no live buffer.
pub proof fn lemma_next_is_dead(r: Resources)
    requires
        r.wf(),
    ensures
        r.live(r.next_id()) is None,
{
    if r.free@.len() > 0 {
        let slot = r.free@[r.free@.len() - 1] as int;
        assert(r.slots@[slot].buf is None);
        let id = r.next_id();
        let g = r.slots@[slot].generation as int;
        assert(id.raw == g * 0x1_0000_0000 + slot);
        assert(id.slot_of() == slot);
    } else {
        assert(r.next_id().slot_of() == r.slots@.len());
    }
}

/// A slab whose next slot holds a buffer.
pub open spec fn placed(was: Resources, now: Resources, b: Buf) -> bool {
    let charged = bytes_of(b) as usize;
    if was.free@.len() > 0 {
        let slot = was.free@.last() as int;
        let generation = was.slots@[slot].generation;
        &&& now.slots@ == was.slots@.update(slot, Slot { generation, buf: Some(b), charged })
        &&& now.free@ == was.free@.drop_last()
    } else {
        &&& now.slots@ == was.slots@.push(Slot { generation: 0, buf: Some(b), charged })
        &&& now.free@ == was.free@
    }
}

/// A slab in which a zeroed buffer was made.
pub open spec fn made(
    was: Resources,
    now: Resources,
    kind: BufKind,
    width: u32,
    height: u32,
    id: BufId,
) -> bool {
    &&& id == was.next_id()
    &&& was.live(id) is None
    &&& now.ledger.used == was.ledger.used + width * height * width_of(kind)
    &&& now.names@ == was.names@
    &&& now.live(id) matches Some(b) && b.kind == kind && b.width == width && b.height == height
        && b.map is None && forall|i: int|
        0 <= i < elements(b.data).len() ==> #[trigger] elements(b.data)[i] == (if kind
            == BufKind::F32 {
            Element::Single(0)
        } else {
            Element::Int(0)
        })
    &&& forall|o: BufId| o != id ==> #[trigger] now.live(o) == was.live(o)
    &&& placed(was, now, now.live(id)->0)
}

/// A slab from which a live buffer was taken.
pub open spec fn dropped(was: Resources, now: Resources, id: BufId) -> bool {
    &&& id != BufId::screen_id()
    &&& was.live(id) is Some
    &&& now.live(id) is None
    &&& now.next_id() != id
    &&& now.ledger.used == was.ledger.used - bytes_of(was.live(id)->0)
    &&& charged_sum(now.slots@) == charged_sum(was.slots@) - bytes_of(was.live(id)->0)
    &&& now.names@ == without(was.names@, id.raw)
    &&& forall|o: BufId| o != id ==> #[trigger] now.live(o) == was.live(o)
    &&& now.free@ == was.free@.push(id.slot_of() as usize)
    &&& now.slots@ == was.slots@.update(id.slot_of(), emptied(was.slots@[id.slot_of()]))
}

/// A slot after its buffer was taken: the next generation, wrapping.
pub open spec fn emptied(s: Slot) -> Slot {
    Slot {
        generation: if s.generation == u32::MAX {
            0
        } else {
            (s.generation + 1) as u32
        },
        buf: None,
        charged: 0,
    }
}

/// Releasing a buffer undoes making it: the ledger has its bytes back and
/// every handle stands for what it stood for. The next buffer gets another
/// handle all the same.
pub proof fn law_release_undoes_allocation(
    before: Resources,
    between: Resources,
    after: Resources,
    kind: BufKind,
    width: u32,
    height: u32,
    id: BufId,
)
    requires
        made(before, between, kind, width, height, id),
        dropped(between, after, id),
    ensures
        after.ledger.used == before.ledger.used,
        forall|o: BufId| #[trigger] after.live(o) == before.live(o),
        after.next_id() != before.next_id(),
{
    assert forall|o: BufId| #[trigger] after.live(o) == before.live(o) by {
        if o != id {
            assert(between.live(o) == before.live(o));
        }
    }
}

/// A handle is its slot and its generation.
proof fn lemma_ids(a: BufId, b: BufId)
    requires
        a.slot_of() == b.slot_of(),
        a.generation_of() == b.generation_of(),
    ensures
        a == b,
{
    vstd::arithmetic::div_mod::lemma_fundamental_div_mod(a.raw as int, 0x1_0000_0000);
    vstd::arithmetic::div_mod::lemma_fundamental_div_mod(b.raw as int, 0x1_0000_0000);
}

/// Where another buffer fits, there is a slot to spare.
proof fn lemma_few(r: Resources, bytes: int)
    requires
        r.slots@.len() > 0,
        bytes >= 1,
        forall|i: int|
            0 < i < r.slots@.len() ==> ((#[trigger] r.slots@[i]).buf is Some <==> r.slots@[i].charged
                >= 1),
        forall|i: int| 0 < i < r.slots@.len() && (#[trigger] r.slots@[i]).buf is None ==> r.listed(i),
        charged_sum(r.slots@) + bytes <= GRAPHICS_CAP,
    ensures
        r.free@.len() == 0 ==> r.slots@.len() <= GRAPHICS_CAP,
{
    if r.free@.len() == 0 {
        assert forall|i: int| 0 < i < r.slots@.len() implies (#[trigger] r.slots@[i]).charged
            >= 1 by {
            if r.slots@[i].buf is None {
                assert(r.listed(i));
            }
        }
        lemma_sum_counts(r.slots@);
    }
}

} // verus!
