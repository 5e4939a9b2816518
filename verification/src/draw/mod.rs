//! Everything a guest can draw into or observe during a frame: the buffer
//! slab with the screen in it, the pen, the palette, the frame log and the
//! cart it may load assets from. The guest borrows it for a step and holds
//! no pixels of its own.

pub mod buffers;
pub mod sheets;
pub mod sound;

use std::rc::Rc;
use vstd::prelude::*;
use vstd::string::*;
use vstd::utf8::*;
use crate::audio::Mixer;
use crate::blit::{self, print_drawn, text_end};
use crate::buf::{elements, lemma_grid, storage, Buf, BufData, BufKind, Element, Rect};
use crate::meter::FrameProfile;
use crate::palette::{default_colours, Palette, Rgb, PALETTE_SIZE, SYSTEM_COLOURS};
use crate::pen::{identity, opaque_all, Colour, Fillp, Pen, TableView};
use crate::raster::{
    self, circ_drawn, circfill_drawn, cleared, line_drawn, pset_drawn, radius, rect_drawn,
    rectfill_drawn, Canvas, Surface,
};
use crate::resources::{
    lemma_put_in, put_in, sound, BufId, GfxError, Ledger, Resources, GRAPHICS_CAP,
};
use crate::net::NetState;
use crate::save::{MemoryStore, SaveStore};
use crate::shell::SysState;
use crate::snapshot::{Entry, Snapshot};
use crate::wire::{clip, clipped};

verus! {

/// Most log lines kept per frame; later ones are dropped with a marker.
pub const MAX_LOG_LINES: usize = 256;

/// Longest log line kept; longer ones are cut.
pub const MAX_LOG_LINE_BYTES: usize = 1024;

pub struct DrawState {
    pub res: Resources,
    pub pen: Pen,
    pub palette: Palette,
    /// Lines the cart logged this frame. Cleared by the console before
    /// each step.
    pub log: Vec<String>,
    pub cart: Rc<Snapshot>,
    /// What the last step cost, written by the guest at the end of its
    /// step. A guest without a meter leaves it zero.
    pub profile: FrameProfile,
    /// The mixer; rendered by the console after each step.
    pub audio: Mixer,
    /// The cart's save slots.
    pub saves: SaveStore,
    /// The networking state, for a cart that declares the service.
    pub net: Option<NetState>,
    /// The data behind `sys`, present only in the shell's state. A cart's
    /// state has none.
    pub sys: Option<SysState>,
    pub width: u32,
    pub height: u32,
}

/// A buffer that can be drawn into, with a clip inside it.
pub open spec fn drawable(b: Buf, clip: Rect) -> bool {
    &&& b.kind == BufKind::U8
    &&& clip.vacant() || (0 <= clip.x && 0 <= clip.y && clip.x + clip.w <= b.width && clip.y
        + clip.h <= b.height)
}

/// The surface of a buffer.
pub open spec fn canvas_of(b: Buf) -> Canvas {
    Canvas {
        pixels: b.data->U8_0@,
        width: b.width as int,
        height: b.height as int,
        touched: 0,
    }
}

/// Whether a slab holds nothing but a zeroed screen.
pub open spec fn bare(r: Resources, width: u32, height: u32) -> bool {
    &&& r.slots@.len() == 1
    &&& r.slots@[0].generation == 0
    &&& r.slots@[0].charged == 0
    &&& r.slots@[0].buf matches Some(b) && b.kind == BufKind::U8 && b.width == width && b.height
        == height && b.map is None && b.data is U8 && b.data->U8_0@ == Seq::new(
        (width * height) as nat,
        |i: int| 0u8,
    )
    &&& r.free@.len() == 0
    &&& r.ledger == (Ledger { used: 0, cap: GRAPHICS_CAP })
    &&& r.names@ == Map::<Seq<char>, u64>::empty()
}

/// Whether a pen draws on the whole of a screen, with nothing set.
pub open spec fn plain(p: Pen, width: u32, height: u32) -> bool {
    &&& p.target == BufId::screen_id()
    &&& p.clip == (Rect { x: 0, y: 0, w: width as i32, h: height as i32 })
    &&& p.camera == (0i32, 0i32)
    &&& p.fillp == (Fillp { pattern: 0, transparent: false })
    &&& p.table@ == (TableView { remap: identity(), transparent: opaque_all() })
    &&& p.sheet is None
}

/// What a draw state of a size starts with, whatever the cart: an empty
/// screen, a plain pen, the default colours, empty slots, and silence.
pub open spec fn fresh(d: DrawState, width: u32, height: u32, cart: Seq<Entry>) -> bool {
    &&& d.width == width
    &&& d.height == height
    &&& d.cart@ == cart
    &&& bare(d.res, width, height)
    &&& plain(d.pen, width, height)
    &&& default_colours(d.palette@)
    &&& d.saves is Memory
    &&& d.saves.slots() == crate::save::blank()
    &&& d.profile.cycles@ == Seq::new(7, |i: int| 0u64)
    &&& d.profile.budget == 0
    &&& d.profile.lua_mem == 0
    &&& d.log@ == Seq::<String>::empty()
    &&& d.audio@ == crate::audio::new_mixer()
    &&& d.net is None
    &&& d.sys is None
}

impl DrawState {
    /// The whole screen.
    pub open spec fn screen_rect(&self) -> Rect {
        Rect { x: 0, y: 0, w: self.width as i32, h: self.height as i32 }
    }

    pub open spec fn wf(&self) -> bool {
        &&& self.res.wf()
        &&& self.pen.table.wf()
        &&& self.width <= i32::MAX && self.height <= i32::MAX
        &&& self.res.screen_of().width == self.width
        &&& self.res.screen_of().height == self.height
        &&& self.res.live(self.pen.target) matches Some(b) ==> drawable(b, self.pen.clip)
        &&& self.pen.sheet matches Some(id) ==> (self.res.live(id) matches Some(b) ==> b.kind
            == BufKind::U8)
        &&& self.net matches Some(n) ==> n@.bounded()
        &&& self.audio@.wf()
        &&& forall|k: Seq<char>|
            self.audio@.tracks.contains_key(k) ==> (#[trigger] self.audio@.tracks[k])@.wf()
    }

    /// Whether the pen's target and sheet are live, as they are unless a
    /// buffer is freed behind the pen's back.
    pub open spec fn in_hand(&self) -> bool {
        &&& self.res.live(self.pen.target) is Some
        &&& self.pen.sheet matches Some(id) ==> self.res.live(id) is Some
    }

    /// Whether the pen's target and sheet are other handles than the one
    /// that the next buffer gets. They are where they are live.
    pub open spec fn settled(&self) -> bool {
        self.pen.target != self.res.next_id() && self.pen.sheet != Some(self.res.next_id())
    }

    /// Whether the pen draws on the screen and has no sheet.
    pub open spec fn on_the_screen(&self) -> bool {
        self.pen.target == BufId::screen_id() && self.pen.sheet is None && self.res.live(
            BufId::screen_id(),
        ) is Some
    }

    /// What the pen draws into: its target, or the screen where the target
    /// was released.
    pub open spec fn aim(&self) -> BufId {
        if self.res.live(self.pen.target) is Some {
            self.pen.target
        } else {
            BufId::screen_id()
        }
    }

    /// The pen once its target is live.
    pub open spec fn aimed_pen(&self) -> Pen {
        if self.res.live(self.pen.target) is Some {
            self.pen
        } else {
            Pen { target: BufId::screen_id(), clip: self.screen_rect(), ..self.pen }
        }
    }

    /// The surface that the pen draws on.
    pub open spec fn canvas(&self) -> Canvas {
        canvas_of(self.res.live(self.aim())->0)
    }

    /// The same but for the pen and the buffers.
    pub open spec fn same_but_drawing(&self, o: DrawState) -> bool {
        &&& self.palette == o.palette
        &&& self.log == o.log
        &&& self.cart == o.cart
        &&& self.profile == o.profile
        &&& self.audio == o.audio
        &&& self.saves == o.saves
        &&& self.net == o.net
        &&& self.sys == o.sys
        &&& self.width == o.width
        &&& self.height == o.height
    }

    /// The state after drawing: the surface is as said, nothing else
    /// changed.
    pub open spec fn drew(&self, o: DrawState, c: Canvas) -> bool {
        &&& self.same_but_drawing(o)
        &&& self.pen == o.aimed_pen()
        &&& self.res.live(o.aim()) matches Some(b) && canvas_of(b).pixels == c.pixels
            && b.same_shape(o.res.live(o.aim())->0)
        &&& forall|id: BufId| id != o.aim() ==> #[trigger] self.res.live(id) == o.res.live(id)
        &&& self.res.ledger == o.res.ledger
        &&& self.res.names == o.res.names
    }

    pub fn new(width: u32, height: u32, cart: Rc<Snapshot>) -> (d: DrawState)
        requires
            storage(BufKind::U8, width, height) is Some,
            width <= i32::MAX,
            height <= i32::MAX,
        ensures
            d.wf(),
            d.in_hand(),
            d.cart == cart,
            fresh(d, width, height, cart@),
    {
        let d = DrawState {
            res: Resources::new(width, height),
            pen: Pen::new(BufId::screen(), width, height),
            palette: Palette::default(),
            log: Vec::new(),
            cart,
            profile: FrameProfile::default(),
            audio: Mixer::new(),
            saves: SaveStore::Memory(MemoryStore::new()),
            net: None,
            sys: None,
            width,
            height,
        };
        proof {
            let b = d.res.screen_of();
            assert(d.res.live(BufId::screen_id()) == Some(b));
            let e = elements(b.data);
            let p = canvas_of(b).pixels;
            assert(b.data is U8);
            assert forall|i: int| 0 <= i < p.len() implies p[i] == 0u8 by {
                assert(e[i] == Element::Int(0));
            }
            assert(p =~= Seq::new((width * height) as nat, |i: int| 0u8));
            assert(d.log@ =~= Seq::empty());
        }
        d
    }

    /// A zero-size placeholder for swapping a real state out of a slot.
    pub fn placeholder() -> (d: DrawState)
        ensures
            d.wf(),
            fresh(d, 0, 0, Seq::empty()),
    {
        DrawState::new(0, 0, Rc::new(Snapshot::empty()))
    }

    pub fn width(&self) -> (w: u32)
        ensures
            w == self.width,
    {
        self.width
    }

    pub fn height(&self) -> (h: u32)
        ensures
            h == self.height,
    {
        self.height
    }

    pub fn screen_pixels(&self) -> (p: &Vec<u8>)
        requires
            self.wf(),
        ensures
            p@ == canvas_of(self.res.screen_of()).pixels,
            p@.len() == self.width * self.height,
    {
        self.res.screen().as_u8().unwrap()
    }

    /// Replace the screen's bytes: for a guest that receives its frames
    /// from another process rather than drawing them here. `false`, and no
    /// change, when there are not as many as the screen has.
    pub fn set_screen_pixels(&mut self, pixels: &[u8]) -> (r: bool)
        requires
            old(self).wf(),
        ensures
            final(self).wf(),
            r == (pixels@.len() == old(self).width * old(self).height),
            final(self).same_but_drawing(*old(self)),
            final(self).pen == old(self).pen,
            final(self).res.ledger == old(self).res.ledger,
            final(self).res.names == old(self).res.names,
            forall|id: BufId|
                id != BufId::screen_id() ==> #[trigger] final(self).res.live(id) == old(
                    self,
                ).res.live(id),
            canvas_of(final(self).res.screen_of()).pixels == (if r {
                pixels@
            } else {
                canvas_of(old(self).res.screen_of()).pixels
            }),
    {
        let ghost before = self.res;
        assert(before.live(BufId::screen_id()) == Some(before.screen_of()));
        proof {
            lemma_screen_area(before);
        }
        if pixels.len() != self.width as usize * self.height as usize {
            return false;
        }
        let b = self.res.screen_mut();
        b.data = BufData::U8(vstd::slice::slice_to_vec(pixels));
        proof {
            lemma_put_in(before, self.res, BufId::screen_id(), self.res.screen_of());
            assert(self.res.live(BufId::screen_id()) == Some(self.res.screen_of()));
        }
        true
    }

    /// The log once a line was added to it.
    pub open spec fn logged(log: Seq<Seq<char>>, line: Seq<char>) -> Seq<Seq<char>> {
        if log.len() > MAX_LOG_LINES {
            log
        } else if log.len() == MAX_LOG_LINES {
            log.push("... log truncated at 256 lines"@)
        } else if encode_utf8(line).len() > MAX_LOG_LINE_BYTES {
            log.push(clipped(line, MAX_LOG_LINE_BYTES as nat) + "..."@)
        } else {
            log.push(line)
        }
    }

    /// Append a log line within the per-frame bounds.
    pub fn log_line(&mut self, line: String)
        ensures
            crate::text::texts(final(self).log@) == DrawState::logged(
                crate::text::texts(old(self).log@),
                line@,
            ),
            *final(self) == (DrawState { log: final(self).log, ..*old(self) }),
    {
        let ghost before = crate::text::texts(self.log@);
        if self.log.len() >= MAX_LOG_LINES {
            if self.log.len() == MAX_LOG_LINES {
                self.log.push("... log truncated at 256 lines".to_owned());
                assert(crate::text::texts(self.log@) =~= before.push(
                    "... log truncated at 256 lines"@,
                ));
            }
            return;
        }
        if line.as_str().as_bytes().len() > MAX_LOG_LINE_BYTES {
            let mut cut = clip(line.as_str(), MAX_LOG_LINE_BYTES).to_owned();
            cut.append("...");
            let ghost text = cut@;
            self.log.push(cut);
            assert(crate::text::texts(self.log@) =~= before.push(text));
            return;
        }
        let ghost text = line@;
        self.log.push(line);
        assert(crate::text::texts(self.log@) =~= before.push(text));
    }

    // ----- target and pen -------------------------------------------------------------------

    /// Fall back to the screen where the target was released.
    pub(crate) fn take_aim(&mut self)
        requires
            old(self).wf(),
        ensures
            final(self).wf(),
            *final(self) == (DrawState { pen: old(self).aimed_pen(), ..*old(self) }),
            final(self).pen.target == old(self).aim(),
            final(self).res.live(final(self).pen.target) matches Some(b) && drawable(
                b,
                final(self).pen.clip,
            ),
    {
        assert(self.res.live(BufId::screen_id()) == Some(self.res.screen_of()));
        if !self.res.is_live(self.pen.target) {
            self.retarget_screen();
        }
    }

    pub(crate) fn retarget_screen(&mut self)
        requires
            old(self).width <= i32::MAX,
            old(self).height <= i32::MAX,
        ensures
            *final(self) == (DrawState {
                pen: Pen {
                    target: BufId::screen_id(),
                    clip: old(self).screen_rect(),
                    ..old(self).pen
                },
                ..*old(self)
            }),
    {
        self.pen.target = BufId::screen();
        self.pen.clip = Rect::new(0, 0, self.width as i32, self.height as i32);
    }

    /// Retarget to a `u8` buffer, or the screen for `None`. The clip
    /// resets to the new target.
    pub fn draw_target(&mut self, id: Option<BufId>) -> (r: Result<(), GfxError>)
        requires
            old(self).wf(),
        ensures
            final(self).wf(),
            ({
                let to = match id {
                    Some(b) => b,
                    None => BufId::screen_id(),
                };
                match old(self).res.live(to) {
                    None => r == Err::<(), GfxError>(GfxError::BufReleased) && *final(self)
                        == *old(self),
                    Some(b) => if b.kind != BufKind::U8 {
                        r == Err::<(), GfxError>(
                            GfxError::KindMismatch { expected: BufKind::U8, got: b.kind },
                        ) && *final(self) == *old(self)
                    } else {
                        r is Ok && *final(self) == (DrawState {
                            pen: Pen {
                                target: to,
                                clip: Rect {
                                    x: 0,
                                    y: 0,
                                    w: b.width as i32,
                                    h: b.height as i32,
                                },
                                ..old(self).pen
                            },
                            ..*old(self)
                        })
                    },
                }
            }),
    {
        let to = match id {
            Some(b) => b,
            None => BufId::screen(),
        };
        let (w, h) = match self.res.get(to) {
            Err(e) => return Err(e),
            Ok(buf) => {
                if buf.kind != BufKind::U8 {
                    return Err(GfxError::KindMismatch { expected: BufKind::U8, got: buf.kind });
                }
                assert(sound(*buf)) by {
                    assert(self.res.slots@[to.slot_of()].buf is Some);
                }
                (buf.width as i32, buf.height as i32)
            },
        };
        self.pen.target = to;
        self.pen.clip = Rect::new(0, 0, w, h);
        Ok(())
    }

    /// Clip in target coordinates; `None` resets to the whole target.
    pub fn clip(&mut self, rect: Option<Rect>)
        requires
            old(self).wf(),
        ensures
            final(self).wf(),
            ({
                let b = old(self).res.live(old(self).aim())->0;
                let full = Rect { x: 0, y: 0, w: b.width as i32, h: b.height as i32 };
                *final(self) == (DrawState {
                    pen: Pen {
                        clip: match rect {
                            Some(r) => r.crossed(full),
                            None => full,
                        },
                        ..old(self).aimed_pen()
                    },
                    ..*old(self)
                })
            }),
    {
        self.take_aim();
        let id = self.pen.target;
        let full = match self.res.get(id) {
            Ok(b) => {
                assert(sound(*b)) by {
                    assert(self.res.slots@[id.slot_of()].buf is Some);
                }
                b.bounds()
            },
            Err(_) => {
                assert(false);
                Rect::empty()
            },
        };
        self.pen.clip = match rect {
            Some(r) => r.intersect(&full),
            None => full,
        };
    }

    pub fn camera(&mut self, x: i32, y: i32)
        requires
            old(self).wf(),
        ensures
            final(self).wf(),
            *final(self) == (DrawState { pen: Pen { camera: (x, y), ..old(self).pen }, ..*old(self) }),
    {
        self.pen.camera = (x, y);
    }

    pub fn fillp(&mut self, f: Fillp)
        requires
            old(self).wf(),
        ensures
            final(self).wf(),
            *final(self) == (DrawState { pen: Pen { fillp: f, ..old(self).pen }, ..*old(self) }),
    {
        self.pen.fillp = f;
    }

    // ----- palette ----------------------------------------------------------------------------

    pub fn pal(&mut self, index: usize, rgb: Rgb) -> (r: Result<(), GfxError>)
        requires
            old(self).wf(),
        ensures
            final(self).wf(),
            *final(self) == (DrawState { palette: final(self).palette, ..*old(self) }),
            match r {
                Ok(_) => SYSTEM_COLOURS <= index < PALETTE_SIZE && final(self).palette@ == old(
                    self,
                ).palette@.update(index as int, rgb),
                Err(e) => final(self).palette@ == old(self).palette@ && (if index >= PALETTE_SIZE {
                    e == GfxError::Palette(crate::palette::PaletteError::OutOfRange { index })
                } else {
                    index < SYSTEM_COLOURS && e == GfxError::Palette(
                        crate::palette::PaletteError::Locked { index },
                    )
                }),
            },
    {
        match self.palette.set(index, rgb) {
            Ok(_) => Ok(()),
            Err(e) => Err(GfxError::Palette(e)),
        }
    }

    pub fn pal_restore(&mut self)
        requires
            old(self).wf(),
        ensures
            final(self).wf(),
            *final(self) == (DrawState { palette: final(self).palette, ..*old(self) }),
            final(self).palette@.len() == PALETTE_SIZE,
            forall|i: int|
                0 <= i < PALETTE_SIZE ==> (#[trigger] final(self).palette@[i])@
                    == crate::palette::default_colour(i),
    {
        self.palette = Palette::default();
    }

    pub fn palt(&mut self, i: u8, transparent: bool)
        requires
            old(self).wf(),
        ensures
            final(self).wf(),
            *final(self) == (DrawState {
                pen: Pen { table: final(self).pen.table, ..old(self).pen },
                ..*old(self)
            }),
            final(self).pen.table@ == (TableView {
                transparent: old(self).pen.table@.transparent.update(i as int % 128, transparent),
                ..old(self).pen.table@
            }),
    {
        self.pen.table.palt(i, transparent)
    }

    pub fn palt_clear(&mut self)
        requires
            old(self).wf(),
        ensures
            final(self).wf(),
            *final(self) == (DrawState {
                pen: Pen { table: final(self).pen.table, ..old(self).pen },
                ..*old(self)
            }),
            final(self).pen.table@ == (TableView { transparent: opaque_all(), ..old(self).pen.table@ }),
    {
        self.pen.table.clear_transparency()
    }

    pub fn pal_map(&mut self, from: u8, to: u8)
        requires
            old(self).wf(),
        ensures
            final(self).wf(),
            *final(self) == (DrawState {
                pen: Pen { table: final(self).pen.table, ..old(self).pen },
                ..*old(self)
            }),
            final(self).pen.table@ == (TableView {
                remap: old(self).pen.table@.remap.update(from as int % 128, (to % 128) as u8),
                ..old(self).pen.table@
            }),
    {
        self.pen.table.pal_map(from, to)
    }

    pub fn pal_map_clear(&mut self)
        requires
            old(self).wf(),
        ensures
            final(self).wf(),
            *final(self) == (DrawState {
                pen: Pen { table: final(self).pen.table, ..old(self).pen },
                ..*old(self)
            }),
            final(self).pen.table@ == (TableView { remap: identity(), ..old(self).pen.table@ }),
    {
        self.pen.table.clear_remap()
    }

    pub fn pal_reset(&mut self)
        requires
            old(self).wf(),
        ensures
            final(self).wf(),
            *final(self) == (DrawState {
                pen: Pen { table: final(self).pen.table, ..old(self).pen },
                ..*old(self)
            }),
            final(self).pen.table@ == (TableView { remap: identity(), transparent: opaque_all() }),
    {
        self.pen.table.reset()
    }

    // ----- primitives -------------------------------------------------------------------------

    // Every primitive returns the pixels it touched after clipping, which
    // is what the cycle meter prices.

    pub fn cls(&mut self, c: u8) -> (n: u64)
        requires
            old(self).wf(),
        ensures
            final(self).wf(),
            ({
                let after = cleared(old(self).canvas(), old(self).aimed_pen().clip, c);
                final(self).drew(*old(self), after) && n == after.touched
            }),
    {
        self.take_aim();
        let ghost before = self.res;
        let id = self.pen.target;
        let n = match self.res.get_mut(id) {
            Err(_) => 0,
            Ok(b) => {
                assert(sound(*b)) by {
                    assert(before.slots@[id.slot_of()].buf is Some);
                }
                match Surface::of(b) {
                    None => 0,
                    Some(mut s) => {
                        raster::cls(&mut s, &self.pen, c);
                        s.touched
                    },
                }
            },
        };
        proof {
            lemma_drawn_into(before, self.res, id);
        }
        n
    }

    pub fn pset(&mut self, x: i32, y: i32, c: Colour) -> (n: u64)
        requires
            old(self).wf(),
        ensures
            final(self).wf(),
            ({
                let after = pset_drawn(
                    old(self).canvas(),
                    old(self).aimed_pen(),
                    x,
                    y,
                    c,
                );
                final(self).drew(*old(self), after) && n == after.touched
            }),
    {
        self.take_aim();
        let ghost before = self.res;
        let id = self.pen.target;
        let n = match self.res.get_mut(id) {
            Err(_) => 0,
            Ok(b) => {
                assert(sound(*b)) by {
                    assert(before.slots@[id.slot_of()].buf is Some);
                }
                match Surface::of(b) {
                    None => 0,
                    Some(mut s) => {
                        raster::pset(&mut s, &self.pen, x, y, c);
                        s.touched
                    },
                }
            },
        };
        proof {
            lemma_drawn_into(before, self.res, id);
        }
        n
    }

    pub fn line(&mut self, x0: i32, y0: i32, x1: i32, y1: i32, c: Colour) -> (n: u64)
        requires
            old(self).wf(),
        ensures
            final(self).wf(),
            ({
                let after = line_drawn(
                    old(self).canvas(),
                    old(self).aimed_pen(),
                    x0,
                    y0,
                    x1,
                    y1,
                    c,
                );
                final(self).drew(*old(self), after) && n == after.touched
            }),
    {
        self.take_aim();
        let ghost before = self.res;
        let id = self.pen.target;
        let n = match self.res.get_mut(id) {
            Err(_) => 0,
            Ok(b) => {
                assert(sound(*b)) by {
                    assert(before.slots@[id.slot_of()].buf is Some);
                }
                match Surface::of(b) {
                    None => 0,
                    Some(mut s) => {
                        raster::line(&mut s, &self.pen, x0, y0, x1, y1, c);
                        s.touched
                    },
                }
            },
        };
        proof {
            lemma_drawn_into(before, self.res, id);
        }
        n
    }

    pub fn rect(&mut self, x0: i32, y0: i32, x1: i32, y1: i32, c: Colour) -> (n: u64)
        requires
            old(self).wf(),
        ensures
            final(self).wf(),
            ({
                let after = rect_drawn(
                    old(self).canvas(),
                    old(self).aimed_pen(),
                    x0,
                    y0,
                    x1,
                    y1,
                    c,
                );
                final(self).drew(*old(self), after) && n == after.touched
            }),
    {
        self.take_aim();
        let ghost before = self.res;
        let id = self.pen.target;
        let n = match self.res.get_mut(id) {
            Err(_) => 0,
            Ok(b) => {
                assert(sound(*b)) by {
                    assert(before.slots@[id.slot_of()].buf is Some);
                }
                match Surface::of(b) {
                    None => 0,
                    Some(mut s) => {
                        raster::rect(&mut s, &self.pen, x0, y0, x1, y1, c);
                        s.touched
                    },
                }
            },
        };
        proof {
            lemma_drawn_into(before, self.res, id);
        }
        n
    }

    pub fn rectfill(&mut self, x0: i32, y0: i32, x1: i32, y1: i32, c: Colour) -> (n: u64)
        requires
            old(self).wf(),
        ensures
            final(self).wf(),
            ({
                let after = rectfill_drawn(
                    old(self).canvas(),
                    old(self).aimed_pen(),
                    x0,
                    y0,
                    x1,
                    y1,
                    c,
                );
                final(self).drew(*old(self), after) && n == after.touched
            }),
    {
        self.take_aim();
        let ghost before = self.res;
        let id = self.pen.target;
        let n = match self.res.get_mut(id) {
            Err(_) => 0,
            Ok(b) => {
                assert(sound(*b)) by {
                    assert(before.slots@[id.slot_of()].buf is Some);
                }
                match Surface::of(b) {
                    None => 0,
                    Some(mut s) => {
                        raster::rectfill(&mut s, &self.pen, x0, y0, x1, y1, c);
                        s.touched
                    },
                }
            },
        };
        proof {
            lemma_drawn_into(before, self.res, id);
        }
        n
    }

    /// The midpoint walk is not clipped, so the work is proportional to
    /// the radius even when almost no pixel lands in the clip: the count
    /// returned is at least the perimeter.
    pub fn circ(&mut self, x: i32, y: i32, r: i32, c: Colour) -> (n: u64)
        requires
            old(self).wf(),
        ensures
            final(self).wf(),
            ({
                let after = circ_drawn(
                    old(self).canvas(),
                    old(self).aimed_pen(),
                    x,
                    y,
                    r,
                    c,
                );
                final(self).drew(*old(self), after) && n == (if after.touched > radius(r as int) * 6 {
                    after.touched
                } else {
                    radius(r as int) * 6
                })
            }),
    {
        self.take_aim();
        let ghost before = self.res;
        let id = self.pen.target;
        let n = match self.res.get_mut(id) {
            Err(_) => 0,
            Ok(b) => {
                assert(sound(*b)) by {
                    assert(before.slots@[id.slot_of()].buf is Some);
                }
                match Surface::of(b) {
                    None => 0,
                    Some(mut s) => {
                        raster::circ(&mut s, &self.pen, x, y, r, c);
                        if s.touched > raster::circle_work(r) { s.touched } else { raster::circle_work(r) }
                    },
                }
            },
        };
        proof {
            lemma_drawn_into(before, self.res, id);
        }
        n
    }

    /// Like [`DrawState::circ`]: the half-width table costs the radius
    /// whatever the clip.
    pub fn circfill(&mut self, x: i32, y: i32, r: i32, c: Colour) -> (n: u64)
        requires
            old(self).wf(),
        ensures
            final(self).wf(),
            ({
                let after = circfill_drawn(
                    old(self).canvas(),
                    old(self).aimed_pen(),
                    x,
                    y,
                    r,
                    c,
                );
                final(self).drew(*old(self), after) && n == (if after.touched > radius(r as int) * 6 {
                    after.touched
                } else {
                    radius(r as int) * 6
                })
            }),
    {
        self.take_aim();
        let ghost before = self.res;
        let id = self.pen.target;
        let n = match self.res.get_mut(id) {
            Err(_) => 0,
            Ok(b) => {
                assert(sound(*b)) by {
                    assert(before.slots@[id.slot_of()].buf is Some);
                }
                match Surface::of(b) {
                    None => 0,
                    Some(mut s) => {
                        raster::circfill(&mut s, &self.pen, x, y, r, c);
                        if s.touched > raster::circle_work(r) { s.touched } else { raster::circle_work(r) }
                    },
                }
            },
        };
        proof {
            lemma_drawn_into(before, self.res, id);
        }
        n
    }

    /// Returns the x after the last glyph and the pixels touched.
    pub fn print(&mut self, text: &str, x: i32, y: i32, c: u8) -> (r: (i32, u64))
        requires
            old(self).wf(),
        ensures
            final(self).wf(),
            ({
                let after = print_drawn(
                    old(self).canvas(),
                    old(self).aimed_pen(),
                    text@,
                    x,
                    y,
                    c,
                );
                final(self).drew(*old(self), after) && r.1 == after.touched && r.0 == text_end(x as int, text@.len())
            }),
    {
        self.take_aim();
        let ghost before = self.res;
        let id = self.pen.target;
        let r = match self.res.get_mut(id) {
            Err(_) => (x, 0),
            Ok(b) => {
                assert(sound(*b)) by {
                    assert(before.slots@[id.slot_of()].buf is Some);
                }
                match Surface::of(b) {
                    None => (x, 0),
                    Some(mut s) => {
                        let end = blit::print(&mut s, &self.pen, text, x, y, c);
                        (end, s.touched)
                    },
                }
            },
        };
        proof {
            lemma_drawn_into(before, self.res, id);
        }
        r
    }

    pub fn pget(&mut self, x: i32, y: i32) -> (p: u8)
        requires
            old(self).wf(),
        ensures
            final(self).wf(),
            *final(self) == (DrawState { pen: old(self).aimed_pen(), ..*old(self) }),
            p == (if 0 <= x < old(self).canvas().width && 0 <= y < old(self).canvas().height {
                old(self).canvas().pixel(x as int, y as int)
            } else {
                0
            }),
    {
        self.take_aim();
        let id = self.pen.target;
        match self.res.get(id) {
            Err(_) => 0,
            Ok(b) => {
                assert(sound(*b)) by {
                    assert(self.res.slots@[id.slot_of()].buf is Some);
                }
                proof {
                    if b.inside(x as int, y as int) {
                        lemma_grid(x as int, y as int, b.width as int, b.height as int);
                        let i = b.index_of(x as int, y as int);
                        assert(elements(b.data)[i] == Element::Int(b.data->U8_0@[i] as i64));
                    }
                }
                match b.get(x, y) {
                    Some(Element::Int(v)) => v as u8,
                    _ => 0,
                }
            },
        }
    }
}

/// A pen that was put on the screen draws on a live buffer.
pub proof fn lemma_on_the_screen(d: DrawState)
    requires
        d.wf(),
        d.pen.target == BufId::screen_id(),
        d.pen.sheet is None,
    ensures
        d.on_the_screen(),
{
    assert(d.res.live(BufId::screen_id()) == Some(d.res.screen_of()));
}

/// A screen's area can be counted.
proof fn lemma_screen_area(r: Resources)
    requires
        r.wf(),
    ensures
        r.screen_of().width * r.screen_of().height <= usize::MAX,
{
    assert(sound(r.screen_of())) by {
        assert(r.slots@[0].buf is Some);
    }
}

/// Drawing into a buffer keeps the slab in order.
pub proof fn lemma_drawn_into(before: Resources, after: Resources, id: BufId)
    requires
        before.wf(),
        before.live(id) matches Some(b) && b.kind == BufKind::U8,
        after.live(id) matches Some(c) && put_in(before, after, id.slot_of(), c) && c.same_shape(
            before.live(id)->0,
        ) && c.data is U8 && c.data->U8_0@.len() == before.live(id)->0.data->U8_0@.len(),
    ensures
        after.wf(),
        forall|o: BufId| o != id ==> #[trigger] after.live(o) == before.live(o),
        after.screen_of().width == before.screen_of().width,
        after.screen_of().height == before.screen_of().height,
{
    let b = before.live(id)->0;
    assert(sound(b)) by {
        assert(before.slots@[id.slot_of()].buf is Some);
    }
    lemma_put_in(before, after, id, after.live(id)->0);
    assert(before.live(BufId::screen_id()) == Some(before.screen_of()));
    assert(after.live(BufId::screen_id()) == Some(after.screen_of()));
}

impl Default for DrawState {
    /// The state of an empty cart with a low screen.
    fn default() -> (d: DrawState)
        ensures
            d.wf(),
            d.in_hand(),
            fresh(d, 320, 240, Seq::empty()),
    {
        assert(storage(BufKind::U8, 320, 240) is Some);
        DrawState::new(320, 240, Rc::new(Snapshot::empty()))
    }
}

/// Whether a log is within the bounds of a frame: its lines, and the note
/// that more were dropped.
pub open spec fn log_fits(log: Seq<Seq<char>>) -> bool {
    &&& log.len() <= MAX_LOG_LINES + 1
    &&& forall|i: int|
        0 <= i < log.len() ==> encode_utf8(#[trigger] log[i]).len() <= MAX_LOG_LINE_BYTES + 3
}

/// The log never grows past its bounds, whatever a cart prints.
pub proof fn law_the_log_is_bounded(log: Seq<Seq<char>>, line: Seq<char>)
    requires
        log_fits(log),
    ensures
        log_fits(DrawState::logged(log, line)),
{
    let end = DrawState::logged(log, line);
    if log.len() <= MAX_LOG_LINES {
        let last = end.last();
        let cut = clipped(line, MAX_LOG_LINE_BYTES as nat);
        assert(encode_utf8(last).len() <= MAX_LOG_LINE_BYTES + 3) by {
            reveal_strlit("... log truncated at 256 lines");
            reveal_strlit("...");
            is_ascii_chars_encode_utf8("... log truncated at 256 lines"@);
            is_ascii_chars_encode_utf8("..."@);
            crate::wire::lemma_clipped_fits(line, MAX_LOG_LINE_BYTES as nat);
            crate::text::lemma_encode_add(cut, "..."@);
        }
        assert forall|i: int| 0 <= i < end.len() implies encode_utf8(#[trigger] end[i]).len()
            <= MAX_LOG_LINE_BYTES + 3 by {
            if i < log.len() {
                assert(end[i] == log[i]);
            }
        }
    }
}

} // verus!
