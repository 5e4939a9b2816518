//! The buffers that a cart makes, reads and fills.

use vstd::prelude::*;
use crate::buf::{elements, kept, width_of, BufKind, Element, MapInfo, Number, MAX_BUF_DIM};
use crate::draw::DrawState;
use crate::pen::Pen;
use crate::resources::{
    charged_sum, dropped, lemma_next_is_dead, lemma_put_in, made, put_in, BufId, GfxError,
    Resources,
};

verus! {

impl DrawState {
    pub fn buf_alloc(&mut self, kind: BufKind, w: u32, h: u32) -> (r: Result<BufId, GfxError>)
        requires
            old(self).wf(),
            old(self).in_hand() || old(self).settled(),
        ensures
            final(self).wf(),
            *final(self) == (DrawState { res: final(self).res, ..*old(self) }),
            final(self).res.names@ == old(self).res.names@,
            ({
                let bytes = w * h * width_of(kind);
                let was = old(self).res;
                let now = final(self).res;
                if !(1 <= w <= MAX_BUF_DIM && 1 <= h <= MAX_BUF_DIM) {
                    &&& r == Err::<BufId, GfxError>(
                        GfxError::BadDimensions { width: w, height: h, max: MAX_BUF_DIM },
                    )
                    &&& now == was
                } else if was.ledger.used + bytes > was.ledger.cap {
                    &&& r == Err::<BufId, GfxError>(was.ledger.refusal(bytes as usize))
                    &&& now == was
                } else {
                    r is Ok && made(was, now, kind, w, h, r->Ok_0)
                }
            }),
    {
        let ghost before = self.res;
        proof {
            if self.in_hand() {
                law_live_is_settled(*self);
            }
        }
        let r = self.res.allocate(kind, w, h);
        proof {
            lemma_same_screen(before, self.res);
        }
        r
    }

    /// The pen once a buffer was released: what it drew into or read from
    /// is let go.
    pub open spec fn pen_without(&self, id: BufId) -> Pen {
        let pen = if self.pen.target == id {
            Pen { target: BufId::screen_id(), clip: self.screen_rect(), ..self.pen }
        } else {
            self.pen
        };
        if pen.sheet == Some(id) {
            Pen { sheet: None, ..pen }
        } else {
            pen
        }
    }

    /// Explicit release. Releasing the current target or sheet clears it.
    pub fn buf_release(&mut self, id: BufId) -> (r: Result<(), GfxError>)
        requires
            old(self).wf(),
        ensures
            final(self).wf(),
            final(self).same_but_drawing(*old(self)),
            ({
                let was = old(self).res;
                let now = final(self).res;
                if id == BufId::screen_id() {
                    r == Err::<(), GfxError>(GfxError::BufProtected) && *final(self) == *old(self)
                } else if was.live(id) is None {
                    r == Err::<(), GfxError>(GfxError::BufReleased) && *final(self) == *old(self)
                } else {
                    r is Ok && final(self).pen == old(self).pen_without(id) && dropped(
                        was,
                        now,
                        id,
                    )
                }
            }),
    {
        let ghost before = self.res;
        if let Err(e) = self.res.free(id) {
            return Err(e);
        }
        proof {
            lemma_same_screen(before, self.res);
        }
        if self.pen.target.raw == id.raw {
            self.retarget_screen();
        }
        if let Some(s) = self.pen.sheet {
            if s.raw == id.raw {
                self.pen.sheet = None;
            }
        }
        Ok(())
    }

    /// Whether a collector's list lets a buffer go: it is in the list and
    /// live, and not the screen.
    pub open spec fn let_go(&self, ids: Seq<BufId>, id: BufId) -> bool {
        ids.contains(id) && id != BufId::screen_id() && self.res.live(id) is Some
    }

    /// Free whatever the guest's collector has let go of.
    pub fn reap(&mut self, ids: &Vec<BufId>)
        requires
            old(self).wf(),
        ensures
            final(self).wf(),
            final(self).same_but_drawing(*old(self)),
            forall|id: BufId| #[trigger] final(self).res.live(id) == (if old(self).let_go(ids@, id) {
                None
            } else {
                old(self).res.live(id)
            }),
            final(self).pen == (Pen {
                target: final(self).pen.target,
                clip: final(self).pen.clip,
                sheet: final(self).pen.sheet,
                ..old(self).pen
            }),
            if old(self).let_go(ids@, old(self).pen.target) {
                final(self).pen.target == BufId::screen_id() && final(self).pen.clip == old(
                    self,
                ).screen_rect()
            } else {
                final(self).pen.target == old(self).pen.target && final(self).pen.clip == old(
                    self,
                ).pen.clip
            },
            final(self).pen.sheet == (match old(self).pen.sheet {
                Some(s) if old(self).let_go(ids@, s) => None,
                s => s,
            }),
            forall|k: Seq<char>|
                #![trigger final(self).res.names@.contains_key(k)]
                final(self).res.names@.contains_key(k) <==> old(self).res.names@.contains_key(k)
                    && !old(self).let_go(ids@, (BufId { raw: old(self).res.names@[k] })),
            forall|k: Seq<char>|
                final(self).res.names@.contains_key(k) ==> #[trigger] final(self).res.names@[k]
                    == old(self).res.names@[k],
            final(self).res.ledger.used - charged_sum(final(self).res.slots@) == old(
                self,
            ).res.ledger.used - charged_sum(old(self).res.slots@),
    {
        let ghost start = *self;
        let mut i: usize = 0;
        while i < ids.len()
            invariant
                i <= ids@.len(),
                self.wf(),
                start.wf(),
                self.same_but_drawing(start),
                forall|id: BufId| #[trigger] self.res.live(id) == (if start.let_go(
                    ids@.take(i as int),
                    id,
                ) {
                    None
                } else {
                    start.res.live(id)
                }),
                self.pen == (Pen {
                    target: self.pen.target,
                    clip: self.pen.clip,
                    sheet: self.pen.sheet,
                    ..start.pen
                }),
                if start.let_go(ids@.take(i as int), start.pen.target) {
                    self.pen.target == BufId::screen_id() && self.pen.clip == start.screen_rect()
                } else {
                    self.pen.target == start.pen.target && self.pen.clip == start.pen.clip
                },
                self.pen.sheet == (match start.pen.sheet {
                    Some(s) if start.let_go(ids@.take(i as int), s) => None,
                    s => s,
                }),
                forall|k: Seq<char>|
                    #![trigger self.res.names@.contains_key(k)]
                    self.res.names@.contains_key(k) <==> start.res.names@.contains_key(k)
                        && !start.let_go(
                        ids@.take(i as int),
                        (BufId { raw: start.res.names@[k] }),
                    ),
                forall|k: Seq<char>|
                    self.res.names@.contains_key(k) ==> #[trigger] self.res.names@[k]
                        == start.res.names@[k],
                self.res.ledger.used - charged_sum(self.res.slots@) == start.res.ledger.used
                    - charged_sum(start.res.slots@),
            decreases ids.len() - i,
        {
            let id = ids[i];
            proof {
                let t = ids@.take(i as int);
                let u = ids@.take(i + 1);
                assert(u =~= t.push(id));
                assert forall|o: BufId| u.contains(o) <==> t.contains(o) || o == id by {
                    if t.contains(o) {
                        let j = t.index_of(o);
                        assert(u[j] == o);
                    }
                    if o == id {
                        assert(u[i as int] == o);
                    }
                    if u.contains(o) && o != id {
                        let j = u.index_of(o);
                        assert(t[j] == o);
                    }
                }
            }
            if self.res.is_live(id) {
                match self.buf_release(id) {
                    Ok(_) => {},
                    Err(_) => {},
                }
            }
            i += 1;
        }
        assert(ids@.take(i as int) =~= ids@);
    }

    pub fn buf_info(&self, id: BufId) -> (r: Result<(BufKind, u32, u32, Option<MapInfo>), GfxError>)
        ensures
            match self.res.live(id) {
                Some(b) => r == Ok::<(BufKind, u32, u32, Option<MapInfo>), GfxError>(
                    (b.kind, b.width, b.height, b.map),
                ),
                None => r == Err::<(BufKind, u32, u32, Option<MapInfo>), GfxError>(
                    GfxError::BufReleased,
                ),
            },
    {
        match self.res.get(id) {
            Ok(b) => Ok((b.kind(), b.width(), b.height(), b.map_info())),
            Err(e) => Err(e),
        }
    }

    pub fn buf_get(&self, id: BufId, x: i32, y: i32) -> (r: Result<Option<Element>, GfxError>)
        requires
            self.wf(),
        ensures
            match self.res.live(id) {
                Some(b) => r == Ok::<Option<Element>, GfxError>(
                    if b.inside(x as int, y as int) {
                        Some(elements(b.data)[b.index_of(x as int, y as int)])
                    } else {
                        None
                    },
                ),
                None => r == Err::<Option<Element>, GfxError>(GfxError::BufReleased),
            },
    {
        match self.res.get(id) {
            Ok(b) => {
                assert(self.res.slots@[id.slot_of()].buf is Some);
                Ok(b.get(x, y))
            },
            Err(e) => Err(e),
        }
    }

    /// The same but for the elements of one buffer.
    pub open spec fn wrote(&self, o: DrawState, id: BufId, e: Seq<Element>) -> bool {
        &&& *self == (DrawState { res: self.res, ..o })
        &&& self.res.ledger == o.res.ledger
        &&& self.res.names == o.res.names
        &&& self.res.live(id) matches Some(b) && b.same_shape(o.res.live(id)->0) && elements(b.data)
            == e
        &&& forall|k: BufId| k != id ==> #[trigger] self.res.live(k) == o.res.live(k)
    }

    pub fn buf_set(&mut self, id: BufId, x: i32, y: i32, v: Number) -> (r: Result<(), GfxError>)
        requires
            old(self).wf(),
        ensures
            final(self).wf(),
            match old(self).res.live(id) {
                Some(b) => r is Ok && final(self).wrote(
                    *old(self),
                    id,
                    if b.inside(x as int, y as int) {
                        elements(b.data).update(
                            b.index_of(x as int, y as int),
                            kept(b.kind, v),
                        )
                    } else {
                        elements(b.data)
                    },
                ),
                None => r == Err::<(), GfxError>(GfxError::BufReleased) && *final(self) == *old(
                    self,
                ),
            },
    {
        let ghost before = self.res;
        match self.res.get_mut(id) {
            Err(e) => return Err(e),
            Ok(b) => {
                assert(before.slots@[id.slot_of()].buf is Some);
                b.set(x, y, v);
            },
        }
        proof {
            lemma_written(before, self.res, id);
        }
        Ok(())
    }

    pub fn buf_fill(&mut self, id: BufId, v: Number) -> (r: Result<(), GfxError>)
        requires
            old(self).wf(),
        ensures
            final(self).wf(),
            match old(self).res.live(id) {
                Some(b) => r is Ok && final(self).wrote(
                    *old(self),
                    id,
                    Seq::new(elements(b.data).len(), |i: int| kept(b.kind, v)),
                ),
                None => r == Err::<(), GfxError>(GfxError::BufReleased) && *final(self) == *old(
                    self,
                ),
            },
    {
        let ghost before = self.res;
        match self.res.get_mut(id) {
            Err(e) => return Err(e),
            Ok(b) => {
                assert(before.slots@[id.slot_of()].buf is Some);
                b.fill(v);
            },
        }
        proof {
            lemma_written(before, self.res, id);
        }
        Ok(())
    }

    /// `dst:copy(src, ...)`, or `dst:blit(src, ...)` when `honour_clip`,
    /// which applies the pen's clip if `dst` is the current target.
    pub fn buf_copy(
        &mut self,
        dst: BufId,
        src: BufId,
        sx: i32,
        sy: i32,
        w: i32,
        h: i32,
        dx: i32,
        dy: i32,
        honour_clip: bool,
    ) -> (r: Result<(), GfxError>)
        requires
            old(self).wf(),
        ensures
            final(self).wf(),
            match (old(self).res.live(dst), old(self).res.live(src)) {
                (Some(d), Some(s)) => if d.kind != s.kind {
                    &&& r == Err::<(), GfxError>(
                        GfxError::KindMismatch { expected: d.kind, got: s.kind },
                    )
                    &&& final(self).wrote(*old(self), dst, elements(d.data))
                } else {
                    &&& r is Ok
                    &&& final(self).wrote(
                        *old(self),
                        dst,
                        d.after_copy(
                            s,
                            (sx as int, sy as int),
                            (w as int, h as int),
                            (dx as int, dy as int),
                            if honour_clip && dst == old(self).pen.target {
                                Some(old(self).pen.clip)
                            } else {
                                None
                            },
                        ),
                    )
                },
                _ => r == Err::<(), GfxError>(GfxError::BufReleased) && *final(self) == *old(self),
            },
    {
        let clip = if honour_clip && dst.raw == self.pen.target.raw {
            Some(self.pen.clip)
        } else {
            None
        };
        let ghost before = self.res;
        if dst.raw == src.raw {
            match self.res.get_mut(dst) {
                Err(e) => return Err(e),
                Ok(b) => {
                    assert(before.slots@[dst.slot_of()].buf is Some);
                    b.copy_within(sx, sy, w, h, dx, dy, clip);
                },
            }
            proof {
                lemma_written(before, self.res, dst);
            }
            return Ok(());
        }
        let r = match self.res.pair_mut(dst, src) {
            Err(e) => return Err(e),
            Ok((d, s)) => {
                assert(before.slots@[dst.slot_of()].buf is Some);
                assert(before.slots@[src.slot_of()].buf is Some);
                d.copy_from(s, sx, sy, w, h, dx, dy, clip)
            },
        };
        proof {
            lemma_written(before, self.res, dst);
        }
        match r {
            Ok(_) => Ok(()),
            Err(e) => Err(GfxError::of_buf(e)),
        }
    }
}

/// Where the screen's handle stands for the same buffer, the screen is the
/// same.
proof fn lemma_same_screen(r: Resources, s: Resources)
    requires
        r.wf(),
        s.wf(),
        s.live(BufId::screen_id()) == r.live(BufId::screen_id()),
    ensures
        s.screen_of() == r.screen_of(),
{
    assert(r.live(BufId::screen_id()) == Some(r.screen_of()));
    assert(s.live(BufId::screen_id()) == Some(s.screen_of()));
}

/// Writing a buffer's elements keeps the slab in order.
proof fn lemma_written(before: Resources, after: Resources, id: BufId)
    requires
        before.wf(),
        before.live(id) is Some,
        after.live(id) matches Some(c) && put_in(before, after, id.slot_of(), c) && c.same_shape(
            before.live(id)->0,
        ) && c.wf(),
    ensures
        after.wf(),
        forall|o: BufId| o != id ==> #[trigger] after.live(o) == before.live(o),
        after.screen_of().width == before.screen_of().width,
        after.screen_of().height == before.screen_of().height,
{
    assert(before.slots@[id.slot_of()].buf is Some);
    lemma_put_in(before, after, id, after.live(id)->0);
    assert(before.live(BufId::screen_id()) == Some(before.screen_of()));
    assert(after.live(BufId::screen_id()) == Some(after.screen_of()));
}

/// A pen whose target and sheet are live can have buffers made: the next
/// handle is that of no live buffer.
pub proof fn law_live_is_settled(d: DrawState)
    requires
        d.wf(),
        d.in_hand(),
    ensures
        d.settled(),
{
    lemma_next_is_dead(d.res);
}

} // verus!
