//! Sheets and maps: which sheet the pen reads from, drawing through it, and
//! loading both from the cart.

use vstd::prelude::*;
use vstd::string::*;
use crate::assets::{
    self, gained, map_decoded, map_path_of, sheet_decoded, sheet_path_of, MapFile,
};
use crate::blit::{self, map_drawn, spr_drawn, sspr_drawn};
use crate::buf::{Buf, BufKind};
use crate::draw::buffers::law_live_is_settled;
use crate::draw::{drawable, lemma_drawn_into, DrawState};
use crate::manifest::{is_asset_name, valid_asset_name};
use crate::pen::Pen;
use crate::raster::Surface;
use crate::resources::{sound, BufId, GfxError, Resources};
use crate::snapshot::file_from;

verus! {

/// What loading a map finds.
#[derive(Debug)]
pub enum MapFound {
    /// A live buffer that holds it.
    Live(BufId),
    /// The file to parse: its path and its bytes.
    File(String, Vec<u8>),
}

/// What comes of loading a sheet by its name: an error, the live buffer of
/// that name, or a new buffer under it.
pub open spec fn sheet_loaded(
    was: DrawState,
    now: DrawState,
    name: Seq<char>,
    r: Result<BufId, GfxError>,
) -> bool {
    let path = sheet_path_of(name);
    if !is_asset_name(name) {
        &&& r is Err && r->Err_0.says_invalid(path, "bad asset name"@)
        &&& now == was
    } else if was.known(path) is Some {
        r == Ok::<BufId, GfxError>(was.known(path)->0) && now == was
    } else {
        match file_from(was.cart@, path, 0) {
            None => r is Err && r->Err_0.says_not_found(path) && now == was,
            Some(bytes) => sheet_decoded(r, path, bytes, was.res, now.res) && now.loaded(
                was,
                path,
                r,
            ),
        }
    }
}

/// What comes of loading a map from what a parser made of its file.
pub open spec fn map_loaded(
    was: DrawState,
    now: DrawState,
    path: Seq<char>,
    parsed: Result<MapFile, String>,
    r: Result<BufId, GfxError>,
) -> bool {
    match parsed {
        Err(e) => r is Err && r->Err_0.says_invalid(path, "map JSON: "@ + e@) && now == was,
        Ok(file) => map_decoded(r, path, file, was.res, now.res) && now.loaded(was, path, r),
    }
}

impl DrawState {
    /// Select the sheet `spr`, `sspr` and `map` read from.
    pub fn sheet(&mut self, id: Option<BufId>) -> (r: Result<(), GfxError>)
        requires
            old(self).wf(),
        ensures
            final(self).wf(),
            match id {
                Some(b) if old(self).res.live(b) is None => r == Err::<(), GfxError>(
                    GfxError::BufReleased,
                ) && *final(self) == *old(self),
                Some(b) if old(self).res.live(b)->0.kind != BufKind::U8 => r == Err::<
                    (),
                    GfxError,
                >(
                    GfxError::KindMismatch {
                        expected: BufKind::U8,
                        got: old(self).res.live(b)->0.kind,
                    },
                ) && *final(self) == *old(self),
                _ => r is Ok && *final(self) == (DrawState {
                    pen: Pen { sheet: id, ..old(self).pen },
                    ..*old(self)
                }),
            },
    {
        if let Some(b) = id {
            match self.res.get(b) {
                Err(e) => return Err(e),
                Ok(buf) => if buf.kind != BufKind::U8 {
                    return Err(GfxError::KindMismatch { expected: BufKind::U8, got: buf.kind });
                },
            }
        }
        self.pen.sheet = id;
        Ok(())
    }

    /// Why nothing can be drawn from the sheet: there is none, it was
    /// released, or it is what is drawn into.
    pub open spec fn sheet_refusal(&self) -> Option<GfxError> {
        match self.pen.sheet {
            None => Some(GfxError::NoSheet),
            Some(id) => if self.res.live(id) is None {
                Some(GfxError::BufReleased)
            } else if id == self.aim() {
                Some(GfxError::Aliased)
            } else {
                None
            },
        }
    }

    /// The sheet that is drawn from.
    pub open spec fn sheet_of(&self) -> Buf {
        self.res.live(self.pen.sheet->0)->0
    }

    /// What drawing from the sheet leaves where it is refused: the target
    /// was looked at once there was a sheet.
    pub open spec fn turned_away(&self, o: DrawState) -> bool {
        if o.pen.sheet is None {
            *self == o
        } else {
            *self == (DrawState { pen: o.aimed_pen(), ..o })
        }
    }

    fn sheet_id(&mut self) -> (r: Result<BufId, GfxError>)
        requires
            old(self).wf(),
        ensures
            final(self).wf(),
            final(self).turned_away(*old(self)),
            match (r, old(self).sheet_refusal()) {
                (Ok(id), None) => {
                    &&& old(self).pen.sheet == Some(id)
                    &&& final(self).pen.target == old(self).aim()
                    &&& final(self).res.live(final(self).pen.target) matches Some(b) && drawable(
                        b,
                        final(self).pen.clip,
                    )
                },
                (Err(e), Some(f)) => e == f,
                _ => false,
            },
    {
        let id = match self.pen.sheet {
            Some(id) => id,
            None => return Err(GfxError::NoSheet),
        };
        self.take_aim();
        if !self.res.is_live(id) {
            return Err(GfxError::BufReleased);
        }
        if id.raw == self.pen.target.raw {
            return Err(GfxError::Aliased);
        }
        Ok(id)
    }

    pub fn spr(
        &mut self,
        n: i32,
        x: i32,
        y: i32,
        w: i32,
        h: i32,
        flip_x: bool,
        flip_y: bool,
    ) -> (r: Result<u64, GfxError>)
        requires
            old(self).wf(),
        ensures
            final(self).wf(),
            match old(self).sheet_refusal() {
                Some(e) => r == Err::<u64, GfxError>(e) && final(self).turned_away(*old(self)),
                None => {
                    let after = spr_drawn(
                        old(self).canvas(),
                        old(self).aimed_pen(),
                        old(self).sheet_of(),
                        n,
                        x,
                        y,
                        w,
                        h,
                        flip_x,
                        flip_y,
                    );
                    final(self).drew(*old(self), after) && r is Ok && r->Ok_0 == after.touched
                },
            },
    {
        let sheet = match self.sheet_id() {
            Ok(id) => id,
            Err(e) => return Err(e),
        };
        let ghost before = self.res;
        let id = self.pen.target;
        let r = match self.res.pair_mut(id, sheet) {
            Err(e) => Err(e),
            Ok((target, from)) => {
                proof {
                    lemma_pair_sound(before, id, sheet);
                }
                match Surface::of(target) {
                    None => Ok(0),
                    Some(mut s) => {
                        blit::spr(&mut s, &self.pen, from, n, x, y, w, h, flip_x, flip_y);
                        Ok(s.touched)
                    },
                }
            },
        };
        proof {
            lemma_drawn_into(before, self.res, id);
        }
        r
    }

    pub fn sspr(
        &mut self,
        sx: i32,
        sy: i32,
        sw: i32,
        sh: i32,
        dx: i32,
        dy: i32,
        dw: i32,
        dh: i32,
        flip_x: bool,
        flip_y: bool,
    ) -> (r: Result<u64, GfxError>)
        requires
            old(self).wf(),
        ensures
            final(self).wf(),
            match old(self).sheet_refusal() {
                Some(e) => r == Err::<u64, GfxError>(e) && final(self).turned_away(*old(self)),
                None => {
                    let after = sspr_drawn(
                        old(self).canvas(),
                        old(self).aimed_pen(),
                        old(self).sheet_of(),
                        sx,
                        sy,
                        sw,
                        sh,
                        dx,
                        dy,
                        dw,
                        dh,
                        flip_x,
                        flip_y,
                    );
                    final(self).drew(*old(self), after) && r is Ok && r->Ok_0 == after.touched
                },
            },
    {
        let sheet = match self.sheet_id() {
            Ok(id) => id,
            Err(e) => return Err(e),
        };
        let ghost before = self.res;
        let id = self.pen.target;
        let r = match self.res.pair_mut(id, sheet) {
            Err(e) => Err(e),
            Ok((target, from)) => {
                proof {
                    lemma_pair_sound(before, id, sheet);
                }
                match Surface::of(target) {
                    None => Ok(0),
                    Some(mut s) => {
                        blit::sspr(
                            &mut s,
                            &self.pen,
                            from,
                            sx,
                            sy,
                            sw,
                            sh,
                            dx,
                            dy,
                            dw,
                            dh,
                            flip_x,
                            flip_y,
                        );
                        Ok(s.touched)
                    },
                }
            },
        };
        proof {
            lemma_drawn_into(before, self.res, id);
        }
        r
    }

    /// The cells of one layer of a map.
    pub open spec fn layer_cells(b: Buf, layer: int) -> Seq<i16> {
        let per_layer = b.width * b.map->0.rows;
        b.data->I16_0@.subrange(layer * per_layer, (layer + 1) * per_layer)
    }

    /// Draw one layer of a map through the current sheet.
    pub fn map(
        &mut self,
        map: BufId,
        cell_x: i32,
        cell_y: i32,
        sx: i32,
        sy: i32,
        cell_w: i32,
        cell_h: i32,
        layer: i32,
    ) -> (r: Result<u64, GfxError>)
        requires
            old(self).wf(),
        ensures
            final(self).wf(),
            match old(self).res.live(map) {
                None => r == Err::<u64, GfxError>(GfxError::BufReleased) && *final(self) == *old(
                    self,
                ),
                Some(b) => if b.map is None {
                    r == Err::<u64, GfxError>(GfxError::NotAMap) && *final(self) == *old(self)
                } else if !(0 <= layer < b.map->0.layers) {
                    r == Ok::<u64, GfxError>(0) && *final(self) == *old(self)
                } else {
                    match old(self).sheet_refusal() {
                        Some(e) => r == Err::<u64, GfxError>(e) && final(self).turned_away(
                            *old(self),
                        ),
                        None => {
                            let after = map_drawn(
                                old(self).canvas(),
                                old(self).aimed_pen(),
                                old(self).sheet_of(),
                                DrawState::layer_cells(b, layer as int),
                                b.width as int,
                                b.map->0.rows as int,
                                b.map->0.tile_size as int,
                                cell_x,
                                cell_y,
                                sx,
                                sy,
                                cell_w,
                                cell_h,
                            );
                            final(self).drew(*old(self), after) && r is Ok && r->Ok_0
                                == after.touched
                        },
                    }
                },
            },
    {
        let (cells, map_w, rows, tile) = match self.res.get(map) {
            Err(e) => return Err(e),
            Ok(b) => {
                let info = match b.map_info() {
                    Some(m) => m,
                    None => return Err(GfxError::NotAMap),
                };
                if layer < 0 || layer as u32 >= info.layers {
                    return Ok(0);
                }
                proof {
                    assert(self.res.slots@[map.slot_of()].buf is Some);
                    lemma_layer_fits(*b, layer as int);
                }
                let per_layer: usize = b.width as usize * info.rows as usize;
                let start: usize = layer as usize * per_layer;
                match b.as_i16() {
                    None => return Err(GfxError::NotAMap),
                    Some(all) => {
                        let part = vstd::slice::slice_subrange(
                            all.as_slice(),
                            start,
                            start + per_layer,
                        );
                        (
                            vstd::slice::slice_to_vec(part),
                            b.width as i32,
                            info.rows as i32,
                            info.tile_size as i32,
                        )
                    },
                }
            },
        };
        let sheet = match self.sheet_id() {
            Ok(id) => id,
            Err(e) => return Err(e),
        };
        let ghost before = self.res;
        let id = self.pen.target;
        let r = match self.res.pair_mut(id, sheet) {
            Err(e) => Err(e),
            Ok((target, from)) => {
                proof {
                    lemma_pair_sound(before, id, sheet);
                }
                match Surface::of(target) {
                    None => Ok(0),
                    Some(mut s) => {
                        blit::map(
                            &mut s,
                            &self.pen,
                            from,
                            &cells,
                            map_w,
                            rows,
                            tile,
                            cell_x,
                            cell_y,
                            sx,
                            sy,
                            cell_w,
                            cell_h,
                        );
                        Ok(s.touched)
                    },
                }
            },
        };
        proof {
            lemma_drawn_into(before, self.res, id);
        }
        r
    }

    /// The live buffer of a name.
    pub open spec fn known(&self, path: Seq<char>) -> Option<BufId> {
        if self.res.names@.contains_key(path) && self.res.live(
            (BufId { raw: self.res.names@[path] }),
        ) is Some {
            Some(BufId { raw: self.res.names@[path] })
        } else {
            None
        }
    }

    /// The same but for the buffers, which have gained at most the one of
    /// a result, under its name.
    pub open spec fn loaded(
        &self,
        o: DrawState,
        path: Seq<char>,
        r: Result<BufId, GfxError>,
    ) -> bool {
        &&& self.same_but_drawing(o)
        &&& self.pen == o.pen
        &&& self.res.names@ == (match r {
            Ok(id) => o.res.names@.insert(path, id.raw),
            Err(_) => o.res.names@,
        })
    }

    /// Decode `gfx/<name>.png`, or return the live buffer of that name.
    pub fn load_sheet(&mut self, name: &str) -> (r: Result<BufId, GfxError>)
        requires
            old(self).wf(),
            old(self).in_hand() || old(self).settled(),
        ensures
            final(self).wf(),
            sheet_loaded(*old(self), *final(self), name@, r),
    {
        proof {
            if self.in_hand() {
                law_live_is_settled(*self);
            }
        }
        let path = assets::sheet_path(name);
        if !valid_asset_name(name) {
            return Err(GfxError::asset_invalid(path.as_str(), "bad asset name"));
        }
        if let Some(id) = self.res.named(path.as_str()) {
            return Ok(id);
        }
        let ghost before = self.res;
        let r = match self.cart.get(path.as_str()) {
            None => return Err(GfxError::AssetNotFound { path }),
            Some(bytes) => assets::decode_sheet(path.as_str(), bytes.as_slice(), &mut self.res),
        };
        match r {
            Err(e) => {
                proof {
                    lemma_same_slots(before, self.res);
                }
                Err(e)
            },
            Ok(id) => {
                let ghost gained = self.res;
                self.res.set_name(path.as_str(), id);
                proof {
                    lemma_gained_screen(before, gained, id);
                    lemma_same_slots(gained, self.res);
                }
                Ok(id)
            },
        }
    }

    /// What a map's name stands for: an error, a live buffer, or a file
    /// that is to be parsed and given to [`DrawState::load_map`].
    pub fn find_map(&self, name: &str) -> (r: Result<MapFound, GfxError>)
        ensures
            ({
                let path = map_path_of(name@);
                if !is_asset_name(name@) {
                    r is Err && r->Err_0.says_invalid(path, "bad asset name"@)
                } else if self.known(path) is Some {
                    r == Ok::<MapFound, GfxError>(MapFound::Live(self.known(path)->0))
                } else {
                    match file_from(self.cart@, path, 0) {
                        None => r is Err && r->Err_0.says_not_found(path),
                        Some(bytes) => r matches Ok(MapFound::File(p, b)) && p@ == path && b@
                            == bytes,
                    }
                }
            }),
    {
        let path = assets::map_path(name);
        if !valid_asset_name(name) {
            return Err(GfxError::asset_invalid(path.as_str(), "bad asset name"));
        }
        if let Some(id) = self.res.named(path.as_str()) {
            return Ok(MapFound::Live(id));
        }
        match self.cart.get(path.as_str()) {
            None => Err(GfxError::AssetNotFound { path }),
            Some(bytes) => {
                let copy = vstd::slice::slice_to_vec(bytes.as_slice());
                Ok(MapFound::File(path, copy))
            },
        }
    }

    /// Put a map that was found as a file into the slab under its path, or
    /// say what its parser said.
    pub fn load_map(&mut self, path: &str, parsed: Result<MapFile, String>) -> (r: Result<
        BufId,
        GfxError,
    >)
        requires
            old(self).wf(),
            old(self).in_hand() || old(self).settled(),
        ensures
            final(self).wf(),
            map_loaded(*old(self), *final(self), path@, parsed, r),
    {
        proof {
            if self.in_hand() {
                law_live_is_settled(*self);
            }
        }
        let file = match parsed {
            Ok(f) => f,
            Err(e) => {
                let mut m = "map JSON: ".to_owned();
                m.append(e.as_str());
                return Err(GfxError::asset_invalid(path, m.as_str()));
            },
        };
        let ghost before = self.res;
        match assets::decode_map(path, &file, &mut self.res) {
            Err(e) => {
                proof {
                    lemma_same_slots(before, self.res);
                }
                Err(e)
            },
            Ok(id) => {
                let ghost gained = self.res;
                self.res.set_name(path, id);
                proof {
                    lemma_gained_screen(before, gained, id);
                    lemma_same_slots(gained, self.res);
                }
                Ok(id)
            },
        }
    }
}

/// Two live buffers are sound.
proof fn lemma_pair_sound(r: Resources, a: BufId, b: BufId)
    requires
        r.wf(),
        r.live(a) is Some,
        r.live(b) is Some,
    ensures
        sound(r.live(a)->0),
        sound(r.live(b)->0),
{
    assert(r.slots@[a.slot_of()].buf is Some);
    assert(r.slots@[b.slot_of()].buf is Some);
}

/// Slabs with the same slots stand for the same buffers.
proof fn lemma_same_slots(r: Resources, s: Resources)
    requires
        s.slots == r.slots,
    ensures
        forall|id: BufId| #[trigger] s.live(id) == r.live(id),
        s.screen_of() == r.screen_of(),
{
}

/// A slab that gained a buffer has the same screen.
proof fn lemma_gained_screen(r: Resources, s: Resources, id: BufId)
    requires
        r.wf(),
        s.wf(),
        s.live(id) is Some,
        gained(r, s, id, s.live(id)->0),
    ensures
        s.screen_of() == r.screen_of(),
        forall|o: BufId| o != id ==> #[trigger] s.live(o) == r.live(o),
{
    assert(r.live(BufId::screen_id()) == Some(r.screen_of()));
    assert(s.live(BufId::screen_id()) == Some(s.screen_of()));
}

/// A layer's cells lie in the map's buffer.
proof fn lemma_layer_fits(b: Buf, layer: int)
    requires
        sound(b),
        b.map is Some,
        0 <= layer < b.map->0.layers,
    ensures
        b.data is I16,
        b.map->0.rows <= i32::MAX,
        b.width * b.map->0.rows <= usize::MAX,
        0 <= layer * (b.width * b.map->0.rows) <= (layer + 1) * (b.width * b.map->0.rows)
            <= b.data->I16_0@.len(),
        (layer + 1) * (b.width * b.map->0.rows) == layer * (b.width * b.map->0.rows) + b.width
            * b.map->0.rows,
{
    let m = b.map->0;
    let per = b.width * m.rows;
    assert(m.rows <= b.height) by (nonlinear_arith)
        requires
            b.height == m.rows * m.layers,
            1 <= m.layers,
            0 <= m.rows,
    ;
    assert(b.width * b.height == per * m.layers) by (nonlinear_arith)
        requires
            b.height == m.rows * m.layers,
            per == b.width * m.rows,
    ;
    assert(0 <= per) by (nonlinear_arith)
        requires
            per == b.width * m.rows,
            0 <= b.width,
            0 <= m.rows,
    ;
    assert((layer + 1) * per == layer * per + per) by (nonlinear_arith);
    assert(0 <= layer * per && per <= (layer + 1) * per && (layer + 1) * per <= per * m.layers)
        by (nonlinear_arith)
        requires
            0 <= layer,
            layer + 1 <= m.layers,
            0 <= per,
    ;
}

} // verus!
