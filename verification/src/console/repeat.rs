//! Running the same cart twice. Whatever a guest does with a frame, if it
//! does the same to states that it cannot tell apart, and its host gives
//! the same answers to the same questions, the console gives the same
//! frames for the same inputs.

use std::rc::Rc;
use vstd::prelude::*;
use crate::assets::{map_cells, MapFile};
use crate::buf::{Buf, BufData};
use crate::console::loading::{
    asked, map_step, maps_loaded, prepared, sheets_loaded, started,
};
use crate::console::{Cart, Console, FrameOutput, Guest, History, Host, Preload};
use crate::draw::sheets::sheet_loaded;
use crate::draw::DrawState;
use crate::fault::{Fault, FaultView};
use crate::input::FrameInput;
use crate::ipc::channels;
use crate::manifest::{manifest_of, ManifestFile, ManifestView, ParseError};
use crate::meter::FrameProfile;
use crate::net::{event_views, text_in, Event};
use crate::pen::Pen;
use crate::resources::{code_of, detail_of, placed, BufId, GfxError, Resources, Slot};
use crate::save::SaveStore;
use crate::snapshot::Snapshot;
use crate::text::texts;

verus! {

// ----- what holds the same ------------------------------------------------------------

pub open spec fn bufs_alike(a: Buf, b: Buf) -> bool {
    &&& a.same_shape(b)
    &&& match (a.data, b.data) {
        (BufData::U8(x), BufData::U8(y)) => x@ == y@,
        (BufData::I16(x), BufData::I16(y)) => x@ == y@,
        (BufData::I32(x), BufData::I32(y)) => x@ == y@,
        (BufData::F32(x), BufData::F32(y)) => x@ == y@,
        _ => false,
    }
}

pub open spec fn slots_alike(a: Slot, b: Slot) -> bool {
    &&& a.generation == b.generation
    &&& a.charged == b.charged
    &&& match (a.buf, b.buf) {
        (Some(x), Some(y)) => bufs_alike(x, y),
        (None, None) => true,
        _ => false,
    }
}

/// Slabs whose handles stand for the same buffers, now and for buffers to
/// come.
pub open spec fn slabs_alike(a: Resources, b: Resources) -> bool {
    &&& a.slots@.len() == b.slots@.len()
    &&& forall|i: int|
        0 <= i < a.slots@.len() ==> slots_alike(#[trigger] a.slots@[i], b.slots@[i])
    &&& a.free@ == b.free@
    &&& a.ledger == b.ledger
    &&& a.names@ == b.names@
}

pub open spec fn pens_alike(a: Pen, b: Pen) -> bool {
    a == (Pen { table: a.table, ..b }) && a.table@ == b.table@
}

pub open spec fn profiles_alike(a: FrameProfile, b: FrameProfile) -> bool {
    a.cycles@ == b.cycles@ && a.budget == b.budget && a.lua_mem == b.lua_mem
}

pub open spec fn stores_alike(a: SaveStore, b: SaveStore) -> bool {
    &&& a is Memory <==> b is Memory
    &&& a is Through <==> b is Through
    &&& a.slots() == b.slots()
    &&& a.kept() == b.kept()
    &&& a.noted() == b.noted()
    &&& forall|slot: u8| #[trigger] a.on_disk(slot) == b.on_disk(slot)
}

/// Draw states that hold the same.
pub open spec fn alike(a: DrawState, b: DrawState) -> bool {
    &&& a.width == b.width
    &&& a.height == b.height
    &&& a.cart@ == b.cart@
    &&& slabs_alike(a.res, b.res)
    &&& pens_alike(a.pen, b.pen)
    &&& channels(a.palette@) == channels(b.palette@)
    &&& texts(a.log@) == texts(b.log@)
    &&& profiles_alike(a.profile, b.profile)
    &&& a.audio@ == b.audio@
    &&& stores_alike(a.saves, b.saves)
    &&& match (a.net, b.net) {
        (Some(x), Some(y)) => x@ == y@,
        (None, None) => true,
        _ => false,
    }
    &&& a.sys == b.sys
}

/// What a guest's step came to, as plain values.
pub open spec fn outcome(r: Result<(), Fault>) -> Option<FaultView> {
    match r {
        Ok(_) => None,
        Err(f) => Some(f@),
    }
}

/// Whether a guest does the same to states that hold the same.
pub open spec fn repeats<G: Guest>() -> bool {
    forall|
        g: G,
        s1: DrawState,
        s2: DrawState,
        input: FrameInput,
        frame: u64,
        a1: G,
        a2: G,
        l1: DrawState,
        l2: DrawState,
        r1: Result<(), Fault>,
        r2: Result<(), Fault>,
    |
        #[trigger] G::may_step(g, s1, input, frame, a1, l1, r1) && #[trigger] G::may_step(
            g,
            s2,
            input,
            frame,
            a2,
            l2,
            r2,
        ) && alike(s1, s2) ==> a1 == a2 && alike(l1, l2) && outcome(r1) == outcome(r2)
}

/// Parses of a map that come to the same.
pub open spec fn maps_alike(a: Result<MapFile, String>, b: Result<MapFile, String>) -> bool {
    match (a, b) {
        (Ok(x), Ok(y)) => map_cells(x) == map_cells(y) && x.width == y.width && x.height
            == y.height && x.layers@.len() == y.layers@.len() && x.tile_size == y.tile_size,
        (Err(x), Err(y)) => x@ == y@,
        _ => false,
    }
}

/// Builds that come to the same.
pub open spec fn builds_alike<G>(a: Result<G, Fault>, b: Result<G, Fault>) -> bool {
    match (a, b) {
        (Ok(x), Ok(y)) => x == y,
        (Err(x), Err(y)) => x@ == y@,
        _ => false,
    }
}

/// Whether a host gives the same answer to the same question: what a
/// manifest and a map hold, and the guest of a text.
pub open spec fn answers_repeat<G, H: Host<G>>() -> bool {
    &&& forall|
        text: Seq<char>,
        a: Result<ManifestFile, ParseError>,
        b: Result<ManifestFile, ParseError>,
    |
        #[trigger] H::may_parse(text, a) && #[trigger] H::may_parse(text, b) ==> manifest_of(
            text,
            a,
        ) == manifest_of(text, b)
    &&& forall|bytes: Seq<u8>, a: Result<MapFile, String>, b: Result<MapFile, String>|
        #[trigger] H::may_parse_map(bytes, a) && #[trigger] H::may_parse_map(bytes, b)
            ==> maps_alike(a, b)
    &&& forall|text: Seq<char>, chunk: Seq<char>, a: Result<G, Fault>, b: Result<G, Fault>|
        #[trigger] H::may_build(text, chunk, a) && #[trigger] H::may_build(text, chunk, b)
            ==> builds_alike(a, b)
}

/// Carts that hold the same.
pub open spec fn carts_alike<G>(a: Cart<G>, b: Cart<G>) -> bool {
    &&& a.guest == b.guest
    &&& alike(a.state, b.state)
    &&& a.frame == b.frame
    &&& a.status@ == b.status@
    &&& a.manifest@ == b.manifest@
    &&& a.source == b.source
    &&& event_views(a.net_pending@) == event_views(b.net_pending@)
    &&& a.net_teardown == b.net_teardown
}

/// Consoles without a shell that hold the same.
pub open spec fn consoles_alike<G>(a: Console<G>, b: Console<G>) -> bool {
    &&& a.shell is None
    &&& b.shell is None
    &&& carts_alike(a.cart, b.cart)
    &&& a.net_env.permitted == b.net_env.permitted
    &&& text_in(a.net_env.invite) == text_in(b.net_env.invite)
}

/// Consoles, each a step of the one before it, and what the host was asked
/// to build until then.
pub open spec fn ran_through<G: Guest, H: Host<G>>(
    path: Seq<(Console<G>, History)>,
    inputs: Seq<FrameInput>,
    events: Seq<Seq<Event>>,
) -> bool {
    &&& path.len() == inputs.len() + 1
    &&& events.len() == inputs.len()
    &&& forall|i: int| 0 <= i < path.len() ==> (#[trigger] path[i]).0.wf()
    &&& forall|i: int|
        0 <= i < inputs.len() ==> (#[trigger] path[i + 1]).0.steps_from::<H>(
            path[i].0,
            inputs[i],
            events[i],
            path[i].1,
            path[i + 1].1,
        )
}

/// Outputs of the same bytes.
pub open spec fn same_output(a: FrameOutput, b: FrameOutput) -> bool {
    &&& a.screen@ == b.screen@
    &&& a.width == b.width
    &&& a.height == b.height
    &&& channels(a.palette@) == channels(b.palette@)
    &&& a.frame == b.frame
    &&& texts(a.log@) == texts(b.log@)
    &&& profiles_alike(*a.profile, *b.profile)
    &&& a.audio@ == b.audio@
}

// ----- loading ------------------------------------------------------------------------

/// Errors that say the same.
spec fn errors_alike(a: GfxError, b: GfxError) -> bool {
    code_of(a) == code_of(b) && detail_of(a) == detail_of(b)
}

spec fn results_alike(a: Result<BufId, GfxError>, b: Result<BufId, GfxError>) -> bool {
    match (a, b) {
        (Ok(x), Ok(y)) => x == y,
        (Err(x), Err(y)) => errors_alike(x, y),
        _ => false,
    }
}

spec fn faults_alike(a: Option<Fault>, b: Option<Fault>) -> bool {
    match (a, b) {
        (Some(x), Some(y)) => x@ == y@,
        (None, None) => true,
        _ => false,
    }
}

/// States at the start of the same manifest hold the same.
proof fn lemma_started_alike(
    a: DrawState,
    b: DrawState,
    manifest: ManifestView,
    source: Rc<Snapshot>,
    permitted: bool,
    invite: Option<Seq<char>>,
)
    requires
        started(a, manifest, source, permitted, invite),
        started(b, manifest, source, permitted, invite),
    ensures
        alike(a, b),
        a.res.free@.len() == 0,
        b.res.free@.len() == 0,
{
    lemma_fresh_alike(DrawState { net: None, ..a }, DrawState { net: None, ..b }, source@);
}

proof fn lemma_fresh_alike(a: DrawState, b: DrawState, cart: Seq<crate::snapshot::Entry>)
    requires
        crate::draw::fresh(a, a.width, a.height, cart),
        crate::draw::fresh(b, a.width, a.height, cart),
    ensures
        alike(a, b),
{
    assert(channels(a.palette@) =~= channels(b.palette@)) by {
        assert forall|i: int| 0 <= i < a.palette@.len() implies channels(a.palette@)[i]
            == channels(b.palette@)[i] by {
            assert(a.palette@[i]@ == crate::palette::default_colour(i));
            assert(b.palette@[i]@ == crate::palette::default_colour(i));
        }
    }
    assert(texts(a.log@) =~= texts(b.log@));
    assert(a.res.free@ =~= b.res.free@);
    assert(a.saves.kept() =~= b.saves.kept());
}

/// A buffer put into each of two slabs leaves slabs that hold the same.
proof fn lemma_placed_alike(
    r1: Resources,
    r2: Resources,
    s1: Resources,
    s2: Resources,
    b1: Buf,
    b2: Buf,
)
    requires
        slabs_alike(r1, r2),
        r1.free@.len() == 0,
        placed(r1, s1, b1),
        placed(r2, s2, b2),
        bufs_alike(b1, b2),
        s1.ledger == s2.ledger,
        s1.names@ == s2.names@,
    ensures
        slabs_alike(s1, s2),
        s1.free@.len() == 0,
{
    assert forall|i: int| 0 <= i < s1.slots@.len() implies slots_alike(
        #[trigger] s1.slots@[i],
        s2.slots@[i],
    ) by {
        if i < r1.slots@.len() {
            assert(slots_alike(r1.slots@[i], r2.slots@[i]));
        }
    }
}

proof fn lemma_known_alike(a: DrawState, b: DrawState, path: Seq<char>)
    requires
        alike(a, b),
    ensures
        a.known(path) == b.known(path),
{
    if a.res.names@.contains_key(path) {
        let id = BufId { raw: a.res.names@[path] };
        let i = id.slot_of();
        if i < a.res.slots@.len() {
            assert(slots_alike(a.res.slots@[i], b.res.slots@[i]));
        }
    }
}

proof fn lemma_sheet_alike(
    w1: DrawState,
    w2: DrawState,
    n1: DrawState,
    n2: DrawState,
    name: Seq<char>,
    r1: Result<BufId, GfxError>,
    r2: Result<BufId, GfxError>,
)
    requires
        alike(w1, w2),
        w1.res.free@.len() == 0,
        sheet_loaded(w1, n1, name, r1),
        sheet_loaded(w2, n2, name, r2),
    ensures
        alike(n1, n2),
        n1.res.free@.len() == 0,
        results_alike(r1, r2),
{
    lemma_known_alike(w1, w2, crate::assets::sheet_path_of(name));
    if r1 is Ok && r2 is Ok && n1.res.slots@.len() > w1.res.slots@.len() {
        let b1 = n1.res.live(r1->Ok_0)->0;
        let b2 = n2.res.live(r2->Ok_0)->0;
        lemma_placed_alike(w1.res, w2.res, n1.res, n2.res, b1, b2);
    }
}

proof fn lemma_sheets_alike(
    w1: DrawState,
    w2: DrawState,
    n1: DrawState,
    n2: DrawState,
    names: Seq<Seq<char>>,
    i: int,
    f1: Option<Fault>,
    f2: Option<Fault>,
)
    requires
        alike(w1, w2),
        w1.res.free@.len() == 0,
        sheets_loaded(w1, n1, names, i, f1),
        sheets_loaded(w2, n2, names, i, f2),
    ensures
        alike(n1, n2),
        n1.res.free@.len() == 0,
        faults_alike(f1, f2),
    decreases names.len() - i,
{
    if i < names.len() {
        let (m1, b1) = choose|mid: DrawState, b: Result<BufId, GfxError>| #[trigger]
            sheet_loaded(w1, mid, names[i], b) && match b {
                Err(e) => n1 == mid && f1 is Some && crate::console::loading::asset_fault(
                    f1->0,
                    e,
                    crate::assets::sheet_path_of(names[i]),
                ),
                Ok(_) => sheets_loaded(mid, n1, names, i + 1, f1),
            };
        let (m2, b2) = choose|mid: DrawState, b: Result<BufId, GfxError>| #[trigger]
            sheet_loaded(w2, mid, names[i], b) && match b {
                Err(e) => n2 == mid && f2 is Some && crate::console::loading::asset_fault(
                    f2->0,
                    e,
                    crate::assets::sheet_path_of(names[i]),
                ),
                Ok(_) => sheets_loaded(mid, n2, names, i + 1, f2),
            };
        lemma_sheet_alike(w1, w2, m1, m2, names[i], b1, b2);
        if b1 is Ok {
            lemma_sheets_alike(m1, m2, n1, n2, names, i + 1, f1, f2);
        }
    }
}

proof fn lemma_map_alike<G, H: Host<G>>(
    w1: DrawState,
    w2: DrawState,
    n1: DrawState,
    n2: DrawState,
    name: Seq<char>,
    p1: Result<MapFile, String>,
    p2: Result<MapFile, String>,
    r1: Result<BufId, GfxError>,
    r2: Result<BufId, GfxError>,
)
    requires
        answers_repeat::<G, H>(),
        alike(w1, w2),
        w1.res.free@.len() == 0,
        map_step(w1, n1, name, p1, r1),
        map_step(w2, n2, name, p2, r2),
        asked::<G, H>(w1, name, p1),
        asked::<G, H>(w2, name, p2),
    ensures
        alike(n1, n2),
        n1.res.free@.len() == 0,
        results_alike(r1, r2),
{
    let path = crate::assets::map_path_of(name);
    lemma_known_alike(w1, w2, path);
    if crate::manifest::is_asset_name(name) && w1.known(path) is None {
        if let Some(bytes) = crate::snapshot::file_from(w1.cart@, path, 0) {
            assert(H::may_parse_map(bytes, p1) && H::may_parse_map(bytes, p2));
            assert(maps_alike(p1, p2));
            if r1 is Ok && r2 is Ok {
                let b1 = n1.res.live(r1->Ok_0)->0;
                let b2 = n2.res.live(r2->Ok_0)->0;
                lemma_placed_alike(w1.res, w2.res, n1.res, n2.res, b1, b2);
            }
        }
    }
}

proof fn lemma_maps_alike<G, H: Host<G>>(
    w1: DrawState,
    w2: DrawState,
    n1: DrawState,
    n2: DrawState,
    names: Seq<Seq<char>>,
    i: int,
    f1: Option<Fault>,
    f2: Option<Fault>,
)
    requires
        answers_repeat::<G, H>(),
        alike(w1, w2),
        w1.res.free@.len() == 0,
        maps_loaded::<G, H>(w1, n1, names, i, f1),
        maps_loaded::<G, H>(w2, n2, names, i, f2),
    ensures
        alike(n1, n2),
        n1.res.free@.len() == 0,
        faults_alike(f1, f2),
    decreases names.len() - i,
{
    if i < names.len() {
        let (m1, p1, b1) = choose|
            mid: DrawState,
            parsed: Result<MapFile, String>,
            b: Result<BufId, GfxError>,
        | #[trigger]
            map_step(w1, mid, names[i], parsed, b) && asked::<G, H>(w1, names[i], parsed)
                && match b {
                Err(e) => n1 == mid && f1 is Some && crate::console::loading::asset_fault(
                    f1->0,
                    e,
                    crate::assets::map_path_of(names[i]),
                ),
                Ok(_) => maps_loaded::<G, H>(mid, n1, names, i + 1, f1),
            };
        let (m2, p2, b2) = choose|
            mid: DrawState,
            parsed: Result<MapFile, String>,
            b: Result<BufId, GfxError>,
        | #[trigger]
            map_step(w2, mid, names[i], parsed, b) && asked::<G, H>(w2, names[i], parsed)
                && match b {
                Err(e) => n2 == mid && f2 is Some && crate::console::loading::asset_fault(
                    f2->0,
                    e,
                    crate::assets::map_path_of(names[i]),
                ),
                Ok(_) => maps_loaded::<G, H>(mid, n2, names, i + 1, f2),
            };
        lemma_map_alike::<G, H>(w1, w2, m1, m2, names[i], p1, p2, b1, b2);
        if b1 is Ok {
            lemma_maps_alike::<G, H>(m1, m2, n1, n2, names, i + 1, f1, f2);
        }
    }
}

proof fn lemma_prepared_alike<G, H: Host<G>>(
    w1: DrawState,
    w2: DrawState,
    n1: DrawState,
    n2: DrawState,
    manifest: ManifestView,
    preload: Preload,
    f1: Option<Fault>,
    f2: Option<Fault>,
)
    requires
        answers_repeat::<G, H>(),
        alike(w1, w2),
        w1.res.free@.len() == 0,
        prepared::<G, H>(w1, n1, manifest, preload, f1),
        prepared::<G, H>(w2, n2, manifest, preload, f2),
    ensures
        alike(n1, n2),
        faults_alike(f1, f2),
{
    if preload is Decode {
        let (m1, g1) = choose|mid: DrawState, g: Option<Fault>| #[trigger]
            sheets_loaded(w1, mid, manifest.preload_sheets, 0, g) && if g is Some {
                n1 == mid && f1 == g
            } else {
                maps_loaded::<G, H>(mid, n1, manifest.preload_maps, 0, f1)
            };
        let (m2, g2) = choose|mid: DrawState, g: Option<Fault>| #[trigger]
            sheets_loaded(w2, mid, manifest.preload_sheets, 0, g) && if g is Some {
                n2 == mid && f2 == g
            } else {
                maps_loaded::<G, H>(mid, n2, manifest.preload_maps, 0, f2)
            };
        lemma_sheets_alike(w1, w2, m1, m2, manifest.preload_sheets, 0, g1, g2);
        if g1 is None {
            lemma_maps_alike::<G, H>(m1, m2, n1, n2, manifest.preload_maps, 0, f1, f2);
        }
    }
}

proof fn lemma_died_alike<G>(
    a: Cart<G>,
    b: Cart<G>,
    fault: FaultView,
    manifest: ManifestView,
    source: Option<Rc<Snapshot>>,
)
    requires
        a.died(fault, manifest, source),
        b.died(fault, manifest, source),
    ensures
        carts_alike(a, b),
{
    lemma_fresh_alike(a.state, b.state, Seq::empty());
    assert(event_views(a.net_pending@) =~= event_views(b.net_pending@));
}

proof fn lemma_made_alike<G, H: Host<G>>(
    a: Cart<G>,
    b: Cart<G>,
    manifest: ManifestView,
    source: Rc<Snapshot>,
    preload: Preload,
    permitted: bool,
    invite: Option<Seq<char>>,
    was1: History,
    now1: History,
    was2: History,
    now2: History,
)
    requires
        answers_repeat::<G, H>(),
        a.made::<H>(manifest, source, preload, permitted, invite, was1, now1),
        b.made::<H>(manifest, source, preload, permitted, invite, was2, now2),
    ensures
        carts_alike(a, b),
{
    let (w1, n1, f1) = choose|first: DrawState, d: DrawState, f: Option<Fault>|
        {
            &&& started(first, manifest, source, permitted, invite)
            &&& #[trigger] prepared::<G, H>(first, d, manifest, preload, f)
            &&& match f {
                Some(x) => now1 == was1 && a.died(x@, manifest, Some(source)),
                None => a.built::<H>(d, manifest, source, was1, now1),
            }
        };
    let (w2, n2, f2) = choose|first: DrawState, d: DrawState, f: Option<Fault>|
        {
            &&& started(first, manifest, source, permitted, invite)
            &&& #[trigger] prepared::<G, H>(first, d, manifest, preload, f)
            &&& match f {
                Some(x) => now2 == was2 && b.died(x@, manifest, Some(source)),
                None => b.built::<H>(d, manifest, source, was2, now2),
            }
        };
    lemma_started_alike(w1, w2, manifest, source, permitted, invite);
    lemma_prepared_alike::<G, H>(w1, w2, n1, n2, manifest, preload, f1, f2);
    if f1 is Some {
        lemma_died_alike(a, b, f1->0@, manifest, Some(source));
    } else {
        match crate::console::loading::main_text_of(source@) {
            Err(v) => lemma_died_alike(a, b, v, manifest, Some(source)),
            Ok(text) => {
                let r1 = choose|r: Result<G, Fault>| #[trigger]
                    H::may_build(text, "main.lua"@, r) && a.joined(r, n1, manifest, source);
                let r2 = choose|r: Result<G, Fault>| #[trigger]
                    H::may_build(text, "main.lua"@, r) && b.joined(r, n2, manifest, source);
                assert(builds_alike(r1, r2));
                if r1 is Err {
                    lemma_died_alike(a, b, r1->Err_0@, manifest, Some(source));
                } else {
                    assert(event_views(a.net_pending@) =~= event_views(b.net_pending@));
                }
            },
        }
    }
}

/// Two carts of one source hold the same, if the host's answers do: its
/// parses of the manifest and the maps, and the guest that it built.
pub proof fn law_a_load_repeats<G, H: Host<G>>(
    a: Cart<G>,
    b: Cart<G>,
    source: Rc<Snapshot>,
    preload: Preload,
    permitted: bool,
    invite: Option<Seq<char>>,
    was1: History,
    now1: History,
    was2: History,
    now2: History,
)
    requires
        answers_repeat::<G, H>(),
        a.loaded::<H>(source, preload, permitted, invite, was1, now1),
        b.loaded::<H>(source, preload, permitted, invite, was2, now2),
    ensures
        carts_alike(a, b),
{
    match crate::console::loading::manifest_text_of(source@) {
        Err(v) => lemma_died_alike(
            a,
            b,
            v,
            crate::manifest::no_manifest(),
            Some(source),
        ),
        Ok(None) => lemma_made_alike::<G, H>(
            a,
            b,
            crate::manifest::no_manifest(),
            source,
            preload,
            permitted,
            invite,
            was1,
            now1,
            was2,
            now2,
        ),
        Ok(Some(text)) => lemma_parsed_alike::<G, H>(
            a,
            b,
            text,
            source,
            preload,
            permitted,
            invite,
            was1,
            now1,
            was2,
            now2,
        ),
    }
}

proof fn lemma_parsed_alike<G, H: Host<G>>(
    a: Cart<G>,
    b: Cart<G>,
    text: Seq<char>,
    source: Rc<Snapshot>,
    preload: Preload,
    permitted: bool,
    invite: Option<Seq<char>>,
    was1: History,
    now1: History,
    was2: History,
    now2: History,
)
    requires
        answers_repeat::<G, H>(),
        crate::console::loading::manifest_text_of(source@) == Ok::<Option<Seq<char>>, FaultView>(
            Some(text),
        ),
        a.loaded::<H>(source, preload, permitted, invite, was1, now1),
        b.loaded::<H>(source, preload, permitted, invite, was2, now2),
    ensures
        carts_alike(a, b),
{
    let none = crate::manifest::no_manifest();
    let p1 = choose|parsed: Result<ManifestFile, ParseError>| #[trigger]
        H::may_parse(text, parsed) && match manifest_of(text, parsed) {
            Err((message, line)) => now1 == was1 && a.status@ is Some
                && crate::console::loading::manifest_fault(a.status@->0, message, line) && a.died(
                a.status@->0,
                none,
                Some(source),
            ),
            Ok(m) => a.made::<H>(m, source, preload, permitted, invite, was1, now1),
        };
    let p2 = choose|parsed: Result<ManifestFile, ParseError>| #[trigger]
        H::may_parse(text, parsed) && match manifest_of(text, parsed) {
            Err((message, line)) => now2 == was2 && b.status@ is Some
                && crate::console::loading::manifest_fault(b.status@->0, message, line) && b.died(
                b.status@->0,
                none,
                Some(source),
            ),
            Ok(m) => b.made::<H>(m, source, preload, permitted, invite, was2, now2),
        };
    assert(H::may_parse(text, p1) && H::may_parse(text, p2));
    match manifest_of(text, p1) {
        Err((message, line)) => {
            assert(a.status@->0 == b.status@->0);
            lemma_died_alike(a, b, a.status@->0, none, Some(source));
        },
        Ok(m) => lemma_made_alike::<G, H>(
            a,
            b,
            m,
            source,
            preload,
            permitted,
            invite,
            was1,
            now1,
            was2,
            now2,
        ),
    }
}

// ----- running ------------------------------------------------------------------------

proof fn lemma_passed_alike<G: Guest>(
    o1: Cart<G>,
    o2: Cart<G>,
    input: FrameInput,
    f1: Cart<G>,
    f2: Cart<G>,
    b1: Cart<G>,
    b2: Cart<G>,
    a1: Cart<G>,
    a2: Cart<G>,
    r1: Result<(), Fault>,
    r2: Result<(), Fault>,
    e1: Cart<G>,
    e2: Cart<G>,
)
    requires
        repeats::<G>(),
        carts_alike(o1, o2),
        f1.passed(o1, input, b1, a1, r1, e1),
        f2.passed(o2, input, b2, a2, r2, e2),
    ensures
        carts_alike(f1, f2),
{
    let n = crate::console::stepping::batch_len(o1.net_pending@.len() as int);
    let v1 = event_views(o1.net_pending@);
    let v2 = event_views(o2.net_pending@);
    assert(v1.len() == o1.net_pending@.len() && v2.len() == o2.net_pending@.len());
    assert(event_views(o1.net_pending@.take(n)) =~= v1.take(n));
    assert(event_views(o2.net_pending@.take(n)) =~= v2.take(n));
    assert(event_views(o1.net_pending@.skip(n)) =~= v1.skip(n));
    assert(event_views(o2.net_pending@.skip(n)) =~= v2.skip(n));
    assert(carts_alike(b1, b2));
    assert(G::may_step(b1.guest->0, b1.state, input, b1.frame, a1.guest->0, a1.state, r1));
    assert(G::may_step(b2.guest->0, b2.state, input, b2.frame, a2.guest->0, a2.state, r2));
    assert(a1.guest->0 == a2.guest->0 && alike(a1.state, a2.state));
    assert(carts_alike(a1, a2));
    assert(carts_alike(e1, e2));
}

/// From carts that hold the same, the same input leads to carts that hold
/// the same.
pub proof fn law_a_frame_repeats<G: Guest>(
    o1: Cart<G>,
    o2: Cart<G>,
    input: FrameInput,
    f1: Cart<G>,
    f2: Cart<G>,
)
    requires
        repeats::<G>(),
        carts_alike(o1, o2),
        f1.ran(o1, input),
        f2.ran(o2, input),
    ensures
        carts_alike(f1, f2),
{
    if o1.runs() {
        let (b1, a1, r1, e1) = choose|b: Cart<G>, a: Cart<G>, r: Result<(), Fault>, e: Cart<G>|
            #[trigger] f1.passed(o1, input, b, a, r, e);
        let (b2, a2, r2, e2) = choose|b: Cart<G>, a: Cart<G>, r: Result<(), Fault>, e: Cart<G>|
            #[trigger] f2.passed(o2, input, b, a, r, e);
        lemma_passed_alike(o1, o2, input, f1, f2, b1, b2, a1, a2, r1, r2, e1, e2);
    }
}

/// From consoles that hold the same, the same input and the same events
/// lead to consoles that hold the same.
pub proof fn law_a_step_repeats<G: Guest, H: Host<G>>(
    o1: Console<G>,
    o2: Console<G>,
    input: FrameInput,
    events1: Seq<Event>,
    events2: Seq<Event>,
    f1: Console<G>,
    f2: Console<G>,
    was1: History,
    now1: History,
    was2: History,
    now2: History,
)
    requires
        repeats::<G>(),
        consoles_alike(o1, o2),
        event_views(events1) == event_views(events2),
        f1.steps_from::<H>(o1, input, events1, was1, now1),
        f2.steps_from::<H>(o2, input, events2, was2, now2),
    ensures
        consoles_alike(f1, f2),
{
    let m1 = choose|m: Console<G>| #[trigger]
        m.readied(o1, events1) && f1.goes_on::<H>(m, input, was1, now1);
    let m2 = choose|m: Console<G>| #[trigger]
        m.readied(o2, events2) && f2.goes_on::<H>(m, input, was2, now2);
    assert(texts(m1.cart.state.log@) =~= texts(m2.cart.state.log@));
    let p1 = o1.cart.net_pending@;
    let p2 = o2.cart.net_pending@;
    assert(event_views(p1 + events1) =~= event_views(p1) + event_views(events1));
    assert(event_views(p2 + events2) =~= event_views(p2) + event_views(events2));
    assert(carts_alike(m1.cart, m2.cart));
    let sees = FrameInput { buttons: input.buttons & crate::input::CART_BUTTONS };
    law_a_frame_repeats(m1.cart, m2.cart, sees, f1.cart, f2.cart);
}

/// Runs from consoles that hold the same, with the same inputs and events,
/// stay alike after every step.
pub proof fn law_runs_stay_alike<G: Guest, H: Host<G>>(
    path1: Seq<(Console<G>, History)>,
    path2: Seq<(Console<G>, History)>,
    inputs: Seq<FrameInput>,
    events1: Seq<Seq<Event>>,
    events2: Seq<Seq<Event>>,
    k: int,
)
    requires
        repeats::<G>(),
        ran_through::<G, H>(path1, inputs, events1),
        ran_through::<G, H>(path2, inputs, events2),
        consoles_alike(path1[0].0, path2[0].0),
        forall|i: int|
            0 <= i < inputs.len() ==> event_views(#[trigger] events1[i]) == event_views(events2[i]),
        0 <= k <= inputs.len(),
    ensures
        consoles_alike(path1[k].0, path2[k].0),
    decreases k,
{
    if k > 0 {
        let j = k - 1;
        law_runs_stay_alike::<G, H>(path1, path2, inputs, events1, events2, j);
        assert(path1[j + 1].0.steps_from::<H>(
            path1[j].0,
            inputs[j],
            events1[j],
            path1[j].1,
            path1[j + 1].1,
        ));
        assert(path2[j + 1].0.steps_from::<H>(
            path2[j].0,
            inputs[j],
            events2[j],
            path2[j].1,
            path2[j + 1].1,
        ));
        assert(event_views(events1[j]) == event_views(events2[j]));
        law_a_step_repeats::<G, H>(
            path1[j].0,
            path2[j].0,
            inputs[j],
            events1[j],
            events2[j],
            path1[k].0,
            path2[k].0,
            path1[j].1,
            path1[k].1,
            path2[j].1,
            path2[k].1,
        );
    }
}

/// Consoles that hold the same put out the same.
proof fn lemma_outputs_alike<G>(
    a: Console<G>,
    b: Console<G>,
    x: FrameOutput,
    y: FrameOutput,
)
    requires
        a.wf(),
        b.wf(),
        consoles_alike(a, b),
        a.gives(x),
        b.gives(y),
    ensures
        same_output(x, y),
{
    assert(slots_alike(a.cart.state.res.slots@[0], b.cart.state.res.slots@[0]));
    assert(crate::resources::sound(a.cart.state.res.slots@[0].buf->0));
    assert(crate::resources::sound(b.cart.state.res.slots@[0].buf->0));
}

/// The same cart and the same inputs give the same frames, byte for byte:
/// two consoles that are made of one source, and then stepped with the
/// same inputs and events, put out the same at the start and after every
/// step.
pub proof fn law_a_run_repeats<G: Guest, H: Host<G>>(
    source: Rc<Snapshot>,
    preload: Preload,
    asked1: History,
    asked2: History,
    path1: Seq<(Console<G>, History)>,
    path2: Seq<(Console<G>, History)>,
    inputs: Seq<FrameInput>,
    events1: Seq<Seq<Event>>,
    events2: Seq<Seq<Event>>,
    k: int,
    out1: FrameOutput,
    out2: FrameOutput,
)
    requires
        repeats::<G>(),
        answers_repeat::<G, H>(),
        ran_through::<G, H>(path1, inputs, events1),
        ran_through::<G, H>(path2, inputs, events2),
        path1[0].0.born::<H>(source, preload, asked1, path1[0].1),
        path2[0].0.born::<H>(source, preload, asked2, path2[0].1),
        forall|i: int|
            0 <= i < inputs.len() ==> event_views(#[trigger] events1[i]) == event_views(events2[i]),
        0 <= k <= inputs.len(),
        path1[k].0.gives(out1),
        path2[k].0.gives(out2),
    ensures
        same_output(out1, out2),
{
    law_a_load_repeats::<G, H>(
        path1[0].0.cart,
        path2[0].0.cart,
        source,
        preload,
        false,
        None,
        asked1,
        path1[0].1,
        asked2,
        path2[0].1,
    );
    law_runs_stay_alike::<G, H>(path1, path2, inputs, events1, events2, k);
    assert(path1[k].0.wf() && path2[k].0.wf());
    lemma_outputs_alike(path1[k].0, path2[k].0, out1, out2);
}

} // verus!
