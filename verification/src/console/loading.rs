//! Making a cart of a source: its manifest, its preload set and its
//! guest. Any error yields a cart that is already faulted, so the host
//! reports it like a runtime fault.

use std::collections::VecDeque;
use std::rc::Rc;
use vstd::prelude::*;
use vstd::slice::slice_to_vec;
use vstd::string::*;
use vstd::utf8::*;
use crate::assets::{self, map_path_of, sheet_path_of, MapFile};
use crate::console::{
    size_of, Cart, Console, ConsoleState, History, Host, Hosted, Preload, MAIN_FILE,
};
use crate::draw::sheets::{map_loaded, sheet_loaded, MapFound};
use crate::draw::{fresh, lemma_on_the_screen, DrawState};
use crate::fault::{Fault, FaultView};
use crate::manifest::{
    is_asset_name, manifest_of, no_manifest, Manifest, ManifestError, ManifestFile, ManifestView,
    ParseError, Service, MANIFEST_FILE,
};
use crate::net::{text_in, NetEnv, NetState, NetView};
use crate::resources::{code_of, detail_of, BufId, GfxError};
use crate::shared::share;
use crate::snapshot::{file_from, Entry, Snapshot};
use crate::text::{string_from_utf8, texts};

verus! {

/// A fault of a file.
pub open spec fn file_fault(code: Seq<char>, file: Seq<char>, message: Seq<char>) -> FaultView {
    FaultView { code, message, file, line: None }
}

/// The manifest's text, if the cart has one.
pub open spec fn manifest_text_of(cart: Seq<Entry>) -> Result<Option<Seq<char>>, FaultView> {
    match file_from(cart, "cart.toml"@, 0) {
        None => Ok(None),
        Some(b) => if valid_utf8(b) {
            Ok(Some(decode_utf8(b)))
        } else {
            Err(
                file_fault("manifest_error"@, "cart.toml"@, "cart.toml is not valid UTF-8"@),
            )
        },
    }
}

pub fn manifest_text(source: &Snapshot) -> (r: Result<Option<String>, Fault>)
    ensures
        match (r, manifest_text_of(source@)) {
            (Ok(t), Ok(v)) => text_in(t) == v,
            (Err(f), Err(v)) => f@ == v,
            _ => false,
        },
{
    match source.get("cart.toml") {
        None => Ok(None),
        Some(b) => match string_from_utf8(slice_to_vec(b.as_slice())) {
            Some(t) => {
                proof {
                    encode_utf8_decode_utf8(t@);
                }
                Ok(Some(t))
            },
            None => Err(
                Fault::new(
                    ManifestError::CODE,
                    MANIFEST_FILE,
                    None,
                    "cart.toml is not valid UTF-8",
                ),
            ),
        },
    }
}

/// The fault of a manifest that is refused.
pub open spec fn manifest_fault(f: FaultView, message: Seq<char>, line: Option<int>) -> bool {
    &&& f.code == "manifest_error"@
    &&& f.file == "cart.toml"@
    &&& f.message == message
    &&& match (f.line, line) {
        (Some(a), Some(b)) => a == b,
        (None, None) => true,
        _ => false,
    }
}

/// The manifest of a text and its tables, or the fault that says why there
/// is none.
pub fn manifest_with(text: &str, parsed: Result<ManifestFile, ParseError>) -> (r: Result<
    Manifest,
    Fault,
>)
    ensures
        match (r, manifest_of(text@, parsed)) {
            (Ok(m), Ok(v)) => m@ == v,
            (Err(f), Err((message, line))) => manifest_fault(f@, message, line),
            _ => false,
        },
{
    match Manifest::parse(text, parsed) {
        Ok(m) => Ok(m),
        Err(e) => Err(
            Fault::new(ManifestError::CODE, MANIFEST_FILE, e.line, e.message.as_str()),
        ),
    }
}

/// The source text of the cart's entry file.
pub open spec fn main_text_of(cart: Seq<Entry>) -> Result<Seq<char>, FaultView> {
    match file_from(cart, "main.lua"@, 0) {
        None => Err(file_fault("cart_read_error"@, "main.lua"@, "main.lua: not found"@)),
        Some(b) => if valid_utf8(b) {
            Ok(decode_utf8(b))
        } else {
            Err(file_fault("cart_read_error"@, "main.lua"@, "main.lua is not valid UTF-8"@))
        },
    }
}

pub fn main_text(source: &Snapshot) -> (r: Result<String, Fault>)
    ensures
        match (r, main_text_of(source@)) {
            (Ok(t), Ok(v)) => t@ == v,
            (Err(f), Err(v)) => f@ == v,
            _ => false,
        },
{
    match source.get("main.lua") {
        None => Err(Fault::new(Fault::CART_READ_ERROR, MAIN_FILE, None, "main.lua: not found")),
        Some(b) => match string_from_utf8(slice_to_vec(b.as_slice())) {
            Some(t) => {
                proof {
                    encode_utf8_decode_utf8(t@);
                }
                Ok(t)
            },
            None => Err(
                Fault::new(
                    Fault::CART_READ_ERROR,
                    MAIN_FILE,
                    None,
                    "main.lua is not valid UTF-8",
                ),
            ),
        },
    }
}

/// A draw state of a manifest at its start: an empty screen, silence, and
/// the network state that the manifest asks for.
pub open spec fn started(
    d: DrawState,
    manifest: ManifestView,
    source: Rc<Snapshot>,
    permitted: bool,
    invite: Option<Seq<char>>,
) -> bool {
    let (w, h) = size_of(manifest.screen_mode);
    &&& fresh(DrawState { net: None, ..d }, w, h, source@)
    &&& d.cart == source
    &&& match d.net {
        Some(n) => manifest.services.contains(Service::Net) && n@ == NetView::fresh(
            permitted,
            invite,
        ),
        None => !manifest.services.contains(Service::Net),
    }
}

/// The draw state that a cart of a manifest starts with.
pub fn start_state(manifest: &Manifest, source: Rc<Snapshot>, env: &NetEnv) -> (d: DrawState)
    ensures
        d.wf(),
        d.on_the_screen(),
        (d.width, d.height) == size_of(manifest.screen_mode),
        started(d, manifest@, source, env.permitted, text_in(env.invite)),
{
    let (w, h) = manifest.screen_mode.size();
    let mut state = DrawState::new(w, h, source);
    if manifest.has_service(Service::Net) {
        state.net = Some(NetState::new(env));
    }
    proof {
        lemma_on_the_screen(state);
    }
    state
}

/// The fault of an asset that could not be loaded.
pub open spec fn asset_fault(f: Fault, e: GfxError, path: Seq<char>) -> bool {
    f@ == file_fault(code_of(e), path, code_of(e) + ": "@ + detail_of(e))
}

fn fault_of(e: &GfxError, path: &str) -> (f: Fault)
    ensures
        asset_fault(f, *e, path@),
{
    let m = e.text();
    Fault::new(e.code(), path, None, m.as_str())
}

/// The fault of a result.
pub open spec fn fault_in(r: Result<(), Fault>) -> Option<Fault> {
    match r {
        Ok(_) => None,
        Err(f) => Some(f),
    }
}

/// Loading the sheets of a list from `i` on, up to the first that fails.
pub open spec fn sheets_loaded(
    was: DrawState,
    now: DrawState,
    names: Seq<Seq<char>>,
    i: int,
    f: Option<Fault>,
) -> bool
    decreases names.len() - i,
{
    if i >= names.len() {
        f is None && now == was
    } else {
        exists|mid: DrawState, b: Result<BufId, GfxError>| #[trigger]
            sheet_loaded(was, mid, names[i], b) && match b {
                Err(e) => now == mid && f is Some && asset_fault(
                    f->0,
                    e,
                    sheet_path_of(names[i]),
                ),
                Ok(_) => sheets_loaded(mid, now, names, i + 1, f),
            }
    }
}

/// Decode the sheets of a preload list.
pub fn preload_sheets(state: &mut DrawState, names: &Vec<String>) -> (r: Result<(), Fault>)
    requires
        old(state).wf(),
        old(state).on_the_screen(),
    ensures
        final(state).wf(),
        final(state).on_the_screen(),
        final(state).same_but_drawing(*old(state)),
        sheets_loaded(*old(state), *final(state), texts(names@), 0, fault_in(r)),
{
    sheets_from(state, names, 0)
}

fn sheets_from(state: &mut DrawState, names: &Vec<String>, i: usize) -> (r: Result<(), Fault>)
    requires
        old(state).wf(),
        old(state).on_the_screen(),
        i <= names@.len(),
    ensures
        final(state).wf(),
        final(state).on_the_screen(),
        final(state).same_but_drawing(*old(state)),
        sheets_loaded(*old(state), *final(state), texts(names@), i as int, fault_in(r)),
    decreases names@.len() - i,
{
    if i >= names.len() {
        return Ok(());
    }
    let ghost was = *state;
    let ghost all = texts(names@);
    assert(all[i as int] == names@[i as int]@);
    let b = state.load_sheet(names[i].as_str());
    let ghost mid = *state;
    assert(sheet_loaded(was, mid, all[i as int], b));
    proof {
        lemma_on_the_screen(*state);
    }
    match b {
        Err(e) => {
            let path = assets::sheet_path(names[i].as_str());
            Err(fault_of(&e, path.as_str()))
        },
        Ok(_) => sheets_from(state, names, i + 1),
    }
}

/// Loading one map: what was found of it, and what a parser made of its
/// file.
pub open spec fn map_step(
    was: DrawState,
    now: DrawState,
    name: Seq<char>,
    parsed: Result<MapFile, String>,
    b: Result<BufId, GfxError>,
) -> bool {
    let path = map_path_of(name);
    if !is_asset_name(name) {
        b is Err && b->Err_0.says_invalid(path, "bad asset name"@) && now == was
    } else if was.known(path) is Some {
        b == Ok::<BufId, GfxError>(was.known(path)->0) && now == was
    } else if file_from(was.cart@, path, 0) is None {
        b is Err && b->Err_0.says_not_found(path) && now == was
    } else {
        map_loaded(was, now, path, parsed, b)
    }
}

/// Whether a file that is to be parsed was: the host may have answered
/// `parsed`.
pub open spec fn asked<G, H: Host<G>>(
    was: DrawState,
    name: Seq<char>,
    parsed: Result<MapFile, String>,
) -> bool {
    let path = map_path_of(name);
    is_asset_name(name) && was.known(path) is None ==> match file_from(was.cart@, path, 0) {
        Some(bytes) => H::may_parse_map(bytes, parsed),
        None => true,
    }
}

/// Loading the maps of a list from `i` on, up to the first that fails.
pub open spec fn maps_loaded<G, H: Host<G>>(
    was: DrawState,
    now: DrawState,
    names: Seq<Seq<char>>,
    i: int,
    f: Option<Fault>,
) -> bool
    decreases names.len() - i,
{
    if i >= names.len() {
        f is None && now == was
    } else {
        exists|mid: DrawState, parsed: Result<MapFile, String>, b: Result<BufId, GfxError>|
         #[trigger]
            map_step(was, mid, names[i], parsed, b) && asked::<G, H>(was, names[i], parsed)
                && match b {
                Err(e) => now == mid && f is Some && asset_fault(f->0, e, map_path_of(names[i])),
                Ok(_) => maps_loaded::<G, H>(mid, now, names, i + 1, f),
            }
    }
}

fn load_one_map<G, H: Host<G>>(state: &mut DrawState, host: &mut Hosted<H>, name: &str) -> (b: Result<
    BufId,
    GfxError,
>)
    requires
        old(state).wf(),
        old(state).on_the_screen(),
    ensures
        final(state).wf(),
        final(state).on_the_screen(),
        final(state).same_but_drawing(*old(state)),
        exists|parsed: Result<MapFile, String>| #[trigger]
            map_step(*old(state), *final(state), name@, parsed, b) && asked::<G, H>(
                *old(state),
                name@,
                parsed,
            ),
        final(host).asked() == old(host).asked(),
{
    let ghost was = *state;
    let ghost none: Result<MapFile, String> = arbitrary();
    match state.find_map(name) {
        Err(e) => {
            let b = Err(e);
            assert(map_step(was, *state, name@, none, b));
            b
        },
        Ok(MapFound::Live(id)) => {
            let b = Ok(id);
            assert(map_step(was, *state, name@, none, b));
            b
        },
        Ok(MapFound::File(path, bytes)) => {
            let parsed = host.parse_map::<G>(&bytes);
            let ghost p = parsed;
            let b = state.load_map(path.as_str(), parsed);
            proof {
                lemma_on_the_screen(*state);
                assert(map_step(was, *state, name@, p, b));
            }
            b
        },
    }
}

/// Decode the maps of a preload list from `i` on.
fn maps_from<G, H: Host<G>>(
    state: &mut DrawState,
    host: &mut Hosted<H>,
    names: &Vec<String>,
    i: usize,
) -> (r: Result<(), Fault>)
    requires
        old(state).wf(),
        old(state).on_the_screen(),
        i <= names@.len(),
    ensures
        final(state).wf(),
        final(state).on_the_screen(),
        final(state).same_but_drawing(*old(state)),
        maps_loaded::<G, H>(*old(state), *final(state), texts(names@), i as int, fault_in(r)),
        final(host).asked() == old(host).asked(),
    decreases names@.len() - i,
{
    if i >= names.len() {
        return Ok(());
    }
    let ghost all = texts(names@);
    assert(all[i as int] == names@[i as int]@);
    let b = load_one_map::<G, H>(state, host, names[i].as_str());
    match b {
        Err(e) => {
            let path = assets::map_path(names[i].as_str());
            Err(fault_of(&e, path.as_str()))
        },
        Ok(_) => maps_from::<G, H>(state, host, names, i + 1),
    }
}

/// What the preload set made of a state at its start: the sheets, then the
/// maps, up to the first that fails.
pub open spec fn prepared<G, H: Host<G>>(
    first: DrawState,
    d: DrawState,
    manifest: ManifestView,
    preload: Preload,
    f: Option<Fault>,
) -> bool {
    match preload {
        Preload::Skip => d == first && f is None,
        Preload::Decode => exists|mid: DrawState, g: Option<Fault>| #[trigger]
            sheets_loaded(first, mid, manifest.preload_sheets, 0, g) && if g is Some {
                d == mid && f == g
            } else {
                maps_loaded::<G, H>(mid, d, manifest.preload_maps, 0, f)
            },
    }
}

/// Whether a host was asked for nothing more, or for the guest of a
/// source.
pub open spec fn called(cart: Seq<Entry>, was: History, now: History) -> bool {
    now == was || (main_text_of(cart) is Ok && now == was.push(
        (main_text_of(cart)->Ok_0, "main.lua"@),
    ))
}

impl<G> Cart<G> {
    /// A cart of a state and of what the host built of its text.
    pub open spec fn joined(
        &self,
        built: Result<G, Fault>,
        state: DrawState,
        manifest: ManifestView,
        source: Rc<Snapshot>,
    ) -> bool {
        match built {
            Ok(g) => {
                &&& self.unstarted()
                &&& self.guest == Some(g)
                &&& self.status@ is None
                &&& self.state == state
                &&& self.manifest@ == manifest
                &&& self.source == Some(source)
            },
            Err(f) => self.died(f@, manifest, Some(source)),
        }
    }

    /// A cart of a state that is prepared: it lacks an entry file, or is
    /// what the host may build of it. Only then is the host asked to, once.
    pub open spec fn built<H: Host<G>>(
        &self,
        d: DrawState,
        manifest: ManifestView,
        source: Rc<Snapshot>,
        was: History,
        now: History,
    ) -> bool {
        match main_text_of(source@) {
            Err(v) => now == was && self.died(v, manifest, Some(source)),
            Ok(text) => now == was.push((text, "main.lua"@)) && exists|r: Result<G, Fault>|
             #[trigger]
                H::may_build(text, "main.lua"@, r) && self.joined(r, d, manifest, source),
        }
    }

    /// A cart of a source and its manifest.
    pub open spec fn made<H: Host<G>>(
        &self,
        manifest: ManifestView,
        source: Rc<Snapshot>,
        preload: Preload,
        permitted: bool,
        invite: Option<Seq<char>>,
        was: History,
        now: History,
    ) -> bool {
        exists|first: DrawState, d: DrawState, f: Option<Fault>|
            {
                &&& started(first, manifest, source, permitted, invite)
                &&& #[trigger] prepared::<G, H>(first, d, manifest, preload, f)
                &&& match f {
                    Some(x) => now == was && self.died(x@, manifest, Some(source)),
                    None => self.built::<H>(d, manifest, source, was, now),
                }
            }
    }

    /// A cart of a source: its manifest, its preload set and its guest, or
    /// the first of them that fails. The history of the host is `was`
    /// before it and `now` after it.
    pub open spec fn loaded<H: Host<G>>(
        &self,
        source: Rc<Snapshot>,
        preload: Preload,
        permitted: bool,
        invite: Option<Seq<char>>,
        was: History,
        now: History,
    ) -> bool {
        match manifest_text_of(source@) {
            Err(v) => now == was && self.died(v, no_manifest(), Some(source)),
            Ok(None) => self.made::<H>(
                no_manifest(),
                source,
                preload,
                permitted,
                invite,
                was,
                now,
            ),
            Ok(Some(text)) => exists|parsed: Result<ManifestFile, ParseError>| #[trigger]
                H::may_parse(text, parsed) && match manifest_of(text, parsed) {
                    Err((message, line)) => now == was && self.status@ is Some && manifest_fault(
                        self.status@->0,
                        message,
                        line,
                    ) && self.died(self.status@->0, no_manifest(), Some(source)),
                    Ok(m) => self.made::<H>(m, source, preload, permitted, invite, was, now),
                },
        }
    }

    /// A cart of what was loaded and what the host built of its text.
    pub fn assembled(
        built: Result<G, Fault>,
        state: DrawState,
        manifest: Manifest,
        source: Rc<Snapshot>,
    ) -> (c: Cart<G>)
        requires
            state.wf(),
            state.in_hand(),
            (state.width, state.height) == size_of(manifest.screen_mode),
        ensures
            c.wf(),
            c.manifest == manifest,
            c.joined(built, state, manifest@, source),
    {
        match built {
            Ok(guest) => Cart {
                guest: Some(guest),
                state,
                frame: 0,
                status: ConsoleState::Running,
                manifest,
                source: Some(source),
                net_pending: VecDeque::new(),
                net_teardown: false,
            },
            Err(fault) => Cart::faulted(fault, manifest, Some(source)),
        }
    }

    /// Decode the preload set, read `main.lua` and build a guest.
    fn make<H: Host<G>>(
        host: &mut Hosted<H>,
        manifest: Manifest,
        source: Rc<Snapshot>,
        preload: Preload,
        env: &NetEnv,
    ) -> (c: Cart<G>)
        ensures
            c.wf(),
            c.manifest == manifest,
            c.made::<H>(
                manifest@,
                source,
                preload,
                env.permitted,
                text_in(env.invite),
                old(host).asked(),
                final(host).asked(),
            ),
            called(source@, old(host).asked(), final(host).asked()),
            c.runs() ==> final(host).asked() != old(host).asked(),
            c.runs() ==> main_text_of(source@) is Ok && c.state.cart == source && match c.state.net {
                Some(n) => c.manifest@.services.contains(Service::Net) && n@ == NetView::fresh(
                    env.permitted,
                    text_in(env.invite),
                ),
                None => !c.manifest@.services.contains(Service::Net),
            },
            c.guest is Some <==> c.status@ is None,
            c.state.sys is None,
            c.runs() && preload is Decode ==> preloaded::<G, H>(c.state, c.manifest@),
            c.runs() && preload is Skip ==> c.state.res.ledger.used == 0,
    {
        let ghost was = host.asked();
        let mut state = start_state(&manifest, share(&source), env);
        let ghost first = state;
        let ghost m = manifest@;
        if preload == Preload::Decode {
            let sheets = preload_sheets(&mut state, &manifest.preload_sheets);
            let ghost mid = state;
            let ghost g = fault_in(sheets);
            assert(sheets_loaded(first, mid, m.preload_sheets, 0, g));
            if let Err(f) = sheets {
                assert(prepared::<G, H>(first, mid, m, preload, g));
                return Cart::faulted(f, manifest, Some(source));
            }
            let maps = maps_from::<G, H>(&mut state, host, &manifest.preload_maps, 0);
            let ghost h = fault_in(maps);
            assert(maps_loaded::<G, H>(mid, state, m.preload_maps, 0, h));
            assert(prepared::<G, H>(first, state, m, preload, h));
            if let Err(f) = maps {
                return Cart::faulted(f, manifest, Some(source));
            }
            assert(start_of(first, state));
        }
        let ghost none: Option<Fault> = None;
        assert(prepared::<G, H>(first, state, m, preload, none));
        let text = match main_text(&source) {
            Ok(t) => t,
            Err(f) => return Cart::faulted(f, manifest, Some(source)),
        };
        let r = host.build::<G>(text.as_str(), MAIN_FILE);
        let ghost built = r;
        let ghost d = state;
        let c = Cart::assembled(r, state, manifest, source);
        proof {
            assert(H::may_build(text@, "main.lua"@, built));
            assert(c.joined(built, d, m, source));
            assert(c.built::<H>(d, m, source, was, host.asked()));
            assert(host.asked().len() == was.len() + 1);
        }
        c
    }

    /// Read `cart.toml` and `main.lua` from `source`, decode the preload
    /// set and build a guest.
    pub fn load<H: Host<G>>(
        host: &mut Hosted<H>,
        source: Rc<Snapshot>,
        preload: Preload,
        env: &NetEnv,
    ) -> (c: Cart<G>)
        ensures
            c.wf(),
            c.loaded::<H>(
                source,
                preload,
                env.permitted,
                text_in(env.invite),
                old(host).asked(),
                final(host).asked(),
            ),
            // The host is asked for a guest at most once, with the text of
            // the entry file.
            called(source@, old(host).asked(), final(host).asked()),
            c.runs() ==> final(host).asked() != old(host).asked(),
            c.unstarted(),
            c.source == Some(source),
            c.state.sys is None,
            // A running cart has its guest, a faulted one has none.
            c.runs() <==> c.status@ is None,
            c.guest is Some <==> c.status@ is None,
            // What runs has an entry file, and the network state that its
            // manifest asks for.
            c.runs() ==> main_text_of(source@) is Ok && c.state.cart == source && match c.state.net {
                Some(n) => c.manifest@.services.contains(Service::Net) && n@ == NetView::fresh(
                    env.permitted,
                    text_in(env.invite),
                ),
                None => !c.manifest@.services.contains(Service::Net),
            },
            c.runs() && preload is Decode ==> preloaded::<G, H>(c.state, c.manifest@),
            c.runs() && preload is Skip ==> c.state.res.ledger.used == 0,
    {
        let text = match manifest_text(&source) {
            Ok(t) => t,
            Err(f) => return Cart::faulted(f, Manifest::default(), Some(source)),
        };
        let manifest = match text {
            None => Manifest::default(),
            Some(t) => {
                let parsed = host.parse_manifest::<G>(t.as_str());
                let ghost answer = parsed;
                assert(H::may_parse(t@, answer));
                match manifest_with(t.as_str(), parsed) {
                    Ok(m) => m,
                    Err(f) => return Cart::faulted(f, Manifest::default(), Some(source)),
                }
            },
        };
        Cart::make(host, manifest, source, preload, env)
    }
}

/// Whether a state is the start of another but for its buffers.
pub open spec fn start_of(first: DrawState, d: DrawState) -> bool {
    first.res.ledger.used == 0 && d.same_but_drawing(first)
}

/// Whether a state has the preload set of a manifest: the sheets, then the
/// maps, were all loaded into a state that had none.
pub open spec fn preloaded<G, H: Host<G>>(d: DrawState, m: ManifestView) -> bool {
    exists|first: DrawState, mid: DrawState| #[trigger]
        start_of(first, d) && #[trigger] sheets_loaded(
            first,
            mid,
            m.preload_sheets,
            0,
            None,
        ) && maps_loaded::<G, H>(mid, d, m.preload_maps, 0, None)
}

impl<G> Console<G> {
    /// A console of a source, as it is made.
    pub open spec fn born<H: Host<G>>(
        &self,
        source: Rc<Snapshot>,
        preload: Preload,
        was: History,
        now: History,
    ) -> bool {
        self.bare() && self.cart.loaded::<H>(source, preload, false, None, was, now)
    }

    /// Read `cart.toml` and `main.lua` from `source`, decode the preload
    /// set and build a guest through the host. Any error yields a console
    /// that is already faulted.
    pub fn new<H: Host<G>>(source: Rc<Snapshot>, host: &mut Hosted<H>) -> (c: Console<G>)
        ensures
            c.wf(),
            c.shell is None,
            c.cart.unstarted(),
            c.cart.source == Some(source),
            c.born::<H>(source, Preload::Decode, old(host).asked(), final(host).asked()),
            called(source@, old(host).asked(), final(host).asked()),
            c.cart.guest is Some <==> c.cart.status@ is None,
            c.cart.runs() ==> main_text_of(source@) is Ok && preloaded::<G, H>(
                c.cart.state,
                c.cart.manifest@,
            ),
    {
        Console::new_with(source, host, Preload::Decode)
    }

    /// [`Console::new`] with a say over asset decoding; hosts pass
    /// [`Preload::Skip`] for a guest that lives in a worker.
    pub fn new_with<H: Host<G>>(source: Rc<Snapshot>, host: &mut Hosted<H>, preload: Preload) -> (c:
        Console<G>)
        ensures
            c.wf(),
            c.shell is None,
            c.cart.unstarted(),
            c.cart.source == Some(source),
            c.born::<H>(source, preload, old(host).asked(), final(host).asked()),
            called(source@, old(host).asked(), final(host).asked()),
            c.cart.guest is Some <==> c.cart.status@ is None,
            c.cart.runs() ==> main_text_of(source@) is Ok,
            c.cart.runs() && preload is Decode ==> preloaded::<G, H>(c.cart.state, c.cart.manifest@),
            c.cart.runs() && preload is Skip ==> c.cart.state.res.ledger.used == 0,
    {
        let env = NetEnv::default();
        Console::from_cart(Cart::load(host, source, preload, &env))
    }
}

} // verus!
