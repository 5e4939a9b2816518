//! The console: a cart guest, optionally a shell guest, and the frame
//! counters.
//!
//! A guest is a cart runtime; what runs it, and what parses a cart's
//! manifest and maps, opens carts and builds guests, belongs to the host.

pub mod loading;
pub mod net_side;
pub mod repeat;
pub mod starts;
pub mod stepping;
pub mod turns;

use std::collections::VecDeque;
use std::rc::Rc;
use vstd::prelude::*;
use vstd::string::*;
use crate::assets::MapFile;
use crate::audio::SAMPLES_PER_FRAME;
use crate::draw::{fresh, DrawState};
use crate::fault::{Fault, FaultView};
use crate::input::FrameInput;
use crate::manifest::{
    no_manifest, Manifest, ManifestFile, ManifestView, ParseError, ScreenMode,
};
use crate::meter::FrameProfile;
use crate::net::{Event, NetEnv};
use crate::palette::{Rgb, PALETTE_SIZE};
use crate::save::{errors_view, SaveError, SaveErrorView, SaveStore};
use crate::shell::{CartEntry, Settings, SysRequest, SysState};
use crate::snapshot::Snapshot;
use crate::text::texts;

verus! {

/// Name of the cart's entry file.
pub const MAIN_FILE: &'static str = "main.lua";

/// A cart runtime.
pub trait Guest: Sized {
    /// What a step may come to: how the guest and the state stood before
    /// it, how they stand after it, and what it returned. A guest that
    /// says nothing of its steps may do anything.
    open spec fn may_step(
        before: Self,
        state: DrawState,
        input: FrameInput,
        frame: u64,
        after: Self,
        left: DrawState,
        r: Result<(), Fault>,
    ) -> bool {
        true
    }

    /// Run one frame. `frame` is 1 on the first call. The implementation
    /// decides what a frame means. Returning `Err` ends the cart. A guest
    /// reaches the state through its calls, which keep it in order.
    fn step(&mut self, state: &mut DrawState, input: FrameInput, frame: u64) -> (r: Result<
        (),
        Fault,
    >)
        requires
            old(state).wf(),
            old(state).in_hand(),
        ensures
            final(state).wf(),
            final(state).in_hand(),
            final(state).width == old(state).width,
            final(state).height == old(state).height,
            Self::may_step(*old(self), *old(state), input, frame, *final(self), *final(state), r),
    ;

    /// What a dump may come to: how the guest stood before it, how it
    /// stands after it, and what it returned.
    open spec fn may_tell(
        before: Self,
        names: Seq<Seq<char>>,
        after: Self,
        r: Result<String, Fault>,
    ) -> bool {
        true
    }

    /// Dump the named globals as canonical codec text. A guest without a
    /// codec refuses.
    fn state(&mut self, names: &Vec<String>) -> (r: Result<String, Fault>)
        ensures
            Self::may_tell(*old(self), texts(names@), *final(self), r) || (no_dump(r)
                && *final(self) == *old(self)),
    {
        Err(Fault::new("unsupported", "", None, "this guest cannot dump state"))
    }
}

/// The refusal of a guest that has no codec.
pub open spec fn no_dump(r: Result<String, Fault>) -> bool {
    r is Err && r->Err_0@ == (FaultView {
        code: "unsupported"@,
        message: "this guest cannot dump state"@,
        file: ""@,
        line: None,
    })
}

/// The guests that a host was asked to build, in order: the text and the
/// chunk name of each.
pub type History = Seq<(Seq<char>, Seq<char>)>;

/// What a console asks of its host. Each answer is one that the host may
/// give to what it was asked; a host that says nothing of its answers may
/// give any.
pub trait Host<G>: Sized {
    open spec fn may_parse(text: Seq<char>, r: Result<ManifestFile, ParseError>) -> bool {
        true
    }

    /// The tables of a manifest.
    fn parse_manifest(&mut self, text: &str) -> (r: Result<ManifestFile, ParseError>)
        ensures
            Self::may_parse(text@, r),
    ;

    open spec fn may_parse_map(bytes: Seq<u8>, r: Result<MapFile, String>) -> bool {
        true
    }

    /// The value of a map file.
    fn parse_map(&mut self, bytes: &Vec<u8>) -> (r: Result<MapFile, String>)
        ensures
            Self::may_parse_map(bytes@, r),
    ;

    open spec fn may_build(text: Seq<char>, chunk: Seq<char>, r: Result<G, Fault>) -> bool {
        true
    }

    /// Build a guest from source text and a chunk name.
    fn build(&mut self, text: &str, chunk: &str) -> (r: Result<G, Fault>)
        ensures
            Self::may_build(text@, chunk@, r),
    ;

    open spec fn may_open(name: Seq<char>, r: Result<(Rc<Snapshot>, SaveStore), Fault>) -> bool {
        true
    }

    /// Resolve a cart name from the shell's list to a source and the save
    /// store that cart gets (the host assigns the identity).
    fn open(&mut self, name: &str) -> (r: Result<(Rc<Snapshot>, SaveStore), Fault>)
        ensures
            Self::may_open(name@, r),
    ;
}

/// A host, and beside it what it was asked to build so far. A console
/// reaches its host only through this, so the record is complete.
pub struct Hosted<H> {
    pub host: H,
    pub record: Ghost<History>,
}

impl<H> Hosted<H> {
    /// What the host was asked to build so far.
    pub open spec fn asked(&self) -> History {
        self.record@
    }

    /// A host that was asked nothing yet.
    pub fn new(host: H) -> (h: Hosted<H>)
        ensures
            h.host == host,
            h.asked() == History::empty(),
    {
        Hosted { host, record: Ghost(Seq::empty()) }
    }

    pub(crate) fn parse_manifest<G>(&mut self, text: &str) -> (r: Result<ManifestFile, ParseError>)
        where H: Host<G>
        ensures
            <H as Host<G>>::may_parse(text@, r),
            final(self).asked() == old(self).asked(),
    {
        self.host.parse_manifest(text)
    }

    pub(crate) fn parse_map<G>(&mut self, bytes: &Vec<u8>) -> (r: Result<MapFile, String>)
        where H: Host<G>
        ensures
            <H as Host<G>>::may_parse_map(bytes@, r),
            final(self).asked() == old(self).asked(),
    {
        self.host.parse_map(bytes)
    }

    pub(crate) fn build<G>(&mut self, text: &str, chunk: &str) -> (r: Result<G, Fault>)
        where H: Host<G>
        ensures
            <H as Host<G>>::may_build(text@, chunk@, r),
            final(self).asked() == old(self).asked().push((text@, chunk@)),
    {
        proof {
            self.record@ = self.record@.push((text@, chunk@));
        }
        self.host.build(text, chunk)
    }

    pub(crate) fn open<G>(&mut self, name: &str) -> (r: Result<(Rc<Snapshot>, SaveStore), Fault>)
        where H: Host<G>
        ensures
            <H as Host<G>>::may_open(name@, r),
            final(self).asked() == old(self).asked(),
    {
        self.host.open(name)
    }
}

/// Whether loading a cart decodes its preload sheets and maps into the
/// draw state. A guest that runs in this process needs them; a guest in a
/// worker process decodes the cart itself, so the broker skips the work
/// and keeps untrusted asset parsing behind the sandbox.
#[derive(Debug, Clone, Copy, PartialEq, Eq, Structural)]
pub enum Preload {
    Decode,
    Skip,
}

/// Whether the cart is still running.
#[derive(Debug, Clone, PartialEq, Eq)]
pub enum ConsoleState {
    Running,
    Faulted(Fault),
}

impl View for ConsoleState {
    type V = Option<FaultView>;

    open spec fn view(&self) -> Option<FaultView> {
        match self {
            ConsoleState::Running => None,
            ConsoleState::Faulted(f) => Some(f@),
        }
    }
}

impl ConsoleState {
    /// The fault, if there is one.
    pub fn fault(&self) -> (f: Option<&Fault>)
        ensures
            f is Some <==> self@ is Some,
            f matches Some(x) ==> Some(x@) == self@,
    {
        match self {
            ConsoleState::Running => None,
            ConsoleState::Faulted(f) => Some(f),
        }
    }
}

/// What a host presents after a step. Borrows the console.
#[derive(Debug)]
pub struct FrameOutput<'a> {
    /// The presentation buffer: the cart's screen with the shell's overlay
    /// composed over it when a shell is present, otherwise the cart's
    /// screen itself.
    pub screen: &'a Vec<u8>,
    pub width: u32,
    pub height: u32,
    pub palette: &'a [Rgb; PALETTE_SIZE],
    /// Number of steps that have run; 0 before the first.
    pub frame: u64,
    pub log: &'a Vec<String>,
    /// What the step cost, by category.
    pub profile: &'a FrameProfile,
    /// This frame's PCM, [`SAMPLES_PER_FRAME`] samples of 44.1 kHz mono
    /// 16-bit. Silence after a fault and while paused.
    pub audio: &'a [i16],
}

/// The cart's half of the console.
pub struct Cart<G> {
    pub guest: Option<G>,
    pub state: DrawState,
    pub frame: u64,
    pub status: ConsoleState,
    pub manifest: Manifest,
    pub source: Option<Rc<Snapshot>>,
    /// Network events offered by the host and not yet admitted: they wait
    /// here while the cart is paused, and at most `MAX_BATCH` are admitted
    /// per step.
    pub net_pending: VecDeque<Event>,
    /// A session was live when this cart (or the one before it) was torn
    /// down; the host owes the peer a `Leave`.
    pub net_teardown: bool,
}

/// The shell's half: a second guest drawing into the overlay.
pub struct Shell<G> {
    pub guest: G,
    pub state: DrawState,
    pub frame: u64,
    pub status: ConsoleState,
    pub presentation: Vec<u8>,
    pub paused: bool,
    pub menu_was: bool,
    /// Buttons held when the shell handed the screen to the cart. They
    /// stay masked from the cart until released, so the A that chose a
    /// cart in the list is not an A press inside that cart.
    pub stale: u8,
    pub preload: Preload,
    pub host_requests: Vec<SysRequest>,
}

/// The console.
pub struct Console<G> {
    pub cart: Cart<G>,
    pub shell: Option<Shell<G>>,
    pub silence: Vec<i16>,
    /// What a cart that declares the net service starts with.
    pub net_env: NetEnv,
}

pub open spec fn size_of(m: ScreenMode) -> (u32, u32) {
    match m {
        ScreenMode::Low => (320u32, 240u32),
        ScreenMode::High => (640u32, 480u32),
    }
}

/// A fresh state of a screen mode, of no cart.
pub open spec fn cleared(d: DrawState, mode: ScreenMode) -> bool {
    let (w, h) = size_of(mode);
    fresh(d, w, h, Seq::empty())
}

impl<G> Cart<G> {
    pub open spec fn wf(&self) -> bool {
        &&& self.state.wf()
        &&& self.state.in_hand()
        &&& (self.state.width, self.state.height) == size_of(self.manifest.screen_mode)
    }

    /// A cart that did not run yet, with no session.
    pub open spec fn unstarted(&self) -> bool {
        self.frame == 0 && self.net_pending@.len() == 0 && !self.net_teardown
    }

    /// Whether a network session may be alive.
    pub open spec fn in_session(&self) -> bool {
        self.state.net matches Some(n) && n@.live()
    }

    /// Whether there is a cart, running or not.
    pub open spec fn there(&self) -> bool {
        self.guest is Some || self.source is Some
    }

    /// Whether a step runs the guest.
    pub open spec fn runs(&self) -> bool {
        self.status@ is None && self.guest is Some
    }

    /// A cart that faulted before its first frame.
    pub open spec fn died(
        &self,
        fault: FaultView,
        manifest: ManifestView,
        source: Option<Rc<Snapshot>>,
    ) -> bool {
        &&& self.unstarted()
        &&& self.guest is None
        &&& self.status@ == Some(fault)
        &&& self.manifest@ == manifest
        &&& self.source == source
        &&& cleared(self.state, manifest.screen_mode)
    }

    pub fn faulted(fault: Fault, manifest: Manifest, source: Option<Rc<Snapshot>>) -> (c: Cart<G>)
        ensures
            c.wf(),
            c.manifest == manifest,
            c.died(fault@, manifest@, source),
    {
        let (w, h) = manifest.screen_mode.size();
        Cart {
            guest: None,
            state: DrawState::new(w, h, Rc::new(Snapshot::empty())),
            frame: 0,
            status: ConsoleState::Faulted(fault),
            manifest,
            source,
            net_pending: VecDeque::new(),
            net_teardown: false,
        }
    }

    /// A cart of nothing.
    pub open spec fn blank(&self) -> bool {
        &&& self.unstarted()
        &&& self.guest is None
        &&& self.status@ is None
        &&& self.manifest@ == no_manifest()
        &&& self.source is None
        &&& cleared(self.state, no_manifest().screen_mode)
    }

    /// No cart at all: the shell's screen shows alone.
    pub fn empty() -> (c: Cart<G>)
        ensures
            c.wf(),
            c.blank(),
    {
        let (w, h) = ScreenMode::default().size();
        Cart {
            guest: None,
            state: DrawState::new(w, h, Rc::new(Snapshot::empty())),
            frame: 0,
            status: ConsoleState::Running,
            manifest: Manifest::default(),
            source: None,
            net_pending: VecDeque::new(),
            net_teardown: false,
        }
    }
}

impl<G> Shell<G> {
    pub open spec fn wf(&self) -> bool {
        self.state.wf() && self.state.in_hand()
    }

    /// The settings that the shell shows.
    pub open spec fn shown_settings(&self) -> Settings {
        match self.state.sys {
            Some(s) => s.settings,
            None => crate::shell::default_settings(),
        }
    }

    pub fn settings(&self) -> (s: Settings)
        ensures
            s == self.shown_settings(),
    {
        match &self.state.sys {
            Some(s) => s.settings,
            None => Settings::default(),
        }
    }
}

impl<G> Console<G> {
    pub open spec fn wf(&self) -> bool {
        &&& self.cart.wf()
        &&& self.shell matches Some(s) ==> s.wf()
        &&& self.silence@ == Seq::new(SAMPLES_PER_FRAME as nat, |i: int| 0i16)
    }

    /// Whether the shell's overlay is up: it is paused, or there is no
    /// cart that runs.
    pub open spec fn overlay_up(&self) -> bool {
        self.paused() || !self.cart.runs()
    }

    pub open spec fn paused(&self) -> bool {
        self.shell matches Some(s) && s.paused
    }

    /// Whether the shell is there and has not died.
    pub open spec fn shell_alive(&self) -> bool {
        self.shell matches Some(s) && s.status@ is None
    }

    /// Whether there is no shell, and no network for a cart to come.
    pub open spec fn bare(&self) -> bool {
        self.shell is None && !self.net_env.permitted && self.net_env.invite is None
    }

    pub fn from_cart(cart: Cart<G>) -> (c: Console<G>)
        requires
            cart.wf(),
        ensures
            c.wf(),
            c.cart == cart,
            c.bare(),
    {
        let silence: Vec<i16> = vec![0i16; SAMPLES_PER_FRAME];
        assert(silence@ =~= Seq::new(SAMPLES_PER_FRAME as nat, |i: int| 0i16));
        Console { cart, shell: None, silence, net_env: NetEnv::default() }
    }

    /// Wrap an already-built guest with no cart and the default screen
    /// mode.
    pub fn from_guest(guest: G) -> (c: Console<G>)
        ensures
            c.wf(),
            c.cart.guest == Some(guest),
            (Cart { guest: None, ..c.cart }).blank(),
            c.bare(),
    {
        let mut cart = Cart::empty();
        cart.guest = Some(guest);
        Console::from_cart(cart)
    }

    /// A console that faulted before it could start.
    pub fn faulted(fault: Fault) -> (c: Console<G>)
        ensures
            c.wf(),
            c.cart.died(fault@, no_manifest(), None),
            c.bare(),
    {
        Console::from_cart(Cart::faulted(fault, Manifest::default(), None))
    }

    /// A console booted into the shell with no cart loaded. `shell` is the
    /// shell guest (built with `sys` installed), `carts` what it may list
    /// and `preload` whether loading decodes carts' assets here.
    pub fn with_shell(shell: G, carts: Vec<CartEntry>, settings: Settings, preload: Preload) -> (c:
        Console<G>)
        ensures
            c.wf(),
            c.cart.blank(),
            (Console { shell: None, ..c }).bare(),
            c.shell matches Some(s) && s.guest == shell && s.frame == 0 && s.status@ is None
                && !s.paused && !s.menu_was && s.stale == 0 && s.preload == preload
                && s.host_requests@.len() == 0 && s.presentation@.len() == 0 && cleared(
                (DrawState { sys: None, ..s.state }),
                ScreenMode::High,
            ),
            c.shell->0.state.sys matches Some(y) && y.carts == carts && y.settings == settings
                && y.fault is None && !y.running && !y.paused && !y.menu_pressed
                && y.requests@.len() == 0,
    {
        let (w, h) = ScreenMode::default().size();
        let mut state = DrawState::new(w, h, Rc::new(Snapshot::empty()));
        state.sys = Some(SysState::new(carts, settings));
        let mut console = Console::from_cart(Cart::empty());
        console.shell = Some(
            Shell {
                guest: shell,
                state,
                frame: 0,
                status: ConsoleState::Running,
                presentation: Vec::new(),
                paused: false,
                menu_was: false,
                stale: 0,
                preload,
                host_requests: Vec::new(),
            },
        );
        console
    }

    /// Requests the host carries out or persists (the window scale, the
    /// volume, the network permission), drained.
    pub fn take_host_requests(&mut self) -> (v: Vec<SysRequest>)
        requires
            old(self).wf(),
        ensures
            final(self).wf(),
            match old(self).shell {
                Some(s) => {
                    &&& v == s.host_requests
                    &&& final(self).shell matches Some(t) && t.host_requests@.len() == 0 && t == (
                    Shell { host_requests: t.host_requests, ..s })
                },
                None => v@.len() == 0 && final(self).shell is None,
            },
            final(self).cart == old(self).cart,
            final(self).net_env == old(self).net_env,
    {
        let mut v: Vec<SysRequest> = Vec::new();
        if self.shell.is_some() {
            let s = self.shell.as_mut().unwrap();
            std::mem::swap(&mut v, &mut s.host_requests);
        }
        v
    }

    pub fn has_shell(&self) -> (r: bool)
        ensures
            r == (self.shell is Some),
    {
        self.shell.is_some()
    }

    /// The shell guest's own fault, if it died. The host falls back to the
    /// error screen then.
    pub fn shell_fault(&self) -> (f: Option<&Fault>)
        ensures
            f is Some <==> (self.shell matches Some(s) && s.status@ is Some),
            f matches Some(x) ==> self.shell->0.status@ == Some(x@),
    {
        match &self.shell {
            Some(s) => s.status.fault(),
            None => None,
        }
    }

    pub fn is_paused(&self) -> (r: bool)
        ensures
            r == self.paused(),
    {
        match &self.shell {
            Some(s) => s.paused,
            None => false,
        }
    }

    /// The shell's settings, or the defaults without a shell.
    pub fn settings(&self) -> (s: Settings)
        ensures
            s == (match self.shell {
                Some(x) => x.shown_settings(),
                None => crate::shell::default_settings(),
            }),
    {
        match &self.shell {
            Some(s) => s.settings(),
            None => Settings::default(),
        }
    }

    pub fn state(&self) -> (s: &ConsoleState)
        ensures
            *s == self.cart.status,
    {
        &self.cart.status
    }

    pub fn frame(&self) -> (n: u64)
        ensures
            n == self.cart.frame,
    {
        self.cart.frame
    }

    pub fn manifest(&self) -> (m: &Manifest)
        ensures
            *m == self.cart.manifest,
    {
        &self.cart.manifest
    }

    pub fn screen_mode(&self) -> (m: ScreenMode)
        ensures
            m == self.cart.manifest.screen_mode,
    {
        self.cart.manifest.screen_mode
    }

    /// The draw state, for hosts and tests that inspect resources.
    pub fn draw_state(&self) -> (d: &DrawState)
        ensures
            *d == self.cart.state,
    {
        &self.cart.state
    }

    /// Install the store `save` and `load` use. The default is an
    /// in-memory store that dies with the console.
    pub fn set_save_store(&mut self, store: SaveStore)
        requires
            old(self).wf(),
        ensures
            final(self).wf(),
            final(self).cart.state == (DrawState { saves: store, ..old(self).cart.state }),
            final(self).cart == (Cart { state: final(self).cart.state, ..old(self).cart }),
            final(self).shell == old(self).shell,
            final(self).net_env == old(self).net_env,
    {
        self.cart.state.saves = store;
    }

    /// Disk failures the save store kept from the cart, drained.
    pub fn take_save_failures(&mut self) -> (v: Vec<SaveError>)
        requires
            old(self).wf(),
        ensures
            final(self).wf(),
            errors_view(v@) == old(self).cart.state.saves.kept(),
            final(self).cart.state.saves.kept() == Seq::<SaveErrorView>::empty(),
            final(self).cart.state.saves.slots() == old(self).cart.state.saves.slots(),
            final(self).shell == old(self).shell,
            final(self).net_env == old(self).net_env,
            final(self).cart.state == (DrawState {
                saves: final(self).cart.state.saves,
                ..old(self).cart.state
            }),
            final(self).cart == (Cart { state: final(self).cart.state, ..old(self).cart }),
    {
        self.cart.state.saves.take_failures()
    }

    /// What is shown of the console.
    pub open spec fn shown_screen(&self) -> Seq<u8> {
        if self.shell_alive() {
            self.shell->0.presentation@
        } else {
            crate::draw::canvas_of(self.cart.state.res.screen_of()).pixels
        }
    }

    pub open spec fn heard(&self) -> Seq<i16> {
        if self.paused() {
            self.silence@
        } else {
            self.cart.state.audio@.out
        }
    }

    /// Whether an output is the console's.
    pub open spec fn gives(&self, o: FrameOutput) -> bool {
        &&& o.screen@ == self.shown_screen()
        &&& o.width == self.cart.state.width
        &&& o.height == self.cart.state.height
        &&& o.palette@ == self.cart.state.palette@
        &&& o.frame == self.cart.frame
        &&& *o.log == self.cart.state.log
        &&& *o.profile == self.cart.state.profile
        &&& o.audio@ == self.heard()
    }

    /// The current screen, palette and log without stepping. A paused cart
    /// is not rendering, so its last buffer is not published again,
    /// whether or not the shell is still alive.
    pub fn output(&self) -> (o: FrameOutput<'_>)
        requires
            self.wf(),
        ensures
            self.gives(o),
    {
        let cart = &self.cart;
        let audio: &[i16] = match &self.shell {
            Some(s) => if s.paused {
                self.silence.as_slice()
            } else {
                cart.state.audio.output()
            },
            None => cart.state.audio.output(),
        };
        let screen: &Vec<u8> = match &self.shell {
            Some(s) => if s.status.fault().is_none() {
                &s.presentation
            } else {
                cart.state.screen_pixels()
            },
            None => cart.state.screen_pixels(),
        };
        FrameOutput {
            screen,
            width: cart.state.width(),
            height: cart.state.height(),
            palette: cart.state.palette.entries(),
            frame: cart.frame,
            log: &cart.state.log,
            profile: &cart.state.profile,
            audio,
        }
    }
}

impl<G: Guest> Console<G> {
    /// Canonical dump of the guest's named globals; see [`Guest::state`].
    pub fn state_dump(&mut self, names: &Vec<String>) -> (r: Result<String, Fault>)
        requires
            old(self).wf(),
        ensures
            final(self).wf(),
            final(self).shell == old(self).shell,
            final(self).net_env == old(self).net_env,
            final(self).cart == (Cart { guest: final(self).cart.guest, ..old(self).cart }),
            final(self).cart.guest is Some <==> old(self).cart.guest is Some,
            old(self).cart.guest is Some ==> G::may_tell(
                old(self).cart.guest->0,
                texts(names@),
                final(self).cart.guest->0,
                r,
            ) || (no_dump(r) && *final(self) == *old(self)),
            old(self).cart.guest is None ==> r is Err && r->Err_0@ == (FaultView {
                code: "unsupported"@,
                message: "no guest"@,
                file: ""@,
                line: None,
            }) && *final(self) == *old(self),
    {
        if self.cart.guest.is_none() {
            return Err(Fault::new("unsupported", "", None, "no guest"));
        }
        let g = self.cart.guest.as_mut().unwrap();
        g.state(names)
    }
}

/// A paused console is silent, and one whose shell died shows its cart.
pub proof fn law_a_paused_console_is_silent<G>(c: Console<G>)
    requires
        c.wf(),
        c.paused(),
    ensures
        forall|i: int| 0 <= i < c.heard().len() ==> #[trigger] c.heard()[i] == 0,
{
}

} // verus!
