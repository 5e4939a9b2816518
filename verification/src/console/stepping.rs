//! Running frames: the cart's step, the shell's step over it, and the
//! requests that the shell makes.

use std::rc::Rc;
use vstd::prelude::*;
use vstd::string::*;
use crate::audio::MixerView;
use crate::console::{
    Cart, Console, ConsoleState, FrameOutput, Guest, History, Host, Hosted, Shell,
};
use crate::draw::{canvas_of, fresh, DrawState};
use crate::fault::{Fault, FaultView};
use crate::input::{FrameInput, BTN_MENU, CART_BUTTONS};
use crate::manifest::{no_manifest, Manifest};
use crate::net::{count, event_views, text_in, up, Event, NetEnv, MAX_BATCH};
use crate::save::{MemoryStore, SaveStore};
use crate::shared::share;
use crate::shell::{self, composed, SysRequest, SysState};
use crate::snapshot::Snapshot;

verus! {

// ----- the cart ---------------------------------------------------------------------------

/// How many waiting events a frame admits.
pub open spec fn batch_len(pending: int) -> int {
    if pending < MAX_BATCH {
        pending
    } else {
        MAX_BATCH as int
    }
}

impl<G> Cart<G> {
    /// The cart with a frame counted and its batch admitted.
    pub open spec fn begun(&self, o: Cart<G>) -> bool {
        let n = batch_len(o.net_pending@.len() as int);
        &&& self.frame == up(o.frame as int)
        &&& self.runs()
        &&& *self == (Cart {
            frame: self.frame,
            state: self.state,
            net_pending: self.net_pending,
            ..o
        })
        &&& self.state == (DrawState { net: self.state.net, ..o.state })
        &&& match (o.state.net, self.state.net) {
            (Some(a), Some(b)) => b@ == a@.begun(event_views(o.net_pending@.take(n)))
                && self.net_pending@ == o.net_pending@.skip(n),
            (None, None) => self.net_pending == o.net_pending,
            _ => false,
        }
    }

    /// The cart after its guest's step came to `r`.
    pub open spec fn ended(&self, o: Cart<G>, r: Result<(), Fault>) -> bool {
        match r {
            Ok(_) => *self == o,
            Err(f) => {
                &&& self.status@ == Some(f@)
                &&& self.net_teardown == (o.net_teardown || o.in_session())
                &&& self.state.audio@ == o.state.audio@.silenced()
                &&& self.state == (DrawState { audio: self.state.audio, ..o.state })
                &&& *self == (Cart {
                    status: self.status,
                    net_teardown: self.net_teardown,
                    state: self.state,
                    ..o
                })
            },
        }
    }

    /// The cart with a frame of its audio rendered.
    pub open spec fn rendered(&self, o: Cart<G>) -> bool {
        &&& self.state.audio@ == o.state.audio@.rendered()
        &&& self.state == (DrawState { audio: self.state.audio, ..o.state })
        &&& *self == (Cart { state: self.state, ..o })
    }

    /// Count a frame and admit its batch: what the host offered, up to the
    /// bound, before the cart runs. The number of the frame, or `None`
    /// where nothing runs.
    pub fn begin_step(&mut self) -> (r: Option<u64>)
        requires
            old(self).wf(),
        ensures
            final(self).wf(),
            if old(self).runs() {
                r == Some(final(self).frame) && final(self).begun(*old(self))
            } else {
                r is None && *final(self) == *old(self)
            },
    {
        if self.status.fault().is_some() || self.guest.is_none() {
            return None;
        }
        self.frame = count(self.frame);
        if self.state.net.is_some() {
            let ghost before = self.net_pending@;
            let n: usize = if self.net_pending.len() < MAX_BATCH {
                self.net_pending.len()
            } else {
                MAX_BATCH
            };
            let mut batch: Vec<Event> = Vec::new();
            let mut i: usize = 0;
            while i < n
                invariant
                    i <= n,
                    n == batch_len(before.len() as int),
                    n <= before.len(),
                    batch@ =~= before.take(i as int),
                    self.net_pending@ =~= before.skip(i as int),
                    *self == (Cart {
                        frame: self.frame,
                        net_pending: self.net_pending,
                        ..*old(self)
                    }),
                    self.frame == up(old(self).frame as int),
                decreases n - i,
            {
                match self.net_pending.pop_front() {
                    Some(e) => {
                        batch.push(e);
                    },
                    None => {},
                }
                i += 1;
            }
            let net = self.state.net.as_mut().unwrap();
            net.begin_frame(batch);
        }
        Some(self.frame)
    }

    /// What the guest's step came to. A faulted cart's sound stops with
    /// it, and its session ends: the host says bye for it.
    pub fn end_step(&mut self, r: Result<(), Fault>)
        requires
            old(self).wf(),
        ensures
            final(self).wf(),
            final(self).ended(*old(self), r),
    {
        match r {
            Ok(_) => {},
            Err(fault) => {
                self.status = ConsoleState::Faulted(fault);
                self.state.audio.stop_all();
                let live = match &self.state.net {
                    Some(n) => n.is_live(),
                    None => false,
                };
                if live {
                    self.net_teardown = true;
                }
            },
        }
    }
}

impl<G: Guest> Cart<G> {
    /// A frame by its stages: `b` has begun it, in `a` the guest has run
    /// and returned `r`, `e` has ended it, and here its audio is rendered.
    pub open spec fn passed(
        &self,
        o: Cart<G>,
        input: FrameInput,
        b: Cart<G>,
        a: Cart<G>,
        r: Result<(), Fault>,
        e: Cart<G>,
    ) -> bool {
        &&& b.begun(o)
        &&& a.guest is Some
        &&& a == (Cart { guest: a.guest, state: a.state, ..b })
        &&& G::may_step(b.guest->0, b.state, input, b.frame, a.guest->0, a.state, r)
        &&& e.ended(a, r)
        &&& self.rendered(e)
    }

    /// What a step of a cart comes to: a frame of its guest where it runs,
    /// and a frame of its audio either way.
    pub open spec fn ran(&self, o: Cart<G>, input: FrameInput) -> bool {
        if o.runs() {
            exists|b: Cart<G>, a: Cart<G>, r: Result<(), Fault>, e: Cart<G>| #[trigger]
                self.passed(o, input, b, a, r, e)
        } else {
            self.rendered(o)
        }
    }

    /// Run one frame of the cart, if it runs. Audio renders every step,
    /// faulted or not, so the host's ring buffer and the capture stay in
    /// lockstep with the frames.
    pub fn step(&mut self, input: FrameInput)
        requires
            old(self).wf(),
        ensures
            final(self).wf(),
            final(self).ran(*old(self), input),
    {
        let ghost o = *self;
        if let Some(frame) = self.begin_step() {
            let ghost b = *self;
            let guest = self.guest.as_mut().unwrap();
            let r = guest.step(&mut self.state, input, frame);
            let ghost a = *self;
            let ghost came = r;
            self.end_step(r);
            let ghost e = *self;
            let _ = self.state.audio.render();
            assert(self.passed(o, input, b, a, came, e));
        } else {
            let _ = self.state.audio.render();
        }
    }
}

// ----- the shell --------------------------------------------------------------------------

/// What a cart sees of an input while some buttons are stale.
pub open spec fn cart_sees(buttons: u8, stale: u8) -> u8 {
    (buttons & !stale) & CART_BUTTONS
}

/// What the shell sees: the buttons only while its overlay is up, so a
/// running cart and the shell never both react to A.
pub open spec fn shell_sees(buttons: u8, overlay: bool) -> u8 {
    if overlay {
        buttons & CART_BUTTONS
    } else {
        0
    }
}

fn shell_input(input: FrameInput, overlay: bool) -> (i: FrameInput)
    ensures
        i.buttons == shell_sees(input.buttons, overlay),
{
    if overlay {
        input.for_cart()
    } else {
        FrameInput::default()
    }
}

/// A fault that may be missing, as plain values.
pub open spec fn fault_view(f: Option<Fault>) -> Option<FaultView> {
    match f {
        Some(x) => Some(x@),
        None => None,
    }
}

impl<G> Shell<G> {
    /// Take in a frame's buttons. The Menu key is the shell's; the cart
    /// never sees it. Whether Menu went down, and what the cart sees.
    pub fn read_keys(&mut self, input: FrameInput) -> (r: (bool, FrameInput))
        ensures
            r.0 == (input.buttons & BTN_MENU != 0 && !old(self).menu_was),
            r.1.buttons == cart_sees(input.buttons, final(self).stale),
            *final(self) == (Shell {
                menu_was: input.buttons & BTN_MENU != 0,
                stale: old(self).stale & input.buttons,
                ..*old(self)
            }),
    {
        let menu = input.buttons & BTN_MENU != 0;
        let pressed = menu && !self.menu_was;
        self.menu_was = menu;
        self.stale = self.stale & input.buttons;
        (pressed, FrameInput::new(input.buttons & !self.stale).for_cart())
    }

    /// The shell told how the cart stands, with the log of its last frame
    /// gone.
    pub open spec fn briefed(
        &self,
        o: Shell<G>,
        fault: Option<FaultView>,
        running: bool,
        menu_pressed: bool,
    ) -> bool {
        &&& *self == (Shell { state: self.state, ..o })
        &&& self.state == (DrawState { log: self.state.log, sys: self.state.sys, ..o.state })
        &&& self.state.log@.len() == 0
        &&& match (o.state.sys, self.state.sys) {
            (Some(a), Some(b)) => {
                &&& b == (SysState { fault: b.fault, running, paused: o.paused, menu_pressed, ..a })
                &&& fault_view(b.fault) == fault
            },
            (None, None) => true,
            _ => false,
        }
    }

    /// The shell with the requests of its step taken out: `v`.
    pub open spec fn drained(&self, o: Shell<G>, v: Seq<SysRequest>) -> bool {
        &&& *self == (Shell { state: self.state, ..o })
        &&& self.state == (DrawState { sys: self.state.sys, ..o.state })
        &&& match (o.state.sys, self.state.sys) {
            (Some(a), Some(b)) => v == a.requests@ && b.requests@.len() == 0 && b == (SysState {
                requests: b.requests,
                ..a
            }),
            (None, None) => v.len() == 0,
            _ => false,
        }
    }

    /// Tell the shell how the cart stands, before its step.
    pub fn brief(&mut self, fault: Option<&Fault>, running: bool, menu_pressed: bool)
        requires
            old(self).wf(),
        ensures
            final(self).wf(),
            final(self).briefed(
                *old(self),
                match fault {
                    Some(f) => Some(f@),
                    None => None,
                },
                running,
                menu_pressed,
            ),
    {
        self.state.log = Vec::new();
        if self.state.sys.is_some() {
            let paused = self.paused;
            let sys = self.state.sys.as_mut().unwrap();
            sys.fault = match fault {
                Some(f) => Some(f.copy()),
                None => None,
            };
            sys.running = running;
            sys.paused = paused;
            sys.menu_pressed = menu_pressed;
        }
    }

    /// The shell with other settings, and a request to the host.
    pub open spec fn noted(&self, o: Shell<G>, settings: crate::shell::Settings, r: SysRequest) -> bool {
        &&& self.host_requests@ == o.host_requests@.push(r)
        &&& *self == (Shell { state: self.state, host_requests: self.host_requests, ..o })
        &&& self.state == (DrawState { sys: self.state.sys, ..o.state })
        &&& match (o.state.sys, self.state.sys) {
            (Some(x), Some(y)) => y == (SysState { settings, ..x }),
            (None, None) => true,
            _ => false,
        }
    }

    /// Keep settings that were asked for, for the host to carry out or
    /// persist.
    fn note(&mut self, settings: crate::shell::Settings, r: SysRequest)
        requires
            old(self).wf(),
        ensures
            final(self).wf(),
            final(self).noted(*old(self), settings, r),
    {
        if self.state.sys.is_some() {
            let sys = self.state.sys.as_mut().unwrap();
            sys.settings = settings;
        }
        self.host_requests.push(r);
    }

    /// The requests of the shell's step, drained.
    fn take_requests(&mut self) -> (v: Vec<SysRequest>)
        requires
            old(self).wf(),
        ensures
            final(self).wf(),
            final(self).drained(*old(self), v@),
    {
        let mut v: Vec<SysRequest> = Vec::new();
        if self.state.sys.is_some() {
            let sys = self.state.sys.as_mut().unwrap();
            std::mem::swap(&mut v, &mut sys.requests);
        }
        v
    }
}

impl<G: Guest> Shell<G> {
    /// What a step of the shell comes to: a frame of its guest, if it is
    /// alive.
    pub open spec fn ran(&self, o: Shell<G>, input: FrameInput) -> bool {
        if o.status@ is Some {
            *self == o
        } else {
            &&& self.frame == up(o.frame as int)
            &&& *self == (Shell {
                guest: self.guest,
                state: self.state,
                frame: self.frame,
                status: self.status,
                ..o
            })
            &&& exists|r: Result<(), Fault>| #[trigger]
                G::may_step(o.guest, o.state, input, self.frame, self.guest, self.state, r)
                    && self.status == (match r {
                    Ok(_) => o.status,
                    Err(f) => ConsoleState::Faulted(f),
                })
        }
    }

    /// Run one frame of the shell, if it is alive.
    fn step(&mut self, input: FrameInput)
        requires
            old(self).wf(),
        ensures
            final(self).wf(),
            final(self).state.width == old(self).state.width,
            final(self).state.height == old(self).state.height,
            final(self).ran(*old(self), input),
    {
        let ghost o = *self;
        if self.status.fault().is_none() {
            self.frame = count(self.frame);
            let r = self.guest.step(&mut self.state, input, self.frame);
            let ghost came = r;
            if let Err(fault) = r {
                self.status = ConsoleState::Faulted(fault);
            }
            assert(G::may_step(o.guest, o.state, input, self.frame, self.guest, self.state, came));
        }
    }
}

// ----- the console ------------------------------------------------------------------------

/// The master volume that a setting comes to.
pub open spec fn master_of(volume: u32) -> u8 {
    let v = volume as int % 256;
    if v < 100 {
        v as u8
    } else {
        100
    }
}

fn low_byte(v: u32) -> (b: u8)
    ensures
        b == v as int % 256,
{
    (v % 256) as u8
}

/// A shell whose overlay follows a screen's size. The shell keeps its
/// guest; only its buffers are rebuilt.
pub open spec fn resized<G>(was: Shell<G>, now: Shell<G>, width: u32, height: u32) -> bool {
    &&& now == (Shell { state: now.state, paused: false, ..was })
    &&& now.state.width == width && now.state.height == height
    &&& now.state.sys == was.state.sys
    &&& if was.state.width == width && was.state.height == height {
        now.state == was.state
    } else {
        fresh(DrawState { sys: None, ..now.state }, width, height, Seq::empty())
    }
}

impl<G> Console<G> {
    /// The console with another cart: a session of the outgoing one is
    /// over, and the shell's volume and size go for the new one.
    pub open spec fn installed(&self, o: Console<G>, cart: Cart<G>) -> bool {
        &&& *self == (Console { cart: self.cart, shell: self.shell, ..o })
        &&& self.cart == (Cart {
            state: self.cart.state,
            net_teardown: o.cart.net_teardown || o.cart.in_session(),
            ..cart
        })
        &&& self.cart.state == (DrawState { audio: self.cart.state.audio, ..cart.state })
        &&& match (o.shell, self.shell) {
            (Some(a), Some(b)) => {
                &&& self.cart.state.audio@ == (MixerView {
                    master: master_of(a.shown_settings().volume),
                    ..cart.state.audio@
                })
                &&& resized(a, b, cart.state.width, cart.state.height)
            },
            (None, None) => self.cart.state.audio@ == cart.state.audio@,
            _ => false,
        }
    }

    /// The console with a cart of another source, which keeps its slots in
    /// `store`.
    pub open spec fn replaced<H: Host<G>>(
        &self,
        o: Console<G>,
        source: Rc<Snapshot>,
        store: SaveStore,
        was: History,
        now: History,
    ) -> bool {
        let env = o.net_env;
        exists|c: Cart<G>|
            {
                let saved = DrawState { saves: store, ..c.state };
                &&& #[trigger] c.loaded::<H>(
                    source,
                    o.shell->0.preload,
                    env.permitted,
                    text_in(env.invite),
                    was,
                    now,
                )
                &&& self.installed(o, Cart { state: saved, ..c })
            }
    }

    /// Put a cart in place of the one that is there. A live session of the
    /// outgoing cart ends with it; the host owes its peer a `Leave`.
    pub fn install_cart(&mut self, cart: Cart<G>)
        requires
            old(self).wf(),
            cart.wf(),
        ensures
            final(self).wf(),
            final(self).installed(*old(self), cart),
    {
        let mut cart = cart;
        if self.shell.is_some() {
            let s = self.shell.as_mut().unwrap();
            let volume = s.settings().volume;
            cart.state.audio.set_master(low_byte(volume));
            let w = cart.state.width();
            let h = cart.state.height();
            if s.state.width() != w || s.state.height() != h {
                let mut sys: Option<SysState> = None;
                std::mem::swap(&mut sys, &mut s.state.sys);
                let mut state = DrawState::new(w, h, Rc::new(Snapshot::empty()));
                state.sys = sys;
                s.state = state;
            }
            s.paused = false;
        }
        let live = match &self.cart.state.net {
            Some(n) => n.is_live(),
            None => false,
        };
        cart.net_teardown = self.cart.net_teardown || live;
        self.cart = cart;
    }

    /// Replace the cart. Used by the shell's `sys.run` and `sys.restart`
    /// and by hosts that skip the shell's list. Nothing happens without a
    /// shell.
    pub fn load_cart<H: Host<G>>(&mut self, host: &mut Hosted<H>, source: Rc<Snapshot>, store: SaveStore)
        requires
            old(self).wf(),
        ensures
            final(self).wf(),
            final(self).shell is Some <==> old(self).shell is Some,
            old(self).shell is None ==> *final(self) == *old(self) && final(host).asked() == old(
                host,
            ).asked(),
            old(self).shell is Some ==> final(self).replaced::<H>(
                *old(self),
                source,
                store,
                old(host).asked(),
                final(host).asked(),
            ) && final(self).cart.frame == 0,
    {
        let preload = match &self.shell {
            Some(s) => s.preload,
            None => return,
        };
        let ghost was = host.asked();
        let mut cart = Cart::load(host, source, preload, &self.net_env);
        let ghost c = cart;
        cart.state.saves = store;
        self.install_cart(cart);
        proof {
            let o = *old(self);
            let env = o.net_env;
            assert(c.loaded::<H>(
                source,
                o.shell->0.preload,
                env.permitted,
                text_in(env.invite),
                was,
                host.asked(),
            ));
        }
    }

    /// The console with the cart that the host opened, or with its fault.
    pub open spec fn opened<H: Host<G>>(
        &self,
        o: Console<G>,
        answer: Result<(Rc<Snapshot>, SaveStore), Fault>,
        was: History,
        now: History,
    ) -> bool {
        match answer {
            Ok((source, store)) => self.replaced::<H>(o, source, store, was, now),
            Err(f) => now == was && exists|c: Cart<G>| #[trigger]
                c.died(f@, no_manifest(), None) && self.installed(o, c),
        }
    }

    /// The console after the shell asked for the cart of a name.
    pub open spec fn ran_named<H: Host<G>>(
        &self,
        o: Console<G>,
        name: Seq<char>,
        was: History,
        now: History,
    ) -> bool {
        exists|answer: Result<(Rc<Snapshot>, SaveStore), Fault>| #[trigger]
            H::may_open(name, answer) && self.opened::<H>(o, answer, was, now)
    }

    /// What a request comes to, by what the host may answer, and what the
    /// host was asked to build for it.
    pub open spec fn applied<H: Host<G>>(
        &self,
        o: Console<G>,
        r: SysRequest,
        was: History,
        now: History,
    ) -> bool {
        match r {
            SysRequest::Run(name) => self.ran_named::<H>(o, name@, was, now),
            SysRequest::Restart => match o.cart.source {
                None => *self == o && now == was,
                Some(source) => self.replaced::<H>(o, source, o.cart.state.saves, was, now),
            },
            _ => now == was && self.changed(o, r),
        }
    }

    /// What a request comes to that needs nothing from the host.
    pub open spec fn changed(&self, o: Console<G>, r: SysRequest) -> bool {
        match r {
            SysRequest::Run(_) | SysRequest::Restart => false,
            SysRequest::Quit => exists|c: Cart<G>| #[trigger] c.blank() && self.installed(o, c),
            SysRequest::Paused(on) => *self == (Console {
                shell: Some(Shell { paused: on, ..o.shell->0 }),
                ..o
            }),
            SysRequest::SetScale(n) => {
                &&& self.cart == o.cart
                &&& self.net_env == o.net_env
                &&& self.shell->0.noted(
                    o.shell->0,
                    crate::shell::Settings { scale: n, ..o.shell->0.shown_settings() },
                    r,
                )
            },
            SysRequest::SetVolume(v) => {
                &&& self.cart == (Cart { state: self.cart.state, ..o.cart })
                &&& self.cart.state == (DrawState { audio: self.cart.state.audio, ..o.cart.state })
                &&& self.cart.state.audio@ == (MixerView {
                    master: master_of(v),
                    ..o.cart.state.audio@
                })
                &&& self.net_env == o.net_env
                &&& self.shell->0.noted(
                    o.shell->0,
                    crate::shell::Settings { volume: v, ..o.shell->0.shown_settings() },
                    r,
                )
            },
            SysRequest::SetNet(on) => {
                &&& self.cart == o.cart
                &&& self.net_env == (NetEnv { permitted: on, ..o.net_env })
                &&& self.shell->0.noted(
                    o.shell->0,
                    crate::shell::Settings { net: on, ..o.shell->0.shown_settings() },
                    r,
                )
            },
        }
    }

    fn set_volume(&mut self, v: u32)
        requires
            old(self).wf(),
            old(self).shell is Some,
        ensures
            final(self).wf(),
            final(self).shell is Some,
            final(self).changed(*old(self), SysRequest::SetVolume(v)),
    {
        let s = self.shell.as_mut().unwrap();
        let mut settings = s.settings();
        settings.volume = v;
        s.note(settings, SysRequest::SetVolume(v));
        self.cart.state.audio.set_master(low_byte(v));
    }

    fn run<H: Host<G>>(&mut self, host: &mut Hosted<H>, name: &String)
        requires
            old(self).wf(),
            old(self).shell is Some,
        ensures
            final(self).wf(),
            final(self).shell is Some,
            final(self).applied::<H>(
                *old(self),
                SysRequest::Run(*name),
                old(host).asked(),
                final(host).asked(),
            ),
            final(self).cart.frame == 0,
            final(self).shell->0 == (Shell {
                state: final(self).shell->0.state,
                paused: false,
                ..old(self).shell->0
            }),
    {
        let ghost was = host.asked();
        let r = host.open::<G>(name.as_str());
        let ghost answer = r;
        match r {
            Ok((source, store)) => {
                self.load_cart(host, source, store);
            },
            Err(fault) => {
                let ghost f = fault@;
                let c = Cart::faulted(fault, Manifest::default(), None);
                assert(c.died(f, no_manifest(), None));
                self.install_cart(c);
            },
        }
        assert(H::may_open(name@, answer));
        assert(self.opened::<H>(*old(self), answer, was, host.asked()));
        assert(self.ran_named::<H>(*old(self), name@, was, host.asked()));
    }

    fn restart<H: Host<G>>(&mut self, host: &mut Hosted<H>)
        requires
            old(self).wf(),
            old(self).shell is Some,
        ensures
            final(self).wf(),
            final(self).shell is Some,
            final(self).applied::<H>(
                *old(self),
                SysRequest::Restart,
                old(host).asked(),
                final(host).asked(),
            ),
            final(self).cart.frame == 0 || final(self).cart.frame == old(self).cart.frame,
            final(self).shell->0 == (Shell {
                state: final(self).shell->0.state,
                paused: final(self).shell->0.paused,
                ..old(self).shell->0
            }),
    {
        let source = match &self.cart.source {
            Some(s) => Some(share(s)),
            None => None,
        };
        if let Some(source) = source {
            let mut store = SaveStore::Memory(MemoryStore::new());
            std::mem::swap(&mut store, &mut self.cart.state.saves);
            self.load_cart(host, source, store);
        }
    }

    /// Carry out a request of the shell.
    pub fn apply<H: Host<G>>(&mut self, host: &mut Hosted<H>, r: &SysRequest)
        requires
            old(self).wf(),
            old(self).shell is Some,
        ensures
            final(self).wf(),
            final(self).shell is Some,
            final(self).applied::<H>(*old(self), *r, old(host).asked(), final(host).asked()),
            final(self).shell->0.status == old(self).shell->0.status,
            final(self).shell->0.frame == old(self).shell->0.frame,
            final(self).shell->0.menu_was == old(self).shell->0.menu_was,
            final(self).shell->0.stale == old(self).shell->0.stale,
            final(self).cart.frame == 0 || final(self).cart.frame == old(self).cart.frame,
    {
        match r {
            SysRequest::Run(name) => self.run(host, name),
            SysRequest::Restart => self.restart(host),
            SysRequest::Quit => {
                let c = Cart::empty();
                assert(c.blank());
                self.install_cart(c);
            },
            SysRequest::Paused(on) => {
                let s = self.shell.as_mut().unwrap();
                s.paused = *on;
            },
            SysRequest::SetScale(n) => {
                let s = self.shell.as_mut().unwrap();
                let mut settings = s.settings();
                settings.scale = *n;
                s.note(settings, SysRequest::SetScale(*n));
            },
            SysRequest::SetVolume(v) => self.set_volume(*v),
            SysRequest::SetNet(on) => {
                let s = self.shell.as_mut().unwrap();
                let mut settings = s.settings();
                settings.net = *on;
                s.note(settings, SysRequest::SetNet(*on));
                // Carts loaded from now on start with this permission; the
                // running one is told through its link's event.
                self.net_env.permitted = *on;
            },
        }
    }

    fn overlay(&self) -> (r: bool)
        ensures
            r == self.overlay_up(),
    {
        self.is_paused() || self.cart.guest.is_none() || self.cart.status.fault().is_some()
    }
}

impl<G: Guest> Console<G> {
    /// Run one frame. After a fault this is a no-op that keeps returning
    /// the last screen with an empty log, so a host that echoes the log
    /// every step prints the faulting frame's lines once.
    pub fn step<H: Host<G>>(&mut self, host: &mut Hosted<H>, input: FrameInput) -> (o: FrameOutput<'_>)
        requires
            old(self).wf(),
        ensures
            final(self).wf(),
            final(self).gives(o),
            final(self).stepped(*old(self), input),
            final(self).steps_from::<H>(
                *old(self),
                input,
                Seq::empty(),
                old(host).asked(),
                final(host).asked(),
            ),
    {
        let none: Vec<Event> = Vec::new();
        assert(none@ =~= Seq::empty());
        self.step_with(host, input, none)
    }

    /// The console ready for a frame: the host's events wait, and the log
    /// of the last frame is gone.
    pub open spec fn readied(&self, o: Console<G>, events: Seq<Event>) -> bool {
        &&& *self == (Console { cart: self.cart, ..o })
        &&& self.cart == (Cart {
            net_pending: self.cart.net_pending,
            state: self.cart.state,
            ..o.cart
        })
        &&& self.cart.state == (DrawState { log: self.cart.state.log, ..o.cart.state })
        &&& self.cart.state.log@.len() == 0
        &&& self.cart.net_pending@ == (if o.cart.state.net is Some {
            o.cart.net_pending@ + events
        } else {
            o.cart.net_pending@
        })
    }

    /// The frame's keys are taken in, and the cart has run with what it
    /// sees of them unless it is paused.
    pub open spec fn cart_turn(&self, o: Console<G>, input: FrameInput) -> bool {
        let stale = o.shell->0.stale & input.buttons;
        let sees = FrameInput { buttons: cart_sees(input.buttons, stale) };
        &&& *self == (Console {
            cart: self.cart,
            shell: Some(
                Shell { menu_was: input.buttons & BTN_MENU != 0, stale, ..o.shell->0 },
            ),
            ..o
        })
        &&& if o.paused() {
            self.cart == o.cart
        } else {
            self.cart.ran(o.cart, sees)
        }
    }

    /// The shell was told how the cart stands and has run.
    pub open spec fn shell_turn(
        &self,
        o: Console<G>,
        input: FrameInput,
        overlay: bool,
        menu_pressed: bool,
    ) -> bool {
        let sees = FrameInput { buttons: shell_sees(input.buttons, overlay) };
        &&& self.shell is Some
        &&& *self == (Console { shell: self.shell, ..o })
        &&& exists|told: Shell<G>| #[trigger]
            told.briefed(o.shell->0, o.cart.status@, o.cart.there(), menu_pressed)
                && self.shell->0.ran(told, sees)
    }

    /// Consoles from the first to the last of `path`, each by one of the
    /// requests `v`, with what the host was asked to build until then.
    pub open spec fn walked<H: Host<G>>(
        path: Seq<(Console<G>, History)>,
        v: Seq<SysRequest>,
    ) -> bool {
        &&& path.len() == v.len() + 1
        &&& forall|i: int|
            0 <= i < v.len() ==> (#[trigger] path[i + 1]).0.applied::<H>(
                path[i].0,
                v[i],
                path[i].1,
                path[i + 1].1,
            )
    }

    /// The requests of the shell's step were carried out in turn.
    pub open spec fn served<H: Host<G>>(&self, o: Console<G>, was: History, now: History) -> bool {
        exists|path: Seq<(Console<G>, History)>, v: Seq<SysRequest>|
            {
                &&& #[trigger] Console::walked::<H>(path, v)
                &&& path[0].0.shell is Some
                &&& path[0].0.shell->0.drained(o.shell->0, v)
                &&& path[0].0 == (Console { shell: path[0].0.shell, ..o })
                &&& path[0].1 == was
                &&& path.last() == (*self, now)
            }
    }

    /// The overlay lies over the cart's screen, and what was held when the
    /// shell handed the screen over is stale.
    pub open spec fn presented(&self, o: Console<G>, input: FrameInput, overlay: bool) -> bool {
        &&& *self == (Console { shell: self.shell, ..o })
        &&& self.shell matches Some(b) && ({
            let a = o.shell->0;
            &&& b == (Shell { stale: b.stale, presentation: b.presentation, ..a })
            &&& b.stale == (if overlay && !o.overlay_up() {
                input.buttons
            } else {
                a.stale
            })
            &&& if a.status@ is None {
                b.presentation@ == composed(
                    canvas_of(o.cart.state.res.screen_of()).pixels,
                    canvas_of(a.state.res.screen_of()).pixels,
                )
            } else {
                b.presentation == a.presentation
            }
        })
    }

    /// A frame under a shell by its stages: the cart's turn, the shell's,
    /// its requests, and what is presented of them.
    pub open spec fn turned<H: Host<G>>(
        &self,
        o: Console<G>,
        input: FrameInput,
        k: Console<G>,
        s: Console<G>,
        q: Console<G>,
        was: History,
        now: History,
    ) -> bool {
        let pressed = input.buttons & BTN_MENU != 0 && !o.shell->0.menu_was;
        &&& k.cart_turn(o, input)
        &&& s.shell_turn(k, input, o.overlay_up(), pressed)
        &&& q.served::<H>(s, was, now)
        &&& self.presented(q, input, o.overlay_up())
    }

    /// How a step comes to the console that it leaves.
    pub open spec fn steps_from<H: Host<G>>(
        &self,
        o: Console<G>,
        input: FrameInput,
        events: Seq<Event>,
        was: History,
        now: History,
    ) -> bool {
        exists|m: Console<G>| #[trigger]
            m.readied(o, events) && self.goes_on::<H>(m, input, was, now)
    }

    /// The rest of a step, from a console that is ready for it.
    pub open spec fn goes_on<H: Host<G>>(
        &self,
        m: Console<G>,
        input: FrameInput,
        was: History,
        now: History,
    ) -> bool {
        if m.shell is Some {
            exists|k: Console<G>, s: Console<G>, q: Console<G>| #[trigger]
                self.turned::<H>(m, input, k, s, q, was, now)
        } else {
            &&& now == was
            &&& *self == (Console { cart: self.cart, ..m })
            &&& self.cart.ran(m.cart, FrameInput { buttons: input.buttons & CART_BUTTONS })
        }
    }

    /// What a step leaves, whatever the guests and the host did.
    pub open spec fn stepped(&self, o: Console<G>, input: FrameInput) -> bool {
        match (o.shell, self.shell) {
            (None, None) => {
                &&& self.net_env == o.net_env
                &&& self.cart.manifest == o.cart.manifest
                &&& self.cart.source == o.cart.source
                &&& self.cart.guest is Some <==> o.cart.guest is Some
                &&& if o.cart.runs() {
                    self.cart.frame == up(o.cart.frame as int)
                } else {
                    // Nothing runs: the screen stays, the log is empty and
                    // the audio goes on.
                    &&& self.cart == (Cart {
                        state: self.cart.state,
                        net_pending: self.cart.net_pending,
                        ..o.cart
                    })
                    &&& self.cart.state.log@.len() == 0
                    &&& self.cart.state.audio@ == o.cart.state.audio@.rendered()
                    &&& self.cart.state == (DrawState {
                        log: self.cart.state.log,
                        audio: self.cart.state.audio,
                        ..o.cart.state
                    })
                }
            },
            (Some(a), Some(b)) => {
                &&& b.menu_was == (input.buttons & BTN_MENU != 0)
                &&& b.stale == (if o.overlay_up() && !self.overlay_up() {
                    input.buttons
                } else {
                    a.stale & input.buttons
                })
                &&& a.status@ is None ==> b.frame == up(a.frame as int)
                &&& a.status@ is Some ==> b.frame == a.frame && b.status@ is Some
                // Where the overlay was up, the cart did not run.
                &&& self.cart.frame == 0 || self.cart.frame == (if o.overlay_up() {
                    o.cart.frame as int
                } else {
                    up(o.cart.frame as int)
                })
                // What is shown is the overlay over the cart's screen.
                &&& b.status@ is None ==> b.presentation@ == composed(
                    canvas_of(self.cart.state.res.screen_of()).pixels,
                    canvas_of(b.state.res.screen_of()).pixels,
                )
            },
            _ => false,
        }
    }

    /// [`Console::step`] with the network events the host offers for this
    /// frame.
    pub fn step_with<H: Host<G>>(&mut self, host: &mut Hosted<H>, input: FrameInput, events: Vec<Event>) -> (o:
        FrameOutput<'_>)
        requires
            old(self).wf(),
        ensures
            final(self).wf(),
            final(self).gives(o),
            final(self).stepped(*old(self), input),
            final(self).steps_from::<H>(
                *old(self),
                input,
                events@,
                old(host).asked(),
                final(host).asked(),
            ),
    {
        let ghost o = *self;
        let ghost offered = events@;
        let ghost was = host.asked();
        self.offer_net_events(events);
        self.cart.state.log = Vec::new();
        let ghost m = *self;
        assert(m.readied(o, offered));
        if self.shell.is_none() {
            self.cart.step(input.for_cart());
            assert(self.goes_on::<H>(m, input, was, host.asked()));
            return self.output();
        }
        self.step_over(host, input);
        assert(self.goes_on::<H>(m, input, was, host.asked()));
        self.output()
    }

    /// The cart's turn: the frame's keys are taken in, and it runs unless
    /// it is paused. Whether the Menu key went down.
    fn step_cart(&mut self, input: FrameInput) -> (menu_pressed: bool)
        requires
            old(self).wf(),
            old(self).shell is Some,
        ensures
            final(self).wf(),
            final(self).cart_turn(*old(self), input),
            menu_pressed == (input.buttons & BTN_MENU != 0 && !old(self).shell->0.menu_was),
    {
        let (menu_pressed, cart_input) = self.shell.as_mut().unwrap().read_keys(input);
        if !self.is_paused() {
            self.cart.step(cart_input);
        }
        menu_pressed
    }

    /// A frame of the cart and of the shell over it.
    #[verifier::spinoff_prover]
    #[verifier::rlimit(50)]
    fn step_over<H: Host<G>>(&mut self, host: &mut Hosted<H>, input: FrameInput)
        requires
            old(self).wf(),
            old(self).shell is Some,
        ensures
            final(self).wf(),
            final(self).stepped(*old(self), input),
            final(self).goes_on::<H>(
                *old(self),
                input,
                old(host).asked(),
                final(host).asked(),
            ),
    {
        let ghost m = *self;
        let overlay = self.overlay();
        let menu_pressed = self.step_cart(input);
        let ghost k = *self;
        self.step_shell(input, overlay, menu_pressed);
        let ghost s = *self;
        self.apply_requests(host);
        let ghost q = *self;
        self.present(input, overlay);
        assert(self.turned::<H>(m, input, k, s, q, old(host).asked(), host.asked()));
    }

    /// The shell's frame: tell it how the cart stands, and run it.
    fn step_shell(&mut self, input: FrameInput, overlay: bool, menu_pressed: bool)
        requires
            old(self).wf(),
            old(self).shell is Some,
        ensures
            final(self).wf(),
            *final(self) == (Console { shell: final(self).shell, ..*old(self) }),
            final(self).shell matches Some(b) && ({
                let a = old(self).shell->0;
                &&& b.menu_was == a.menu_was && b.stale == a.stale && b.paused == a.paused
                &&& b.preload == a.preload
                &&& b.state.width == a.state.width && b.state.height == a.state.height
                &&& a.status@ is None ==> b.frame == up(a.frame as int)
                &&& a.status@ is Some ==> b.frame == a.frame && b.status == a.status
            }),
            final(self).shell_turn(*old(self), input, overlay, menu_pressed),
    {
        let running = self.cart.guest.is_some() || self.cart.source.is_some();
        let s = self.shell.as_mut().unwrap();
        s.brief(self.cart.status.fault(), running, menu_pressed);
        let ghost told = *s;
        let sees = shell_input(input, overlay);
        s.step(sees);
        proof {
            let o = *old(self);
            assert(sees == (FrameInput { buttons: shell_sees(input.buttons, overlay) }));
            assert(told.briefed(o.shell->0, o.cart.status@, o.cart.there(), menu_pressed));
            assert(self.shell->0.ran(told, sees));
        }
    }

    /// Carry out what the shell asked for in its step.
    fn apply_requests<H: Host<G>>(&mut self, host: &mut Hosted<H>)
        requires
            old(self).wf(),
            old(self).shell is Some,
        ensures
            final(self).wf(),
            final(self).shell is Some,
            final(self).shell->0.status == old(self).shell->0.status,
            final(self).shell->0.frame == old(self).shell->0.frame,
            final(self).shell->0.menu_was == old(self).shell->0.menu_was,
            final(self).shell->0.stale == old(self).shell->0.stale,
            final(self).cart.frame == 0 || final(self).cart.frame == old(self).cart.frame,
            final(self).served::<H>(*old(self), old(host).asked(), final(host).asked()),
    {
        let requests = self.shell.as_mut().unwrap().take_requests();
        let mut i: usize = 0;
        let ghost mut path: Seq<(Console<G>, History)> = seq![(*self, host.asked())];
        while i < requests.len()
            invariant
                i <= requests@.len(),
                Console::walked::<H>(path, requests@.take(i as int)),
                path[0].0.shell is Some,
                path[0].0.shell->0.drained(old(self).shell->0, requests@),
                path[0].0 == (Console { shell: path[0].0.shell, ..*old(self) }),
                path[0].1 == old(host).asked(),
                path.last() == (*self, host.asked()),
                self.wf(),
                self.shell is Some,
                self.shell->0.status == old(self).shell->0.status,
                self.shell->0.frame == old(self).shell->0.frame,
                self.shell->0.menu_was == old(self).shell->0.menu_was,
                self.shell->0.stale == old(self).shell->0.stale,
                self.cart.frame == 0 || self.cart.frame == old(self).cart.frame,
            decreases requests.len() - i,
        {
            let ghost before = path;
            self.apply(host, &requests[i]);
            i += 1;
            proof {
                let v = requests@.take(i - 1);
                lemma_walk_on::<G, H>(before, v, *self, requests@[i - 1], host.asked());
                assert(v.push(requests@[i - 1]) =~= requests@.take(i as int));
                path = before.push((*self, host.asked()));
            }
        }
        assert(requests@.take(i as int) =~= requests@);
    }

    /// Lay the overlay over the cart's screen. Buttons that are held when
    /// the shell hands the screen over are stale for the cart.
    fn present(&mut self, input: FrameInput, overlay: bool)
        requires
            old(self).wf(),
            old(self).shell is Some,
        ensures
            final(self).wf(),
            final(self).presented(*old(self), input, overlay),
    {
        let now = self.overlay();
        let s = self.shell.as_mut().unwrap();
        if overlay && !now {
            s.stale = input.buttons;
        }
        if s.status.fault().is_none() {
            shell::compose(
                self.cart.state.screen_pixels(),
                s.state.screen_pixels(),
                &mut s.presentation,
            );
        }
    }
}

proof fn lemma_walk_on<G: Guest, H: Host<G>>(
    path: Seq<(Console<G>, History)>,
    v: Seq<SysRequest>,
    now: Console<G>,
    r: SysRequest,
    asked: History,
)
    requires
        Console::walked::<H>(path, v),
        now.applied::<H>(path.last().0, r, path.last().1, asked),
    ensures
        Console::walked::<H>(path.push((now, asked)), v.push(r)),
{
    let p = path.push((now, asked));
    let w = v.push(r);
    assert forall|i: int| 0 <= i < w.len() implies (#[trigger] p[i + 1]).0.applied::<H>(
        p[i].0,
        w[i],
        p[i].1,
        p[i + 1].1,
    ) by {
        if i < v.len() {
            assert(path[i + 1].0.applied::<H>(path[i].0, v[i], path[i].1, path[i + 1].1));
        }
    }
}

/// A fault freezes the console: a step after it leaves the guest as it
/// was, shows the same frame with the same colours and an empty log, and
/// keeps the fault.
pub proof fn law_a_fault_freezes_the_console<G: Guest, H: Host<G>>(
    was: Console<G>,
    now: Console<G>,
    fault: FaultView,
    input: FrameInput,
    events: Seq<Event>,
    asked: History,
    later: History,
    before: FrameOutput,
    after: FrameOutput,
)
    requires
        was.shell is None,
        was.cart.status@ == Some(fault),
        now.steps_from::<H>(was, input, events, asked, later),
        was.gives(before),
        now.gives(after),
    ensures
        now.cart.status@ == Some(fault),
        now.cart.guest == was.cart.guest,
        later == asked,
        after.frame == before.frame,
        after.width == before.width,
        after.height == before.height,
        after.screen@ == before.screen@,
        after.palette@ == before.palette@,
        after.log@.len() == 0,
{
    let m = choose|m: Console<G>| #[trigger]
        m.readied(was, events) && now.goes_on::<H>(m, input, asked, later);
    assert(now.cart.rendered(m.cart));
}

/// The cart never sees the Menu key, nor a button that is stale; it sees
/// every other button that is held.
pub proof fn law_what_a_cart_sees(buttons: u8, stale: u8)
    ensures
        cart_sees(buttons, stale) & BTN_MENU == 0,
        cart_sees(buttons, stale) & stale == 0,
        stale == 0 ==> cart_sees(buttons, stale) == buttons & CART_BUTTONS,
{
    assert(((buttons & !stale) & 0x3f) & 64 == 0u8) by (bit_vector);
    assert(((buttons & !stale) & 0x3f) & stale == 0u8) by (bit_vector);
    assert(stale == 0u8 ==> (buttons & !stale) & 0x3f == buttons & 0x3f) by (bit_vector);
}

/// A stale button stays stale exactly as long as it is held: once it was
/// released the cart sees it again.
pub proof fn law_a_released_button_is_fresh(stale: u8, released: u8, later: u8, bit: u8)
    requires
        released & bit == 0,
    ensures
        (stale & released) & bit == 0,
        ((stale & released) & later) & bit == 0,
{
    assert((stale & released) & bit == 0u8 && ((stale & released) & later) & bit == 0u8)
        by (bit_vector)
        requires
            released & bit == 0u8,
    ;
}

/// The shell and a running cart never both react to a button.
pub proof fn law_one_of_them_has_the_buttons<G>(c: Console<G>, buttons: u8)
    requires
        c.shell is Some,
    ensures
        shell_sees(buttons, c.overlay_up()) == 0 || c.paused() || !c.cart.runs(),
{
}

} // verus!
