//! A console with a network.

use kuula::assets::MapFile;
use kuula::console::{Console, Guest, Host, Hosted, Preload};
use kuula::draw::DrawState;
use kuula::fault::Fault;
use kuula::input::FrameInput;
use kuula::manifest::{ManifestFile, ParseError, ScreenMode, Service};
use kuula::net::link::{Link, LinkAction};
use kuula::net::memory::{MemoryTransport, MEMORY_TICKET};
use kuula::net::{Command, Event, FailCode, NetEnv, Reason, Status};
use kuula::save::{MemoryStore, SaveStore};
use kuula::shell::{Settings, SysRequest, SysState};
use kuula::snapshot::{Snapshot, SnapshotLimits};
use std::cell::RefCell;
use std::rc::Rc;
use toml::de::{DeTable, DeValue};
use toml::Spanned;

/// An error at a place of the text.
fn at(message: String, start: usize) -> ParseError {
    ParseError {
        message,
        start: Some(start),
    }
}

/// The strings of a list.
fn strings(v: &Spanned<DeValue<'_>>) -> Result<Vec<(String, usize)>, ParseError> {
    let list = v.get_ref().as_array();
    let list = list.ok_or_else(|| at("expected a sequence".to_string(), v.span().start))?;
    list.iter()
        .map(|e| match e.get_ref().as_str() {
            Some(s) => Ok((s.to_string(), e.span().start)),
            None => Err(at("expected a string".to_string(), e.span().start)),
        })
        .collect()
}

/// What a TOML parser makes of a manifest.
fn file_of(text: &str) -> Result<ManifestFile, ParseError> {
    let mut file = ManifestFile {
        title: String::new(),
        screen_mode: ScreenMode::default(),
        services: Vec::new(),
        sheets: Vec::new(),
        maps: Vec::new(),
    };
    let table = DeTable::parse(text).map_err(|e| ParseError {
        message: e.message().to_string(),
        start: e.span().map(|s| s.start),
    })?;
    for (section, content) in table.get_ref().iter() {
        let name: &str = section.get_ref();
        let keys = content.get_ref().as_table();
        let keys = keys.ok_or_else(|| at("expected a table".to_string(), content.span().start))?;
        for (key, value) in keys.iter() {
            let word: &str = key.get_ref();
            let text = || {
                let s = value.get_ref().as_str();
                s.ok_or_else(|| at("expected a string".to_string(), value.span().start))
            };
            match (name, word) {
                ("cart", "title") => file.title = text()?.to_string(),
                ("cart", "screen_mode") => {
                    let mode = text()?;
                    file.screen_mode = ScreenMode::parse(mode).ok_or_else(|| {
                        at(format!("unknown screen mode {mode:?}"), value.span().start)
                    })?;
                }
                ("cart", "services") => {
                    for (s, start) in strings(value)? {
                        if s != Service::Net.as_str() {
                            return Err(at(format!("unknown service {s:?}"), start));
                        }
                        file.services.push(Service::Net);
                    }
                }
                ("preload", "sheets") => {
                    file.sheets = strings(value)?.into_iter().map(|s| s.0).collect();
                }
                ("preload", "maps") => {
                    file.maps = strings(value)?.into_iter().map(|s| s.0).collect();
                }
                _ => return Err(at(format!("unknown field `{word}`"), key.span().start)),
            }
        }
        if name != "cart" && name != "preload" {
            return Err(at(format!("unknown field `{name}`"), section.span().start));
        }
    }
    Ok(file)
}

/// A guest of a test.
trait Plays {
    fn step(&mut self, state: &mut DrawState, input: FrameInput, frame: u64) -> Result<(), Fault>;
}

struct Boxed(Box<dyn Plays>);

fn boxed(p: impl Plays + 'static) -> Boxed {
    Boxed(Box::new(p))
}

impl Guest for Boxed {
    fn step(&mut self, state: &mut DrawState, input: FrameInput, frame: u64) -> Result<(), Fault> {
        self.0.step(state, input, frame)
    }

    fn state(&mut self, _: &Vec<String>) -> Result<String, Fault> {
        Err(Fault::new(Fault::RUNTIME_ERROR, "main.lua", None, "no state"))
    }
}

/// A host of a test: what builds its guests, and the one cart it opens.
struct Lab<F> {
    factory: F,
    source: Option<Rc<Snapshot>>,
}

fn lab<F: FnMut(&str, &str) -> Result<Boxed, Fault>>(factory: F) -> Hosted<Lab<F>> {
    Hosted::new(Lab {
        factory,
        source: None,
    })
}

impl<F: FnMut(&str, &str) -> Result<Boxed, Fault>> Host<Boxed> for Lab<F> {
    fn parse_manifest(&mut self, text: &str) -> Result<ManifestFile, ParseError> {
        file_of(text)
    }

    fn parse_map(&mut self, bytes: &Vec<u8>) -> Result<MapFile, String> {
        Err(format!("{} bytes", bytes.len()))
    }

    fn build(&mut self, text: &str, chunk: &str) -> Result<Boxed, Fault> {
        (self.factory)(text, chunk)
    }

    fn open(&mut self, name: &str) -> Result<(Rc<Snapshot>, SaveStore), Fault> {
        match &self.source {
            Some(s) => Ok((s.clone(), SaveStore::Memory(MemoryStore::new()))),
            None => Err(Fault::new(Fault::CART_READ_ERROR, name, None, "no such cart")),
        }
    }
}

/// One end of a pair of transports, lost when it is dropped.
struct Half {
    shared: Rc<RefCell<MemoryTransport>>,
    me: usize,
}

impl Half {
    fn pair() -> (Half, Half) {
        let shared = Rc::new(RefCell::new(MemoryTransport::pair()));
        let a = Half {
            shared: shared.clone(),
            me: 0,
        };
        (a, Half { shared, me: 1 })
    }

    fn push(&mut self, c: Command) {
        self.shared.borrow_mut().push(self.me, c);
    }

    fn poll(&mut self, out: &mut Vec<Event>, max: usize) {
        self.shared.borrow_mut().poll(self.me, out, max);
    }
}

impl Drop for Half {
    fn drop(&mut self) {
        self.shared.borrow_mut().lose(self.me);
    }
}

/// A link with the transports that its host builds.
struct Linked {
    link: Link,
    transport: Option<Half>,
    build: Box<dyn FnMut() -> Half>,
}

impl Linked {
    fn new(link: Link, build: Box<dyn FnMut() -> Half>) -> Linked {
        Linked {
            link,
            transport: None,
            build,
        }
    }

    /// A link over one transport that is there already.
    fn over(half: Half) -> Linked {
        let mut only = Some(half);
        Linked::new(Link::over(), Box::new(move || only.take().unwrap()))
    }

    fn close(&mut self) {
        if let Some(mut t) = self.transport.take() {
            t.push(Command::Leave);
        }
    }

    fn act(&mut self, actions: Vec<LinkAction>) {
        for a in actions {
            match a {
                LinkAction::Build => self.transport = Some((self.build)()),
                LinkAction::Push(c) => self.transport.as_mut().unwrap().push(c),
                LinkAction::Close => self.close(),
            }
        }
    }

    /// One frame of a console over the link.
    fn step<H: Host<Boxed>>(&mut self, c: &mut Console<Boxed>, host: &mut Hosted<H>) {
        let (mut events, left) = c.poll_linked(&mut self.link);
        if let Some(t) = &mut self.transport {
            t.poll(&mut events, left);
        }
        let actions = c.step_linked(host, &mut self.link, FrameInput::default(), events);
        self.act(actions);
    }

    fn set_permitted(&mut self, on: bool) {
        if self.link.set_permitted(on) {
            self.close();
        }
    }
}

const NET_MANIFEST: &[u8] = b"[cart]\nservices = [\"net\"]\n";

fn cart(entries: Vec<(&str, &[u8])>) -> Rc<Snapshot> {
    Rc::new(
        Snapshot::from_entries(
            entries
                .into_iter()
                .map(|(k, v)| (k.to_string(), v.to_vec()))
                .collect(),
            SnapshotLimits::default(),
        )
        .unwrap(),
    )
}

/// A guest scripted by frame: hosts on 1, sends on every frame with
/// a session, drains its inbox into the log, faults on `fail_on`.
struct Scripted {
    fail_on: Option<u64>,
    join: bool,
}

impl Plays for Scripted {
    fn step(&mut self, state: &mut DrawState, _: FrameInput, frame: u64) -> Result<(), Fault> {
        let net = state.net.as_mut().expect("the cart declares net");
        while let Some(e) = net.recv() {
            state.log.push(format!("{frame}:{}", e.kind()));
        }
        if frame == 1 {
            if self.join {
                net.join(MEMORY_TICKET.into());
            } else {
                net.host();
            }
        }
        if net.status == Status::Connected {
            net.send(vec![frame as u8]);
        }
        if self.fail_on == Some(frame) {
            return Err(Fault::new(
                Fault::RUNTIME_ERROR,
                "main.lua",
                Some(1),
                "boom",
            ));
        }
        Ok(())
    }
}

fn permitted() -> NetEnv {
    NetEnv {
        permitted: true,
        invite: None,
    }
}

struct Plain;
impl Plays for Plain {
    fn step(&mut self, state: &mut DrawState, _: FrameInput, _: u64) -> Result<(), Fault> {
        assert!(state.net.is_none(), "a plain cart has no net state");
        Ok(())
    }
}

#[test]
fn a_plain_cart_has_no_net_state_and_room_zero() {
    let mut c_lab = lab(|_: &str, _: &str| {
        Ok(boxed(Plain))
    });
    let c = Console::new(cart(vec![("main.lua", b"")]), &mut c_lab);
    assert!(c.net_state().is_none());
    assert_eq!(c.net_room(), 0);
    let mut c = c;
    c.step_with(&mut c_lab, FrameInput::default(), vec![Event::Permission { granted: true }]);
    assert!(c.take_net_commands().is_empty());
}

#[test]
fn two_consoles_over_the_memory_pair_exchange_messages() {
    let (a, b) = Half::pair();
    let src = cart(vec![("main.lua", b""), ("cart.toml", NET_MANIFEST)]);
    let mut host_lab = lab(|_: &str, _: &str| {
        Ok(boxed(Scripted {
            fail_on: None,
            join: false,
        }))
    });
    let mut host = Console::new(src.clone(), &mut host_lab);
    let mut joiner_lab = lab(|_: &str, _: &str| {
        Ok(boxed(Scripted {
            fail_on: None,
            join: true,
        }))
    });
    let mut joiner = Console::new(src, &mut joiner_lab);
    host.set_net_env(permitted());
    joiner.set_net_env(permitted());
    let mut la = Linked::over(a);
    let mut lb = Linked::over(b);
    let mut log = Vec::new();
    for _ in 0..6 {
        la.step(&mut host, &mut host_lab);
        log.extend(host.output().log.iter().map(|l| format!("h{l}")));
        lb.step(&mut joiner, &mut joiner_lab);
        log.extend(joiner.output().log.iter().map(|l| format!("j{l}")));
    }
    // The memory pair delivers within the frame, so the host sees
    // its ticket and the joiner together on frame 2.
    assert_eq!(
        log,
        [
            "h2:hosting",
            "h2:connected",
            "j2:connected",
            "j2:message",
            "h3:message",
            "j3:message",
            "h4:message",
            "j4:message",
            "h5:message",
            "j5:message",
            "h6:message",
            "j6:message",
        ]
    );
    let ns = host.net_state().unwrap();
    assert_eq!(ns.status, Status::Connected);
    assert_eq!(ns.ticket.as_deref(), Some(MEMORY_TICKET));
    assert_eq!(ns.sent, 5);
    assert_eq!(ns.received, 4);
}

#[test]
fn a_fault_with_a_session_open_says_bye_once() {
    let (a, mut b) = Half::pair();
    let src = cart(vec![("main.lua", b""), ("cart.toml", NET_MANIFEST)]);
    let mut host_lab = lab(|_: &str, _: &str| {
        Ok(boxed(Scripted {
            fail_on: Some(3),
            join: false,
        }))
    });
    let mut host = Console::new(src, &mut host_lab);
    host.set_net_env(permitted());
    let mut la = Linked::over(a);
    la.step(&mut host, &mut host_lab);
    la.step(&mut host, &mut host_lab);
    b.push(Command::Join {
        ticket: MEMORY_TICKET.into(),
    });
    la.step(&mut host, &mut host_lab);
    assert!(host.state().fault().is_some());
    assert!(!la.link.is_live(), "the link closed on the fault");
    let mut out = Vec::new();
    b.poll(&mut out, 64);
    assert_eq!(
        out,
        [
            Event::Connected { peer: 1 },
            Event::Disconnected {
                reason: Reason::Left
            }
        ]
    );
    // The faulting frame's sends were discarded: the only command
    // after the fault was the leave, and nothing follows.
    la.step(&mut host, &mut host_lab);
    assert!(host.take_net_commands().is_empty());
}

#[test]
fn a_cart_that_hosts_and_faults_in_one_frame_leaves_nothing_behind() {
    // `host()` then the fault, in frame 1: the teardown's `Leave`
    // is the only command, and the queued `Host` is gone with the
    // cart, so a second host tick after the fault drains nothing.
    let src = cart(vec![("main.lua", b""), ("cart.toml", NET_MANIFEST)]);
    let mut c_lab = lab(|_: &str, _: &str| {
        Ok(boxed(Scripted {
            fail_on: Some(1),
            join: false,
        }))
    });
    let mut c = Console::new(src, &mut c_lab);
    c.set_net_env(permitted());
    c.step_with(&mut c_lab, FrameInput::default(), Vec::new());
    assert!(c.state().fault().is_some());
    assert_eq!(c.take_net_commands(), [Command::Leave]);
    c.step_with(&mut c_lab, FrameInput::default(), Vec::new());
    assert!(c.take_net_commands().is_empty());
}

#[test]
fn events_wait_while_paused_and_a_restart_leaves() {
    struct StubShell;
    impl Plays for StubShell {
        fn step(
            &mut self,
            state: &mut DrawState,
            _: FrameInput,
            frame: u64,
        ) -> Result<(), Fault> {
            let sys = state.sys.as_mut().expect("the shell has sys");
            match frame {
                1 => sys.request(SysRequest::Run("net".into())),
                4 => sys.request(SysRequest::Paused(true)),
                7 => sys.request(SysRequest::Paused(false)),
                9 => sys.request(SysRequest::Restart),
                _ => {}
            }
            Ok(())
        }
    }
    let source = cart(vec![("main.lua", b""), ("cart.toml", NET_MANIFEST)]);
    let mut c_lab = lab(|_: &str, _: &str| {
        Ok(boxed(Scripted {
            fail_on: None,
            join: false,
        }))
    });
    c_lab.host.source = Some(source);
    let mut c = Console::with_shell(
        boxed(StubShell),
        Vec::new(),
        Settings::default(),
        Preload::Decode,
    );
    c.set_net_env(permitted());
    // Every host builds a fresh pair; the peer sides are kept so the
    // test can drive them.
    let peers: Rc<RefCell<Vec<Half>>> = Default::default();
    let stash = peers.clone();
    let mut link = Linked::new(
        Link::new(),
        Box::new(move || {
            let (a, b) = Half::pair();
            stash.borrow_mut().push(b);
            a
        }),
    );
    link.set_permitted(true);
    let mut seen = Vec::new();
    for shell_frame in 1..=10 {
        if shell_frame == 3 {
            peers.borrow_mut()[0].push(Command::Join {
                ticket: MEMORY_TICKET.into(),
            });
        }
        if shell_frame == 5 {
            // Offered while paused: waits, and the room shrinks.
            peers.borrow_mut()[0].push(Command::Send { data: vec![9] });
        }
        link.step(&mut c, &mut c_lab);
        seen.extend(c.output().log.iter().map(|l| format!("{shell_frame}/{l}")));
        if shell_frame == 6 {
            assert!(c.is_paused());
            assert_eq!(c.net_room(), 63, "one event waits: {seen:?}");
        }
    }
    assert!(
        seen.contains(&"8/4:message".to_string()),
        "the waiting message was admitted on resume: {seen:?}"
    );
    // The restart replaced the cart: its peer heard bye, and the
    // fresh cart hosts anew on its own frame 1, over a new transport.
    assert_eq!(link.link.constructions(), 2);
    let mut out = Vec::new();
    peers.borrow_mut()[0].poll(&mut out, 64);
    assert!(
        out.contains(&Event::Disconnected {
            reason: Reason::Left
        }),
        "{out:?}"
    );
    let state = c.net_state().unwrap();
    assert_eq!(state.status, Status::Hosting, "{state:?}");
    assert!(state.permitted, "the shell's carts inherit the env");
    let _ = SysState::new(Vec::new(), Settings::default());
}

#[test]
fn without_permission_host_is_denied_and_no_transport_is_built() {
    let src = cart(vec![("main.lua", b""), ("cart.toml", NET_MANIFEST)]);
    let mut c_lab = lab(|_: &str, _: &str| {
        Ok(boxed(Scripted {
            fail_on: None,
            join: false,
        }))
    });
    let mut c = Console::new(src, &mut c_lab);
    let (a, _b) = Half::pair();
    let mut link = Linked::over(a);
    link.set_permitted(false);
    link.step(&mut c, &mut c_lab);
    // Frame 1 drained the permission event the link sent when it was
    // switched off, then had its host denied locally.
    assert_eq!(c.output().log.to_vec(), ["1:permission"]);
    link.step(&mut c, &mut c_lab);
    assert_eq!(link.link.constructions(), 0);
    assert_eq!(c.output().log.to_vec(), ["2:failed"]);
    let state = c.net_state().unwrap();
    assert_eq!(state.status, Status::Off);
    assert!(state.inbox.front().is_none());
    let _ = FailCode::Denied;
}
