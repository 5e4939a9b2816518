//! The console: one cart, or a cart under a shell.

use kuula::assets::MapFile;
use kuula::assets::encode_indexed_png;
use kuula::audio::synth::Patch;
use kuula::console::{Console, ConsoleState, Guest, Host, Hosted, Preload};
use kuula::draw::DrawState;
use kuula::fault::Fault;
use kuula::input::{FrameInput, BTN_A};
use kuula::manifest::{ManifestFile, ParseError, ScreenMode, Service};
use kuula::palette::{default_palette, PALETTE_SIZE};
use kuula::save::{MemoryStore, SaveStore};
use kuula::shell::{Settings, SysRequest};
use kuula::snapshot::{Snapshot, SnapshotLimits};
use std::cell::RefCell;
use std::rc::Rc;
use toml::de::{DeTable, DeValue};
use toml::Spanned;

/// An error at a place of the text.
fn at(message: String, start: usize) -> ParseError {
    ParseError {
        message,
        start: Some(start),
    }
}

/// The strings of a list.
fn strings(v: &Spanned<DeValue<'_>>) -> Result<Vec<(String, usize)>, ParseError> {
    let list = v.get_ref().as_array();
    let list = list.ok_or_else(|| at("expected a sequence".to_string(), v.span().start))?;
    list.iter()
        .map(|e| match e.get_ref().as_str() {
            Some(s) => Ok((s.to_string(), e.span().start)),
            None => Err(at("expected a string".to_string(), e.span().start)),
        })
        .collect()
}

/// What a TOML parser makes of a manifest.
fn file_of(text: &str) -> Result<ManifestFile, ParseError> {
    let mut file = ManifestFile {
        title: String::new(),
        screen_mode: ScreenMode::default(),
        services: Vec::new(),
        sheets: Vec::new(),
        maps: Vec::new(),
    };
    let table = DeTable::parse(text).map_err(|e| ParseError {
        message: e.message().to_string(),
        start: e.span().map(|s| s.start),
    })?;
    for (section, content) in table.get_ref().iter() {
        let name: &str = section.get_ref();
        let keys = content.get_ref().as_table();
        let keys = keys.ok_or_else(|| at("expected a table".to_string(), content.span().start))?;
        for (key, value) in keys.iter() {
            let word: &str = key.get_ref();
            let text = || {
                let s = value.get_ref().as_str();
                s.ok_or_else(|| at("expected a string".to_string(), value.span().start))
            };
            match (name, word) {
                ("cart", "title") => file.title = text()?.to_string(),
                ("cart", "screen_mode") => {
                    let mode = text()?;
                    file.screen_mode = ScreenMode::parse(mode).ok_or_else(|| {
                        at(format!("unknown screen mode {mode:?}"), value.span().start)
                    })?;
                }
                ("cart", "services") => {
                    for (s, start) in strings(value)? {
                        if s != Service::Net.as_str() {
                            return Err(at(format!("unknown service {s:?}"), start));
                        }
                        file.services.push(Service::Net);
                    }
                }
                ("preload", "sheets") => {
                    file.sheets = strings(value)?.into_iter().map(|s| s.0).collect();
                }
                ("preload", "maps") => {
                    file.maps = strings(value)?.into_iter().map(|s| s.0).collect();
                }
                _ => return Err(at(format!("unknown field `{word}`"), key.span().start)),
            }
        }
        if name != "cart" && name != "preload" {
            return Err(at(format!("unknown field `{name}`"), section.span().start));
        }
    }
    Ok(file)
}

/// A guest of a test.
trait Plays {
    fn step(&mut self, state: &mut DrawState, input: FrameInput, frame: u64) -> Result<(), Fault>;
}

struct Boxed(Box<dyn Plays>);

fn boxed(p: impl Plays + 'static) -> Boxed {
    Boxed(Box::new(p))
}

impl Guest for Boxed {
    fn step(&mut self, state: &mut DrawState, input: FrameInput, frame: u64) -> Result<(), Fault> {
        self.0.step(state, input, frame)
    }
}

/// A host of a test: what builds its guests, and the one cart it opens.
struct Lab<F> {
    factory: F,
    source: Option<Rc<Snapshot>>,
}

fn lab<F: FnMut(&str, &str) -> Result<Boxed, Fault>>(factory: F) -> Hosted<Lab<F>> {
    Hosted::new(Lab {
        factory,
        source: None,
    })
}

/// A host whose factory must not run.
fn no_guests() -> Hosted<Lab<fn(&str, &str) -> Result<Boxed, Fault>>> {
    lab(|_, _| panic!("factory must not run"))
}

impl<F: FnMut(&str, &str) -> Result<Boxed, Fault>> Host<Boxed> for Lab<F> {
    fn parse_manifest(&mut self, text: &str) -> Result<ManifestFile, ParseError> {
        file_of(text)
    }

    fn parse_map(&mut self, bytes: &Vec<u8>) -> Result<MapFile, String> {
        Err(format!("{} bytes", bytes.len()))
    }

    fn build(&mut self, text: &str, chunk: &str) -> Result<Boxed, Fault> {
        (self.factory)(text, chunk)
    }

    fn open(&mut self, name: &str) -> Result<(Rc<Snapshot>, SaveStore), Fault> {
        match &self.source {
            Some(s) => Ok((s.clone(), SaveStore::Memory(MemoryStore::new()))),
            None => Err(Fault::new(Fault::CART_READ_ERROR, name, None, "no such cart")),
        }
    }
}

struct Stub {
    fail_on: Option<u64>,
}

impl Plays for Stub {
    fn step(
        &mut self,
        state: &mut DrawState,
        input: FrameInput,
        frame: u64,
    ) -> Result<(), Fault> {
        if self.fail_on == Some(frame) {
            return Err(Fault::new(
                Fault::RUNTIME_ERROR,
                "main.lua",
                Some(3),
                "boom",
            ));
        }
        state.cls(frame as u8);
        state
            .log
            .push(format!("frame {frame} buttons {}", input.buttons));
        Ok(())
    }
}

fn cart(entries: Vec<(&str, &[u8])>) -> Rc<Snapshot> {
    Rc::new(
        Snapshot::from_entries(
            entries
                .into_iter()
                .map(|(k, v)| (k.to_string(), v.to_vec()))
                .collect(),
            SnapshotLimits::default(),
        )
        .unwrap(),
    )
}

#[test]
fn first_step_is_frame_one_with_a_full_size_screen() {
    let mut host = no_guests();
    let mut c = Console::from_guest(boxed(Stub { fail_on: None }));
    assert_eq!(c.output().frame, 0);
    let out = c.step(&mut host, FrameInput::new(0b1));
    assert_eq!(out.frame, 1);
    assert_eq!((out.width, out.height), (640, 480));
    assert_eq!(out.screen.len(), 640 * 480);
    assert_eq!(out.palette.len(), PALETTE_SIZE);
    assert!(out.screen.iter().all(|&p| p == 1));
    assert_eq!(*out.log, ["frame 1 buttons 1"]);
    assert_eq!(*c.state(), ConsoleState::Running);
}

#[test]
fn the_same_inputs_give_the_same_frames() {
    let mut host = no_guests();
    let mut a = Console::from_guest(boxed(Stub { fail_on: Some(4) }));
    let mut b = Console::from_guest(boxed(Stub { fail_on: Some(4) }));
    for buttons in [0u8, 1, 33, 64, 2] {
        let x = a.step(&mut host, FrameInput::new(buttons));
        let y = b.step(&mut host, FrameInput::new(buttons));
        assert_eq!(x.screen, y.screen);
        assert_eq!(x.palette[..], y.palette[..]);
        assert_eq!((x.frame, x.log), (y.frame, y.log));
        assert_eq!(x.audio, y.audio);
    }
    assert_eq!(a.frame(), 4);
    assert_eq!(a.state(), b.state());
}

#[test]
fn log_is_per_frame() {
    let mut host = no_guests();
    let mut c = Console::from_guest(boxed(Stub { fail_on: None }));
    c.step(&mut host, FrameInput::default());
    let out = c.step(&mut host, FrameInput::default());
    assert_eq!(*out.log, ["frame 2 buttons 0"]);
}

#[test]
fn a_fault_freezes_the_console() {
    let mut host = no_guests();
    let mut c = Console::from_guest(boxed(Stub { fail_on: Some(3) }));
    c.step(&mut host, FrameInput::default());
    c.step(&mut host, FrameInput::default());
    let out = c.step(&mut host, FrameInput::default());
    assert_eq!(out.frame, 3);
    assert!(
        out.screen.iter().all(|&p| p == 2),
        "screen from frame 2 survives"
    );
    let fault = c.state().fault().cloned().expect("faulted");
    assert_eq!(fault.code, "runtime_error");
    assert_eq!(fault.location(), "main.lua:3");
    let out = c.step(&mut host, FrameInput::default());
    assert_eq!(out.frame, 3, "step after a fault is a no-op");
    assert!(out.screen.iter().all(|&p| p == 2));
}

#[test]
fn the_faulting_frames_log_is_returned_once() {
    struct LogThenFail;
    impl Plays for LogThenFail {
        fn step(&mut self, state: &mut DrawState, _: FrameInput, _: u64) -> Result<(), Fault> {
            state.log.push("tick".to_string());
            Err(Fault::new(
                Fault::RUNTIME_ERROR,
                "main.lua",
                Some(1),
                "bang",
            ))
        }
    }
    let mut host = no_guests();
    let mut c = Console::from_guest(boxed(LogThenFail));
    assert_eq!(*c.step(&mut host, FrameInput::default()).log, ["tick"]);
    assert!(c.step(&mut host, FrameInput::default()).log.is_empty());
    assert!(c.output().log.is_empty());
}

#[test]
fn new_hands_main_lua_to_the_factory() {
    let src = cart(vec![("main.lua", b"return 1")]);
    let mut seen = None;
    let c = {
        let mut host = lab(|text, name| {
            seen = Some((text.to_string(), name.to_string()));
            Ok(boxed(Stub { fail_on: None }))
        });
        Console::new(src, &mut host)
    };
    assert_eq!(seen, Some(("return 1".to_string(), "main.lua".to_string())));
    assert_eq!(*c.state(), ConsoleState::Running);
    assert_eq!(c.screen_mode(), ScreenMode::High);
}

#[test]
fn new_reports_a_missing_main_lua_as_a_fault() {
    let src = cart(vec![]);
    let c = Console::new(src, &mut no_guests());
    let fault = c.state().fault().expect("faulted");
    assert_eq!(fault.code, "cart_read_error");
    assert_eq!(fault.file, "main.lua");
}

#[test]
fn new_reports_a_compile_error_as_a_fault() {
    let src = cart(vec![("main.lua", b"x = = 1")]);
    let mut host = lab(|_: &str, name: &str| {
        Err(Fault::new(
            Fault::COMPILE_ERROR,
            name,
            Some(1),
            "unexpected symbol",
        ))
    });
    let mut c = Console::new(src, &mut host);
    let fault = c.state().fault().cloned().expect("faulted");
    assert_eq!(fault.code, "compile_error");
    assert_eq!(fault.location(), "main.lua:1");
    assert_eq!(c.step(&mut host, FrameInput::default()).frame, 0);
}

#[test]
fn manifest_selects_the_screen_mode_and_errors_are_faults() {
    let src = cart(vec![
        ("main.lua", b""),
        ("cart.toml", b"[cart]\nscreen_mode = \"320x240\"\n"),
    ]);
    let mut host = lab(|_: &str, _: &str| Ok(boxed(Stub { fail_on: None })));
    let mut c = Console::new(src, &mut host);
    let out = c.step(&mut host, FrameInput::default());
    assert_eq!((out.width, out.height), (320, 240));
    assert_eq!(c.screen_mode(), ScreenMode::Low);

    let src = cart(vec![
        ("main.lua", b""),
        ("cart.toml", b"[cart]\nbogus = 1\n"),
    ]);
    let c = Console::new(src, &mut no_guests());
    let fault = c.state().fault().expect("faulted");
    assert_eq!(fault.code, "manifest_error");
    assert_eq!(fault.file, "cart.toml");
    assert_eq!(fault.line, Some(2));
    assert!(fault.message.contains("bogus"), "{}", fault.message);
}

#[test]
fn preload_decodes_at_boot_and_a_missing_asset_is_a_fault() {
    let png =
        encode_indexed_png(8, 8, &[1; 64], &default_palette());
    let src = cart(vec![
        ("main.lua", b""),
        ("cart.toml", b"[preload]\nsheets = [\"hero\"]\n"),
        ("gfx/hero.png", &png),
    ]);
    let mut host = lab(|_: &str, _: &str| Ok(boxed(Stub { fail_on: None })));
    let c = Console::new(src, &mut host);
    assert_eq!(*c.state(), ConsoleState::Running);
    assert_eq!(c.draw_state().res.ledger().used(), 64);
    assert!(c.draw_state().res.named("gfx/hero.png").is_some());

    let src = cart(vec![
        ("main.lua", b""),
        ("cart.toml", b"[preload]\nmaps = [\"nope\"]\n"),
    ]);
    let c = Console::new(src, &mut no_guests());
    let fault = c.state().fault().expect("faulted");
    assert_eq!(fault.code, "asset_not_found");
    assert_eq!(fault.file, "map/nope.json");
}

#[test]
fn a_shell_that_faults_while_paused_keeps_the_cart_silent() {

    struct StubShell;
    impl Plays for StubShell {
        fn step(
            &mut self,
            state: &mut DrawState,
            _: FrameInput,
            frame: u64,
        ) -> Result<(), Fault> {
            let sys = state.sys.as_mut().expect("the shell has sys");
            match frame {
                1 => sys.request(SysRequest::Run("noisy".into())),
                2 => sys.request(SysRequest::Paused(true)),
                3 => {
                    return Err(Fault::new(
                        Fault::RUNTIME_ERROR,
                        "rom/main.lua",
                        Some(1),
                        "shell bug",
                    ))
                }
                _ => {}
            }
            Ok(())
        }
    }
    struct Noisy;
    impl Plays for Noisy {
        fn step(&mut self, state: &mut DrawState, _: FrameInput, _: u64) -> Result<(), Fault> {
            state
                .audio
                .play_note(0, Patch::default(), 60);
            Ok(())
        }
    }
    let source = cart(vec![("main.lua", b"")]);
    let mut host = lab(|_: &str, _: &str| Ok(boxed(Noisy)));
    host.host.source = Some(source);
    let mut c = Console::with_shell(
        boxed(StubShell),
        Vec::new(),
        Settings::default(),
        Preload::Decode,
    );
    c.step(&mut host, FrameInput::default());
    c.step(&mut host, FrameInput::default());
    assert!(c.is_paused());
    assert!(
        c.draw_state().audio.output().iter().any(|&s| s != 0),
        "the cart rendered a note before the pause"
    );
    let silent = c.step(&mut host, FrameInput::default()).audio.iter().all(|&s| s == 0);
    assert!(c.shell_fault().is_some(), "the shell faulted while paused");
    assert!(silent, "a paused cart stays silent after its shell dies");
    let out = c.step(&mut host, FrameInput::default());
    assert!(out.audio.iter().all(|&s| s == 0));
}

#[test]
fn buttons_held_when_the_shell_starts_a_cart_stay_masked_until_released() {

    struct StubShell;
    impl Plays for StubShell {
        fn step(
            &mut self,
            state: &mut DrawState,
            _: FrameInput,
            frame: u64,
        ) -> Result<(), Fault> {
            let sys = state.sys.as_mut().expect("the shell has sys");
            if frame == 1 {
                sys.request(SysRequest::Run("cart".into()));
            }
            Ok(())
        }
    }
    struct Records(Rc<RefCell<Vec<u8>>>);
    impl Plays for Records {
        fn step(&mut self, _: &mut DrawState, input: FrameInput, _: u64) -> Result<(), Fault> {
            self.0.borrow_mut().push(input.buttons);
            Ok(())
        }
    }
    let seen = Rc::new(RefCell::new(Vec::new()));
    let source = cart(vec![("main.lua", b"")]);
    let recorded = seen.clone();
    let mut host = lab(|_: &str, _: &str| Ok(boxed(Records(recorded.clone()))));
    host.host.source = Some(source);
    let mut c = Console::with_shell(
        boxed(StubShell),
        Vec::new(),
        Settings::default(),
        Preload::Decode,
    );
    let a = FrameInput::new(BTN_A);
    // A is held while the shell picks the cart and for two more
    // frames after the cart starts.
    c.step(&mut host, a);
    c.step(&mut host, a);
    c.step(&mut host, a);
    c.step(&mut host, FrameInput::default());
    c.step(&mut host, a);
    assert_eq!(*seen.borrow(), vec![0, 0, 0, BTN_A]);
}

#[test]
fn a_guest_without_a_codec_refuses_to_dump() {
    let mut c = Console::from_guest(boxed(Stub { fail_on: None }));
    let f = c.state_dump(&vec!["x".to_string()]).unwrap_err();
    assert_eq!((f.code.as_str(), f.message.as_str()), ("unsupported", "this guest cannot dump state"));
    let mut none: Console<Boxed> = Console::faulted(Fault::new("x", "", None, ""));
    assert_eq!(none.state_dump(&Vec::new()).unwrap_err().message, "no guest");
}

#[test]
fn a_guest_is_built_once_and_only_when_the_rest_is_good() {
    let calls = Rc::new(RefCell::new(Vec::new()));
    let seen = calls.clone();
    let mut host = lab(move |text, chunk| {
        seen.borrow_mut().push((text.to_string(), chunk.to_string()));
        Ok(boxed(Stub { fail_on: None }))
    });
    let good = cart(vec![("main.lua", b"-- cart")]);
    let c = Console::new(good, &mut host);
    assert_eq!(*c.state(), ConsoleState::Running);
    assert_eq!(*calls.borrow(), [("-- cart".to_string(), "main.lua".to_string())]);
    let bad = cart(vec![("main.lua", b"-- cart"), ("cart.toml", b"[cart]\nnope = 1\n")]);
    let c = Console::new(bad, &mut host);
    assert_eq!(c.state().fault().unwrap().code, "manifest_error");
    let missing = cart(vec![
        ("main.lua", b"-- cart"),
        ("cart.toml", b"[preload]\nsheets = [\"tiles\"]\n"),
    ]);
    let c = Console::new(missing, &mut host);
    assert_eq!(c.state().fault().unwrap().code, "asset_not_found");
    assert_eq!(calls.borrow().len(), 1);
}

#[test]
fn two_runs_of_one_cart_are_alike() {
    let source = cart(vec![
        ("main.lua", b"-- cart"),
        ("cart.toml", b"[cart]\nscreen_mode = \"320x240\"\n"),
    ]);
    let mut one = lab(|_, _| Ok(boxed(Stub { fail_on: Some(4) })));
    let mut two = lab(|_, _| Ok(boxed(Stub { fail_on: Some(4) })));
    let mut a = Console::new(source.clone(), &mut one);
    let mut b = Console::new(source, &mut two);
    for buttons in [0u8, 1, 33, 64, 2] {
        let x = a.step(&mut one, FrameInput::new(buttons));
        let y = b.step(&mut two, FrameInput::new(buttons));
        assert_eq!((x.width, x.height), (320, 240));
        assert_eq!(x.screen, y.screen);
        assert_eq!(x.palette[..], y.palette[..]);
        assert_eq!((x.frame, x.log), (y.frame, y.log));
        assert_eq!(x.audio, y.audio);
    }
    assert_eq!(a.state(), b.state());
    assert!(a.state().fault().is_some());
}
