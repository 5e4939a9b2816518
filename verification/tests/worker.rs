//! The worker's answers.

use kuula::assets::MapFile;
use kuula::console::{Console, ConsoleState, Guest, Host, Hosted};
use kuula::draw::DrawState;
use kuula::fault::Fault;
use kuula::input::FrameInput;
use kuula::ipc::Message;
use kuula::manifest::{ManifestFile, ParseError};
use kuula::save::{SaveStore, SLOT_BYTES};
use kuula::snapshot::{Snapshot, SnapshotLimits};
use kuula::worker::{serve, Served, EXIT_PROTOCOL};
use std::rc::Rc;

/// A guest that saves its frame number and logs its input.
struct Saver;

impl Guest for Saver {
    fn step(&mut self, state: &mut DrawState, input: FrameInput, frame: u64) -> Result<(), Fault> {
        state.cls(frame as u8);
        state.log_line(format!("buttons {}", input.buttons));
        state.saves.write(2, &[frame as u8]).unwrap();
        if frame == 3 {
            return Err(Fault::new(Fault::RUNTIME_ERROR, "main.lua", Some(1), "boom"));
        }
        Ok(())
    }

    fn state(&mut self, _: &Vec<String>) -> Result<String, Fault> {
        Ok("{}".to_string())
    }
}

struct Bench;

impl Host<Saver> for Bench {
    fn parse_manifest(&mut self, _: &str) -> Result<ManifestFile, ParseError> {
        Err(ParseError {
            message: "no manifests here".to_string(),
            start: None,
        })
    }

    fn parse_map(&mut self, _: &Vec<u8>) -> Result<MapFile, String> {
        Err("no maps here".to_string())
    }

    fn build(&mut self, _: &str, _: &str) -> Result<Saver, Fault> {
        Ok(Saver)
    }

    fn open(&mut self, name: &str) -> Result<(Rc<Snapshot>, SaveStore), Fault> {
        Err(Fault::new(Fault::CART_READ_ERROR, name, None, "no such cart"))
    }
}

fn snapshot() -> Snapshot {
    let entries = vec![("main.lua".to_string(), b"x".to_vec())];
    Snapshot::from_entries(entries, SnapshotLimits::default()).unwrap()
}

fn reply(s: Served) -> Message {
    match s {
        Served::Reply(m) => m,
        s => panic!("{s:?}"),
    }
}

#[test]
fn a_worker_loads_steps_and_stops() {
    let mut console: Option<Console<Saver>> = None;
    let mut host = Hosted::new(Bench);
    let early = reply(serve(&mut console, &mut host, Message::Step(FrameInput::new(1))));
    assert_eq!(
        early,
        Message::Error {
            code: "worker_error".to_string(),
            message: "Step before Load".to_string(),
        }
    );
    let load = Message::Load {
        snapshot: snapshot(),
        saves: vec![(1, b"old".to_vec())],
    };
    assert_eq!(
        reply(serve(&mut console, &mut host, load)),
        Message::Ready {
            width: 640,
            height: 480,
        }
    );
    for n in 1..=3u8 {
        let step = Message::Step(FrameInput::new(n));
        let Message::Frame { frame, saves } = reply(serve(&mut console, &mut host, step)) else {
            panic!("not a frame")
        };
        assert_eq!(frame.frame, n as u64);
        assert!(frame.pixels.iter().all(|&p| p == n));
        assert_eq!(frame.log, [format!("buttons {n}")]);
        assert_eq!(saves, [(2, vec![n])]);
        assert_eq!(matches!(frame.state, ConsoleState::Faulted(_)), n == 3);
    }
    // After the fault nothing runs and nothing is saved.
    let step = Message::Step(FrameInput::new(4));
    let Message::Frame { frame, saves } = reply(serve(&mut console, &mut host, step)) else {
        panic!("not a frame")
    };
    assert_eq!(frame.frame, 3);
    assert!(saves.is_empty() && frame.log.is_empty());
    let slots = &console.as_ref().unwrap().draw_state().saves;
    assert_eq!(slots.read(1).unwrap().unwrap(), b"old");
    assert!(matches!(serve(&mut console, &mut host, Message::Stop), Served::Exit(0)));
}

#[test]
fn a_worker_refuses_bad_saves_and_strange_messages() {
    let mut console: Option<Console<Saver>> = None;
    let mut host = Hosted::new(Bench);
    let load = Message::Load {
        snapshot: snapshot(),
        saves: vec![(1, vec![0; SLOT_BYTES + 1])],
    };
    let Message::Error { code, message } = reply(serve(&mut console, &mut host, load)) else {
        panic!("not an error")
    };
    assert_eq!(code, "worker_error");
    assert!(message.starts_with("initial saves refused: save_size: "), "{message}");
    assert!(console.is_none());
    let strange = Message::Ready {
        width: 1,
        height: 1,
    };
    assert!(matches!(
        serve(&mut console, &mut host, strange),
        Served::Exit(EXIT_PROTOCOL)
    ));
}
