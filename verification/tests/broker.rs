//! The broker's side of a worker, and what it shows of a worker's frames.

use kuula::audio::SAMPLES_PER_FRAME;
use kuula::broker::{
    read_answer, timeouts, Answer, StepError, Worker, LOAD_TIMEOUT_MS, STEP_TIMEOUT_MS,
};
use kuula::console::ConsoleState;
use kuula::draw::DrawState;
use kuula::fault::Fault;
use kuula::input::FrameInput;
use kuula::ipc::{Message, OwnedFrame, ReadError};
use kuula::meter::FrameProfile;
use kuula::net::{Command, Event, NetEnv, NetState, Status, MAX_BATCH};
use kuula::palette::{PALETTE_SIZE, SYSTEM_PALETTE};
use kuula::remote::{
    check_screen, fault_of, wait_ms, wait_on, RemoteGuest, Reply, RESPONSIVE_POLL_MS,
};
use kuula::snapshot::Snapshot;
use kuula::wire::ProtoError;
use std::rc::Rc;

fn frame(state: ConsoleState) -> OwnedFrame {
    OwnedFrame {
        frame: 1,
        width: 2,
        height: 2,
        pixels: vec![1, 2, 3],
        palette: [[9, 9, 9]; PALETTE_SIZE],
        log: vec!["hello".to_string()],
        state,
        profile: FrameProfile {
            cycles: [1, 2, 3, 4, 5, 6, 7],
            budget: 100,
            lua_mem: 5,
        },
        audio: vec![7, 8],
    }
}

#[test]
fn a_load_is_ready_refused_or_kills_the_worker() {
    let mut w = Worker::new();
    let ready = Message::Ready {
        width: 320,
        height: 240,
    };
    assert_eq!(w.load(Answer::Said(ready), 10).unwrap(), (320, 240));
    let refused = Message::Error {
        code: "worker_error".to_string(),
        message: "no".to_string(),
    };
    assert_eq!(w.load(Answer::Said(refused), 10).unwrap_err(), StepError::new("worker_error", "no"));
    assert!(!w.dead, "an error is an answer");
    let e = w.load(Answer::Said(Message::Stop), 10).unwrap_err();
    assert_eq!(e.message, "unexpected reply Stop");
    assert!(w.dead);
    let mut w = Worker::new();
    let e = w.load(Answer::Silent, 250).unwrap_err();
    assert_eq!(e, StepError::new("watchdog_timeout", "worker did not reply within 250 ms"));
    assert!(w.dead);
    let mut w = Worker::new();
    let e = w.load(Answer::Gone, 250).unwrap_err();
    assert_eq!(e, StepError::new("worker_error", "worker closed the pipe"));
}

#[test]
fn a_poll_waits_without_failing() {
    let mut w = Worker::new();
    assert!(w.poll_frame(Answer::Silent).unwrap().is_none());
    assert!(!w.dead);
    let message = Message::Frame {
        frame: frame(ConsoleState::Running),
        saves: vec![(1, vec![2])],
    };
    let (f, saves) = w.poll_frame(Answer::Said(message)).unwrap().unwrap();
    assert_eq!((f.frame, saves), (1, vec![(1, vec![2])]));
    let step = Message::Step(FrameInput::new(1));
    assert_eq!(
        w.poll_frame(Answer::Said(step)).unwrap_err().message,
        "unexpected reply Step"
    );
    assert!(w.dead);
    assert_eq!(w.poll_frame(Answer::Silent).unwrap_err().message, "worker is gone");
    assert_eq!(w.may_send().unwrap_err().message, "worker is gone");
    assert!(!w.stop(), "a dead worker is not told to stop");
    let mut w = Worker::new();
    assert!(w.may_send().is_ok());
    assert!(w.stop());
    assert_eq!(w.may_send().unwrap_err().message, "worker has been stopped");
    assert!(!w.stop());
    let mut w = Worker::new();
    assert_eq!(w.send_failed("broken").message, "could not write to worker: broken");
    assert!(w.dead);
    assert!(Worker::gave_up(10, 10) && !Worker::gave_up(9, 10));
}

#[test]
fn a_reader_passes_on_messages_and_why_it_stopped() {
    assert!(matches!(
        read_answer(Ok(Some(Message::Stop))),
        Answer::Said(Message::Stop)
    ));
    let why = |a: Answer| match a {
        Answer::Refused(s) => s,
        a => panic!("{a:?}"),
    };
    assert_eq!(why(read_answer(Ok(None))), "worker closed the pipe");
    assert_eq!(
        why(read_answer(Err(ReadError::Proto(ProtoError::new("bad tag"))))),
        "worker reply refused: protocol: bad tag"
    );
    assert_eq!(
        why(read_answer(Err(ReadError::Io("eof".to_string())))),
        "worker reply refused: pipe: eof"
    );
    assert_eq!(timeouts(None), (STEP_TIMEOUT_MS, LOAD_TIMEOUT_MS));
    assert_eq!(timeouts(Some("150")), (150, 150));
    assert_eq!(timeouts(Some("x")), (STEP_TIMEOUT_MS, LOAD_TIMEOUT_MS));
}

fn state() -> DrawState {
    let mut d = DrawState::new(2, 2, Rc::new(Snapshot::empty()));
    d.cls(5);
    d
}

#[test]
fn a_reply_is_shown() {
    let mut d = state();
    let mut g = RemoteGuest::new();
    assert!(g.send(&mut d).is_empty(), "no network, no events");
    assert!(g.sent(Ok(())).is_ok());
    assert!(g.pending);
    let reply = Reply {
        frame: frame(ConsoleState::Running),
        saves: vec![(3, b"x".to_vec()), (9, Vec::new())],
        commands: Vec::new(),
        net_room: 0,
    };
    let (outcome, forwards) = g.receive(&mut d, reply);
    assert!(outcome.is_ok());
    assert!(forwards.is_empty(), "slots in memory go nowhere");
    assert!(!g.pending);
    assert_eq!(*d.screen_pixels(), [1, 2, 3, 5]);
    assert_eq!(d.palette.get(0), SYSTEM_PALETTE[0]);
    assert_eq!(d.palette.get(127), [9, 9, 9]);
    assert_eq!(d.log, ["hello"]);
    assert_eq!(d.profile.lua_mem, 5);
    assert_eq!(d.saves.read(3).unwrap().unwrap(), b"x");
    let out = d.audio.render().to_vec();
    assert_eq!(out.len(), SAMPLES_PER_FRAME);
    assert_eq!(&out[..3], &[7, 8, 0]);
    // A frame that does not come leaves the picture and is silent.
    wait_on(&mut d);
    assert!(d.audio.render().iter().all(|&s| s == 0));
    assert_eq!(*d.screen_pixels(), [1, 2, 3, 5]);
}

#[test]
fn a_remote_fault_is_the_carts() {
    let mut d = state();
    let mut g = RemoteGuest::new();
    let fault = Fault::new("runtime_error", "main.lua", Some(3), "boom");
    let reply = Reply {
        frame: frame(ConsoleState::Faulted(fault.clone())),
        saves: Vec::new(),
        commands: Vec::new(),
        net_room: 0,
    };
    let (outcome, _) = g.receive(&mut d, reply);
    assert_eq!(outcome.unwrap_err(), fault);
    let e = StepError::new("watchdog_timeout", "late");
    assert_eq!(fault_of(&e).text(), "watchdog_timeout worker: late");
    assert!(check_screen(2, 2, &d).is_ok());
    assert_eq!(
        check_screen(4, 3, &d).unwrap_err().message,
        "worker reports a 4x3 screen, the manifest says 2x2"
    );
}

#[test]
fn events_of_a_busy_tick_ride_the_next_step() {
    let mut d = state();
    let env = NetEnv {
        permitted: true,
        invite: None,
    };
    d.net = Some(NetState::new(&env));
    let mut g = RemoteGuest::new();
    assert!(g.send(&mut d).is_empty());
    let net = d.net.as_mut().unwrap();
    assert_eq!(net.remote_room, Some(0), "no room while a step is in flight");
    net.begin_frame(vec![Event::Permission { granted: false }]);
    g.carry(&mut d);
    assert_eq!(g.carried, [Event::Permission { granted: false }]);
    assert!(d.net.as_ref().unwrap().admitted.is_empty());
    let reply = Reply {
        frame: frame(ConsoleState::Running),
        saves: Vec::new(),
        commands: vec![Command::Leave],
        net_room: 10,
    };
    let _ = g.receive(&mut d, reply);
    let net = d.net.as_ref().unwrap();
    assert_eq!(net.outbox, [Command::Leave]);
    assert_eq!(net.remote_room, Some(9), "the carried event takes room");
    assert!(net.inbox.is_empty());
    assert_eq!(net.status, Status::Off);
    d.net.as_mut().unwrap().admitted = (0..MAX_BATCH)
        .map(|i| Event::Connected { peer: i as u32 + 1 })
        .collect();
    let sent = g.send(&mut d);
    assert_eq!(sent.len(), MAX_BATCH);
    assert_eq!(sent[0], Event::Permission { granted: false });
    assert_eq!(
        g.carried,
        [Event::Connected {
            peer: MAX_BATCH as u32
        }]
    );
}

#[test]
fn a_step_is_sent_once_and_waited_for() {
    assert_eq!(wait_ms(true, 10_000), RESPONSIVE_POLL_MS);
    assert_eq!(wait_ms(true, 5), 12, "the poll is not cut short");
    assert_eq!(wait_ms(false, 10_000), 10_000);
    let mut d = state();
    let mut w = Worker::new();
    let mut g = RemoteGuest::new();
    assert!(g.begin(&mut d).is_some());
    assert!(g.sent(Ok(())).is_ok());
    // Nothing yet: the picture stays, silent, and no other input goes out.
    let (r, forwards) = g.conclude(&mut d, &mut w, Answer::Silent, 99, 100);
    assert!(r.is_ok() && forwards.is_empty() && g.pending && !w.dead);
    assert!(d.audio.render().iter().all(|&s| s == 0));
    assert_eq!(*d.screen_pixels(), [5, 5, 5, 5]);
    assert!(g.begin(&mut d).is_none());
    let said = Message::Frame {
        frame: frame(ConsoleState::Running),
        saves: vec![(3, b"x".to_vec())],
    };
    let (r, _) = g.conclude(&mut d, &mut w, Answer::Said(said), 100, 100);
    assert!(r.is_ok() && !g.pending);
    assert_eq!(*d.screen_pixels(), [1, 2, 3, 5]);
    assert_eq!(d.saves.read(3).unwrap().unwrap(), b"x");
    // The whole time without a frame is the end of the worker.
    assert!(g.begin(&mut d).is_some());
    assert!(g.sent(Ok(())).is_ok());
    let (r, _) = g.conclude(&mut d, &mut w, Answer::Silent, 100, 100);
    let f = r.unwrap_err();
    assert_eq!(
        (f.code.as_str(), f.file.as_str(), f.message.as_str()),
        ("watchdog_timeout", "worker", "worker did not reply within 100 ms")
    );
    assert!(w.dead);
    let (r, _) = g.conclude(&mut d, &mut w, Answer::Silent, 0, 100);
    assert_eq!(r.unwrap_err().message, "worker is gone");
}

#[test]
fn a_step_that_cannot_be_written_is_not_in_flight() {
    let mut d = state();
    let mut w = Worker::new();
    let mut g = RemoteGuest::new();
    assert!(g.begin(&mut d).is_some());
    let e = w.send_failed("broken pipe");
    let f = g.sent(Err(e)).unwrap_err();
    assert_eq!(f.message, "could not write to worker: broken pipe");
    assert!(!g.pending && w.dead);
    let mut w = Worker::new();
    let refused = Message::Error {
        code: "worker_error".to_string(),
        message: "no".to_string(),
    };
    let (r, _) = g.conclude(&mut d, &mut w, Answer::Said(refused), 1, 100);
    assert_eq!(r.unwrap_err().message, "no");
    assert!(!w.dead, "an error is an answer");
    let (r, _) = g.conclude(&mut d, &mut w, Answer::Gone, 1, 100);
    assert_eq!(r.unwrap_err().message, "worker closed the pipe");
    assert!(w.dead);
}
