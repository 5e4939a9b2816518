//! The command line's decisions.

use kuula::cli::{
    chat_turn, check_frame, check_path, check_replay, check_seed, check_transcript, greeting,
    input_at, net_exit, other_cart, outgrown_line, packed_line, plan_headless, recorded_exit,
    recorded_line, recording, report, run_env, run_length, runtime_warning, times_said, timing,
    told, waits_for_greeting, window_exit, window_title, CartRunner, Kept, NetMode, Recording,
    Replay, RunFlags, RunSummary, SessionEvent, Told, Turn, DEFAULT_FRAMES, EXIT_FAULT, EXIT_NET, EXIT_OK, IN_PROCESS_HEADLESS, NO_SANDBOX_NO_WORKER,
};
use kuula::console::{ConsoleState, Preload};
use kuula::fault::Fault;
use kuula::input::FrameInput;
use kuula::ipc::OwnedFrame;
use kuula::meter::FrameProfile;
use kuula::net::{NetEnv, MAX_TICKET};
use kuula::palette::PALETTE_SIZE;

fn args(words: &[&str]) -> Vec<String> {
    words.iter().map(|w| w.to_string()).collect()
}

#[test]
fn net_modes_parse_and_refuse() {
    assert_eq!(NetMode::parse(&args(&["host"])), Ok(NetMode::Host));
    let join = NetMode::parse(&args(&["join", "abc"])).unwrap();
    assert_eq!(join, NetMode::Join("abc".to_string()));
    let why = |words: &[&str]| NetMode::parse(&args(words)).unwrap_err();
    assert_eq!(why(&["join"]), "--net join needs a ticket");
    assert_eq!(why(&[]), "--net takes `host` or `join <ticket>`");
    assert_eq!(why(&["host", "x"]), "--net takes `host` or `join <ticket>`");
    let long = "t".repeat(MAX_TICKET + 1);
    assert_eq!(why(&["join", &long]), "the ticket is too long");
    let env = join.env();
    assert!(env.permitted);
    assert_eq!(env.invite.as_deref(), Some("abc"));
    assert_eq!(NetMode::Host.env().invite, None);
}

#[test]
fn a_run_has_its_own_environment_or_the_recorded_one() {
    let recorded = NetEnv {
        permitted: true,
        invite: Some("old".to_string()),
    };
    let e = run_env(&Some(NetMode::Host), Some(recorded.clone()));
    assert_eq!((e.permitted, e.invite), (true, None));
    let e = run_env(&None, Some(recorded));
    assert_eq!(e.invite.as_deref(), Some("old"));
    assert!(!run_env(&None, None).permitted);
}

const NONE: RunFlags = RunFlags {
    headless: false,
    frames: false,
    worker: false,
    in_process: false,
    no_sandbox: false,
    profile: false,
    replay: false,
    timing: false,
};

#[test]
fn flags_decide_how_a_cart_runs() {
    assert_eq!(NONE.plan().unwrap(), (false, CartRunner::new(false, false, true)));
    let frames = RunFlags {
        frames: true,
        ..NONE
    };
    assert_eq!(frames.plan().unwrap(), (true, CartRunner::new(true, false, false)));
    let worker = RunFlags {
        worker: true,
        no_sandbox: true,
        ..NONE
    };
    assert_eq!(worker.plan().unwrap(), (true, CartRunner::new(false, true, false)));
    let mixed = RunFlags {
        headless: true,
        in_process: true,
        ..NONE
    };
    assert_eq!(mixed.plan().unwrap_err(), IN_PROCESS_HEADLESS);
    let bare = RunFlags {
        no_sandbox: true,
        timing: true,
        ..NONE
    };
    assert_eq!(bare.plan().unwrap_err(), NO_SANDBOX_NO_WORKER);
    let windowed = RunFlags {
        no_sandbox: true,
        in_process: true,
        ..NONE
    };
    assert_eq!(windowed.plan().unwrap_err(), NO_SANDBOX_NO_WORKER);
    assert_eq!(CartRunner::in_process().preload(), Preload::Decode);
    assert_eq!(CartRunner::new(false, false, true).preload(), Preload::Skip);
}

#[test]
fn paths_and_frames_are_checked() {
    assert!(check_path("x", true, false, true).is_ok());
    assert!(check_path("x", false, true, true).is_ok());
    assert_eq!(
        check_path("x", false, false, true).unwrap_err(),
        "x is not a directory or a .zip/.cart file"
    );
    assert_eq!(
        check_path("x", false, true, false).unwrap_err(),
        "x does not contain main.lua"
    );
    assert_eq!(check_frame(0).unwrap_err(), "--frame counts from 1");
    assert!(check_frame(1).is_ok());
    assert_eq!(packed_line(3, 400, "o.zip"), "packed 3 entries, 400 bytes into o.zip");
    assert_eq!(window_title(Some("hello")), "Kuula - hello");
    assert_eq!(window_title(None), "Kuula - cart");
}

#[test]
fn transcripts_are_checked() {
    assert_eq!(recording(false, 1), Recording::Off);
    assert_eq!(recording(true, 1), Recording::Start);
    assert_eq!(recording(true, 2), Recording::Restarted);
    assert_eq!(
        other_cart("another cart", true).unwrap(),
        "another cart; the replay verifies nothing"
    );
    assert_eq!(
        other_cart("another cart", false).unwrap_err(),
        "another cart (pass --replay-any-cart to replay anyway)"
    );
    assert!(check_seed(7, 7).is_ok());
    assert_eq!(
        check_seed(7, 8).unwrap_err(),
        "the transcript was recorded with seed 7, this runtime uses 8"
    );
    assert_eq!(runtime_warning("1.0", "1.0"), None);
    assert_eq!(
        runtime_warning("1.0", "1.1").unwrap(),
        "the transcript was recorded by runtime 1.0, this is 1.1"
    );
    assert!(check_replay(true, true).is_err());
    assert!(check_replay(true, false).is_ok());
    assert_eq!(recorded_line(9, "o.kr"), "recorded 9 frames into o.kr");
    assert_eq!(
        outgrown_line("o.kr", 9),
        "the run outgrew a transcript; o.kr holds its first 9 frames"
    );
    assert_eq!(run_length(Some(5), Some(9)), 5);
    assert_eq!(run_length(None, Some(9)), 9);
    assert_eq!(run_length(None, None), DEFAULT_FRAMES);
}

fn frame(n: u64, audio: Vec<i16>) -> OwnedFrame {
    OwnedFrame {
        frame: n,
        width: 1,
        height: 1,
        pixels: vec![0],
        palette: [[0; 3]; PALETTE_SIZE],
        log: Vec::new(),
        state: ConsoleState::Running,
        profile: FrameProfile::default(),
        audio,
    }
}

#[test]
fn a_run_keeps_its_audio_and_its_last_frame() {
    let mut k = Kept::new();
    assert!(k.take(frame(1, vec![1, 2]), true, false));
    assert!(k.last.is_none());
    assert!(k.take(frame(2, vec![3]), true, true));
    assert_eq!(k.audio, [1, 2, 3]);
    assert_eq!(k.last.as_ref().unwrap().frame, 2);
    k.failed = Some("full".to_string());
    assert!(!k.take(frame(3, vec![4]), true, false), "later frames are not attempted");
    assert!(!k.take(frame(4, vec![5]), false, false));
    assert_eq!(k.audio, [1, 2, 3, 4]);
}

#[test]
fn a_report_names_the_fault() {
    let mut s = RunSummary {
        frames_run: 60,
        hash: "abcd".to_string(),
        state: "running".to_string(),
        error: None,
        fault: None,
    };
    let r = report(&s);
    assert_eq!(r.line, "frames 60 hash abcd state running");
    assert_eq!((r.complaint, r.code), (None, EXIT_OK));
    s.fault = Some(Fault::new("runtime_error", "main.lua", Some(3), "boom"));
    let r = report(&s);
    assert_eq!(r.complaint.unwrap(), "runtime_error main.lua:3: boom");
    assert_eq!(r.code, EXIT_FAULT);
    s.error = Some("worker_error: gone".to_string());
    assert_eq!(report(&s).complaint.unwrap(), "worker_error: gone");
}

#[test]
fn times_have_a_median_and_a_maximum() {
    assert_eq!(timing(&vec![]), None);
    assert_eq!(timing(&vec![5]), Some((5, 5)));
    assert_eq!(timing(&vec![9, 1, 5]), Some((5, 9)));
    assert_eq!(timing(&vec![4, 3, 2, 1]), Some((3, 4)), "the upper median");
    assert_eq!(timing(&vec![2, 2, 2, 7]), Some((2, 7)));
}

#[test]
fn a_session_ends_as_its_peer_does() {
    let line = |e: SessionEvent| match told(&e) {
        Told::Line(s) => format!("line {s}"),
        Told::Left(s) => format!("left {s}"),
        Told::Failed(s) => format!("failed {s}"),
    };
    assert_eq!(line(SessionEvent::Text("hi".to_string())), "line peer says: hi");
    assert_eq!(line(SessionEvent::Data(12)), "line peer sent data: 12 bytes");
    assert_eq!(line(SessionEvent::PeerClosed), "left peer closed");
    assert_eq!(
        line(SessionEvent::PeerLost("idle".to_string())),
        "failed net_connect peer lost: idle"
    );
    let e = SessionEvent::Error("net_ticket".to_string(), "malformed".to_string());
    assert_eq!(line(e), "failed net_ticket malformed");
    assert_eq!(net_exit(true, true), EXIT_OK);
    assert_eq!(net_exit(true, false), EXIT_NET);
    assert_eq!(net_exit(false, true), EXIT_NET);
}

fn replay(saves: Vec<(u8, Vec<u8>)>, net: Option<NetEnv>) -> Option<Replay> {
    Some(Replay {
        path: "in.kr".to_string(),
        inputs: vec![FrameInput::new(1), FrameInput::new(2)],
        saves,
        net,
    })
}

#[test]
fn a_headless_run_is_planned_from_a_script_or_a_transcript() {
    let script = vec![FrameInput::new(4)];
    let p = plan_headless(None, script.clone(), None, false, &None).unwrap();
    assert_eq!((p.frames, p.linked, p.env.permitted), (DEFAULT_FRAMES, false, false));
    assert_eq!(input_at(&p.inputs, 0), FrameInput::new(4));
    assert_eq!(input_at(&p.inputs, 1), FrameInput::new(0), "none behind the end");
    assert!(p.store.all_slots().is_empty());
    let p = plan_headless(Some(9), script, None, true, &Some(NetMode::Host)).unwrap();
    assert_eq!((p.frames, p.linked, p.env.permitted), (9, true, true));

    let saves = vec![(2, b"x".to_vec())];
    let p = plan_headless(None, Vec::new(), replay(saves.clone(), None), true, &None).unwrap();
    assert_eq!((p.frames, p.linked), (2, false));
    assert_eq!(p.store.all_slots(), saves);
    let env = NetEnv {
        permitted: true,
        invite: Some("t".to_string()),
    };
    let p = plan_headless(None, Vec::new(), replay(Vec::new(), Some(env.clone())), false, &None);
    let p = p.unwrap();
    assert_eq!(p.env.invite.as_deref(), Some("t"));
    assert!(!p.linked, "a replay builds no link");
    let e = plan_headless(None, Vec::new(), replay(Vec::new(), Some(env)), true, &None);
    assert_eq!(
        e.unwrap_err(),
        "a networked transcript replays in process, not with --worker"
    );
    let bad = vec![(9, Vec::new())];
    let e = plan_headless(None, Vec::new(), replay(bad, None), false, &None).unwrap_err();
    assert!(e.starts_with("in.kr: initial saves: save_slot: "), "{e}");
}

#[test]
fn a_transcript_is_checked_in_order() {
    assert!(check_transcript(None, false, 1, 1, "a", "a").unwrap().is_empty());
    let w = check_transcript(Some("other cart"), true, 1, 1, "a", "b").unwrap();
    assert_eq!(
        w,
        [
            "other cart; the replay verifies nothing",
            "the transcript was recorded by runtime a, this is b",
        ]
    );
    let e = check_transcript(Some("other cart"), false, 1, 2, "a", "b").unwrap_err();
    assert_eq!(e, "other cart (pass --replay-any-cart to replay anyway)");
    let e = check_transcript(None, false, 1, 2, "a", "b").unwrap_err();
    assert_eq!(e, "the transcript was recorded with seed 1, this runtime uses 2");
}

#[test]
fn exit_codes_follow_the_outcome() {
    assert_eq!(window_exit(&None), EXIT_FAULT, "the host broke");
    assert_eq!(window_exit(&Some(ConsoleState::Running)), EXIT_OK);
    let f = Fault::new("runtime_error", "main.lua", None, "boom");
    assert_eq!(window_exit(&Some(ConsoleState::Faulted(f))), EXIT_FAULT);
    assert_eq!(recorded_exit(EXIT_OK, Some(EXIT_FAULT)), EXIT_FAULT);
    assert_eq!(recorded_exit(EXIT_FAULT, Some(EXIT_OK)), EXIT_FAULT);
    assert_eq!(recorded_exit(EXIT_OK, None), EXIT_OK);
}

#[test]
fn a_chat_goes_on_until_someone_leaves() {
    assert!(matches!(chat_turn(true, &Some(SessionEvent::PeerClosed)), Turn::Bye));
    assert!(matches!(chat_turn(false, &None), Turn::Wait));
    assert!(matches!(
        chat_turn(false, &Some(SessionEvent::PeerClosed)),
        Turn::Heard(Told::Left(_))
    ));
    assert!(waits_for_greeting(false, false, false));
    assert!(!waits_for_greeting(true, false, false));
    assert_eq!((times_said(0), times_said(3)), (1, 3));
    assert_eq!(greeting("listener"), "hello from listener");
}
