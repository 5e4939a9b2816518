//! The framed protocol between the broker and the worker.

use kuula::console::ConsoleState;
use kuula::fault::Fault;
use kuula::input::FrameInput;
use kuula::ipc::{
    decode, encode, read_frame, Message, OwnedFrame, ReadError, MAX_AUDIO_SAMPLES,
    MAX_FILE_NAME_BYTES, MAX_FRAME, MAX_MESSAGE_BYTES, SAVES_BYTES, TAG_FRAME, TAG_STEP, TAG_STOP,
};
use kuula::meter::FrameProfile;
use kuula::palette::PALETTE_SIZE;
use kuula::save::SLOT_BYTES;
use kuula::snapshot::{Snapshot, SnapshotLimits};

fn round_trip(msg: Message) {
    let bytes = encode(&msg);
    let (back, read) = read_frame(&bytes).unwrap().unwrap();
    assert_eq!(back, msg);
    assert_eq!(read, bytes.len());
}

#[test]
fn every_message_round_trips() {
    let snap = Snapshot::from_entries(
        vec![
            ("main.lua".to_string(), b"x".to_vec()),
            ("gfx/a.png".to_string(), vec![1, 2, 3]),
        ],
        SnapshotLimits::default(),
    )
    .unwrap();
    round_trip(Message::Load {
        snapshot: snap,
        saves: vec![(0, b"a".to_vec()), (7, vec![0; SLOT_BYTES])],
    });
    round_trip(Message::Load {
        snapshot: Snapshot::empty(),
        saves: Vec::new(),
    });
    round_trip(Message::Step(FrameInput::new(0b101)));
    round_trip(Message::Stop);
    round_trip(Message::Ready {
        width: 320,
        height: 240,
    });
    let mut palette = [[0u8; 3]; PALETTE_SIZE];
    palette[3] = [1, 2, 3];
    let plain = |frame: OwnedFrame| Message::Frame {
        frame,
        saves: Vec::new(),
    };
    round_trip(Message::Frame {
        frame: OwnedFrame {
            frame: 7,
            width: 2,
            height: 2,
            pixels: vec![1, 2, 3, 4],
            palette,
            profile: FrameProfile::default(),
            audio: vec![1, -2, 32767, -32768],
            log: vec!["a".into(), "".into()],
            state: ConsoleState::Running,
        },
        saves: vec![(3, vec![9; 10])],
    });
    round_trip(plain(OwnedFrame {
        frame: 8,
        width: 1,
        height: 1,
        pixels: vec![0],
        palette,
        profile: FrameProfile::default(),
        log: vec![],
        audio: vec![],
        state: ConsoleState::Faulted(Fault::new("runtime_error", "main.lua", Some(3), "boom")),
    }));
    round_trip(plain(OwnedFrame {
        frame: 9,
        width: 1,
        height: 1,
        pixels: vec![0],
        palette,
        profile: FrameProfile::default(),
        log: vec![],
        audio: vec![],
        state: ConsoleState::Faulted(Fault::new("cart_read_error", "main.lua", None, "")),
    }));
    round_trip(Message::Error {
        code: "worker_error".into(),
        message: "no".into(),
    });
    // The profile travels with the frame.
    round_trip(plain(OwnedFrame {
        frame: 10,
        width: 1,
        height: 1,
        pixels: vec![0],
        palette,
        log: vec![],
        state: ConsoleState::Running,
        profile: FrameProfile {
            cycles: [1, 2, 3, 4, 5, 6, u64::MAX],
            budget: 279_620,
            lua_mem: 12345,
        },
        audio: vec![0; MAX_AUDIO_SAMPLES],
    }));
}

#[test]
fn long_fault_strings_are_clipped_not_refused() {
    // A cart can raise any message; it must still arrive as a fault.
    let long = "ä".repeat(3000); // 6000 bytes, clipped on a char boundary
    let msg = Message::Frame {
        frame: OwnedFrame {
            frame: 1,
            width: 1,
            height: 1,
            pixels: vec![0],
            palette: [[0; 3]; PALETTE_SIZE],
            profile: FrameProfile::default(),
            log: vec![],
            audio: vec![],
            state: ConsoleState::Faulted(Fault::new(
                "runtime_error",
                &"f".repeat(300),
                Some(3),
                &long,
            )),
        },
        saves: Vec::new(),
    };
    let bytes = encode(&msg);
    let back = decode(&bytes[4..]).unwrap();
    let Message::Frame { frame: f, .. } = back else {
        panic!("not a frame")
    };
    let ConsoleState::Faulted(fault) = f.state else {
        panic!("not faulted")
    };
    assert_eq!(fault.message.len(), MAX_MESSAGE_BYTES);
    assert_eq!(fault.file.len(), MAX_FILE_NAME_BYTES);
    assert!(long.starts_with(&fault.message));
    round_trip(Message::Error {
        code: "worker_error".into(),
        message: "x".repeat(MAX_MESSAGE_BYTES),
    });
}

#[test]
fn a_maximal_snapshot_fits_in_one_frame() {
    let limits = SnapshotLimits::default();
    let framing = 1 + 4 + limits.max_files * (8 + 255);
    assert!(limits.max_total_bytes + framing + SAVES_BYTES <= MAX_FRAME);
}

#[test]
fn bad_saves_are_rejected() {
    // Nine entries, a repeated slot, a slot out of range, an oversized
    // slot: each is a protocol error, not a panic.
    let base = encode(&Message::Load {
        snapshot: Snapshot::empty(),
        saves: Vec::new(),
    });
    let with = |tail: &[u8]| {
        let mut body = base[4..base.len() - 4].to_vec();
        body.extend_from_slice(tail);
        decode(&body)
    };
    let mut nine = 9u32.to_le_bytes().to_vec();
    for s in 0..9u8 {
        nine.push(s);
        nine.extend_from_slice(&0u32.to_le_bytes());
    }
    assert!(with(&nine).is_err());
    let mut twice = 2u32.to_le_bytes().to_vec();
    for _ in 0..2 {
        twice.push(1);
        twice.extend_from_slice(&0u32.to_le_bytes());
    }
    assert!(with(&twice).is_err());
    let mut high = 1u32.to_le_bytes().to_vec();
    high.push(8);
    high.extend_from_slice(&0u32.to_le_bytes());
    assert!(with(&high).is_err());
    let mut big = 1u32.to_le_bytes().to_vec();
    big.push(0);
    big.extend_from_slice(&(SLOT_BYTES as u32 + 1).to_le_bytes());
    big.extend(vec![0u8; SLOT_BYTES + 1]);
    assert!(with(&big).is_err());
}

#[test]
fn bad_frames_are_rejected() {
    let mut oversized = (MAX_FRAME as u32 + 1).to_le_bytes().to_vec();
    oversized.push(TAG_STOP);
    assert!(matches!(read_frame(&oversized), Err(ReadError::Proto(_))));
    let zero = 0u32.to_le_bytes().to_vec();
    assert!(matches!(read_frame(&zero), Err(ReadError::Proto(_))));
    assert!(decode(&[0x7f]).is_err(), "unknown tag");
    assert!(decode(&[TAG_STOP, 0]).is_err(), "trailing byte");
    assert!(decode(&[TAG_STEP]).is_err(), "short payload");
    // A frame claiming a huge size fails before allocating pixels.
    let mut body = vec![TAG_FRAME];
    body.extend_from_slice(&1u64.to_le_bytes());
    body.extend_from_slice(&5000u32.to_le_bytes());
    body.extend_from_slice(&5000u32.to_le_bytes());
    assert!(decode(&body).unwrap_err().message.contains("refused"));
    // A truncated frame body is a pipe error, not a panic.
    let mut cut = encode(&Message::Ready {
        width: 1,
        height: 1,
    });
    cut.truncate(cut.len() - 2);
    assert!(matches!(read_frame(&cut), Err(ReadError::Io(_))));
    assert!(read_frame(&[]).unwrap().is_none());
}

#[test]
fn a_frame_is_read_from_the_front_of_a_stream() {
    let mut stream = encode(&Message::Stop);
    let first = stream.len();
    stream.extend(encode(&Message::Step(FrameInput::new(3))));
    let (m, n) = read_frame(&stream).unwrap().unwrap();
    assert_eq!(m, Message::Stop);
    assert_eq!(n, first);
    let (m, n) = read_frame(&stream[first..]).unwrap().unwrap();
    assert_eq!(m, Message::Step(FrameInput::new(3)));
    assert_eq!(first + n, stream.len());
}

#[test]
fn a_stream_that_ends_inside_a_header_is_an_error() {
    let stream = encode(&Message::Stop);
    for n in 1..4 {
        match read_frame(&stream[..n]) {
            Err(ReadError::Io(why)) => assert_eq!(why, "failed to fill whole buffer"),
            other => panic!("{other:?}"),
        }
    }
    assert!(read_frame(&stream[..0]).unwrap().is_none());
}
