//! The tracker format and its cursor.

use kuula::audio::synth::{Patch, Wave};
use kuula::audio::tracker::{parse, Cell, Cursor, Instrument, Note, Step, GAIN_ONE, MAX_ROWS};
use kuula::audio::AudioError;
use std::rc::Rc;

const SONG: &str = "\
# a test song
tempo 4
loop 1
inst 1 pulse duty=25 adsr=1,2,50,3 slide=-2 arp=0,4,7
inst 2 sample=kick
inst 3 noise
C-4 1 vf | D#5 2   ; sharps are not comments
--- | === v8
G-8 3 |
";

#[test]
fn parses_header_and_rows() {
    let t = parse("music/a.trk", SONG.as_bytes()).unwrap();
    assert_eq!((t.tempo, t.columns, t.loop_row), (4, 2, Some(1)));
    assert_eq!(t.rows.len(), 3);
    assert_eq!(
        t.instrument(1),
        Some(&Instrument::Synth(Patch {
            wave: Wave::Pulse,
            duty: 63,
            attack: 1,
            decay: 2,
            sustain: 127,
            release: 3,
            slide: -2,
            arp: [0, 4, 7],
        }))
    );
    assert_eq!(t.instrument(2), Some(&Instrument::Sample("kick".into())));
    assert_eq!(t.instrument(4), None);
    assert_eq!(t.sample_names(), ["kick"]);
    assert_eq!(
        t.rows[0][0],
        Cell {
            note: Note::On(48),
            inst: Some(1),
            vol: Some(255)
        }
    );
    assert_eq!(t.rows[0][1].note, Note::On(63));
    assert_eq!(t.rows[1][0], Cell::default());
    assert_eq!(
        t.rows[1][1],
        Cell {
            note: Note::Off,
            inst: None,
            vol: Some(136)
        }
    );
    assert_eq!(t.rows[2][1], Cell::default(), "short rows are padded");
    assert_eq!(t.rows[2][0].note, Note::On(103));
}

#[test]
fn errors_carry_the_line() {
    let err = |src: &str| match parse("sfx/x.trk", src.as_bytes()).unwrap_err() {
        AudioError::Track { line, why, .. } => (line, why),
        e => panic!("{e:?}"),
    };
    assert_eq!(err("tempo 0\nC-4").0, 1);
    assert!(err("inst 1 pulse\nH-4 1").1.contains("bad note"));
    assert!(err("C-4 5").1.contains("not defined"));
    assert!(err("inst 1 flute\nC-4").1.contains("unknown waveform"));
    assert!(err("inst 1 pulse duty=200\nC-4").1.contains("duty"));
    assert!(err("C-9").1.contains("bad note"));
    assert!(err("C-4 vg").1.contains("volume"));
    assert!(err("loop 3\nC-4").1.contains("loop row"));
    assert_eq!(err("").1, "no rows");
    assert!(err("---|---|---|---|---|---|---|---|---")
        .1
        .contains("channels"));
    assert!(err("inst 1 sample=../x\nC-4").1.contains("sample name"));
    let many = "C-4\n".repeat(MAX_ROWS + 1);
    assert_eq!(err(&many).0 as usize, MAX_ROWS + 1);
    assert_eq!(parse("sfx/x.trk", "C-4\n".as_bytes()).unwrap().tempo, 8);
}

#[test]
fn the_cursor_steps_rows_at_the_tempo_and_loops() {
    let t = Rc::new(parse("music/a.trk", SONG.as_bytes()).unwrap());
    let mut c = Cursor::new(t.clone(), 0, 0);
    let steps: Vec<Step> = (0..13).map(|_| c.tick()).collect();
    assert_eq!(
        steps,
        [
            Step::Row(0),
            Step::Hold,
            Step::Hold,
            Step::Hold,
            Step::Row(1),
            Step::Hold,
            Step::Hold,
            Step::Hold,
            Step::Row(2),
            Step::Hold,
            Step::Hold,
            Step::Hold,
            Step::Row(1),
        ]
    );
    let once = Rc::new(parse("sfx/b.trk", b"tempo 1\nC-4\nD-4\n").unwrap());
    let mut c = Cursor::new(once, 3, 0);
    assert_eq!(c.channels(), (3, 4));
    assert_eq!(c.tick(), Step::Row(0));
    assert_eq!(c.tick(), Step::Row(1));
    assert_eq!(c.tick(), Step::End);
}

#[test]
fn fades_in_and_out() {
    let t = Rc::new(parse("music/a.trk", b"tempo 1\nloop 0\nC-4\n").unwrap());
    let mut c = Cursor::new(t.clone(), 0, 4);
    assert_eq!(c.gain, 0);
    c.tick();
    assert_eq!(c.gain, 64);
    for _ in 0..10 {
        c.tick();
    }
    assert_eq!(c.gain, GAIN_ONE);
    c.fade_out(2);
    assert_eq!(c.tick(), Step::Row(0));
    assert_eq!(c.gain, 128);
    assert_eq!(c.tick(), Step::End);
    let mut c = Cursor::new(t, 0, 0);
    c.fade_out(0);
    assert_eq!(c.tick(), Step::End);
}

#[test]
fn a_fade_out_takes_its_frames() {
    let t = Rc::new(parse("music/a.trk", b"tempo 1\nloop 0\nC-4\n").unwrap());
    for frames in [1u32, 2, 64, 256] {
        let mut c = Cursor::new(t.clone(), 0, 0);
        c.fade_out(frames);
        for i in 1..frames as i32 {
            assert_ne!(c.tick(), Step::End);
            assert_eq!(c.gain, GAIN_ONE - i * (GAIN_ONE / frames as i32));
        }
        assert_eq!(c.tick(), Step::End, "{frames}");
    }
    // Three frames leave a little, which takes one more.
    let mut c = Cursor::new(t, 0, 0);
    c.fade_out(3);
    assert!((0..3).all(|_| c.tick() != Step::End));
    assert_eq!(c.gain, 1);
    assert_eq!(c.tick(), Step::End);
}
