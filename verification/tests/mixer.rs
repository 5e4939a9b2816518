//! The mixer.

use kuula::audio::synth::Patch;
use kuula::audio::tracker::{self, Track};
use kuula::audio::{Mixer, CART_CHANNELS, CHANNELS, SAMPLES_PER_FRAME, SHELL_CHANNEL};
use std::rc::Rc;

fn track(src: &str) -> Rc<Track> {
    Rc::new(tracker::parse("sfx/t.trk", src.as_bytes()).unwrap())
}

#[test]
fn silence_renders_zeros() {
    let mut m = Mixer::new();
    let out = m.render();
    assert_eq!(out.len(), SAMPLES_PER_FRAME);
    assert!(out.iter().all(|&s| s == 0));
    assert!(m.output().iter().all(|&s| s == 0));
}

/// The pinned waveform: a square at A-4, full volume. The phase
/// increment is 42 852 281 per sample, so the half period at 440 Hz
/// is 50.1 samples: 51 high, then low until the phase wraps at 101.
#[test]
fn a_pulse_note_renders_the_pinned_samples() {
    let mut m = Mixer::new();
    m.play_note(0, Patch::default(), 57);
    let out = m.render().to_vec();
    assert_eq!(&out[..4], &[32767, 32767, 32767, 32767]);
    assert_eq!(&out[49..53], &[32767, 32767, -32767, -32767]);
    assert_eq!(&out[99..103], &[-32767, -32767, 32767, 32767]);
    assert_eq!(out[734], 32767);
    assert_eq!(out.iter().filter(|&&s| s > 0).count(), 385);
    // Half master volume scales the mix last.
    m.set_master(50);
    let out = m.render().to_vec();
    assert_eq!(out[0], 16383);
    assert_eq!(m.master(), 50);
}

#[test]
fn the_mix_clips_rather_than_wrapping() {
    let mut m = Mixer::new();
    for ch in 0..CART_CHANNELS {
        m.play_note(ch, Patch::default(), 57);
    }
    let out = m.render().to_vec();
    assert_eq!(out[0], 32767);
    assert_eq!(out[60], -32768);
    m.set_master(10);
    let out = m.render().to_vec();
    assert_eq!(out[0], 26213, "8 * 32767 / 10");
}

#[test]
fn tracker_rows_advance_at_the_tempo() {
    let t = track("tempo 3\ninst 1 pulse\nC-4 1\n===\nC-5\n");
    let mut m = Mixer::new();
    m.play_sfx("sfx/t.trk", t, Some(2)).unwrap();
    assert!(!m.is_playing(2));
    // Frames 1-3: C-4 sounds; 4-6: off (release 0 means at once);
    // 7-9: C-5; then the track ends and the channel is released.
    let sounding: Vec<bool> = (0..10)
        .map(|_| {
            m.render();
            m.is_playing(2)
        })
        .collect();
    assert_eq!(
        sounding,
        [true, true, true, false, false, false, true, true, true, false]
    );
    assert!(m.sfx.is_empty());
    assert_eq!(m.sfx_playing(), 0);
}

#[test]
fn channels_are_checked_and_the_shell_channel_is_out_of_reach() {
    let t = track("C-4\n");
    let mut m = Mixer::new();
    assert_eq!(
        m.play_sfx("sfx/t.trk", t.clone(), Some(8))
            .unwrap_err()
            .code(),
        "audio_bad_channel"
    );
    assert_eq!(m.set_volume(-1, 3).unwrap_err().code(), "audio_bad_channel");
    let wide = track("inst 1 pulse\nC-4 1|C-4 1|C-4 1\n");
    assert_eq!(
        m.play_sfx("sfx/t.trk", wide.clone(), Some(6))
            .unwrap_err()
            .code(),
        "audio_no_room"
    );
    assert_eq!(m.play_sfx("sfx/t.trk", wide, None).unwrap(), 7 - 2);
    assert_eq!(m.play_sfx("sfx/t.trk", t.clone(), None).unwrap(), 4);
    m.play_note(SHELL_CHANNEL, Patch::default(), 60);
    m.render();
    assert!(m.is_playing(SHELL_CHANNEL));
    m.stop_all();
    m.render();
    assert!((0..CHANNELS).all(|c| !m.is_playing(c)));
}

#[test]
fn music_takes_the_low_channels_and_fades() {
    let t = track("tempo 1\ninst 1 pulse\nloop 0\nC-4 1 | E-4 1\n");
    let mut m = Mixer::new();
    m.play_music(t.clone(), 0);
    m.render();
    assert!(m.is_playing(0) && m.is_playing(1) && !m.is_playing(2));
    assert!(m.music_playing());
    let loud = m.render()[10];
    m.stop_music(4);
    m.render();
    let quieter = m.render()[10];
    assert!(quieter.abs() < loud.abs(), "{quieter} vs {loud}");
    m.render();
    m.render();
    assert!(!m.music_playing());
    // Volume is per channel and survives new notes.
    m.set_volume(0, 0).unwrap();
    m.play_music(t, 0);
    let out = m.render().to_vec();
    m.set_volume(1, 0).unwrap();
    let quiet = m.render().to_vec();
    assert!(out.iter().any(|&s| s != 0));
    assert!(quiet.iter().all(|&s| s == 0));
}

#[test]
fn a_new_track_starts_from_instrument_one() {
    // `a` leaves the channel on instrument 3; `b` has no instrument 3
    // and names none in its cell, so it must play its instrument 1.
    let a = track("inst 1 pulse\ninst 3 pulse\nC-4 3\n");
    let b = track("inst 1 pulse\nC-4\n");
    let mut m = Mixer::new();
    m.play_sfx("sfx/a.trk", a.clone(), Some(2)).unwrap();
    m.render();
    assert!(m.is_playing(2));
    m.play_sfx("sfx/b.trk", b.clone(), Some(2)).unwrap();
    m.render();
    assert!(m.is_playing(2), "sfx after a track on instrument 3");
    m.play_sfx("sfx/a.trk", a, Some(0)).unwrap();
    m.render();
    m.play_music(b, 0);
    m.render();
    assert!(m.is_playing(0), "music after a track on instrument 3");
}

#[test]
fn stopping_everything_lasts() {
    let t = track("tempo 1\ninst 1 pulse\nloop 0\nC-4 1 | E-4 1\n");
    let mut m = Mixer::new();
    m.set_volume(1, 40).unwrap();
    m.play_music(t, 0);
    m.render();
    m.stop_all();
    assert!(!m.music_playing());
    assert!((0..9).all(|ch| !m.is_playing(ch)));
    for _ in 0..3 {
        assert!(m.render().iter().all(|&s| s == 0));
    }
    assert_eq!(m.channels[1].gain, 40);
}

#[test]
fn sound_from_elsewhere_plays_at_the_master_volume() {
    let mut m = Mixer::new();
    m.set_master(50);
    m.set_external(&[100, -101, 32767]);
    assert_eq!(m.render()[..4], [50, -50, 16383, 0]);
    assert!(m.render().iter().all(|&s| s == 0));
}

#[test]
fn a_second_frame_from_elsewhere_replaces_the_first() {
    let mut m = Mixer::new();
    m.set_external(&[1, 1]);
    m.set_external(&[2]);
    assert_eq!(m.render()[..3], [2, 0, 0]);
    assert!(m.render().iter().all(|&s| s == 0));
}
