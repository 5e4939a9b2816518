//! The synthesised voices.

use kuula::audio::synth::{increment, SynthVoice, Patch, Wave, ARP_SAMPLES, ENV_ONE, MAX_NOTE};
use kuula::audio::tables::OCTAVE_8_INC;
use kuula::audio::SAMPLES_PER_FRAME;

#[test]
fn note_increments_follow_the_octaves() {
    // A-4 is 440 Hz: 440 * 2^32 / 44100.
    assert_eq!(increment(57 * 16), 42_852_281);
    assert_eq!(increment(45 * 16), 42_852_281 >> 1);
    assert_eq!(increment(0), OCTAVE_8_INC[0] >> 8);
    assert_eq!(increment(-50), increment(0));
    assert_eq!(increment(10_000), increment(MAX_NOTE as i32 * 16 + 15));
}

#[test]
fn a_square_flips_at_half_its_period() {
    let mut v = SynthVoice::new(Patch::default(), 57);
    let first: Vec<i32> = (0..3).map(|_| v.next_sample().unwrap()).collect();
    assert_eq!(first, [32767, 32767, 32767]);
    let mut n = 3;
    while v.next_sample().unwrap() > 0 {
        n += 1;
    }
    // 44100 / 440 / 2 is 50.1 samples, so 51 samples are high.
    assert_eq!(n, 51);
}

#[test]
fn the_envelope_attacks_decays_sustains_and_releases() {
    let p = Patch {
        attack: 1,
        decay: 1,
        sustain: 128,
        release: 1,
        wave: Wave::Saw,
        ..Patch::default()
    };
    let mut v = SynthVoice::new(p, 48);
    let mut levels = Vec::new();
    for _ in 0..(3 * SAMPLES_PER_FRAME) {
        v.next_sample().unwrap();
        levels.push(v.level);
    }
    // Integer steps land a sample or two late, never early.
    let sustain = 128 * ENV_ONE as u64 / 255;
    assert!(levels[0] < levels[100]);
    assert!(levels[SAMPLES_PER_FRAME - 2] < ENV_ONE);
    assert_eq!(levels[SAMPLES_PER_FRAME], ENV_ONE);
    assert_eq!(levels[2 * SAMPLES_PER_FRAME + 4] as u64, sustain);
    assert_eq!(levels[3 * SAMPLES_PER_FRAME - 1] as u64, sustain);
    v.release();
    let mut n = 0;
    while v.next_sample().is_some() {
        n += 1;
    }
    assert!(v.is_off());
    assert!(n <= SAMPLES_PER_FRAME, "{n}");
}

#[test]
fn noise_is_deterministic_and_the_slide_moves_the_pitch() {
    let p = Patch {
        wave: Wave::Noise,
        ..Patch::default()
    };
    let mut a = SynthVoice::new(p, 60);
    let mut b = SynthVoice::new(p, 60);
    let sa: Vec<i32> = (0..500).map(|_| a.next_sample().unwrap()).collect();
    let sb: Vec<i32> = (0..500).map(|_| b.next_sample().unwrap()).collect();
    assert_eq!(sa, sb);
    assert!(sa.iter().any(|&s| s > 0) && sa.iter().any(|&s| s < 0));

    let mut v = SynthVoice::new(
        Patch {
            slide: 16,
            ..Patch::default()
        },
        48,
    );
    let before = v.inc;
    v.tick_frame();
    assert_eq!(v.inc, increment(49 * 16));
    assert!(v.inc > before);
    let mut arp = SynthVoice::new(
        Patch {
            arp: [0, 4, 7],
            ..Patch::default()
        },
        48,
    );
    for _ in 0..ARP_SAMPLES {
        arp.next_sample();
    }
    assert_eq!(arp.inc, increment(52 * 16));
}

#[test]
fn a_saw_starts_at_the_bottom_of_its_range() {
    let p = Patch {
        wave: Wave::Saw,
        ..Patch::default()
    };
    let mut v = SynthVoice::new(p, 0);
    assert_eq!(v.next_sample(), Some(-32767));
    assert!((0..50_000).all(|_| v.next_sample().unwrap() >= -32767));
}
