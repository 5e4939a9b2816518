//! Samples: WAV files, the bank and the voice.

use kuula::audio::sample::{
    decode_wav, encode_wav, Sample, SampleBank, SampleVoice, SAMPLE_BUDGET,
};
use kuula::audio::AudioError;
use std::rc::Rc;

#[test]
fn decodes_8_and_16_bit_mono() {
    let s = decode_wav("samples/a.wav", &encode_wav(22050, 8, 1, &[0, 128, 255])).unwrap();
    assert_eq!(s.data, [-32768, 0, 32512]);
    assert_eq!((s.rate, s.bytes), (22050, 3));
    let s = decode_wav(
        "samples/b.wav",
        &encode_wav(44100, 16, 1, &[0x00, 0x80, 0xff, 0x7f]),
    )
    .unwrap();
    assert_eq!(s.data, [-32768, 32767]);
}

#[test]
fn rejects_stereo_24_bit_oversize_and_garbage() {
    let why = |bytes: &[u8]| match decode_wav("samples/x.wav", bytes).unwrap_err() {
        AudioError::Sample { why, .. } => why,
        e => panic!("{e:?}"),
    };
    assert!(why(&encode_wav(44100, 16, 2, &[0; 8])).contains("mono"));
    assert!(why(&encode_wav(44100, 24, 1, &[0; 6])).contains("8 or 16"));
    assert!(why(b"RIFF\0\0\0\0WAVE").contains("no fmt"));
    assert!(why(b"OggS").contains("RIFF"));
    assert!(why(&encode_wav(1000, 8, 1, &[0; 4])).contains("rate"));
    let big = vec![0u8; SAMPLE_BUDGET + 1];
    assert!(why(&encode_wav(44100, 8, 1, &big)).contains("budget"));
    let mut truncated = encode_wav(44100, 8, 1, &[0; 100]);
    truncated.truncate(80);
    assert!(why(&truncated).contains("past the end"));
}

#[test]
fn the_bank_enforces_the_total_budget_and_caches() {
    let mut bank = SampleBank::default();
    let half = vec![0u8; SAMPLE_BUDGET / 2];
    let wav = encode_wav(44100, 8, 1, &half);
    let a = bank.insert("samples/a.wav", &wav).unwrap();
    let again = bank.insert("samples/a.wav", &wav).unwrap();
    assert!(Rc::ptr_eq(&a, &again));
    bank.insert("samples/b.wav", &wav).unwrap();
    assert_eq!(bank.used(), SAMPLE_BUDGET);
    let e = bank
        .insert("samples/c.wav", &encode_wav(44100, 8, 1, &[0]))
        .unwrap_err();
    assert_eq!(e.code(), "sample_error");
    assert!(e.text().contains("budget exceeded"), "{e:?}");
}

#[test]
fn the_voice_steps_at_the_pitch() {
    let s = Rc::new(Sample {
        data: vec![10, 20, 30, 40],
        rate: 44100,
        bytes: 8,
    });
    let mut v = SampleVoice::new(s.clone(), 1 << 16);
    assert_eq!(v.next_sample(), Some(10));
    assert_eq!(v.next_sample(), Some(20));
    let mut v = SampleVoice::new(s.clone(), 2 << 16);
    assert_eq!(
        (v.next_sample(), v.next_sample(), v.next_sample()),
        (Some(10), Some(30), None)
    );
    assert!(v.is_off());
    // A 22 050 Hz sample plays every source sample twice.
    let s = Rc::new(Sample {
        data: vec![1, 2],
        rate: 22050,
        bytes: 4,
    });
    let mut v = SampleVoice::new(s, 1 << 16);
    let got: Vec<_> = std::iter::from_fn(|| v.next_sample()).collect();
    assert_eq!(got, [1, 1, 2, 2]);
}

#[test]
fn a_file_decodes_if_its_rate_is_played_and_its_samples_are_whole() {
    let ok = |rate: u32, data: &[u8]| decode_wav("s.wav", &encode_wav(rate, 16, 1, data)).is_ok();
    assert!(ok(4000, &[1, 2]) && ok(96000, &[1, 2]));
    assert!(!ok(3999, &[1, 2]) && !ok(96001, &[1, 2]) && !ok(1_000_000, &[1, 2]));
    assert!(!ok(8000, &[]) && !ok(8000, &[1, 2, 3]));
}
