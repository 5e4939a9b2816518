//! Sounds by name.

use kuula::audio::sample::encode_wav;
use kuula::draw::DrawState;
use kuula::snapshot::{Snapshot, SnapshotLimits};
use std::rc::Rc;

fn state(entries: Vec<(&str, Vec<u8>)>) -> DrawState {
    let entries = entries.into_iter().map(|(n, b)| (n.to_string(), b)).collect();
    let cart = Rc::new(Snapshot::from_entries(entries, SnapshotLimits::default()).unwrap());
    DrawState::new(8, 8, cart)
}

#[test]
fn loads_tracks_and_samples_by_name_with_caching() {
    let mut d = state(vec![
        (
            "sfx/hit.trk",
            b"tempo 2\ninst 1 pulse\ninst 2 sample=kick\nC-4 1\nC-4 2\n".to_vec(),
        ),
        (
            "music/song.trk",
            b"loop 0\ninst 1 saw\nC-3 1|E-3 1\n".to_vec(),
        ),
        (
            "samples/kick.wav",
            encode_wav(22050, 8, 1, &[0, 255, 0, 255]),
        ),
        ("sfx/bad.trk", b"inst 1 sample=nope\nC-4 1\n".to_vec()),
    ]);
    assert_eq!(d.sfx("hit", None).unwrap(), 7);
    assert_eq!(d.audio.samples().used(), 4);
    assert_eq!(d.sfx("hit", Some(1)).unwrap(), 1);
    assert_eq!(d.sfx("nope", None).unwrap_err().code(), "asset_not_found");
    assert_eq!(d.sfx("../x", None).unwrap_err().code(), "asset_invalid");
    assert_eq!(d.sfx("bad", None).unwrap_err().code(), "asset_not_found");
    d.music(Some("song"), 0).unwrap();
    assert!(d.audio.music_playing());
    d.music(None, 0).unwrap();
    assert!(!d.audio.music_playing());
    d.audio.stop_all();
    assert_eq!(d.sample("kick", Some(3), 1 << 16).unwrap(), 3);
    assert_eq!(
        d.sample("kick", Some(9), 1 << 16).unwrap_err().code(),
        "audio_bad_channel"
    );
    d.volume(3, 0).unwrap();
    let out = d.audio.render().to_vec();
    assert!(out.iter().all(|&s| s == 0));
}
