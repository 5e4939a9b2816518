//! The settings file.

use kuula::settings::{loaded, parse, render, rewritten, MAX_BYTES};
use kuula::shell::Settings;

#[test]
fn round_trip_and_tolerance() {
    let s = Settings {
        scale: 3,
        volume: 40,
        net: true,
    };
    assert_eq!(parse(&render(&s), Settings::default()), s);
    let lenient = parse(
        "garbage\nscale = 9\nvolume = x\nnet = on\nfuture = 1\n",
        Settings::default(),
    );
    assert_eq!(
        lenient,
        Settings {
            scale: 2,
            volume: 100,
            net: true
        }
    );
    assert_eq!(parse("", Settings::default()), Settings::default());
}

#[test]
fn settings_render_as_lines() {
    let s = Settings {
        scale: 1,
        volume: 7,
        net: false,
    };
    assert_eq!(render(&s), "scale = 1\nvolume = 7\nnet = off\n");
}

#[test]
fn an_oversized_or_missing_file_gives_the_defaults() {
    let d = Settings::default();
    assert_eq!(loaded(None, None, d), d);
    assert_eq!(loaded(Some(MAX_BYTES as u64 + 1), Some("scale = 3\n"), d), d);
    assert_eq!(loaded(Some(10), Some("scale = 3\n"), d).scale, 3);
}

#[test]
fn unknown_keys_are_kept() {
    let s = Settings {
        scale: 4,
        volume: 0,
        net: true,
    };
    let text = rewritten("future = 1\r\nscale = 2\ngarbage\n other= x", &s);
    assert_eq!(text, "scale = 4\nvolume = 0\nnet = on\nfuture = 1\n other= x\n");
    assert_eq!(parse(&text, Settings::default()), s);
    assert_eq!(rewritten("", &s), render(&s));
}
