//! The manifest.

use kuula::manifest::{
    valid_asset_name, Manifest, ManifestError, ManifestFile, ParseError, ScreenMode, Service,
};
use toml::de::{DeTable, DeValue};
use toml::Spanned;

/// An error at a place of the text.
fn at(message: String, start: usize) -> ParseError {
    ParseError {
        message,
        start: Some(start),
    }
}

/// The strings of a list.
fn strings(v: &Spanned<DeValue<'_>>) -> Result<Vec<(String, usize)>, ParseError> {
    let list = v.get_ref().as_array();
    let list = list.ok_or_else(|| at("expected a sequence".to_string(), v.span().start))?;
    list.iter()
        .map(|e| match e.get_ref().as_str() {
            Some(s) => Ok((s.to_string(), e.span().start)),
            None => Err(at("expected a string".to_string(), e.span().start)),
        })
        .collect()
}

/// What a TOML parser makes of a manifest.
fn file_of(text: &str) -> Result<ManifestFile, ParseError> {
    let mut file = ManifestFile {
        title: String::new(),
        screen_mode: ScreenMode::default(),
        services: Vec::new(),
        sheets: Vec::new(),
        maps: Vec::new(),
    };
    let table = DeTable::parse(text).map_err(|e| ParseError {
        message: e.message().to_string(),
        start: e.span().map(|s| s.start),
    })?;
    for (section, content) in table.get_ref().iter() {
        let name: &str = section.get_ref();
        let keys = content.get_ref().as_table();
        let keys = keys.ok_or_else(|| at("expected a table".to_string(), content.span().start))?;
        for (key, value) in keys.iter() {
            let word: &str = key.get_ref();
            let text = || {
                let s = value.get_ref().as_str();
                s.ok_or_else(|| at("expected a string".to_string(), value.span().start))
            };
            match (name, word) {
                ("cart", "title") => file.title = text()?.to_string(),
                ("cart", "screen_mode") => {
                    let mode = text()?;
                    file.screen_mode = ScreenMode::parse(mode).ok_or_else(|| {
                        at(format!("unknown screen mode {mode:?}"), value.span().start)
                    })?;
                }
                ("cart", "services") => {
                    for (s, start) in strings(value)? {
                        if s != Service::Net.as_str() {
                            return Err(at(format!("unknown service {s:?}"), start));
                        }
                        file.services.push(Service::Net);
                    }
                }
                ("preload", "sheets") => {
                    file.sheets = strings(value)?.into_iter().map(|s| s.0).collect();
                }
                ("preload", "maps") => {
                    file.maps = strings(value)?.into_iter().map(|s| s.0).collect();
                }
                _ => return Err(at(format!("unknown field `{word}`"), key.span().start)),
            }
        }
        if name != "cart" && name != "preload" {
            return Err(at(format!("unknown field `{name}`"), section.span().start));
        }
    }
    Ok(file)
}

fn parse(text: &str) -> Result<Manifest, ManifestError> {
    Manifest::parse(text, file_of(text))
}

#[test]
fn empty_manifest_is_all_defaults() {
    let m = parse("").unwrap();
    assert_eq!(m, Manifest::default());
    assert_eq!(m.screen_mode, ScreenMode::High);
    assert_eq!(m.screen_mode.size(), (640, 480));
}

#[test]
fn full_manifest_parses() {
    let m = parse(
        "[cart]\ntitle = \"Tiles\"\nscreen_mode = \"320x240\"\n\n[preload]\nsheets = [\"tiles\", \"hero-2\"]\nmaps = [\"overworld\"]\n",
    )
    .unwrap();
    assert_eq!(m.title, "Tiles");
    assert_eq!(m.screen_mode, ScreenMode::Low);
    assert_eq!(m.preload_sheets, ["tiles", "hero-2"]);
    assert_eq!(m.preload_maps, ["overworld"]);
}

#[test]
fn unknown_keys_and_bad_modes_are_errors_with_lines() {
    let e = parse("[cart]\nscreen_mode = \"800x600\"\n").unwrap_err();
    assert!(e.message.contains("800x600"), "{}", e.message);
    assert_eq!(e.line, Some(2));
    let e = parse("[cart]\ntitle = 1\n\n[cart2]\nx = 1\n").unwrap_err();
    assert!(e.line.is_some());
    let e = parse("[cart]\nscreenmode = \"320x240\"\n").unwrap_err();
    assert!(e.message.contains("screenmode"), "{}", e.message);
    let e = parse("[preload]\nsheets = [\"../x\"]\n").unwrap_err();
    assert!(e.message.contains("../x"), "{}", e.message);
}

#[test]
fn services_are_a_closed_list() {
    let m = parse("[cart]\nservices = [\"net\", \"net\"]\n").unwrap();
    assert_eq!(m.services, [Service::Net]);
    assert!(m.has_service(Service::Net));
    assert!(!Manifest::default().has_service(Service::Net));
    let e = parse("[cart]\nservices = [\"gossip\"]\n").unwrap_err();
    assert!(e.message.contains("gossip"), "{}", e.message);
    assert_eq!(e.line, Some(2));
    let e = parse("[cart]\nservice = [\"net\"]\n").unwrap_err();
    assert!(e.message.contains("service"), "{}", e.message);
}

#[test]
fn asset_names_are_one_plain_component() {
    assert!(valid_asset_name("tiles"));
    assert!(valid_asset_name("hero_2-b"));
    assert!(!valid_asset_name(""));
    assert!(!valid_asset_name("a/b"));
    assert!(!valid_asset_name("a.png"));
    assert!(!valid_asset_name(&"x".repeat(65)));
}

#[test]
fn a_manifest_that_is_too_large_is_refused() {
    let text = format!("# {}\n", "x".repeat(64 * 1024));
    let e = parse(&text).unwrap_err();
    assert_eq!(e.message, "cart.toml is larger than 65536 bytes");
    assert_eq!(e.line, None);
}

#[test]
fn an_error_is_on_the_line_of_its_byte() {
    let e = Manifest::parse("a\nb\nc", Err(at("no".to_string(), 4))).unwrap_err();
    assert_eq!((e.message.as_str(), e.line), ("no", Some(3)));
    let e = Manifest::parse("a\nb\nc", Err(at("no".to_string(), 0))).unwrap_err();
    assert_eq!(e.line, Some(1));
}
