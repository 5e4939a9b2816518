//! The draw state.

use kuula::assets::{encode_indexed_png, MapFile};
use kuula::buf::{BufKind, Element, Number, Rect};
use kuula::draw::sheets::MapFound;
use kuula::draw::{DrawState, MAX_LOG_LINES, MAX_LOG_LINE_BYTES};
use kuula::palette::default_palette;
use kuula::pen::{Colour, Fillp};
use kuula::resources::BufId;
use kuula::snapshot::{Snapshot, SnapshotLimits};
use serde_json::Value;
use std::rc::Rc;

/// A number as a buffer takes it.
fn num(v: f64) -> Number {
    Number {
        floor: v.floor() as i64,
        single: (v as f32).to_bits(),
    }
}

/// An element as a number.
fn value(e: Option<Element>) -> Option<f64> {
    e.map(|e| match e {
        Element::Int(i) => i as f64,
        Element::Single(b) => f32::from_bits(b) as f64,
    })
}

/// The integers of a list.
fn cells(v: &Value) -> Option<Vec<i32>> {
    v.as_array()?
        .iter()
        .map(|c| c.as_i64().and_then(|n| i32::try_from(n).ok()))
        .collect()
}

/// What a JSON parser makes of a map file.
fn map_file(bytes: &[u8]) -> Result<MapFile, String> {
    let value: Value = serde_json::from_slice(bytes).map_err(|e| e.to_string())?;
    let object = value.as_object().ok_or("expected a map")?;
    let number = |key: &str| {
        let n = object.get(key).and_then(|v| v.as_u64());
        n.and_then(|n| u32::try_from(n).ok())
            .ok_or(format!("bad `{key}`"))
    };
    for key in object.keys() {
        if !["tile_size", "width", "height", "layers"].contains(&key.as_str()) {
            return Err(format!("unknown field `{key}`"));
        }
    }
    let layers = object.get("layers").and_then(|v| v.as_array());
    let layers: Option<Vec<Vec<i32>>> = layers.and_then(|l| l.iter().map(cells).collect());
    Ok(MapFile {
        tile_size: number("tile_size")?,
        width: number("width")?,
        height: number("height")?,
        layers: layers.ok_or("bad `layers`")?,
    })
}

fn cart_with(entries: Vec<(&str, Vec<u8>)>) -> Rc<Snapshot> {
    let entries = entries.into_iter().map(|(n, b)| (n.to_string(), b)).collect();
    Rc::new(Snapshot::from_entries(entries, SnapshotLimits::default()).unwrap())
}

fn sheet_png() -> Vec<u8> {
    // 8x8: top-left pixel 1, the rest 0.
    let mut px = vec![0u8; 64];
    px[0] = 1;
    encode_indexed_png(8, 8, &px, &default_palette())
}

#[test]
fn default_state_has_a_screen_target_and_full_clip() {
    let mut d = DrawState::default();
    assert_eq!(d.screen_pixels().len(), 320 * 240);
    d.cls(3);
    assert!(d.screen_pixels().iter().all(|&p| p == 3));
    assert_eq!(d.pen.clip, Rect::new(0, 0, 320, 240));
}

#[test]
fn draw_target_switches_and_resets_the_clip() {
    let mut d = DrawState::new(8, 8, Rc::new(Snapshot::empty()));
    let b = d.buf_alloc(BufKind::U8, 4, 4).unwrap();
    d.clip(Some(Rect::new(1, 1, 2, 2)));
    d.draw_target(Some(b)).unwrap();
    assert_eq!(d.pen.clip, Rect::new(0, 0, 4, 4));
    d.rectfill(0, 0, 10, 10, Colour::solid(5));
    assert!(d
        .res
        .get(b)
        .unwrap()
        .as_u8()
        .unwrap()
        .iter()
        .all(|&p| p == 5));
    assert!(d.screen_pixels().iter().all(|&p| p == 0));
    assert_eq!(d.pget(0, 0), 5);
    let m = d.buf_alloc(BufKind::I16, 2, 2).unwrap();
    assert_eq!(
        d.draw_target(Some(m)).unwrap_err().code(),
        "buf_kind_mismatch"
    );
    // Releasing the target falls back to the screen.
    d.buf_release(b).unwrap();
    assert_eq!(d.pen.target, BufId::screen());
    d.pset(0, 0, Colour::solid(1));
    assert_eq!(d.screen_pixels()[0], 1);
}

#[test]
fn clip_is_intersected_with_the_target() {
    let mut d = DrawState::new(8, 8, Rc::new(Snapshot::empty()));
    d.clip(Some(Rect::new(-2, -2, 6, 20)));
    assert_eq!(d.pen.clip, Rect::new(0, 0, 4, 8));
    d.clip(None);
    assert_eq!(d.pen.clip, Rect::new(0, 0, 8, 8));
}

#[test]
fn load_sheet_caches_by_name_and_spr_needs_a_sheet() {
    let cart = cart_with(vec![("gfx/hero.png", sheet_png())]);
    let mut d = DrawState::new(8, 8, cart);
    assert_eq!(
        d.spr(0, 0, 0, 1, 1, false, false).unwrap_err().code(),
        "no_sheet"
    );
    let a = d.load_sheet("hero").unwrap();
    let b = d.load_sheet("hero").unwrap();
    assert_eq!(a, b);
    assert_eq!(d.res.ledger().used(), 64);
    assert_eq!(d.load_sheet("nope").unwrap_err().code(), "asset_not_found");
    assert_eq!(d.load_sheet("../x").unwrap_err().code(), "asset_invalid");
    d.sheet(Some(a)).unwrap();
    d.spr(0, 2, 2, 1, 1, false, false).unwrap();
    assert_eq!(d.pget(2, 2), 1);
    // Drawing the sheet onto itself is refused.
    d.draw_target(Some(a)).unwrap();
    assert_eq!(
        d.spr(0, 0, 0, 1, 1, false, false).unwrap_err().code(),
        "buf_aliased"
    );
    d.draw_target(None).unwrap();
    // Releasing the sheet deselects it and a reload decodes again.
    d.buf_release(a).unwrap();
    assert_eq!(d.pen.sheet, None);
    assert_eq!(d.res.ledger().used(), 0);
    let c = d.load_sheet("hero").unwrap();
    assert_ne!(a, c);
}

#[test]
fn map_draws_through_the_sheet_and_checks_layers() {
    let json =
        br#"{"tile_size": 8, "width": 2, "height": 1, "layers": [[0, -1], [-1, 0]]}"#.to_vec();
    let cart = cart_with(vec![("gfx/t.png", sheet_png()), ("map/m.json", json)]);
    let mut d = DrawState::new(16, 8, cart);
    let m = match d.find_map("m").unwrap() {
        MapFound::File(path, bytes) => d.load_map(&path, map_file(&bytes)).unwrap(),
        MapFound::Live(id) => id,
    };
    let s = d.load_sheet("t").unwrap();
    assert_eq!(
        d.map(m, 0, 0, 0, 0, 2, 1, 0).unwrap_err().code(),
        "no_sheet"
    );
    d.sheet(Some(s)).unwrap();
    assert_eq!(
        d.map(s, 0, 0, 0, 0, 2, 1, 0).unwrap_err().code(),
        "not_a_map"
    );
    d.map(m, 0, 0, 0, 0, 2, 1, 0).unwrap();
    assert_eq!(d.pget(0, 0), 1);
    assert_eq!(d.pget(8, 0), 0);
    d.cls(0);
    d.map(m, 0, 0, 0, 0, 2, 1, 1).unwrap();
    assert_eq!(d.pget(0, 0), 0);
    assert_eq!(d.pget(8, 0), 1);
    d.cls(0);
    d.map(m, 0, 0, 0, 0, 2, 1, 7).unwrap();
    assert!(d.screen_pixels().iter().all(|&p| p == 0));
    assert_eq!(d.sheet(Some(m)).unwrap_err().code(), "buf_kind_mismatch");
}

#[test]
fn buf_copy_and_blit_honour_the_clip_only_on_the_target() {
    let mut d = DrawState::new(4, 4, Rc::new(Snapshot::empty()));
    let a = d.buf_alloc(BufKind::U8, 4, 4).unwrap();
    d.buf_fill(a, num(7.0)).unwrap();
    d.clip(Some(Rect::new(0, 0, 2, 2)));
    d.buf_copy(BufId::screen(), a, 0, 0, 4, 4, 0, 0, true)
        .unwrap();
    assert_eq!(d.screen_pixels().iter().filter(|&&p| p == 7).count(), 4);
    d.buf_copy(BufId::screen(), a, 0, 0, 4, 4, 0, 0, false)
        .unwrap();
    assert_eq!(d.screen_pixels().iter().filter(|&&p| p == 7).count(), 16);
    // Same-buffer copy is allowed.
    d.buf_set(a, 0, 0, num(1.0)).unwrap();
    d.buf_copy(a, a, 0, 0, 1, 1, 3, 3, false).unwrap();
    assert_eq!(value(d.buf_get(a, 3, 3).unwrap()), Some(1.0));
    // Errors keep their codes.
    let m = d.buf_alloc(BufKind::I16, 1, 1).unwrap();
    assert_eq!(
        d.buf_copy(a, m, 0, 0, 1, 1, 0, 0, false)
            .unwrap_err()
            .code(),
        "buf_kind_mismatch"
    );
    d.buf_release(a).unwrap();
    assert_eq!(d.buf_get(a, 0, 0).unwrap_err().code(), "buf_released");
    assert_eq!(
        d.buf_release(BufId::screen()).unwrap_err().code(),
        "buf_protected"
    );
}

#[test]
fn reap_frees_only_live_ids() {
    let mut d = DrawState::new(4, 4, Rc::new(Snapshot::empty()));
    let a = d.buf_alloc(BufKind::U8, 4, 4).unwrap();
    d.buf_release(a).unwrap();
    let b = d.buf_alloc(BufKind::U8, 4, 4).unwrap();
    d.reap(&vec![a, b, BufId::screen()]);
    assert_eq!(d.res.live_count(), 1);
    assert_eq!(d.res.ledger().used(), 0);
}

#[test]
fn pal_respects_the_locked_system_colours() {
    let mut d = DrawState::default();
    assert_eq!(
        d.pal(3, [1, 2, 3]).unwrap_err().code(),
        "palette_index_locked"
    );
    assert_eq!(
        d.pal(128, [1, 2, 3]).unwrap_err().code(),
        "palette_index_out_of_range"
    );
    d.pal(16, [1, 2, 3]).unwrap();
    assert_eq!(d.palette.get(16), [1, 2, 3]);
    d.pal_restore();
    assert_eq!(d.palette.get(16), default_palette()[16]);
}

#[test]
fn log_is_bounded() {
    let mut d = DrawState::default();
    for i in 0..300 {
        d.log_line(format!("line {i}"));
    }
    assert_eq!(d.log.len(), MAX_LOG_LINES + 1);
    assert!(d.log.last().unwrap().contains("truncated"));
    let mut d = DrawState::default();
    d.log_line("x".repeat(5000));
    assert_eq!(d.log[0].len(), MAX_LOG_LINE_BYTES + 3);
    d.log_line(format!("{}\u{e9}", "y".repeat(MAX_LOG_LINE_BYTES - 1)));
    assert!(d.log[1].ends_with("..."));
}

/// The meter prices pixels touched after clipping, so the counts
/// every primitive returns are part of the API.
#[test]
fn primitives_report_pixels_touched_after_clipping() {
    let mut d = DrawState::default();
    assert_eq!(d.cls(0), 320 * 240);
    d.clip(Some(Rect::new(0, 0, 10, 10)));
    assert_eq!(d.cls(1), 100);
    assert_eq!(d.rectfill(-5, -5, 4, 4, Colour::solid(2)), 25);
    assert_eq!(d.rectfill(100, 100, 200, 200, Colour::solid(2)), 0);
    assert_eq!(d.pset(3, 3, Colour::solid(2)), 1);
    assert_eq!(d.pset(30, 3, Colour::solid(2)), 0);
    assert_eq!(d.line(0, 0, 99, 0, Colour::solid(2)), 10);
    assert_eq!(d.rect(0, 0, 9, 9, Colour::solid(2)), 36);
    // Circles floor at six per unit of radius, the unclipped walk.
    assert_eq!(d.circfill(5, 5, 1, Colour::solid(2)), 6);
    assert_eq!(d.circfill(5, 5, 4, Colour::solid(2)), 61);
    assert_eq!(d.circ(-40000, -40000, 40000, Colour::solid(2)), 6 * 32768);
    // A transparent source pixel is still touched; the pattern's
    // skipped pixels are too.
    d.palt(2, true);
    assert_eq!(d.rectfill(0, 0, 1, 1, Colour::solid(2)), 4);
    d.fillp(Fillp {
        pattern: 0xffff,
        transparent: true,
    });
    assert_eq!(d.rectfill(0, 0, 1, 1, Colour::solid(3)), 4);
    d.fillp(Fillp::default());
    let (end, touched) = d.print("ab", 0, 0, 7);
    assert_eq!(end, 8);
    assert!(touched > 0 && touched <= 30, "{touched}");
    d.clip(None);
    let sheet = d.res.allocate(BufKind::U8, 16, 8).unwrap();
    d.sheet(Some(sheet)).unwrap();
    assert_eq!(d.spr(0, 0, 0, 1, 1, false, false).unwrap(), 64);
    assert_eq!(d.spr(0, -4, 0, 1, 1, false, false).unwrap(), 32);
    assert_eq!(d.sspr(0, 0, 8, 8, 0, 0, 4, 4, false, false).unwrap(), 16);
}
