//! Sheets and maps.

use kuula::assets::{decode_map, decode_sheet, encode_indexed_png, MapFile};
use kuula::buf::MapInfo;
use kuula::palette::default_palette;
use kuula::resources::{GfxError, Resources};
use serde_json::Value;

/// The integers of a list.
fn cells(v: &Value) -> Option<Vec<i32>> {
    v.as_array()?
        .iter()
        .map(|c| c.as_i64().and_then(|n| i32::try_from(n).ok()))
        .collect()
}

/// What a JSON parser makes of a map file.
fn map_file(bytes: &[u8]) -> Result<MapFile, String> {
    let value: Value = serde_json::from_slice(bytes).map_err(|e| e.to_string())?;
    let object = value.as_object().ok_or("expected a map")?;
    let number = |key: &str| {
        let n = object.get(key).and_then(|v| v.as_u64());
        n.and_then(|n| u32::try_from(n).ok())
            .ok_or(format!("bad `{key}`"))
    };
    for key in object.keys() {
        if !["tile_size", "width", "height", "layers"].contains(&key.as_str()) {
            return Err(format!("unknown field `{key}`"));
        }
    }
    let layers = object.get("layers").and_then(|v| v.as_array());
    let layers: Option<Vec<Vec<i32>>> = layers.and_then(|l| l.iter().map(cells).collect());
    Ok(MapFile {
        tile_size: number("tile_size")?,
        width: number("width")?,
        height: number("height")?,
        layers: layers.ok_or("bad `layers`")?,
    })
}

fn rgba_png(width: u32, height: u32, rgba: &[u8]) -> Vec<u8> {
    let mut out = Vec::new();
    let mut enc = png::Encoder::new(&mut out, width, height);
    enc.set_color(png::ColorType::Rgba);
    enc.set_depth(png::BitDepth::Eight);
    let mut w = enc.write_header().unwrap();
    w.write_image_data(rgba).unwrap();
    drop(w);
    out
}

#[test]
fn indexed_and_rgba_decode_to_the_same_indices() {
    let pixels = [0u8, 7, 8, 0x7f, 16, 127];
    let indexed = encode_indexed_png(3, 2, &pixels, &default_palette());
    let mut rgba = Vec::new();
    for &p in &pixels {
        rgba.extend_from_slice(&default_palette()[p as usize]);
        rgba.push(255);
    }
    let rgba = rgba_png(3, 2, &rgba);

    let mut res = Resources::new(1, 1);
    let a = decode_sheet("gfx/a.png", &indexed, &mut res).unwrap();
    let b = decode_sheet("gfx/b.png", &rgba, &mut res).unwrap();
    assert_eq!(res.get(a).unwrap().as_u8().unwrap(), &pixels);
    // Index 16 is black like index 0, so it decodes as 0 from RGBA.
    let mut expected = pixels;
    expected[4] = 0;
    assert_eq!(res.get(b).unwrap().as_u8().unwrap(), &expected);
    assert_eq!(res.ledger().used(), 12);
}

#[test]
fn transparent_rgba_pixels_become_colour_0_and_unknown_colours_fail() {
    let mut res = Resources::new(1, 1);
    let png = rgba_png(2, 1, &[255, 0, 77, 255, 255, 0, 77, 10]);
    let id = decode_sheet("gfx/t.png", &png, &mut res).unwrap();
    assert_eq!(res.get(id).unwrap().as_u8().unwrap(), &[8, 0]);
    let png = rgba_png(1, 1, &[1, 2, 3, 255]);
    let e = decode_sheet("gfx/u.png", &png, &mut res).unwrap_err();
    assert_eq!(e.code(), "asset_invalid");
    assert!(e.text().contains("#010203"), "{e:?}");
    assert_eq!(res.ledger().used(), 2, "failed decode released its bytes");
}

#[test]
fn packed_indexed_depths_unpack() {
    // 2-bit indexed, 5 pixels wide: values 0,1,2,3,1.
    let mut out = Vec::new();
    {
        let mut enc = png::Encoder::new(&mut out, 5, 1);
        enc.set_color(png::ColorType::Indexed);
        enc.set_depth(png::BitDepth::Two);
        enc.set_palette(vec![0u8; 12]);
        let mut w = enc.write_header().unwrap();
        w.write_image_data(&[0b0001_1011, 0b0100_0000]).unwrap();
    }
    let mut res = Resources::new(1, 1);
    let id = decode_sheet("gfx/p.png", &out, &mut res).unwrap();
    assert_eq!(res.get(id).unwrap().as_u8().unwrap(), &[0, 1, 2, 3, 1]);
}

#[test]
fn sixteen_bit_pngs_decode_through_the_stripped_depth() {
    // 16-bit grayscale, 2 pixels: 0x0100 and 0x8300. STRIP_16 keeps
    // the high byte, so these are 1 and 0x83 & 0x7f = 3.
    let mut out = Vec::new();
    {
        let mut enc = png::Encoder::new(&mut out, 2, 1);
        enc.set_color(png::ColorType::Grayscale);
        enc.set_depth(png::BitDepth::Sixteen);
        let mut w = enc.write_header().unwrap();
        w.write_image_data(&[0x01, 0x00, 0x83, 0x00]).unwrap();
    }
    let mut res = Resources::new(1, 1);
    let id = decode_sheet("gfx/deep.png", &out, &mut res).unwrap();
    assert_eq!(res.get(id).unwrap().as_u8().unwrap(), &[1, 3]);
}

#[test]
fn oversized_and_garbage_pngs_fail_before_charging() {
    let mut res = Resources::new(1, 1);
    let big = encode_indexed_png(1025, 1, &vec![0; 1025], &default_palette());
    let e = decode_sheet("gfx/big.png", &big, &mut res).unwrap_err();
    assert_eq!(e.code(), "asset_too_large");
    let e = decode_sheet("gfx/no.png", b"not a png", &mut res).unwrap_err();
    assert_eq!(e.code(), "asset_invalid");
    // A truncated file fails after the header; bytes are released.
    let ok = encode_indexed_png(4, 4, &[1; 16], &default_palette());
    let e = decode_sheet("gfx/cut.png", &ok[..ok.len() - 20], &mut res).unwrap_err();
    assert_eq!(e.code(), "asset_invalid");
    assert_eq!(res.ledger().used(), 0);
}

#[test]
fn map_decodes_layers_into_one_buffer() {
    let json = br#"{"tile_size": 8, "width": 2, "height": 2, "layers": [[1, 2, 3, 4], [-1, 0, 0, -1]]}"#;
    let mut res = Resources::new(1, 1);
    let id = decode_map("map/m.json", &map_file(json).unwrap(), &mut res).unwrap();
    let b = res.get(id).unwrap();
    assert_eq!(b.width(), 2);
    assert_eq!(b.height(), 4);
    assert_eq!(b.as_i16().unwrap(), &[1, 2, 3, 4, -1, 0, 0, -1]);
    assert_eq!(
        b.map_info(),
        Some(MapInfo {
            rows: 2,
            layers: 2,
            tile_size: 8
        })
    );
    assert_eq!(res.ledger().used(), 16);
}

#[test]
fn map_errors_have_stable_codes() {
    let mut res = Resources::new(1, 1);
    let cases: [(&[u8], &str); 7] = [
        (
            br#"{"tile_size": 8, "width": 2, "height": 1, "layers": [[1]]}"#,
            "asset_invalid",
        ),
        (
            br#"{"tile_size": 12, "width": 1, "height": 1, "layers": [[1]]}"#,
            "asset_invalid",
        ),
        (
            br#"{"tile_size": 8, "width": 257, "height": 1, "layers": [[1]]}"#,
            "asset_too_large",
        ),
        (
            br#"{"tile_size": 8, "width": 1, "height": 1, "layers": []}"#,
            "asset_invalid",
        ),
        (
            br#"{"tile_size": 8, "width": 1, "height": 1, "layers": [[1],[1],[1],[1],[1]]}"#,
            "asset_invalid",
        ),
        (
            br#"{"tile_size": 8, "width": 1, "height": 1, "layers": [[70000]]}"#,
            "asset_invalid",
        ),
        (
            br#"{"tile_size": 8, "width": 1, "height": 1, "layers": [[1]], "extra": 1}"#,
            "asset_invalid",
        ),
    ];
    for (json, code) in cases {
        let parsed = map_file(json);
        let e = match &parsed {
            Ok(file) => decode_map("map/x.json", file, &mut res).unwrap_err(),
            Err(why) => GfxError::asset_invalid("map/x.json", why),
        };
        assert_eq!(e.code(), code, "{}", String::from_utf8_lossy(json));
    }
    assert_eq!(res.ledger().used(), 0);
}
