//! Bounded asset decoders: `gfx/*.png` into `u8` sheets and `map/*.json`
//! into `i16` map buffers. Dimensions are validated and the ledger charged
//! before any image data is decoded.

use vstd::prelude::*;
use vstd::arithmetic::div_mod::*;
use vstd::string::*;
use crate::buf::{
    lemma_grid, lemma_place_of, Buf, BufKind, MapInfo, MAX_MAP_DIM, MAX_MAP_LAYERS, MAX_SHEET_DIM,
};
use crate::palette::{default_colour, default_palette, Rgb, PALETTE_SIZE};
use crate::pen::two_to;
use crate::resources::{bytes_of, placed, BufId, GfxError, Resources};
use crate::text::{dec, dec_int, hex, push_dec, push_dec_int, push_hex};

verus! {

/// Most bytes the PNG decoder may allocate for one image.
pub const PNG_DECODER_LIMIT: usize = 8 * 1024 * 1024;

/// How the samples of an image stand for colours.
#[derive(Debug, Clone, Copy, PartialEq, Eq, Structural)]
pub enum Samples {
    Grayscale,
    Rgb,
    Indexed,
    GrayscaleAlpha,
    Rgba,
}

/// What the PNG decoder reads of a file's header within a limit: width and
/// height, or the decoder's complaint.
pub uninterp spec fn png_info(bytes: Seq<u8>, limit: nat) -> Result<(u32, u32), Seq<char>>;

/// What the PNG decoder reads of a file's first frame within a limit, with
/// 16-bit channels cut to 8: the samples, what they stand for and their
/// depth, or the decoder's complaint.
pub uninterp spec fn png_frame(bytes: Seq<u8>, limit: nat) -> Result<
    (Seq<u8>, Samples, u8),
    Seq<char>,
>;

/// What the PNG encoder writes of 8-bit indices with a palette.
pub uninterp spec fn png_file(width: u32, height: u32, pixels: Seq<u8>, palette: Seq<u8>) -> Seq<
    u8,
>;

/// `png::Decoder::read_info` with `set_limits`: the width and the height in
/// the header, or the text of the error. A function of the bytes and the
/// limit; which files are readable is not stated.
#[verifier::external_body]
fn read_png_info(bytes: &[u8], limit: usize) -> (r: Result<(u32, u32), String>)
    ensures
        match (r, png_info(bytes@, limit as nat)) {
            (Ok(a), Ok(b)) => a == b,
            (Err(a), Err(b)) => a@ == b,
            _ => false,
        },
{
    let mut decoder = png::Decoder::new(std::io::Cursor::new(bytes));
    decoder.set_limits(png::Limits { bytes: limit });
    decoder.set_transformations(png::Transformations::STRIP_16);
    match decoder.read_info() {
        Ok(reader) => Ok((reader.info().width, reader.info().height)),
        Err(e) => Err(format!("{e}")),
    }
}

/// `png::Reader::next_frame` behind `png::Decoder::read_info`, with
/// `set_limits` and `STRIP_16`: the samples that were written to the
/// buffer, their colour type and their depth, or the text of the error. A
/// function of the bytes and the limit; what the samples are is not
/// stated.
#[verifier::external_body]
fn read_png_frame(bytes: &[u8], limit: usize) -> (r: Result<(Vec<u8>, Samples, u8), String>)
    ensures
        match (r, png_frame(bytes@, limit as nat)) {
            (Ok(a), Ok(b)) => a.0@ == b.0 && a.1 == b.1 && a.2 == b.2,
            (Err(a), Err(b)) => a@ == b,
            _ => false,
        },
{
    let mut decoder = png::Decoder::new(std::io::Cursor::new(bytes));
    decoder.set_limits(png::Limits { bytes: limit });
    decoder.set_transformations(png::Transformations::STRIP_16);
    let mut reader = decoder.read_info().map_err(|e| format!("{e}"))?;
    let mut raw = vec![0u8; reader.output_buffer_size().unwrap_or(0)];
    let out = reader.next_frame(&mut raw).map_err(|e| format!("{e}"))?;
    raw.truncate(out.buffer_size());
    let samples = match out.color_type {
        png::ColorType::Grayscale => Samples::Grayscale,
        png::ColorType::Rgb => Samples::Rgb,
        png::ColorType::Indexed => Samples::Indexed,
        png::ColorType::GrayscaleAlpha => Samples::GrayscaleAlpha,
        png::ColorType::Rgba => Samples::Rgba,
    };
    Ok((raw, samples, out.bit_depth as u8))
}

/// Whether the decoder reads a file as an 8-bit indexed image, if the image
/// is no larger than a sheet.
pub open spec fn reads_back(file: Seq<u8>, width: u32, height: u32, pixels: Seq<u8>) -> bool {
    width <= MAX_SHEET_DIM && height <= MAX_SHEET_DIM ==> {
        &&& png_info(file, PNG_DECODER_LIMIT as nat) == Ok::<(u32, u32), Seq<char>>((width, height))
        &&& png_frame(file, PNG_DECODER_LIMIT as nat) == Ok::<
            (Seq<u8>, Samples, u8),
            Seq<char>,
        >((pixels, Samples::Indexed, 8))
    }
}

/// `png::Encoder` writing one 8-bit indexed image with a palette to
/// memory. A function of its arguments. The decoder reads back the size
/// and the indices of an image that is no larger than a sheet.
#[verifier::external_body]
fn write_png(width: u32, height: u32, pixels: &[u8], palette: Vec<u8>) -> (out: Vec<u8>)
    requires
        1 <= width <= i32::MAX,
        1 <= height <= i32::MAX,
        pixels@.len() == width * height,
        3 <= palette@.len() <= 768,
        palette@.len() % 3 == 0,
    ensures
        out@ == png_file(width, height, pixels@, palette@),
        reads_back(out@, width, height, pixels@),
{
    let mut out = Vec::new();
    let mut enc = png::Encoder::new(&mut out, width, height);
    enc.set_color(png::ColorType::Indexed);
    enc.set_depth(png::BitDepth::Eight);
    enc.set_palette(palette);
    let mut w = enc.write_header().expect("in-memory PNG header");
    w.write_image_data(pixels).expect("in-memory PNG data");
    drop(w);
    out
}

pub open spec fn sheet_path_of(name: Seq<char>) -> Seq<char> {
    "gfx/"@ + name + ".png"@
}

pub open spec fn map_path_of(name: Seq<char>) -> Seq<char> {
    "map/"@ + name + ".json"@
}

pub fn sheet_path(name: &str) -> (s: String)
    ensures
        s@ == sheet_path_of(name@),
{
    let mut s = "gfx/".to_owned();
    s.append(name);
    s.append(".png");
    s
}

pub fn map_path(name: &str) -> (s: String)
    ensures
        s@ == map_path_of(name@),
{
    let mut s = "map/".to_owned();
    s.append(name);
    s.append(".json");
    s
}

// ----- samples to colour indices --------------------------------------------------------------

pub open spec fn short_data() -> Seq<char> {
    "PNG data is short"@
}

pub open spec fn bad_depth(depth: u8) -> Seq<char> {
    "unsupported sample depth "@ + dec(depth as nat)
}

/// A sample of a row whose samples are packed into bytes, the first in the
/// highest bits.
pub open spec fn packed(raw: Seq<u8>, row_bytes: int, depth: int, x: int, y: int) -> int {
    let per_byte = 8int / depth;
    raw[y * row_bytes + x / per_byte] as int / two_to(8 - depth * (x % per_byte + 1)) % two_to(
        depth,
    )
}

/// Bytes of a row of packed samples: rows begin on a byte.
pub open spec fn row_bytes(w: int, depth: int) -> int {
    (w + 8int / depth - 1) / (8int / depth)
}

/// Samples for one pixel.
pub open spec fn channels(s: Samples) -> int {
    match s {
        Samples::Rgb => 3,
        Samples::Rgba => 4,
        Samples::GrayscaleAlpha => 2,
        _ => 1,
    }
}

/// The colour of pixel `i`.
pub open spec fn pixel_rgb(raw: Seq<u8>, s: Samples, i: int) -> Seq<u8> {
    let at = i * channels(s);
    if s is GrayscaleAlpha {
        seq![raw[at], raw[at], raw[at]]
    } else {
        seq![raw[at], raw[at + 1], raw[at + 2]]
    }
}

/// The opacity of pixel `i`.
pub open spec fn pixel_alpha(raw: Seq<u8>, s: Samples, i: int) -> int {
    match s {
        Samples::Rgba => raw[i * 4 + 3] as int,
        Samples::GrayscaleAlpha => raw[i * 2 + 1] as int,
        _ => 255,
    }
}

/// The first default colour from `k` on that is a given one.
pub open spec fn colour_from(rgb: Seq<u8>, k: int) -> Option<u8>
    decreases PALETTE_SIZE - k,
{
    if k >= PALETTE_SIZE {
        None
    } else if default_colour(k) == rgb {
        Some(k as u8)
    } else {
        colour_from(rgb, k + 1)
    }
}

/// The index of pixel `i`: colour 0 where it is more transparent than not.
pub open spec fn pixel_index(raw: Seq<u8>, s: Samples, i: int) -> Option<u8> {
    if pixel_alpha(raw, s, i) < 128 {
        Some(0u8)
    } else {
        colour_from(pixel_rgb(raw, s, i), 0)
    }
}

pub open spec fn unknown_colour(raw: Seq<u8>, s: Samples, w: int, i: int) -> Seq<char> {
    let c = pixel_rgb(raw, s, i);
    "pixel "@ + dec(i as nat) + " at ("@ + dec((i % w) as nat) + ", "@ + dec((i / w) as nat)
        + ") is #"@ + hex(c[0] as nat, 2) + hex(c[1] as nat, 2) + hex(c[2] as nat, 2)
        + ", not a default palette colour; use an indexed PNG"@
}

/// The indices of the pixels from `i` on, or the first pixel whose colour
/// is not known.
pub open spec fn true_colour(raw: Seq<u8>, s: Samples, w: int, n: int, i: int) -> Result<
    Seq<u8>,
    Seq<char>,
>
    decreases n - i,
{
    if i >= n {
        Ok(seq![])
    } else {
        match pixel_index(raw, s, i) {
            None => Err(unknown_colour(raw, s, w, i)),
            Some(c) => match true_colour(raw, s, w, n, i + 1) {
                Err(e) => Err(e),
                Ok(rest) => Ok(seq![c] + rest),
            },
        }
    }
}

pub open spec fn direct(s: Samples) -> bool {
    s is Indexed || s is Grayscale
}

/// The colour indices of an image's samples, or why they give none.
pub open spec fn indices(raw: Seq<u8>, w: int, h: int, s: Samples, depth: u8) -> Result<
    Seq<u8>,
    Seq<char>,
> {
    if !(depth == 1 || depth == 2 || depth == 4 || depth == 8) {
        Err(bad_depth(depth))
    } else if direct(s) {
        let rb = row_bytes(w, depth as int);
        if raw.len() < rb * h {
            Err(short_data())
        } else {
            Ok(
                Seq::new(
                    (w * h) as nat,
                    |i: int| (packed(raw, rb, depth as int, i % w, i / w) % 128) as u8,
                ),
            )
        }
    } else if raw.len() < w * h * channels(s) {
        Err(short_data())
    } else {
        true_colour(raw, s, w, w * h, 0)
    }
}

proof fn lemma_two_to(n: int)
    requires
        0 <= n <= 8,
    ensures
        two_to(n) >= 1,
        two_to(0) == 1,
        two_to(1) == 2,
        two_to(2) == 4,
        two_to(3) == 8,
        two_to(4) == 16,
        two_to(5) == 32,
        two_to(6) == 64,
        two_to(7) == 128,
        two_to(8) == 256,
{
    reveal_with_fuel(two_to, 9);
}

fn power(n: u32) -> (p: u32)
    requires
        n <= 8,
    ensures
        p == two_to(n as int),
        1 <= p <= 256,
{
    proof {
        lemma_two_to(n as int);
    }
    let mut p: u32 = 1;
    let mut i: u32 = 0;
    while i < n
        invariant
            i <= n <= 8,
            p == two_to(i as int),
            1 <= p <= 256,
        decreases n - i,
    {
        proof {
            lemma_two_to(i as int);
        }
        p = p * 2;
        i += 1;
    }
    p
}

/// The first default colour that is a given one.
fn find_colour(palette: &[Rgb; 128], r: u8, g: u8, b: u8) -> (c: Option<u8>)
    requires
        forall|i: int| 0 <= i < PALETTE_SIZE ==> (#[trigger] palette@[i])@ == default_colour(i),
    ensures
        c == colour_from(seq![r, g, b], 0),
{
    let mut k: usize = 0;
    while k < PALETTE_SIZE
        invariant
            k <= PALETTE_SIZE,
            forall|i: int| 0 <= i < PALETTE_SIZE ==> (#[trigger] palette@[i])@ == default_colour(i),
            colour_from(seq![r, g, b], 0) == colour_from(seq![r, g, b], k as int),
        decreases PALETTE_SIZE - k,
    {
        assert(palette@[k as int]@ == default_colour(k as int));
        let e = palette[k];
        if e[0] == r && e[1] == g && e[2] == b {
            assert(e@ =~= seq![r, g, b]);
            return Some(k as u8);
        }
        assert(e@ != seq![r, g, b]) by {
            assert(seq![r, g, b][0] == r && seq![r, g, b][1] == g && seq![r, g, b][2] == b);
        }
        k += 1;
    }
    None
}

/// What was read, before the rest.
spec fn before(read: Seq<u8>, rest: Result<Seq<u8>, Seq<char>>) -> Result<Seq<u8>, Seq<char>> {
    match rest {
        Ok(t) => Ok(read + t),
        Err(e) => Err(e),
    }
}

#[verifier::spinoff_prover]
#[verifier::rlimit(50)]
fn true_colour_indices(raw: &[u8], width: u32, height: u32, samples: Samples) -> (r: Result<
    Vec<u8>,
    String,
>)
    requires
        1 <= width <= MAX_SHEET_DIM,
        1 <= height <= MAX_SHEET_DIM,
        !direct(samples),
        raw@.len() >= width * height * channels(samples),
    ensures
        match (r, true_colour(raw@, samples, width as int, width * height, 0)) {
            (Ok(v), Ok(s)) => v@ == s,
            (Err(a), Err(b)) => a@ == b,
            _ => false,
        },
{
    let palette = default_palette();
    let mut out: Vec<u8> = Vec::new();
    proof {
        assert(1 <= width * height <= 1024 * 1024) by (nonlinear_arith)
            requires
                1 <= width <= 1024,
                1 <= height <= 1024,
        ;
    }
    let n: usize = width as usize * height as usize;
    let ch: usize = match samples {
        Samples::Rgb => 3,
        Samples::Rgba => 4,
        _ => 2,
    };
    let ghost w = width as int;
    let ghost whole = true_colour(raw@, samples, w, n as int, 0);
    let mut i: usize = 0;
    proof {
        if let Ok(t) = whole {
            assert(seq![] + t =~= t);
        }
    }
    while i < n
        invariant
            i <= n <= 1024 * 1024,
            n == width * height,
            w == width,
            1 <= w,
            ch == channels(samples),
            !direct(samples),
            raw@.len() >= n * ch,
            forall|k: int|
                0 <= k < PALETTE_SIZE ==> (#[trigger] palette@[k])@ == default_colour(k),
            whole == true_colour(raw@, samples, w, n as int, 0),
            whole == before(out@, true_colour(raw@, samples, w, n as int, i as int)),
        decreases n - i,
    {
        proof {
            assert(i * ch + ch <= n * ch) by (nonlinear_arith)
                requires
                    i < n,
                    ch >= 0,
            ;
            assert(i * ch <= 1024 * 1024 * 4) by (nonlinear_arith)
                requires
                    i < 1024 * 1024,
                    ch <= 4,
            ;
        }
        let at: usize = i * ch;
        let (r, g, b, alpha) = match samples {
            Samples::Rgb => (raw[at], raw[at + 1], raw[at + 2], 255u8),
            Samples::Rgba => (raw[at], raw[at + 1], raw[at + 2], raw[at + 3]),
            _ => (raw[at], raw[at], raw[at], raw[at + 1]),
        };
        assert(pixel_rgb(raw@, samples, i as int) =~= seq![r, g, b]);
        assert(alpha == pixel_alpha(raw@, samples, i as int));
        let c = if alpha < 128 { Some(0u8) } else { find_colour(&palette, r, g, b) };
        match c {
            Some(c) => {
                let ghost read = out@;
                out.push(c);
                proof {
                    let rest = true_colour(raw@, samples, w, n as int, i + 1);
                    if let Ok(t) = rest {
                        assert(read + (seq![c] + t) =~= out@ + t);
                    }
                }
            },
            None => {
                let mut m = "pixel ".to_owned();
                push_dec(&mut m, i as u64);
                m.append(" at (");
                push_dec(&mut m, (i % width as usize) as u64);
                m.append(", ");
                push_dec(&mut m, (i / width as usize) as u64);
                m.append(") is #");
                push_hex(&mut m, r as u64, 2);
                push_hex(&mut m, g as u64, 2);
                push_hex(&mut m, b as u64, 2);
                m.append(", not a default palette colour; use an indexed PNG");
                return Err(m);
            },
        }
        i += 1;
    }
    assert(out@ + Seq::<u8>::empty() =~= out@);
    Ok(out)
}

/// Samples in a byte.
fn samples_per_byte(depth: u8) -> (n: usize)
    requires
        depth == 1 || depth == 2 || depth == 4 || depth == 8,
    ensures
        n == 8int / depth as int,
        n == 8 || n == 4 || n == 2 || n == 1,
{
    if depth == 1 {
        8
    } else if depth == 2 {
        4
    } else if depth == 4 {
        2
    } else {
        1
    }
}

#[verifier::spinoff_prover]
#[verifier::rlimit(50)]
fn packed_indices(raw: &[u8], width: u32, height: u32, depth: u8) -> (out: Vec<u8>)
    requires
        1 <= width <= MAX_SHEET_DIM,
        1 <= height <= MAX_SHEET_DIM,
        depth == 1 || depth == 2 || depth == 4 || depth == 8,
        raw@.len() >= row_bytes(width as int, depth as int) * height,
    ensures
        out@ == Seq::new(
            (width * height) as nat,
            |i: int|
                (packed(
                    raw@,
                    row_bytes(width as int, depth as int),
                    depth as int,
                    i % width as int,
                    i / width as int,
                ) % 128) as u8,
        ),
{
    let per_byte = samples_per_byte(depth);
    let w: usize = width as usize;
    let h: usize = height as usize;
    let rb: usize = (w + per_byte - 1) / per_byte;
    let total: usize = raw.len();
    let mut out: Vec<u8> = Vec::new();
    let ghost want = Seq::new(
        (w * h) as nat,
        |i: int| (packed(raw@, rb as int, depth as int, i % w as int, i / w as int) % 128) as u8,
    );
    let mask = power(depth as u32);
    let mut y: usize = 0;
    while y < h
        invariant
            y <= h,
            1 <= w <= 1024,
            1 <= h <= 1024,
            depth == 1 || depth == 2 || depth == 4 || depth == 8,
            per_byte == 8int / depth as int,
            per_byte == 8 || per_byte == 4 || per_byte == 2 || per_byte == 1,
            rb == row_bytes(w as int, depth as int),
            total == raw@.len(),
            total >= rb * h,
            mask == two_to(depth as int),
            1 <= mask <= 256,
            want == Seq::new(
                (w * h) as nat,
                |i: int|
                    (packed(raw@, rb as int, depth as int, i % w as int, i / w as int)
                        % 128) as u8,
            ),
            out@.len() == y * w,
            forall|i: int| 0 <= i < out@.len() ==> #[trigger] out@[i] == want[i],
        decreases h - y,
    {
        let mut x: usize = 0;
        while x < w
            invariant
                y < h,
                x <= w,
                1 <= w <= 1024,
                1 <= h <= 1024,
                depth == 1 || depth == 2 || depth == 4 || depth == 8,
                per_byte == 8int / depth as int,
            per_byte == 8 || per_byte == 4 || per_byte == 2 || per_byte == 1,
                rb == row_bytes(w as int, depth as int),
                total == raw@.len(),
                total >= rb * h,
                mask == two_to(depth as int),
                1 <= mask <= 256,
                want == Seq::new(
                    (w * h) as nat,
                    |i: int|
                        (packed(raw@, rb as int, depth as int, i % w as int, i / w as int)
                            % 128) as u8,
                ),
                out@.len() == y * w + x,
                forall|i: int| 0 <= i < out@.len() ==> #[trigger] out@[i] == want[i],
            decreases w - x,
        {
            proof {
                lemma_grid(x as int, y as int, w as int, h as int);
                assert(x / per_byte < rb) by {
                    let a = x as int;
                    let b = w as int;
                    let p = per_byte as int;
                    assert(rb == (b + p - 1) / p);
                    lemma_fundamental_div_mod(b + p - 1, p);
                    lemma_mod_bound(b + p - 1, p);
                    lemma_fundamental_div_mod(a, p);
                    lemma_mod_bound(a, p);
                    let q = a / p;
                    let r = (b + p - 1) / p;
                    assert(q < r) by (nonlinear_arith)
                        requires
                            a == p * q + a % p,
                            b + p - 1 == p * r + (b + p - 1) % p,
                            0 <= a % p,
                            (b + p - 1) % p < p,
                            a < b,
                            p > 0,
                    ;
                }
                lemma_grid((x / per_byte) as int, y as int, rb as int, h as int);
                assert(rb * h == h * rb) by (nonlinear_arith);
                lemma_grid(0, y as int, rb as int, h as int);
                assert(8 - depth * (x % per_byte + 1) >= 0 && depth * (x % per_byte + 1) >= 0) by {
                    let k = x % per_byte;
                    assert(depth == 1 ==> depth * (k + 1) == k + 1);
                    assert(depth == 2 ==> depth * (k + 1) == 2 * (k + 1));
                    assert(depth == 4 ==> depth * (k + 1) == 4 * (k + 1));
                    assert(depth == 8 ==> depth * (k + 1) == 8 * (k + 1));
                }
            }
            let byte = raw[y * rb + x / per_byte];
            let shift: u32 = 8 - depth as u32 * (x % per_byte + 1) as u32;
            let v: u32 = byte as u32 / power(shift) % mask;
            out.push((v % 128) as u8);
            x += 1;
        }
        assert((y + 1) * w == y * w + w) by (nonlinear_arith);
        y += 1;
    }
    assert(h * w == w * h) by (nonlinear_arith);
    assert(out@ =~= want);
    out
}

/// The colour indices of an image's samples. `path` is only for messages.
pub fn to_indices(
    path: &str,
    raw: &[u8],
    width: u32,
    height: u32,
    samples: Samples,
    depth: u8,
) -> (r: Result<Vec<u8>, GfxError>)
    requires
        1 <= width <= MAX_SHEET_DIM,
        1 <= height <= MAX_SHEET_DIM,
    ensures
        match (r, indices(raw@, width as int, height as int, samples, depth)) {
            (Ok(v), Ok(s)) => v@ == s && s.len() == width * height,
            (Err(e), Err(why)) => e.says_invalid(path@, why),
            _ => false,
        },
{
    if !(depth == 1 || depth == 2 || depth == 4 || depth == 8) {
        let mut m = "unsupported sample depth ".to_owned();
        push_dec(&mut m, depth as u64);
        return Err(GfxError::asset_invalid(path, m.as_str()));
    }
    let ghost area = width * height;
    proof {
        assert(1 <= width * height <= 1024 * 1024) by (nonlinear_arith)
            requires
                1 <= width <= 1024,
                1 <= height <= 1024,
        ;
    }
    match samples {
        Samples::Indexed | Samples::Grayscale => {
            let per_byte = samples_per_byte(depth);
            let rb: usize = (width as usize + per_byte - 1) / per_byte;
            proof {
                assert(rb * height <= 1032 * 1024) by (nonlinear_arith)
                    requires
                        rb <= 1032,
                        height <= 1024,
                ;
            }
            if raw.len() < rb * height as usize {
                return Err(GfxError::asset_invalid(path, "PNG data is short"));
            }
            Ok(packed_indices(raw, width, height, depth))
        },
        _ => {
            let ch: usize = match samples {
                Samples::Rgb => 3,
                Samples::Rgba => 4,
                _ => 2,
            };
            proof {
                assert(width * height * ch <= 1024 * 1024 * 4) by (nonlinear_arith)
                    requires
                        0 <= width * height <= 1024 * 1024,
                        ch <= 4,
                ;
            }
            if raw.len() < width as usize * height as usize * ch {
                return Err(GfxError::asset_invalid(path, "PNG data is short"));
            }
            match true_colour_indices(raw, width, height, samples) {
                Ok(v) => {
                    proof {
                        lemma_true_colour_len(raw@, samples, width as int, area, 0);
                    }
                    Ok(v)
                },
                Err(m) => Err(GfxError::asset_invalid(path, m.as_str())),
            }
        },
    }
}

proof fn lemma_true_colour_len(raw: Seq<u8>, s: Samples, w: int, n: int, i: int)
    requires
        i <= n,
    ensures
        true_colour(raw, s, w, n, i) matches Ok(v) ==> v.len() == n - i,
    decreases n - i,
{
    if i < n {
        lemma_true_colour_len(raw, s, w, n, i + 1);
    }
}

// ----- sheets -----------------------------------------------------------------------------------

pub open spec fn sheet_sides_text(w: u32, h: u32) -> Seq<char> {
    dec(w as nat) + "x"@ + dec(h as nat) + " is not within 1..="@ + dec(MAX_SHEET_DIM as nat)
        + " on each side"@
}

/// What a file gives: a sheet's sides and indices, or why it gives none.
pub enum Sheet {
    Unreadable(Seq<char>),
    TooLarge(u32, u32),
    Broken(u32, u32, Seq<char>),
    Good(u32, u32, Seq<u8>),
}

pub open spec fn sheet_of(bytes: Seq<u8>) -> Sheet {
    match png_info(bytes, PNG_DECODER_LIMIT as nat) {
        Err(e) => Sheet::Unreadable("not a readable PNG: "@ + e),
        Ok((w, h)) => if !(1 <= w <= MAX_SHEET_DIM && 1 <= h <= MAX_SHEET_DIM) {
            Sheet::TooLarge(w, h)
        } else {
            match png_frame(bytes, PNG_DECODER_LIMIT as nat) {
                Err(e) => Sheet::Broken(w, h, "PNG data: "@ + e),
                Ok((raw, s, depth)) => match indices(raw, w as int, h as int, s, depth) {
                    Err(e) => Sheet::Broken(w, h, e),
                    Ok(v) => Sheet::Good(w, h, v),
                },
            }
        },
    }
}

/// A slab with another buffer in it.
pub open spec fn gained(r: Resources, s: Resources, id: BufId, b: Buf) -> bool {
    &&& id == r.next_id()
    &&& r.live(id) is None
    &&& s.live(id) == Some(b)
    &&& forall|o: BufId| o != id ==> #[trigger] s.live(o) == r.live(o)
    &&& s.ledger.used == r.ledger.used + bytes_of(b)
    &&& s.ledger.cap == r.ledger.cap
    &&& placed(r, s, b)
}

/// A slab as it was, but for nothing that can be seen.
pub open spec fn unchanged(r: Resources, s: Resources) -> bool {
    s.slots == r.slots && s.free == r.free && s.names == r.names && s.ledger == r.ledger
}

/// What comes of decoding a sheet into a slab: an error, and nothing
/// changed, or a buffer that holds the sheet.
pub open spec fn sheet_decoded(
    r: Result<BufId, GfxError>,
    path: Seq<char>,
    bytes: Seq<u8>,
    was: Resources,
    now: Resources,
) -> bool {
    match sheet_of(bytes) {
        Sheet::Unreadable(why) => r is Err && r->Err_0.says_invalid(path, why) && unchanged(
            was,
            now,
        ),
        Sheet::TooLarge(w, h) => r is Err && r->Err_0.says_too_large(path, sheet_sides_text(w, h))
            && unchanged(was, now),
        Sheet::Broken(w, h, why) => unchanged(was, now) && r is Err && (if was.ledger.used + w * h
            > was.ledger.cap {
            r->Err_0 == was.ledger.refusal((w * h) as usize)
        } else {
            r->Err_0.says_invalid(path, why)
        }),
        Sheet::Good(w, h, v) => if was.ledger.used + w * h > was.ledger.cap {
            &&& r == Err::<BufId, GfxError>(was.ledger.refusal((w * h) as usize))
            &&& unchanged(was, now)
        } else {
            &&& r is Ok
            &&& now.live(r->Ok_0) matches Some(b) && b.kind == BufKind::U8 && b.width == w
                && b.height == h && b.map is None && b.data is U8 && b.data->U8_0@ == v && gained(
                was,
                now,
                r->Ok_0,
                b,
            )
        },
    }
}

/// Decode a PNG into a sheet and put it in the slab. `path` is only for
/// messages. The budget is asked before the image data is decoded, and
/// has its bytes back where that fails.
pub fn decode_sheet(path: &str, bytes: &[u8], res: &mut Resources) -> (r: Result<BufId, GfxError>)
    requires
        old(res).wf(),
    ensures
        final(res).wf(),
        final(res).names@ == old(res).names@,
        sheet_decoded(r, path@, bytes@, *old(res), *final(res)),
{
    let (width, height) = match read_png_info(bytes, PNG_DECODER_LIMIT) {
        Ok(x) => x,
        Err(e) => {
            let mut m = "not a readable PNG: ".to_owned();
            m.append(e.as_str());
            return Err(GfxError::asset_invalid(path, m.as_str()));
        },
    };
    if width == 0 || height == 0 || width > MAX_SHEET_DIM || height > MAX_SHEET_DIM {
        let mut m = String::new();
        push_dec(&mut m, width as u64);
        m.append("x");
        push_dec(&mut m, height as u64);
        m.append(" is not within 1..=");
        push_dec(&mut m, MAX_SHEET_DIM as u64);
        m.append(" on each side");
        assert(m@ =~= sheet_sides_text(width, height));
        return Err(GfxError::asset_too_large(path, m.as_str()));
    }
    proof {
        assert(1 <= width * height <= 1024 * 1024) by (nonlinear_arith)
            requires
                1 <= width <= 1024,
                1 <= height <= 1024,
        ;
    }
    let pixels: usize = width as usize * height as usize;
    let ghost start = *res;
    if let Err(e) = res.reserve(pixels) {
        return Err(e);
    }
    match read_png_frame(bytes, PNG_DECODER_LIMIT) {
        Ok((raw, samples, depth)) => {
            match to_indices(path, raw.as_slice(), width, height, samples, depth) {
                Ok(v) => {
                    let buf = Buf::from_u8(width, height, v);
                    let id = res.insert_charged(buf);
                    assert(gained(start, *res, id, buf)) by {
                        assert forall|o: BufId| o != id implies #[trigger] res.live(o)
                            == start.live(o) by {}
                    }
                    Ok(id)
                },
                Err(e) => {
                    res.unreserve(pixels);
                    Err(e)
                },
            }
        },
        Err(e) => {
            res.unreserve(pixels);
            let mut m = "PNG data: ".to_owned();
            m.append(e.as_str());
            Err(GfxError::asset_invalid(path, m.as_str()))
        },
    }
}

/// A palette's bytes, colour after colour.
pub open spec fn palette_bytes(p: Seq<Rgb>, n: nat) -> Seq<u8>
    decreases n,
{
    if n == 0 {
        seq![]
    } else {
        palette_bytes(p, (n - 1) as nat) + p[n - 1]@
    }
}

proof fn lemma_palette_len(p: Seq<Rgb>, n: nat)
    ensures
        palette_bytes(p, n).len() == 3 * n,
    decreases n,
{
    if n > 0 {
        lemma_palette_len(p, (n - 1) as nat);
    }
}

/// Indices as a sheet keeps them.
pub open spec fn masked(pixels: Seq<u8>) -> Seq<u8> {
    Seq::new(pixels.len(), |i: int| (pixels[i] % 128) as u8)
}

/// Encode an indexed 8-bit PNG with a palette. Used by the headless host
/// for captures and by tests to make fixtures; kept here so the decoder
/// and encoder agree: what it writes decodes to the same indices.
pub fn encode_indexed_png(width: u32, height: u32, pixels: &[u8], palette: &[Rgb]) -> (out: Vec<u8>)
    requires
        1 <= width <= i32::MAX,
        1 <= height <= i32::MAX,
        pixels@.len() == width * height,
        1 <= palette@.len() <= 256,
    ensures
        out@ == png_file(width, height, pixels@, palette_bytes(palette@, palette@.len())),
        width <= MAX_SHEET_DIM && height <= MAX_SHEET_DIM ==> sheet_of(out@) == Sheet::Good(
            width,
            height,
            masked(pixels@),
        ),
{
    let mut plte: Vec<u8> = Vec::new();
    let mut i: usize = 0;
    while i < palette.len()
        invariant
            i <= palette@.len(),
            plte@ == palette_bytes(palette@, i as nat),
        decreases palette.len() - i,
    {
        let c = palette[i];
        plte.push(c[0]);
        plte.push(c[1]);
        plte.push(c[2]);
        assert(plte@ =~= palette_bytes(palette@, i as nat) + palette@[i as int]@);
        i += 1;
    }
    proof {
        lemma_palette_len(palette@, palette@.len());
    }
    let out = write_png(width, height, pixels, plte);
    proof {
        if width <= MAX_SHEET_DIM && height <= MAX_SHEET_DIM {
            lemma_bytes_unpack(pixels@, width as int, height as int);
        }
    }
    out
}

/// Samples of a byte each are the indices.
proof fn lemma_bytes_unpack(pixels: Seq<u8>, w: int, h: int)
    requires
        w > 0,
        h > 0,
        pixels.len() == w * h,
    ensures
        indices(pixels, w, h, Samples::Indexed, 8) == Ok::<Seq<u8>, Seq<char>>(masked(pixels)),
{
    lemma_two_to(0);
    let rb = row_bytes(w, 8);
    assert(8int / 8int == 1);
    assert(rb == w);
    let v = indices(pixels, w, h, Samples::Indexed, 8)->Ok_0;
    assert forall|i: int| 0 <= i < w * h implies #[trigger] v[i] == masked(pixels)[i] by {
        lemma_place_of(i, w, h);
        assert((i % w) / 1 == i % w);
        assert((i % w) % 1 == 0);
        assert(8 - 8 * ((i % w) % 1 + 1) == 0);
        assert(packed(pixels, rb, 8, i % w, i / w) == pixels[i] as int);
    }
    assert(v =~= masked(pixels));
}

// ----- maps -------------------------------------------------------------------------------------

/// A map file, as its JSON holds it.
#[derive(Debug, Clone, PartialEq, Eq)]
pub struct MapFile {
    pub tile_size: u32,
    pub width: u32,
    pub height: u32,
    pub layers: Vec<Vec<i32>>,
}

/// What a map file gives: the cells of its layers, one after the other, or
/// why it gives none.
pub enum Cells {
    Invalid(Seq<char>),
    TooLarge(Seq<char>),
    Good(Seq<i16>),
}

pub open spec fn bad_tile(n: u32) -> Seq<char> {
    "tile_size must be 8 or 16, got "@ + dec(n as nat)
}

pub open spec fn map_sides_text(w: u32, h: u32) -> Seq<char> {
    dec(w as nat) + "x"@ + dec(h as nat) + " cells is not within 1..="@ + dec(MAX_MAP_DIM as nat)
        + " on each side"@
}

pub open spec fn bad_layers(n: int) -> Seq<char> {
    "maps have 1 to "@ + dec(MAX_MAP_LAYERS as nat) + " layers, got "@ + dec(n as nat)
}

pub open spec fn bad_layer(layer: int, got: int, want: int) -> Seq<char> {
    "layer "@ + dec(layer as nat) + " has "@ + dec(got as nat) + " cells, expected "@ + dec(
        want as nat,
    )
}

pub open spec fn bad_cell(layer: int, cell: int, v: int) -> Seq<char> {
    "layer "@ + dec(layer as nat) + " cell "@ + dec(cell as nat) + " value "@ + dec_int(v)
        + " is not an i16"@
}

/// The cells of a layer from `i` on, or the first that does not fit.
pub open spec fn layer_cells(layer: Seq<i32>, li: int, i: int) -> Result<Seq<i16>, Seq<char>>
    decreases layer.len() - i,
{
    if i < 0 || i >= layer.len() {
        Ok(seq![])
    } else if !(i16::MIN <= layer[i] <= i16::MAX) {
        Err(bad_cell(li, i, layer[i] as int))
    } else {
        match layer_cells(layer, li, i + 1) {
            Err(e) => Err(e),
            Ok(rest) => Ok(seq![layer[i] as i16] + rest),
        }
    }
}

/// The cells of the layers from `li` on.
pub open spec fn layers_cells(layers: Seq<Vec<i32>>, per_layer: int, li: int) -> Result<
    Seq<i16>,
    Seq<char>,
>
    decreases layers.len() - li,
{
    if li < 0 || li >= layers.len() {
        Ok(seq![])
    } else if layers[li]@.len() != per_layer {
        Err(bad_layer(li, layers[li]@.len() as int, per_layer))
    } else {
        match layer_cells(layers[li]@, li, 0) {
            Err(e) => Err(e),
            Ok(cells) => match layers_cells(layers, per_layer, li + 1) {
                Err(e) => Err(e),
                Ok(rest) => Ok(cells + rest),
            },
        }
    }
}

pub open spec fn map_cells(f: MapFile) -> Cells {
    if f.tile_size != 8 && f.tile_size != 16 {
        Cells::Invalid(bad_tile(f.tile_size))
    } else if !(1 <= f.width <= MAX_MAP_DIM && 1 <= f.height <= MAX_MAP_DIM) {
        Cells::TooLarge(map_sides_text(f.width, f.height))
    } else if !(1 <= f.layers@.len() <= MAX_MAP_LAYERS) {
        Cells::Invalid(bad_layers(f.layers@.len() as int))
    } else {
        match layers_cells(f.layers@, f.width * f.height, 0) {
            Err(e) => Cells::Invalid(e),
            Ok(v) => Cells::Good(v),
        }
    }
}

spec fn cells_before(
    read: Seq<i16>,
    rest: Result<Seq<i16>, Seq<char>>,
) -> Result<Seq<i16>, Seq<char>> {
    match rest {
        Ok(t) => Ok(read + t),
        Err(e) => Err(e),
    }
}

proof fn lemma_layer_len(layer: Seq<i32>, li: int, i: int)
    requires
        0 <= i <= layer.len(),
    ensures
        layer_cells(layer, li, i) matches Ok(v) ==> v.len() == layer.len() - i,
    decreases layer.len() - i,
{
    if i < layer.len() {
        lemma_layer_len(layer, li, i + 1);
    }
}

proof fn lemma_layers_len(layers: Seq<Vec<i32>>, per_layer: int, li: int)
    requires
        0 <= li <= layers.len(),
    ensures
        layers_cells(layers, per_layer, li) matches Ok(v) ==> v.len() == per_layer * (layers.len()
            - li),
    decreases layers.len() - li,
{
    if li < layers.len() {
        lemma_layers_len(layers, per_layer, li + 1);
        lemma_layer_len(layers[li]@, li, 0);
        let n = layers.len() - li;
        assert(per_layer * n == per_layer + per_layer * (n - 1)) by (nonlinear_arith);
    } else {
        assert(per_layer * 0 == 0) by (nonlinear_arith);
    }
}

fn read_layer(out: &mut Vec<i16>, layer: &Vec<i32>, li: usize) -> (r: Result<(), String>)
    ensures
        match (r, layer_cells(layer@, li as int, 0)) {
            (Ok(_), Ok(v)) => final(out)@ == old(out)@ + v,
            (Err(a), Err(b)) => a@ == b,
            _ => false,
        },
{
    let ghost whole = cells_before(old(out)@, layer_cells(layer@, li as int, 0));
    let mut i: usize = 0;
    while i < layer.len()
        invariant
            i <= layer@.len(),
            whole == cells_before(old(out)@, layer_cells(layer@, li as int, 0)),
            whole == cells_before(out@, layer_cells(layer@, li as int, i as int)),
        decreases layer.len() - i,
    {
        let v = layer[i];
        if v < i16::MIN as i32 || v > i16::MAX as i32 {
            let mut m = "layer ".to_owned();
            push_dec(&mut m, li as u64);
            m.append(" cell ");
            push_dec(&mut m, i as u64);
            m.append(" value ");
            push_dec_int(&mut m, v as i64);
            m.append(" is not an i16");
            return Err(m);
        }
        let ghost read = out@;
        out.push(v as i16);
        proof {
            if let Ok(t) = layer_cells(layer@, li as int, i + 1) {
                assert(read + (seq![v as i16] + t) =~= out@ + t);
            }
        }
        i += 1;
    }
    assert(out@ + Seq::<i16>::empty() =~= out@);
    Ok(())
}

/// What comes of putting a map into a slab: an error, and nothing
/// changed, or a buffer that holds the map's layers.
pub open spec fn map_decoded(
    r: Result<BufId, GfxError>,
    path: Seq<char>,
    file: MapFile,
    was: Resources,
    now: Resources,
) -> bool {
    match map_cells(file) {
        Cells::Invalid(why) => r is Err && r->Err_0.says_invalid(path, why) && unchanged(was, now),
        Cells::TooLarge(why) => r is Err && r->Err_0.says_too_large(path, why) && unchanged(
            was,
            now,
        ),
        Cells::Good(v) => if was.ledger.used + 2 * v.len() > was.ledger.cap {
            &&& r == Err::<BufId, GfxError>(was.ledger.refusal((2 * v.len()) as usize))
            &&& unchanged(was, now)
        } else {
            &&& r is Ok
            &&& now.live(r->Ok_0) matches Some(b) && b.kind == BufKind::I16 && b.width
                == file.width && b.height == file.height * file.layers@.len() && b.map == Some(
                MapInfo {
                    rows: file.height,
                    layers: file.layers@.len() as u32,
                    tile_size: file.tile_size,
                },
            ) && b.data is I16 && b.data->I16_0@ == v && gained(was, now, r->Ok_0, b)
        },
    }
}

/// Turn a map file into one `i16` buffer, `width` wide and
/// `height * layers` tall, and put it in the slab.
#[verifier::spinoff_prover]
#[verifier::rlimit(50)]
pub fn decode_map(path: &str, file: &MapFile, res: &mut Resources) -> (r: Result<BufId, GfxError>)
    requires
        old(res).wf(),
    ensures
        final(res).wf(),
        final(res).names@ == old(res).names@,
        map_decoded(r, path@, *file, *old(res), *final(res)),
{
    if file.tile_size != 8 && file.tile_size != 16 {
        let mut m = "tile_size must be 8 or 16, got ".to_owned();
        push_dec(&mut m, file.tile_size as u64);
        return Err(GfxError::asset_invalid(path, m.as_str()));
    }
    if file.width == 0 || file.height == 0 || file.width > MAX_MAP_DIM || file.height
        > MAX_MAP_DIM {
        let mut m = String::new();
        push_dec(&mut m, file.width as u64);
        m.append("x");
        push_dec(&mut m, file.height as u64);
        m.append(" cells is not within 1..=");
        push_dec(&mut m, MAX_MAP_DIM as u64);
        m.append(" on each side");
        assert(m@ =~= map_sides_text(file.width, file.height));
        return Err(GfxError::asset_too_large(path, m.as_str()));
    }
    let count: usize = file.layers.len();
    if count == 0 || count > MAX_MAP_LAYERS as usize {
        let mut m = "maps have 1 to ".to_owned();
        push_dec(&mut m, MAX_MAP_LAYERS as u64);
        m.append(" layers, got ");
        push_dec(&mut m, count as u64);
        assert(m@ =~= bad_layers(count as int));
        return Err(GfxError::asset_invalid(path, m.as_str()));
    }
    proof {
        assert(1 <= file.width * file.height <= 256 * 256) by (nonlinear_arith)
            requires
                1 <= file.width <= 256,
                1 <= file.height <= 256,
        ;
    }
    let per_layer: usize = file.width as usize * file.height as usize;
    let mut cells: Vec<i16> = Vec::new();
    let ghost layers = file.layers@;
    let ghost whole = layers_cells(layers, per_layer as int, 0);
    proof {
        if let Ok(t) = whole {
            assert(seq![] + t =~= t);
        }
    }
    let mut li: usize = 0;
    while li < count
        invariant
            li <= count == file.layers@.len(),
            count <= MAX_MAP_LAYERS,
            layers == file.layers@,
            per_layer == file.width * file.height,
            !(file.tile_size != 8 && file.tile_size != 16),
            1 <= file.width <= MAX_MAP_DIM,
            1 <= file.height <= MAX_MAP_DIM,
            1 <= file.layers@.len() <= MAX_MAP_LAYERS,
            *res == *old(res),
            old(res).wf(),
            whole == layers_cells(layers, per_layer as int, 0),
            whole == cells_before(cells@, layers_cells(layers, per_layer as int, li as int)),
        decreases count - li,
    {
        let layer = &file.layers[li];
        if layer.len() != per_layer {
            let mut m = "layer ".to_owned();
            push_dec(&mut m, li as u64);
            m.append(" has ");
            push_dec(&mut m, layer.len() as u64);
            m.append(" cells, expected ");
            push_dec(&mut m, per_layer as u64);
            return Err(GfxError::asset_invalid(path, m.as_str()));
        }
        let ghost read = cells@;
        if let Err(m) = read_layer(&mut cells, layer, li) {
            return Err(GfxError::asset_invalid(path, m.as_str()));
        }
        proof {
            let here = layer_cells(layer@, li as int, 0)->Ok_0;
            if let Ok(t) = layers_cells(layers, per_layer as int, li + 1) {
                assert(read + (here + t) =~= cells@ + t);
            }
        }
        li += 1;
    }
    proof {
        assert(cells@ + Seq::<i16>::empty() =~= cells@);
        lemma_layers_len(layers, per_layer as int, 0);
        let n = count as int;
        assert(per_layer * n <= 256 * 256 * 4) by (nonlinear_arith)
            requires
                per_layer <= 256 * 256,
                0 <= n <= 4,
        ;
        assert(1 <= per_layer * n) by (nonlinear_arith)
            requires
                1 <= per_layer,
                1 <= n,
        ;
        assert(file.width * (file.height * n) == per_layer * n) by (nonlinear_arith)
            requires
                per_layer == file.width * file.height,
        ;
        assert(file.height * n <= 1024) by (nonlinear_arith)
            requires
                file.height <= 256,
                0 <= n <= 4,
        ;
    }
    let bytes: usize = cells.len() * 2;
    let ghost start = *res;
    if let Err(e) = res.reserve(bytes) {
        return Err(e);
    }
    let buf = Buf::from_i16(
        file.width,
        file.height * count as u32,
        cells,
        Some(MapInfo { rows: file.height, layers: count as u32, tile_size: file.tile_size }),
    );
    let id = res.insert_charged(buf);
    assert(gained(start, *res, id, buf)) by {
        assert forall|o: BufId| o != id implies #[trigger] res.live(o) == start.live(o) by {}
    }
    Ok(id)
}

} // verus!
