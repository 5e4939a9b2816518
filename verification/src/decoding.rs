//! What decoding gives back of the pictures, maps and samples that a cart
//! brings: the colours, cells and values that were put in.

use vstd::prelude::*;
use crate::assets::{
    colour_from, indices, layer_cells, layers_cells, map_cells, packed, pixel_index,
    pixel_rgb, png_frame, png_info, row_bytes, sheet_of, true_colour, Cells, MapFile, Samples,
    Sheet, PNG_DECODER_LIMIT,
};
use crate::audio::sample::{
    law_wav_reads_back, sample_from, samples_16, samples_8, wav, wav_bytes, Fmt, MAX_RATE,
    MIN_RATE, SAMPLE_BUDGET,
};
use crate::buf::{lemma_grid, MAX_SHEET_DIM};
use crate::palette::{default_colour, PALETTE_SIZE};
use crate::pen::two_to;

verus! {

// ----- true colours -------------------------------------------------------------------------

/// Whether some bytes hold colours at a number of bytes a pixel, the red
/// first, then the green, then the blue.
pub open spec fn holds_colours(raw: Seq<u8>, step: int, v: Seq<u8>) -> bool {
    &&& raw.len() >= v.len() * step
    &&& forall|i: int|
        0 <= i < v.len() ==> {
            &&& #[trigger] raw[i * step] == default_colour(v[i] as int)[0]
            &&& raw[i * step + 1] == default_colour(v[i] as int)[1]
            &&& raw[i * step + 2] == default_colour(v[i] as int)[2]
        }
}

/// Whether every pixel of four bytes is more opaque than not.
pub open spec fn opaque(raw: Seq<u8>, n: int) -> bool {
    forall|i: int| 0 <= i < n ==> raw[#[trigger] (i * 4) + 3] >= 128
}

proof fn lemma_colour_has_three(k: int)
    requires
        0 <= k < 128,
    ensures
        default_colour(k).len() == 3,
{
}

/// A default colour is found, and what is found is that colour.
proof fn lemma_found(rgb: Seq<u8>, k: int, at: int)
    requires
        0 <= k <= at < 128,
        default_colour(at) == rgb,
    ensures
        colour_from(rgb, k) is Some,
        k <= colour_from(rgb, k)->0 <= at,
        default_colour(colour_from(rgb, k)->0 as int) == rgb,
    decreases at - k,
{
    if default_colour(k) != rgb {
        lemma_found(rgb, k + 1, at);
    }
}

/// Nothing is found for a colour that is not a default one.
proof fn lemma_not_found(rgb: Seq<u8>, k: int)
    requires
        0 <= k,
        forall|j: int| k <= j < 128 ==> #[trigger] default_colour(j) != rgb,
    ensures
        colour_from(rgb, k) is None,
    decreases 128 - k,
{
    if k < 128 {
        assert(default_colour(k) != rgb);
        lemma_not_found(rgb, k + 1);
    }
}

proof fn lemma_true_colour(raw: Seq<u8>, s: Samples, w: int, n: int, i: int)
    requires
        0 <= i <= n,
        forall|k: int| 0 <= k < n ==> #[trigger] pixel_index(raw, s, k) is Some,
    ensures
        true_colour(raw, s, w, n, i) is Ok,
        true_colour(raw, s, w, n, i)->Ok_0.len() == n - i,
        forall|k: int|
            0 <= k < n - i ==> Some(#[trigger] true_colour(raw, s, w, n, i)->Ok_0[k])
                == pixel_index(raw, s, i + k),
    decreases n - i,
{
    if i < n {
        lemma_true_colour(raw, s, w, n, i + 1);
        assert(pixel_index(raw, s, i) is Some);
        let rest = true_colour(raw, s, w, n, i + 1)->Ok_0;
        let all = true_colour(raw, s, w, n, i)->Ok_0;
        assert(all == seq![pixel_index(raw, s, i)->0] + rest);
        assert forall|k: int| 0 <= k < n - i implies Some(#[trigger] all[k]) == pixel_index(
            raw,
            s,
            i + k,
        ) by {
            if k > 0 {
                assert(all[k] == rest[k - 1]);
                assert(pixel_index(raw, s, i + 1 + (k - 1)) == Some(rest[k - 1]));
            }
        }
    }
}

/// A picture made of default colours decodes to those colours, with or
/// without opacity: each pixel's bytes are red, green and blue in this
/// order, and a fourth of at least 128 makes it solid.
pub proof fn law_a_picture_of_default_colours_decodes(
    raw: Seq<u8>,
    v: Seq<u8>,
    w: int,
    h: int,
    s: Samples,
)
    requires
        w > 0,
        h > 0,
        v.len() == w * h,
        forall|i: int| 0 <= i < v.len() ==> (#[trigger] v[i]) < 128,
        s is Rgb && holds_colours(raw, 3, v) || s is Rgba && holds_colours(raw, 4, v) && opaque(
            raw,
            v.len() as int,
        ),
    ensures
        indices(raw, w, h, s, 8) is Ok,
        indices(raw, w, h, s, 8)->Ok_0.len() == v.len(),
        forall|i: int|
            0 <= i < v.len() ==> default_colour(#[trigger] indices(raw, w, h, s, 8)->Ok_0[i] as int)
                == default_colour(v[i] as int),
        forall|i: int| 0 <= i < v.len() ==> #[trigger] indices(raw, w, h, s, 8)->Ok_0[i] <= v[i],
{
    let n = w * h;
    assert forall|i: int| 0 <= i < n implies #[trigger] pixel_index(raw, s, i) is Some && pixel_index(
        raw,
        s,
        i,
    )->0 <= v[i] && default_colour(pixel_index(raw, s, i)->0 as int) == default_colour(
        v[i] as int,
    ) by {
        lemma_colour_has_three(v[i] as int);
        if s is Rgb {
            assert(raw[i * 3] == default_colour(v[i] as int)[0]);
        } else {
            assert(raw[i * 4] == default_colour(v[i] as int)[0]);
            assert(raw[(i * 4) + 3] >= 128);
        }
        assert(pixel_rgb(raw, s, i) =~= default_colour(v[i] as int));
        lemma_found(pixel_rgb(raw, s, i), 0, v[i] as int);
    }
    lemma_true_colour(raw, s, w, n, 0);
    let u = true_colour(raw, s, w, n, 0)->Ok_0;
    assert(indices(raw, w, h, s, 8) == Ok::<Seq<u8>, Seq<char>>(u));
    assert forall|i: int| 0 <= i < v.len() implies default_colour(#[trigger] u[i] as int)
        == default_colour(v[i] as int) && u[i] <= v[i] by {
        assert(Some(u[i]) == pixel_index(raw, s, 0 + i));
        assert(pixel_index(raw, s, i) is Some);
    }
}

/// What two forms of a picture give is the same where their pixels are.
proof fn lemma_same_picture(
    a: Seq<u8>,
    s: Samples,
    b: Seq<u8>,
    t: Samples,
    w: int,
    n: int,
    i: int,
)
    requires
        0 <= i <= n,
        forall|k: int| 0 <= k < n ==> #[trigger] pixel_rgb(a, s, k) == pixel_rgb(b, t, k),
        forall|k: int| 0 <= k < n ==> #[trigger] pixel_index(a, s, k) == pixel_index(b, t, k),
    ensures
        true_colour(a, s, w, n, i) == true_colour(b, t, w, n, i),
    decreases n - i,
{
    if i < n {
        lemma_same_picture(a, s, b, t, w, n, i + 1);
        assert(pixel_rgb(a, s, i) == pixel_rgb(b, t, i));
        assert(pixel_index(a, s, i) == pixel_index(b, t, i));
    }
}

/// A picture without opacity and the same one with every pixel solid give
/// the same, the error too where a colour is not known.
pub proof fn law_solid_pixels_need_no_opacity(rgb: Seq<u8>, rgba: Seq<u8>, w: int, h: int)
    requires
        w > 0,
        h > 0,
        rgb.len() == w * h * 3,
        rgba.len() == w * h * 4,
        opaque(rgba, w * h),
        forall|i: int, k: int|
            0 <= i < w * h && 0 <= k < 3 ==> #[trigger] rgba[(i * 4) + k] == rgb[(i * 3) + k],
    ensures
        indices(rgb, w, h, Samples::Rgb, 8) == indices(rgba, w, h, Samples::Rgba, 8),
{
    let n = w * h;
    assert forall|i: int| 0 <= i < n implies #[trigger] pixel_rgb(rgb, Samples::Rgb, i) == pixel_rgb(
        rgba,
        Samples::Rgba,
        i,
    ) by {
        assert(rgba[(i * 4) + 0] == rgb[(i * 3) + 0]);
        assert(rgba[(i * 4) + 1] == rgb[(i * 3) + 1]);
        assert(rgba[(i * 4) + 2] == rgb[(i * 3) + 2]);
        assert(pixel_rgb(rgb, Samples::Rgb, i) =~= pixel_rgb(rgba, Samples::Rgba, i));
    }
    assert forall|i: int| 0 <= i < n implies #[trigger] pixel_index(rgb, Samples::Rgb, i)
        == pixel_index(rgba, Samples::Rgba, i) by {
        assert(rgba[(i * 4) + 3] >= 128);
        assert(pixel_rgb(rgb, Samples::Rgb, i) == pixel_rgb(rgba, Samples::Rgba, i));
    }
    lemma_same_picture(rgb, Samples::Rgb, rgba, Samples::Rgba, w, n, 0);
}

/// A grey picture with opacity gives what the same one gives with the grey
/// in all three colours.
pub proof fn law_grey_is_three_equal_colours(grey: Seq<u8>, rgba: Seq<u8>, w: int, h: int)
    requires
        w > 0,
        h > 0,
        grey.len() == w * h * 2,
        rgba.len() == w * h * 4,
        forall|i: int, k: int|
            0 <= i < w * h && 0 <= k < 3 ==> #[trigger] rgba[(i * 4) + k] == grey[i * 2],
        forall|i: int| 0 <= i < w * h ==> rgba[#[trigger] (i * 4) + 3] == grey[(i * 2) + 1],
    ensures
        indices(grey, w, h, Samples::GrayscaleAlpha, 8) == indices(rgba, w, h, Samples::Rgba, 8),
{
    let n = w * h;
    let g = Samples::GrayscaleAlpha;
    assert forall|i: int| 0 <= i < n implies #[trigger] pixel_rgb(grey, g, i) == pixel_rgb(
        rgba,
        Samples::Rgba,
        i,
    ) by {
        assert(rgba[(i * 4) + 0] == grey[i * 2]);
        assert(rgba[(i * 4) + 1] == grey[i * 2]);
        assert(rgba[(i * 4) + 2] == grey[i * 2]);
        assert(pixel_rgb(grey, g, i) =~= pixel_rgb(rgba, Samples::Rgba, i));
    }
    assert forall|i: int| 0 <= i < n implies #[trigger] pixel_index(grey, g, i) == pixel_index(
        rgba,
        Samples::Rgba,
        i,
    ) by {
        assert(rgba[(i * 4) + 3] == grey[(i * 2) + 1]);
        assert(pixel_rgb(grey, g, i) == pixel_rgb(rgba, Samples::Rgba, i));
    }
    lemma_same_picture(grey, g, rgba, Samples::Rgba, w, n, 0);
}

/// A pixel that is more transparent than not is colour 0 whatever its
/// colour, and a solid one that has no default colour is refused.
pub proof fn law_transparent_pixels_are_colour_0(raw: Seq<u8>, w: int, h: int, i: int)
    requires
        w > 0,
        h > 0,
        raw.len() >= w * h * 4,
        0 <= i < w * h,
    ensures
        raw[i * 4 + 3] < 128 && indices(raw, w, h, Samples::Rgba, 8) is Ok ==> indices(
            raw,
            w,
            h,
            Samples::Rgba,
            8,
        )->Ok_0[i] == 0,
        raw[i * 4 + 3] >= 128 && (forall|k: int|
            0 <= k < 128 ==> #[trigger] default_colour(k) != seq![
                raw[i * 4],
                raw[i * 4 + 1],
                raw[i * 4 + 2],
            ]) ==> indices(raw, w, h, Samples::Rgba, 8) is Err,
{
    let s = Samples::Rgba;
    let n = w * h;
    if indices(raw, w, h, s, 8) is Ok {
        lemma_all_known(raw, s, w, n, 0);
        lemma_true_colour(raw, s, w, n, 0);
        let u = true_colour(raw, s, w, n, 0)->Ok_0;
        assert(Some(u[i]) == pixel_index(raw, s, 0 + i));
        assert(pixel_index(raw, s, i) is Some);
        if raw[i * 4 + 3] >= 128 && (forall|k: int|
            0 <= k < 128 ==> #[trigger] default_colour(k) != seq![
                raw[i * 4],
                raw[i * 4 + 1],
                raw[i * 4 + 2],
            ]) {
            lemma_not_found(pixel_rgb(raw, s, i), 0);
        }
    }
}

proof fn lemma_all_known(raw: Seq<u8>, s: Samples, w: int, n: int, i: int)
    requires
        0 <= i <= n,
        true_colour(raw, s, w, n, i) is Ok,
    ensures
        forall|k: int| i <= k < n ==> #[trigger] pixel_index(raw, s, k) is Some,
    decreases n - i,
{
    if i < n {
        lemma_all_known(raw, s, w, n, i + 1);
    }
}

// ----- indices ------------------------------------------------------------------------------

/// The indices of a picture are its samples: one to eight in a byte, the
/// leftmost pixel in the highest bits, each row from a byte of its own.
/// Seven bits of an index count.
pub proof fn law_samples_are_the_indices(
    raw: Seq<u8>,
    w: int,
    h: int,
    s: Samples,
    depth: u8,
    x: int,
    y: int,
)
    requires
        0 <= x < w,
        0 <= y < h,
        s is Indexed || s is Grayscale,
        depth == 1 || depth == 2 || depth == 4 || depth == 8,
    ensures
        ({
            let per = 8int / depth as int;
            let row = (w + per - 1) / per;
            let r = indices(raw, w, h, s, depth);
            let b = raw[y * row + x / per];
            &&& r is Ok <==> raw.len() >= row * h
            &&& r is Ok ==> r->Ok_0.len() == w * h
            &&& r is Ok && depth == 1 ==> r->Ok_0[y * w + x] == (b >> ((7 - x % 8) as u8)) & 1
            &&& r is Ok && depth == 2 ==> r->Ok_0[y * w + x] == (b >> ((6 - 2 * (x % 4)) as u8)) & 3
            &&& r is Ok && depth == 4 ==> r->Ok_0[y * w + x] == (b >> ((4 - 4 * (x % 2)) as u8)) & 15
            &&& r is Ok && depth == 8 ==> r->Ok_0[y * w + x] == b & 127
        }),
{
    lemma_grid(x, y, w, h);
    let per = 8int / depth as int;
    let row = (w + per - 1) / per;
    assert(row == row_bytes(w, depth as int));
    let i = y * w + x;
    if indices(raw, w, h, s, depth) is Ok {
        let u = indices(raw, w, h, s, depth)->Ok_0;
        assert(u[i] == (packed(raw, row, depth as int, i % w, i / w) % 128) as u8);
        assert(u.len() == w * h);
        if depth == 1 {
            assert(per == 8);
            lemma_packed_1(raw, row, x, y);
        } else if depth == 2 {
            assert(per == 4);
            lemma_packed_2(raw, row, x, y);
        } else if depth == 4 {
            assert(per == 2);
            lemma_packed_4(raw, row, x, y);
        } else {
            assert(per == 1);
            assert(x / 1 == x);
            lemma_packed_8(raw, row, x, y);
        }
    }
}

proof fn lemma_powers()
    ensures
        two_to(0) == 1,
        two_to(1) == 2,
        two_to(2) == 4,
        two_to(3) == 8,
        two_to(4) == 16,
        two_to(5) == 32,
        two_to(6) == 64,
        two_to(7) == 128,
        two_to(8) == 256,
{
    reveal_with_fuel(two_to, 9);
}

proof fn lemma_packed_1(raw: Seq<u8>, row: int, x: int, y: int)
    ensures
        packed(raw, row, 1, x, y) == (raw[y * row + x / 8] >> ((7 - x % 8) as u8)) & 1,
        0 <= packed(raw, row, 1, x, y) < 2,
{
    lemma_powers();
    let b = raw[y * row + x / 8];
    let k = x % 8;
    let n = (7 - k) as u8;
    assert((b >> 0u8) & 1 == b % 2 && (b >> 1u8) & 1 == b / 2 % 2 && (b >> 2u8) & 1 == b / 4 % 2 && (b
        >> 3u8) & 1 == b / 8 % 2 && (b >> 4u8) & 1 == b / 16 % 2 && (b >> 5u8) & 1 == b / 32 % 2 && (b
        >> 6u8) & 1 == b / 64 % 2 && (b >> 7u8) & 1 == b / 128 % 2) by (bit_vector);
    assert(k == 0 || k == 1 || k == 2 || k == 3 || k == 4 || k == 5 || k == 6 || k == 7);
}

proof fn lemma_packed_2(raw: Seq<u8>, row: int, x: int, y: int)
    ensures
        packed(raw, row, 2, x, y) == (raw[y * row + x / 4] >> ((6 - 2 * (x % 4)) as u8)) & 3,
        0 <= packed(raw, row, 2, x, y) < 4,
{
    lemma_powers();
    let b = raw[y * row + x / 4];
    let k = x % 4;
    assert((b >> 0u8) & 3 == b % 4 && (b >> 2u8) & 3 == b / 4 % 4 && (b >> 4u8) & 3 == b / 16 % 4
        && (b >> 6u8) & 3 == b / 64 % 4) by (bit_vector);
    assert(k == 0 || k == 1 || k == 2 || k == 3);
}

proof fn lemma_packed_4(raw: Seq<u8>, row: int, x: int, y: int)
    ensures
        packed(raw, row, 4, x, y) == (raw[y * row + x / 2] >> ((4 - 4 * (x % 2)) as u8)) & 15,
        0 <= packed(raw, row, 4, x, y) < 16,
{
    lemma_powers();
    let b = raw[y * row + x / 2];
    let k = x % 2;
    assert((b >> 0u8) & 15 == b % 16 && (b >> 4u8) & 15 == b / 16 % 16) by (bit_vector);
    assert(k == 0 || k == 1);
}

proof fn lemma_packed_8(raw: Seq<u8>, row: int, x: int, y: int)
    ensures
        packed(raw, row, 8, x, y) == raw[y * row + x],
        packed(raw, row, 8, x, y) % 128 == raw[y * row + x] & 127,
        0 <= packed(raw, row, 8, x, y) < 256,
{
    lemma_powers();
    let b = raw[y * row + x];
    assert(x / 1 == x && x % 1 == 0);
    assert(b & 127 == b % 128) by (bit_vector);
}

/// A sheet has the sides that its file says and the pixels of its frame.
pub proof fn law_a_sheet_is_its_picture(bytes: Seq<u8>)
    ensures
        sheet_of(bytes) matches Sheet::Good(w, h, v) ==> {
            &&& 1 <= w <= MAX_SHEET_DIM && 1 <= h <= MAX_SHEET_DIM
            &&& png_info(bytes, PNG_DECODER_LIMIT as nat) == Ok::<(u32, u32), Seq<char>>((w, h))
            &&& png_frame(bytes, PNG_DECODER_LIMIT as nat) matches Ok((raw, s, depth))
                && indices(raw, w as int, h as int, s, depth) == Ok::<Seq<u8>, Seq<char>>(v)
        },
        match (
            png_info(bytes, PNG_DECODER_LIMIT as nat),
            png_frame(bytes, PNG_DECODER_LIMIT as nat),
        ) {
            (Ok((w, h)), Ok((raw, s, depth))) => 1 <= w <= MAX_SHEET_DIM && 1 <= h <= MAX_SHEET_DIM
                && indices(raw, w as int, h as int, s, depth) is Ok ==> sheet_of(bytes) is Good,
            _ => !(sheet_of(bytes) is Good),
        },
{
}

/// The ramp behind the system colours holds every mix of four reds, four
/// greens and seven blues, the red changing first.
pub proof fn law_the_ramp_holds_every_mix(r: int, g: int, b: int)
    requires
        0 <= r < 4,
        0 <= g < 4,
        0 <= b < 7,
    ensures
        default_colour(16 + r + 4 * g + 16 * b) == seq![
            (85 * r) as u8,
            (85 * g) as u8,
            (42 * b) as u8,
        ],
        16 + r + 4 * g + 16 * b < PALETTE_SIZE,
{
    let n = r + 4 * g + 16 * b;
    assert(n % 4 == r && n / 4 % 4 == g && n / 16 % 7 == b);
}

// ----- maps -----------------------------------------------------------------------------------

proof fn lemma_layer_cells(layer: Seq<i32>, li: int, i: int)
    requires
        0 <= i <= layer.len(),
    ensures
        layer_cells(layer, li, i) is Ok <==> forall|k: int|
            i <= k < layer.len() ==> i16::MIN <= #[trigger] layer[k] <= i16::MAX,
        layer_cells(layer, li, i) matches Ok(v) ==> v.len() == layer.len() - i && forall|k: int|
            0 <= k < v.len() ==> (#[trigger] v[k]) as int == layer[i + k],
    decreases layer.len() - i,
{
    if i < layer.len() {
        lemma_layer_cells(layer, li, i + 1);
        if let Ok(v) = layer_cells(layer, li, i) {
            let rest = layer_cells(layer, li, i + 1)->Ok_0;
            assert(v == seq![layer[i] as i16] + rest);
            assert forall|k: int| 0 <= k < v.len() implies (#[trigger] v[k]) as int == layer[i
                + k] by {
                if k > 0 {
                    assert(v[k] == rest[k - 1]);
                    assert(rest[k - 1] as int == layer[i + 1 + (k - 1)]);
                }
            }
        }
        if forall|k: int| i <= k < layer.len() ==> i16::MIN <= #[trigger] layer[k] <= i16::MAX {
            assert(i16::MIN <= layer[i] <= i16::MAX);
        }
    }
}

proof fn lemma_layers_cells(layers: Seq<Vec<i32>>, per: int, li: int, l: int, k: int)
    requires
        0 <= li <= l < layers.len(),
        0 <= k < per,
    ensures
        layers_cells(layers, per, li) matches Ok(v) ==> {
            &&& layers[l]@.len() == per
            &&& v.len() == per * (layers.len() - li)
            &&& 0 <= (l - li) * per + k < v.len()
            &&& v[(l - li) * per + k] as int == layers[l]@[k]
        },
    decreases layers.len() - li,
{
    if let Ok(v) = layers_cells(layers, per, li) {
        let head = layer_cells(layers[li]@, li, 0)->Ok_0;
        let rest = layers_cells(layers, per, li + 1)->Ok_0;
        lemma_layer_cells(layers[li]@, li, 0);
        assert(v == head + rest);
        let n = layers.len() - li;
        assert(per * n == per + per * (n - 1)) by (nonlinear_arith);
        lemma_rest_len(layers, per, li + 1);
        if l == li {
            assert(0 * per == 0) by (nonlinear_arith);
            assert(v[k] == head[k]);
            assert(head[k] as int == layers[li]@[0 + k]);
            assert(0 <= per * (n - 1)) by (nonlinear_arith)
                requires
                    per > 0,
                    n >= 1,
            ;
        } else {
            lemma_layers_cells(layers, per, li + 1, l, k);
            let m = l - li;
            assert(m * per == (m - 1) * per + per) by (nonlinear_arith);
            assert(v[m * per + k] == rest[(m - 1) * per + k]);
        }
    }
}

proof fn lemma_rest_len(layers: Seq<Vec<i32>>, per: int, li: int)
    requires
        0 <= li <= layers.len(),
        0 <= per,
    ensures
        layers_cells(layers, per, li) matches Ok(v) ==> v.len() == per * (layers.len() - li),
    decreases layers.len() - li,
{
    if li < layers.len() {
        lemma_rest_len(layers, per, li + 1);
        lemma_layer_cells(layers[li]@, li, 0);
        let n = layers.len() - li;
        assert(per * n == per + per * (n - 1)) by (nonlinear_arith);
    } else {
        assert(per * 0 == 0) by (nonlinear_arith);
    }
}

/// A map that is good holds its layers one below the other, each row by
/// row: the cell in column `x` of row `y` of layer `l` is the one that the
/// file has there.
pub proof fn law_a_map_holds_its_layers(f: MapFile, l: int, x: int, y: int)
    requires
        0 <= l < f.layers@.len(),
        0 <= x < f.width,
        0 <= y < f.height,
    ensures
        map_cells(f) matches Cells::Good(v) ==> {
            &&& f.tile_size == 8 || f.tile_size == 16
            &&& v.len() == f.width * f.height * f.layers@.len()
            &&& f.layers@[l]@.len() == f.width * f.height
            &&& v[(l * f.height + y) * f.width + x] as int == f.layers@[l]@[y * f.width + x]
        },
{
    let per = f.width * f.height;
    lemma_grid(x, y, f.width as int, f.height as int);
    lemma_layers_cells(f.layers@, per, 0, l, y * f.width + x);
    assert((l * f.height + y) * f.width + x == l * per + (y * f.width + x)) by (nonlinear_arith)
        requires
            per == f.width * f.height,
    ;
}

// ----- samples --------------------------------------------------------------------------------

proof fn lemma_values(data: Seq<u8>, i: int)
    ensures
        0 <= i < data.len() ==> samples_8(data)[i] as int == 256 * (data[i] - 128),
        0 <= 2 * i && 2 * i + 1 < data.len() ==> samples_16(data)[i] as int % 0x1_0000 == data[2
            * i] + 256 * data[2 * i + 1] && -0x8000 <= samples_16(data)[i] < 0x8000,
{
}

/// A sample file of one byte a value: 128 is silence, and each value counts
/// 256 for a step of its byte.
#[verifier::spinoff_prover]
#[verifier::rlimit(50)]
pub proof fn law_bytes_are_samples_about_their_middle(rate: u32, data: Seq<u8>, i: int)
    requires
        MIN_RATE <= rate <= MAX_RATE,
        0 <= i < data.len() <= SAMPLE_BUDGET,
    ensures
        wav(wav_bytes(rate, 8, 1, data)) matches Ok(s) && s.rate == rate && s.data.len()
            == data.len() && s.data[i] as int == 256 * (data[i] - 128),
{
    assert(rate * (8u16 / 8) <= u32::MAX) by (nonlinear_arith)
        requires
            rate <= 96000,
    ;
    law_wav_reads_back(rate, 8, data);
    lemma_values(data, i);
}

/// A sample file of two bytes a value: the lower byte comes first, in two's
/// complement.
#[verifier::spinoff_prover]
#[verifier::rlimit(50)]
pub proof fn law_words_are_samples_low_byte_first(rate: u32, data: Seq<u8>, i: int)
    requires
        MIN_RATE <= rate <= MAX_RATE,
        0 <= 2 * i < data.len() <= SAMPLE_BUDGET,
        data.len() % 2 == 0,
    ensures
        wav(wav_bytes(rate, 16, 1, data)) matches Ok(s) && s.rate == rate && s.data.len() * 2
            == data.len() && s.data[i] as int % 0x1_0000 == data[2 * i] + 256 * data[2 * i + 1]
            && -0x8000 <= s.data[i] < 0x8000,
{
    assert(rate * (16u16 / 8) <= u32::MAX) by (nonlinear_arith)
        requires
            rate <= 96000,
    ;
    law_wav_reads_back(rate, 16, data);
    lemma_values(data, i);
}

/// A sample is taken exactly if it is mono PCM of 8 or 16 bits, of whole
/// values, at 4000 to 96000 a second, and neither empty nor too large.
pub proof fn law_a_sample_is_mono_pcm(fmt: Fmt, d: Seq<u8>)
    ensures
        sample_from(fmt, d) is Ok <==> {
            &&& fmt.0 == 1
            &&& fmt.1 == 1
            &&& 4000 <= fmt.2 <= 96000
            &&& fmt.3 == 8 || (fmt.3 == 16 && d.len() % 2 == 0)
            &&& 0 < d.len() <= SAMPLE_BUDGET
        },
{
}

} // verus!
