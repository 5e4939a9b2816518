//! The error screen: a system-palette panel with the fault's code,
//! location and message over the last complete frame, and the two choices
//! the host offers. This is what a person sees when a cart dies; it stays
//! as the fallback where the shell draws its own.
//!
//! It is host-side presentation: a headless host writes the raw frame, so
//! a fault's hash does not depend on this text.

use vstd::prelude::*;
use vstd::string::*;
use crate::blit::{self, text_dabs};
use crate::buf::Rect;
use crate::fault::{Fault, FaultView};
use crate::font::{GLYPH_HEIGHT, GLYPH_WIDTH};
use crate::pen::{identity, opaque_all, Colour, Fillp, Pen, TableView};
use crate::raster::{
    self, between, lemma_painted_add, lemma_painted_wf, outline, painted, rows, shape_dabs, Canvas,
    Dab, Surface,
};
use crate::resources::BufId;
use crate::text::{chars_of, copy_chars, lines_of, string_of, texts, views, words, words_of};
use crate::wire::{clip, clipped};

verus! {

/// Midnight.
pub const PANEL: u8 = 1;

/// Mist.
pub const BORDER: u8 = 6;

/// Peach.
pub const CODE: u8 = 15;

/// Mist.
pub const LOCATION: u8 = 6;

/// Ivory.
pub const MESSAGE: u8 = 7;

/// Sky.
pub const CHOICES: u8 = 12;

/// Most message lines kept.
pub const MESSAGE_LINES: usize = 4;

pub const MARGIN: i32 = 8;

pub const CHOICES_TEXT: &'static str = "A restart   B quit";

// ----- the text ---------------------------------------------------------------------------

/// A word put behind a line that is being filled: the lines that are
/// full, and the line that is not. A word longer than a line is split.
pub open spec fn placed(
    full: Seq<Seq<char>>,
    line: Seq<char>,
    word: Seq<char>,
    columns: int,
) -> (Seq<Seq<char>>, Seq<char>)
    decreases word.len(), line.len(),
{
    if word.len() == 0 || columns <= 0 {
        (full, line)
    } else if line.len() == 0 {
        if word.len() <= columns {
            (full, word)
        } else {
            placed(full.push(word.take(columns)), line, word.skip(columns), columns)
        }
    } else if line.len() + 1 + word.len() <= columns {
        (full, line + seq![' '] + word)
    } else {
        placed(full.push(line), Seq::empty(), word, columns)
    }
}

/// The words from `i` on put behind a line.
pub open spec fn placed_from(
    full: Seq<Seq<char>>,
    line: Seq<char>,
    words: Seq<Seq<char>>,
    i: int,
    columns: int,
) -> (Seq<Seq<char>>, Seq<char>)
    decreases words.len() - i,
{
    if i >= words.len() {
        (full, line)
    } else {
        let next = placed(full, line, words[i], columns);
        placed_from(next.0, next.1, words, i + 1, columns)
    }
}

/// The lines of the paragraphs from `i` on, behind some lines. An empty
/// paragraph is an empty line.
pub open spec fn filled_from(
    full: Seq<Seq<char>>,
    paragraphs: Seq<Seq<char>>,
    i: int,
    columns: int,
) -> Seq<Seq<char>>
    decreases paragraphs.len() - i,
{
    if i >= paragraphs.len() {
        full
    } else {
        let end = placed_from(full, Seq::empty(), words(paragraphs[i]), 0, columns);
        let more = if end.1.len() > 0 || paragraphs[i].len() == 0 {
            end.0.push(end.1)
        } else {
            end.0
        };
        filled_from(more, paragraphs, i + 1, columns)
    }
}

/// A text wrapped to lines of some columns: at least one line.
pub open spec fn wrapped(text: Seq<char>, columns: int) -> Seq<Seq<char>> {
    let all = filled_from(Seq::empty(), crate::text::lines(text), 0, columns);
    if all.len() == 0 {
        seq![Seq::empty()]
    } else {
        all
    }
}

/// Whether lines are within some columns.
pub open spec fn within(v: Seq<Seq<char>>, columns: int) -> bool {
    forall|i: int| 0 <= i < v.len() ==> (#[trigger] v[i]).len() <= columns
}

proof fn lemma_within_push(v: Seq<Seq<char>>, line: Seq<char>, columns: int)
    requires
        within(v, columns),
        line.len() <= columns,
    ensures
        within(v.push(line), columns),
{
    let u = v.push(line);
    assert forall|i: int| 0 <= i < u.len() implies (#[trigger] u[i]).len() <= columns by {
        if i < v.len() {
            assert(u[i] == v[i]);
        }
    }
}

proof fn lemma_placed_within(
    full: Seq<Seq<char>>,
    line: Seq<char>,
    word: Seq<char>,
    columns: int,
)
    requires
        within(full, columns),
        line.len() <= columns,
        columns > 0,
    ensures
        within(placed(full, line, word, columns).0, columns),
        placed(full, line, word, columns).1.len() <= columns,
    decreases word.len(), line.len(),
{
    if word.len() > 0 {
        if line.len() == 0 {
            if word.len() > columns {
                lemma_within_push(full, word.take(columns), columns);
                lemma_placed_within(full.push(word.take(columns)), line, word.skip(columns), columns);
            }
        } else if line.len() + 1 + word.len() > columns {
            lemma_within_push(full, line, columns);
            lemma_placed_within(full.push(line), Seq::empty(), word, columns);
        }
    }
}

proof fn lemma_placed_from_within(
    full: Seq<Seq<char>>,
    line: Seq<char>,
    words: Seq<Seq<char>>,
    i: int,
    columns: int,
)
    requires
        within(full, columns),
        line.len() <= columns,
        columns > 0,
    ensures
        within(placed_from(full, line, words, i, columns).0, columns),
        placed_from(full, line, words, i, columns).1.len() <= columns,
    decreases words.len() - i,
{
    if i < words.len() {
        lemma_placed_within(full, line, words[i], columns);
        let next = placed(full, line, words[i], columns);
        lemma_placed_from_within(next.0, next.1, words, i + 1, columns);
    }
}

proof fn lemma_filled_within(
    full: Seq<Seq<char>>,
    paragraphs: Seq<Seq<char>>,
    i: int,
    columns: int,
)
    requires
        within(full, columns),
        columns > 0,
    ensures
        within(filled_from(full, paragraphs, i, columns), columns),
    decreases paragraphs.len() - i,
{
    if i < paragraphs.len() {
        let end = placed_from(full, Seq::empty(), words(paragraphs[i]), 0, columns);
        lemma_placed_from_within(full, Seq::empty(), words(paragraphs[i]), 0, columns);
        lemma_within_push(end.0, end.1, columns);
        let more = if end.1.len() > 0 || paragraphs[i].len() == 0 {
            end.0.push(end.1)
        } else {
            end.0
        };
        lemma_filled_within(more, paragraphs, i + 1, columns);
    }
}

/// No line of a wrapped text is longer than its columns.
pub proof fn law_wrapped_lines_fit(text: Seq<char>, columns: int)
    requires
        columns > 0,
    ensures
        wrapped(text, columns).len() >= 1,
        within(wrapped(text, columns), columns),
{
    lemma_filled_within(Seq::empty(), crate::text::lines(text), 0, columns);
}

/// Put a word behind the line that is being filled.
fn place(full: &mut Vec<String>, line: &mut Vec<char>, word: &Vec<char>, columns: usize)
    requires
        columns > 0,
    ensures
        (texts(final(full)@), final(line)@) == placed(
            texts(old(full)@),
            old(line)@,
            word@,
            columns as int,
        ),
{
    let ghost want = placed(texts(full@), line@, word@, columns as int);
    let mut at: usize = 0;
    assert(word@.skip(0) =~= word@);
    while at < word.len()
        invariant_except_break
            want == placed(texts(full@), line@, word@.skip(at as int), columns as int),
        invariant
            columns > 0,
            at <= word@.len(),
        ensures
            want == (texts(full@), line@),
        decreases word@.len() - at, line@.len(),
    {
        let left: usize = word.len() - at;
        let ghost rest = word@.skip(at as int);
        if line.len() == 0 {
            if left <= columns {
                *line = copy_chars(word.as_slice(), at, word.len());
                assert(line@ =~= rest);
                break;
            }
            let cut = copy_chars(word.as_slice(), at, at + columns);
            assert(cut@ =~= rest.take(columns as int));
            let ghost before = full@;
            full.push(string_of(cut.as_slice()));
            assert(texts(full@) =~= texts(before).push(cut@));
            at += columns;
            assert(word@.skip(at as int) =~= rest.skip(columns as int));
        } else if left < columns && line.len() < columns && line.len() + 1 <= columns - left {
            let mut tail = copy_chars(word.as_slice(), at, word.len());
            let ghost start = line@;
            line.push(' ');
            line.append(&mut tail);
            assert(line@ =~= start + seq![' '] + rest);
            break;
        } else {
            let ghost before = full@;
            full.push(string_of(line.as_slice()));
            assert(texts(full@) =~= texts(before).push(line@));
            *line = Vec::new();
            assert(line@ =~= Seq::empty());
        }
    }
}

/// Greedy word wrap; a word longer than a line is split.
pub fn wrap(text: &str, columns: usize) -> (r: Vec<String>)
    requires
        columns > 0,
    ensures
        texts(r@) == wrapped(text@, columns as int),
{
    let chars = chars_of(text);
    let paragraphs = lines_of(chars.as_slice());
    let ghost all = crate::text::lines(text@);
    let mut full: Vec<String> = Vec::new();
    assert(texts(full@) =~= Seq::empty());
    let ghost want = filled_from(texts(full@), all, 0, columns as int);
    let mut i: usize = 0;
    while i < paragraphs.len()
        invariant
            columns > 0,
            i <= paragraphs@.len(),
            views(paragraphs@) == all,
            want == filled_from(texts(full@), all, i as int, columns as int),
        decreases paragraphs.len() - i,
    {
        assert(all[i as int] == paragraphs@[i as int]@);
        let list = words_of(paragraphs[i].as_slice());
        let ghost ws = words(all[i as int]);
        let mut line: Vec<char> = Vec::new();
        assert(line@ =~= Seq::empty());
        let ghost end = placed_from(texts(full@), line@, ws, 0, columns as int);
        let mut k: usize = 0;
        while k < list.len()
            invariant
                columns > 0,
                k <= list@.len(),
                views(list@) == ws,
                end == placed_from(texts(full@), line@, ws, k as int, columns as int),
            decreases list.len() - k,
        {
            assert(ws[k as int] == list@[k as int]@);
            place(&mut full, &mut line, &list[k], columns);
            k += 1;
        }
        if line.len() > 0 || paragraphs[i].len() == 0 {
            let ghost before = full@;
            full.push(string_of(line.as_slice()));
            assert(texts(full@) =~= texts(before).push(line@));
        }
        i += 1;
    }
    if full.len() == 0 {
        full.push(String::new());
        assert(full@[0]@ =~= Seq::empty());
        assert(texts(full@) =~= seq![Seq::empty()]);
    }
    full
}

/// A line of the panel: its text and its colour.
pub type Line = (Seq<char>, u8);

pub open spec fn line_views(v: Seq<(String, u8)>) -> Seq<Line> {
    v.map_values(|p: (String, u8)| (p.0@, p.1))
}

/// The message's lines that are kept: the last one ends in dots where
/// there are more.
pub open spec fn message_lines(text: Seq<char>, columns: int) -> Seq<Seq<char>> {
    let all = wrapped(text, columns);
    if all.len() > MESSAGE_LINES {
        all.take(MESSAGE_LINES - 1).push(
            clipped(all[MESSAGE_LINES - 1], (columns - 3) as nat) + "..."@,
        )
    } else {
        all
    }
}

pub open spec fn at_least_8(columns: int) -> int {
    if columns < 8 {
        8
    } else {
        columns
    }
}

/// The text lines of the panel.
pub open spec fn panel_lines(f: FaultView, columns: int) -> Seq<Line> {
    seq![(f.code, CODE), (f.location(), LOCATION)] + message_lines(
        f.message,
        at_least_8(columns),
    ).map_values(|l: Seq<char>| (l, MESSAGE)) + seq![
        (Seq::<char>::empty(), MESSAGE),
        (CHOICES_TEXT@, CHOICES),
    ]
}

/// The text lines of the panel, wrapped to `columns` characters.
pub fn lines(fault: &Fault, columns: usize) -> (out: Vec<(String, u8)>)
    ensures
        line_views(out@) == panel_lines(fault@, columns as int),
        out@.len() <= MESSAGE_LINES + 4,
{
    let columns: usize = if columns < 8 { 8 } else { columns };
    let mut out: Vec<(String, u8)> = Vec::new();
    out.push((fault.code.clone(), CODE));
    out.push((fault.location(), LOCATION));
    let ghost head = seq![(fault@.code, CODE), (fault@.location(), LOCATION)];
    assert(line_views(out@) =~= head);
    let all = wrap(fault.message.as_str(), columns);
    let ghost texts_all = texts(all@);
    let ghost kept = message_lines(fault@.message, columns as int);
    let ghost shown = kept.map_values(|l: Seq<char>| (l, MESSAGE));
    let count: usize = if all.len() > MESSAGE_LINES { MESSAGE_LINES } else { all.len() };
    let mut i: usize = 0;
    assert(shown.take(0) =~= seq![]);
    assert(head + seq![] =~= head);
    while i < count
        invariant
            i <= count <= MESSAGE_LINES,
            columns >= 8,
            count == kept.len(),
            count <= all@.len(),
            texts_all == texts(all@),
            texts_all == wrapped(fault@.message, columns as int),
            count == MESSAGE_LINES || count == all@.len(),
            kept == message_lines(fault@.message, columns as int),
            shown == kept.map_values(|l: Seq<char>| (l, MESSAGE)),
            head.len() == 2,
            line_views(out@) == head + shown.take(i as int),
        decreases count - i,
    {
        assert(texts_all[i as int] == all@[i as int]@);
        let ghost before = out@;
        let ghost text: Seq<char>;
        if all.len() > MESSAGE_LINES && i + 1 == MESSAGE_LINES {
            let mut cut = clip(all[i].as_str(), columns - 3).to_owned();
            cut.append("...");
            proof {
                text = cut@;
            }
            out.push((cut, MESSAGE));
        } else {
            proof {
                text = all@[i as int]@;
            }
            out.push((all[i].clone(), MESSAGE));
        }
        assert(kept[i as int] == text);
        assert(line_views(out@) =~= line_views(before).push((text, MESSAGE)));
        assert(shown.take(i + 1) =~= shown.take(i as int).push((text, MESSAGE)));
        i += 1;
    }
    assert(shown.take(i as int) =~= shown);
    let ghost before = line_views(out@);
    out.push((String::new(), MESSAGE));
    out.push((CHOICES_TEXT.to_owned(), CHOICES));
    proof {
        assert(out@[out@.len() - 2].0@ =~= Seq::<char>::empty());
        assert(line_views(out@) =~= before + seq![
            (Seq::<char>::empty(), MESSAGE),
            (CHOICES_TEXT@, CHOICES),
        ]);
    }
    out
}

// ----- the panel --------------------------------------------------------------------------

/// What the panel is drawn with: its own rectangle, plain colours, no
/// pattern.
pub open spec fn inked(c: Canvas, panel: Rect, dabs: Seq<Dab>) -> Canvas {
    painted(c, panel, TableView { remap: identity(), transparent: opaque_all() }, dabs)
}

pub open spec fn shape(points: Seq<(int, int)>, colour: u8) -> Seq<Dab> {
    shape_dabs(
        Fillp { pattern: 0, transparent: false },
        Colour { primary: (colour % 128) as u8, secondary: 0 },
        points,
    )
}

/// Characters in a line of the panel on a screen of a width.
pub open spec fn columns_on(w: int) -> int {
    at_least_8((w - 4 * MARGIN) / GLYPH_WIDTH as int)
}

/// Where the panel begins and how high it is, for a number of lines.
pub open spec fn panel_top(h: int, count: int) -> int {
    let y = (h - count * GLYPH_HEIGHT) / 2 - MARGIN;
    if y < 0 {
        0
    } else {
        y
    }
}

pub open spec fn panel_height(h: int, count: int) -> int {
    let n = count * GLYPH_HEIGHT + 2 * MARGIN;
    if n > h {
        h
    } else {
        n
    }
}

/// The panel of a screen. A screen of two margins or less has none.
pub open spec fn panel_on(w: int, h: int, count: int) -> Rect {
    Rect {
        x: MARGIN,
        y: panel_top(h, count) as i32,
        w: (w - 2 * MARGIN) as i32,
        h: panel_height(h, count) as i32,
    }
}

/// The dabs of the lines from `i` on.
pub open spec fn line_dabs(v: Seq<Line>, i: int, y: int) -> Seq<Dab>
    decreases v.len() - i,
{
    if i >= v.len() {
        seq![]
    } else {
        text_dabs(v[i].0, 2 * MARGIN as int, y, v[i].1) + line_dabs(v, i + 1, y + GLYPH_HEIGHT)
    }
}

/// The dabs of the panel on a screen.
pub open spec fn panel_dabs(w: int, h: int, v: Seq<Line>) -> Seq<Dab> {
    let top = panel_top(h, v.len() as int);
    let right = MARGIN + (w - 2 * MARGIN) - 1;
    let bottom = top + panel_height(h, v.len() as int) - 1;
    let fill = between(MARGIN as int, top, right, bottom);
    shape(
        rows(fill.x as int, fill.right_of() - 1, fill.y as int, fill.bottom_of() - 1),
        PANEL,
    ) + shape(outline(MARGIN as int, top, right, bottom), BORDER) + line_dabs(
        v,
        0,
        top + MARGIN,
    )
}

/// Draw the panel into `pixels`, a `width` by `height` screen. The frame
/// underneath is kept outside the panel: a line that is too long for it is
/// cut at its edge. Nothing is drawn where there are
/// fewer pixels than that, and pixels behind them are left alone.
pub fn compose(pixels: &mut Vec<u8>, width: u32, height: u32, fault: &Fault)
    ensures
        final(pixels)@.len() == old(pixels)@.len(),
        ({
            let area = width * height;
            if !(1 <= width <= i32::MAX && 1 <= height <= i32::MAX) || old(pixels)@.len() < area {
                final(pixels)@ == old(pixels)@
            } else {
                let c = Canvas {
                    pixels: old(pixels)@.take(area),
                    width: width as int,
                    height: height as int,
                    touched: 0,
                };
                let v = panel_lines(fault@, columns_on(width as int));
                &&& final(pixels)@.take(area) == inked(
                    c,
                    panel_on(width as int, height as int, v.len() as int),
                    panel_dabs(width as int, height as int, v),
                ).pixels
                &&& final(pixels)@.skip(area) == old(pixels)@.skip(area)
            }
        }),
{
    if width == 0 || height == 0 || width > i32::MAX as u32 || height > i32::MAX as u32 {
        return;
    }
    proof {
        assert(1 <= width * height <= u64::MAX) by (nonlinear_arith)
            requires
                1 <= width <= i32::MAX,
                1 <= height <= i32::MAX,
        ;
    }
    let wide: u64 = width as u64 * height as u64;
    if (pixels.len() as u64) < wide {
        return;
    }
    let ghost start = pixels@;
    let area: usize = wide as usize;
    let mut rest = pixels.split_off(area);
    assert(rest@ =~= start.skip(area as int));
    let w: i32 = width as i32;
    let h: i32 = height as i32;
    let columns: usize = if w >= 64 { ((w - 4 * MARGIN) / GLYPH_WIDTH) as usize } else { 8 };
    let text = lines(fault, columns);
    let count: i32 = text.len() as i32;
    let text_h: i32 = count * GLYPH_HEIGHT;
    let half: i32 = if h > text_h { (h - text_h) / 2 } else { 0 };
    let top: i32 = if half > MARGIN { half - MARGIN } else { 0 };
    let tall: i32 = if text_h + 2 * MARGIN > h { h } else { text_h + 2 * MARGIN };
    let right: i32 = w - MARGIN - 1;
    let bottom: i32 = top + tall - 1;
    let ghost v = line_views(text@);
    assert(v == panel_lines(fault@, columns_on(w as int)));
    assert(top == panel_top(h as int, v.len() as int));
    assert(tall == panel_height(h as int, v.len() as int));
    let mut pen = Pen::new(BufId::screen(), width, height);
    pen.clip = Rect { x: MARGIN, y: top, w: w - 2 * MARGIN, h: tall };
    assert(pen.clip == panel_on(w as int, h as int, v.len() as int));
    assert(pixels@ =~= start.take(area as int));
    draw_panel(pixels, &pen, w, h, top, right, bottom, &text);
    let ghost done = pixels@;
    pixels.append(&mut rest);
    proof {
        assert(pixels@.take(area as int) =~= done);
        assert(pixels@.skip(area as int) =~= start.skip(area as int));
    }
}

/// Draw the panel's box and its lines.
#[verifier::spinoff_prover]
#[verifier::rlimit(50)]
fn draw_panel(
    pixels: &mut Vec<u8>,
    pen: &Pen,
    w: i32,
    h: i32,
    top: i32,
    right: i32,
    bottom: i32,
    text: &Vec<(String, u8)>,
)
    requires
        0 < w,
        0 < h,
        old(pixels)@.len() == w * h,
        pen.table.wf(),
        pen.table@ == (TableView { remap: identity(), transparent: opaque_all() }),
        pen.clip == panel_on(w as int, h as int, text@.len() as int),
        pen.camera == (0i32, 0i32),
        pen.fillp == (Fillp { pattern: 0, transparent: false }),
        text@.len() <= MESSAGE_LINES + 4,
        top == panel_top(h as int, text@.len() as int),
        right == MARGIN + (w - 2 * MARGIN) - 1,
        bottom == top + panel_height(h as int, text@.len() as int) - 1,
        top + 1000 <= i32::MAX,
    ensures
        final(pixels)@.len() == old(pixels)@.len(),
        final(pixels)@ == inked(
            (Canvas {
                pixels: old(pixels)@,
                width: w as int,
                height: h as int,
                touched: 0,
            }),
            pen.clip,
            panel_dabs(w as int, h as int, line_views(text@)),
        ).pixels,
{
    let ghost v = line_views(text@);
    let ghost clip = pen.clip;
    let mut s = Surface { pixels, width: w, height: h, touched: 0 };
    let ghost c = s@;
    assert(c.holds(clip));
    let ghost fill = between(MARGIN as int, top as int, right as int, bottom as int);
    let ghost box_dabs = shape(
        rows(fill.x as int, fill.right_of() - 1, fill.y as int, fill.bottom_of() - 1),
        PANEL,
    );
    let ghost edge_dabs = shape(
        outline(MARGIN as int, top as int, right as int, bottom as int),
        BORDER,
    );
    raster::rectfill(&mut s, pen, MARGIN, top, right, bottom, Colour::solid(PANEL));
    assert(s@ == inked(c, clip, box_dabs));
    let ghost filled = s@;
    raster::rect(&mut s, pen, MARGIN, top, right, bottom, Colour::solid(BORDER));
    proof {
        assert(s@ == inked(filled, clip, edge_dabs));
        lemma_inked_add(c, clip, box_dabs, edge_dabs);
    }
    let ghost boxed = s@;
    let mut i: usize = 0;
    let mut y: i32 = top + MARGIN;
    while i < text.len()
        invariant
            i <= text@.len() <= MESSAGE_LINES + 4,
            y == top + MARGIN + i * GLYPH_HEIGHT,
            0 <= top,
            top + 1000 <= i32::MAX,
            v == line_views(text@),
            s@.wf(),
            s.width == w,
            s.height == h,
            boxed.width == w,
            boxed.height == h,
            boxed.wf(),
            s@.holds(pen.clip),
            pen.table.wf(),
            pen.table@ == (TableView { remap: identity(), transparent: opaque_all() }),
            pen.clip == clip,
            boxed.holds(clip),
            pen.camera == (0i32, 0i32),
            *final(s.pixels) == *final(old(pixels)),
            inked(boxed, clip, line_dabs(v, 0, top + MARGIN)) == inked(
                s@,
                clip,
                line_dabs(v, i as int, y as int),
            ),
        decreases text.len() - i,
    {
        let ghost before = s@;
        assert(v[i as int] == (text@[i as int].0@, text@[i as int].1));
        blit::print(&mut s, pen, text[i].0.as_str(), 2 * MARGIN, y, text[i].1);
        proof {
            let d = text_dabs(v[i as int].0, 2 * MARGIN as int, y as int, v[i as int].1);
            assert(s@ == inked(before, clip, d));
            lemma_inked_add(before, clip, d, line_dabs(v, i + 1, y + GLYPH_HEIGHT));
        }
        y += GLYPH_HEIGHT;
        i += 1;
    }
    proof {
        lemma_inked_add(c, clip, box_dabs + edge_dabs, line_dabs(v, 0, top + MARGIN));
        assert(inked(s@, clip, seq![]) == s@);
    }
}

/// Dabs one after the other.
proof fn lemma_inked_add(c: Canvas, panel: Rect, a: Seq<Dab>, b: Seq<Dab>)
    requires
        c.wf(),
        c.holds(panel),
    ensures
        inked(c, panel, a + b) == inked(inked(c, panel, a), panel, b),
        inked(c, panel, a).wf(),
        inked(c, panel, a).width == c.width,
        inked(c, panel, a).height == c.height,
{
    let t = TableView { remap: identity(), transparent: opaque_all() };
    lemma_painted_add(c, panel, t, a, b);
    lemma_painted_wf(c, panel, t, a);
}

/// A pixel outside the panel stays as it was.
proof fn lemma_kept(c: Canvas, panel: Rect, dabs: Seq<Dab>, x: int, y: int)
    requires
        c.wf(),
        c.holds(panel),
        0 <= x < c.width,
        0 <= y < c.height,
        !panel.has(x, y),
    ensures
        inked(c, panel, dabs).pixel(x, y) == c.pixel(x, y),
    decreases dabs.len(),
{
    if dabs.len() > 0 {
        let r = dabs.drop_last();
        let d = dabs.last();
        lemma_kept(c, panel, r, x, y);
        lemma_inked_add(c, panel, r, seq![]);
        if panel.has(d.x, d.y) {
            crate::buf::lemma_grid(d.x, d.y, c.width, c.height);
            crate::buf::lemma_grid(x, y, c.width, c.height);
            if d.y * c.width + d.x == y * c.width + x {
                assert(d.x == x && d.y == y);
            }
        }
    }
}

/// The frame is kept outside the panel: above it, below it and on both
/// sides, however long the lines are.
pub proof fn law_the_frame_is_kept_outside_the_panel(c: Canvas, v: Seq<Line>, x: int, y: int)
    requires
        c.wf(),
        c.width <= i32::MAX && c.height <= i32::MAX,
        0 <= x < c.width,
        0 <= y < c.height,
        v.len() <= MESSAGE_LINES + 4,
        ({
            let top = panel_top(c.height, v.len() as int);
            ||| y < top
            ||| y >= top + panel_height(c.height, v.len() as int)
            ||| x < MARGIN
            ||| x >= c.width - MARGIN
        }),
    ensures
        inked(
            c,
            panel_on(c.width, c.height, v.len() as int),
            panel_dabs(c.width, c.height, v),
        ).pixel(x, y) == c.pixel(x, y),
{
    let panel = panel_on(c.width, c.height, v.len() as int);
    lemma_kept(c, panel, panel_dabs(c.width, c.height, v), x, y);
}

} // verus!
