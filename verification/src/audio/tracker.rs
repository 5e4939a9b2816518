//! The `.trk` text format and the cursor that walks a track row by row
//! at its tempo.
//!
//! A file is a header of `tempo`, `loop` and `inst` lines followed by
//! rows. `;` starts a comment anywhere; a line starting with `#` is a
//! comment too (`#` elsewhere is a sharp). A row has one cell per channel
//! separated by `|`; a cell is a note (`C-4`, `C#4`, `---` for nothing,
//! `===` for note off), then optionally an instrument number and a volume
//! `v0`..`vf`.

use std::rc::Rc;
use vstd::prelude::*;
use vstd::slice::*;
use vstd::string::*;
use vstd::utf8::*;
use super::synth::{wave_named, Patch, Wave, MAX_NOTE};
use super::{AudioError, AudioErrorView};
use crate::manifest::{is_asset_name, valid_asset_name};
use crate::math::clamp;
use crate::text::{
    chars_of, dec, find, find_char, find_space, find_whitespace, is_digit, lines, lines_of,
    parse_signed, parse_signed_of, parse_unsigned, parse_unsigned_of, push_dec, quote, quoted,
    spells, split, split_of, starts_with, string_from_utf8, string_of, trim, trim_of, views, words,
    words_of,
};

verus! {

/// Bounds on a track: rows, columns (channels) and instruments.
pub const MAX_ROWS: usize = 1024;

pub const MAX_COLUMNS: usize = 8;

pub const MAX_INSTRUMENTS: usize = 64;

/// Largest `.trk` file accepted.
pub const MAX_TRACK_BYTES: usize = 256 * 1024;

#[derive(Debug, Clone, PartialEq, Eq)]
pub enum Instrument {
    Synth(Patch),
    /// A sample by asset name; the mixer resolves it through the bank.
    Sample(String),
}

/// A patch as plain values.
#[verifier::ext_equal]
pub struct PatchView {
    pub wave: Wave,
    pub duty: u8,
    pub attack: u8,
    pub decay: u8,
    pub sustain: u8,
    pub release: u8,
    pub slide: i16,
    pub arp: Seq<i8>,
}

impl View for Patch {
    type V = PatchView;

    open spec fn view(&self) -> PatchView {
        PatchView {
            wave: self.wave,
            duty: self.duty,
            attack: self.attack,
            decay: self.decay,
            sustain: self.sustain,
            release: self.release,
            slide: self.slide,
            arp: self.arp@,
        }
    }
}

/// An instrument as plain values.
#[verifier::ext_equal]
pub enum InstrumentView {
    Synth(PatchView),
    Sample(Seq<char>),
}

impl View for Instrument {
    type V = InstrumentView;

    open spec fn view(&self) -> InstrumentView {
        match self {
            Instrument::Synth(p) => InstrumentView::Synth(p@),
            Instrument::Sample(name) => InstrumentView::Sample(name@),
        }
    }
}

#[derive(Debug, Clone, Copy, PartialEq, Eq, Structural)]
pub enum Note {
    Empty,
    Off,
    On(u8),
}

#[derive(Debug, Clone, Copy, PartialEq, Eq)]
pub struct Cell {
    pub note: Note,
    /// Instrument number as written, 1-based.
    pub inst: Option<u8>,
    /// Volume 0..=255.
    pub vol: Option<u8>,
}

/// A cell that does nothing.
pub open spec fn empty_cell() -> Cell {
    Cell { note: Note::Empty, inst: None, vol: None }
}

impl Default for Cell {
    fn default() -> (c: Cell)
        ensures
            c == empty_cell(),
    {
        Cell { note: Note::Empty, inst: None, vol: None }
    }
}

#[derive(Debug, Clone, PartialEq, Eq)]
pub struct Track {
    /// Frames per row.
    pub tempo: u8,
    pub columns: usize,
    /// Row to jump back to at the end; `None` plays once.
    pub loop_row: Option<usize>,
    /// Indexed by number minus one; unset slots are `None`.
    pub instruments: Vec<Option<Instrument>>,
    /// `rows[r][column]`.
    pub rows: Vec<Vec<Cell>>,
}

pub open spec fn inst_view(i: Option<Instrument>) -> Option<InstrumentView> {
    match i {
        Some(i) => Some(i@),
        None => None,
    }
}

pub open spec fn insts_of(v: Seq<Option<Instrument>>) -> Seq<Option<InstrumentView>> {
    v.map_values(|i: Option<Instrument>| inst_view(i))
}

pub open spec fn rows_of(v: Seq<Vec<Cell>>) -> Seq<Seq<Cell>> {
    v.map_values(|r: Vec<Cell>| r@)
}

/// A track as plain values.
#[verifier::ext_equal]
pub struct TrackView {
    pub tempo: u8,
    pub columns: nat,
    pub loop_row: Option<nat>,
    pub instruments: Seq<Option<InstrumentView>>,
    pub rows: Seq<Seq<Cell>>,
}

pub open spec fn loop_view(l: Option<usize>) -> Option<nat> {
    match l {
        Some(n) => Some(n as nat),
        None => None,
    }
}

impl View for Track {
    type V = TrackView;

    open spec fn view(&self) -> TrackView {
        TrackView {
            tempo: self.tempo,
            columns: self.columns as nat,
            loop_row: loop_view(self.loop_row),
            instruments: insts_of(self.instruments@),
            rows: rows_of(self.rows@),
        }
    }
}

impl TrackView {
    /// A track that can be played: it has a tempo and rows as wide as its
    /// columns, and a row to loop to if it loops.
    pub open spec fn wf(self) -> bool {
        &&& self.tempo >= 1
        &&& self.columns <= MAX_COLUMNS
        &&& 1 <= self.rows.len() <= MAX_ROWS
        &&& self.loop_row matches Some(l) ==> l < self.rows.len()
        &&& forall|r: int| 0 <= r < self.rows.len() ==> (#[trigger] self.rows[r]).len() == self.columns
    }

    /// Whether a cell's note is in range and its instrument is defined.
    pub open spec fn has(self, c: Cell) -> bool {
        &&& c.note matches Note::On(n) ==> n <= MAX_NOTE
        &&& c.inst matches Some(n) ==> self.instrument(n) is Some
    }

    /// Whether every cell of a row is.
    pub open spec fn has_all(self, row: Seq<Cell>) -> bool {
        forall|i: int| 0 <= i < row.len() ==> self.has(#[trigger] row[i])
    }

    /// A track as a file spells one: it has a column, few instruments,
    /// notes in range, and an instrument for each that a cell names.
    pub open spec fn whole(self) -> bool {
        &&& self.columns >= 1
        &&& self.instruments.len() <= MAX_INSTRUMENTS
        &&& forall|r: int| 0 <= r < self.rows.len() ==> self.has_all(#[trigger] self.rows[r])
    }

    /// The instrument of a number, counted from one.
    pub open spec fn instrument(self, n: u8) -> Option<InstrumentView> {
        if 1 <= n <= self.instruments.len() {
            self.instruments[n - 1]
        } else {
            None
        }
    }
}

impl Track {
    pub fn instrument(&self, n: u8) -> (r: Option<&Instrument>)
        ensures
            match r {
                Some(i) => self@.instrument(n) == Some(i@) && 1 <= n <= self.instruments@.len()
                    && self.instruments@[n - 1] == Some(*i),
                None => self@.instrument(n) is None,
            },
    {
        if n == 0 || n as usize > self.instruments.len() {
            return None;
        }
        assert(self@.instruments[n - 1] == inst_view(self.instruments@[n - 1]));
        match &self.instruments[n as usize - 1] {
            Some(i) => Some(i),
            None => None,
        }
    }

    /// Sample names the instruments refer to.
    pub fn sample_names(&self) -> (v: Vec<String>)
        ensures
            crate::text::texts(v@) == sample_names_of(self@.instruments),
    {
        let mut v: Vec<String> = Vec::new();
        let mut i: usize = 0;
        let ghost all = self@.instruments;
        assert(all.take(0) =~= seq![]);
        assert(crate::text::texts(v@) =~= sample_names_of(all.take(0)));
        while i < self.instruments.len()
            invariant
                i <= self.instruments@.len(),
                all == insts_of(self.instruments@),
                crate::text::texts(v@) == sample_names_of(all.take(i as int)),
            decreases self.instruments.len() - i,
        {
            assert(all.take(i + 1).drop_last() =~= all.take(i as int));
            assert(all[i as int] == inst_view(self.instruments@[i as int]));
            let ghost before = v@;
            if let Some(Instrument::Sample(name)) = &self.instruments[i] {
                v.push(name.clone());
                assert(crate::text::texts(v@) =~= crate::text::texts(before).push(name@));
            }
            i += 1;
        }
        assert(all.take(i as int) =~= all);
        v
    }
}

/// The sample names among a list of instruments, in order.
pub open spec fn sample_names_of(v: Seq<Option<InstrumentView>>) -> Seq<Seq<char>>
    decreases v.len(),
{
    if v.len() == 0 {
        seq![]
    } else {
        let rest = sample_names_of(v.drop_last());
        match v.last() {
            Some(InstrumentView::Sample(name)) => rest.push(name),
            _ => rest,
        }
    }
}

// ----- notes and cells ------------------------------------------------------

/// The semitone of a note's letter and accidental.
pub open spec fn semitone(letter: char, accidental: char) -> Option<nat> {
    let natural: Option<nat> = if letter == 'C' || letter == 'c' {
        Some(0)
    } else if letter == 'D' || letter == 'd' {
        Some(2)
    } else if letter == 'E' || letter == 'e' {
        Some(4)
    } else if letter == 'F' || letter == 'f' {
        Some(5)
    } else if letter == 'G' || letter == 'g' {
        Some(7)
    } else if letter == 'A' || letter == 'a' {
        Some(9)
    } else if letter == 'B' || letter == 'b' {
        Some(11)
    } else {
        None
    };
    match natural {
        Some(n) => if accidental == '-' {
            Some(n)
        } else if accidental == '#' && n != 4 && n != 11 {
            Some(n + 1)
        } else {
            None
        },
        None => None,
    }
}

/// The note that a token spells.
pub open spec fn note_of(t: Seq<char>) -> Option<Note> {
    if t == "---"@ || t == "..."@ {
        Some(Note::Empty)
    } else if t == "==="@ || t == "off"@ {
        Some(Note::Off)
    } else if t.len() != 3 || !is_digit(t[2]) {
        None
    } else {
        match semitone(t[0], t[1]) {
            Some(s) => {
                let n = (t[2] as u32 - 48) * 12 + s;
                if n > MAX_NOTE {
                    None
                } else {
                    Some(Note::On(n as u8))
                }
            },
            None => None,
        }
    }
}

fn parse_semitone(letter: char, accidental: char) -> (r: Option<u32>)
    ensures
        match (r, semitone(letter, accidental)) {
            (Some(a), Some(b)) => a == b && a < 12,
            (None, None) => true,
            _ => false,
        },
{
    let n: u32 = if letter == 'C' || letter == 'c' {
        0
    } else if letter == 'D' || letter == 'd' {
        2
    } else if letter == 'E' || letter == 'e' {
        4
    } else if letter == 'F' || letter == 'f' {
        5
    } else if letter == 'G' || letter == 'g' {
        7
    } else if letter == 'A' || letter == 'a' {
        9
    } else if letter == 'B' || letter == 'b' {
        11
    } else {
        return None;
    };
    if accidental == '-' {
        Some(n)
    } else if accidental == '#' && n != 4 && n != 11 {
        Some(n + 1)
    } else {
        None
    }
}

pub fn parse_note(tok: &[char]) -> (r: Option<Note>)
    ensures
        r == note_of(tok@),
{
    if spells(tok, "---") || spells(tok, "...") {
        return Some(Note::Empty);
    }
    if spells(tok, "===") || spells(tok, "off") {
        return Some(Note::Off);
    }
    if tok.len() != 3 || tok[2] < '0' || tok[2] > '9' {
        return None;
    }
    match parse_semitone(tok[0], tok[1]) {
        Some(s) => {
            let n: u32 = (tok[2] as u32 - 48) * 12 + s;
            if n > MAX_NOTE as u32 {
                None
            } else {
                Some(Note::On(n as u8))
            }
        },
        None => None,
    }
}

/// The value of a hexadecimal digit.
pub open spec fn hex_value(c: char) -> Option<nat> {
    if '0' <= c <= '9' {
        Some((c as u32 - 48) as nat)
    } else if 'a' <= c <= 'f' {
        Some((c as u32 - 87) as nat)
    } else if 'A' <= c <= 'F' {
        Some((c as u32 - 55) as nat)
    } else {
        None
    }
}

fn parse_hex(c: char) -> (r: Option<u8>)
    ensures
        match (r, hex_value(c)) {
            (Some(a), Some(b)) => a == b && a < 16,
            (None, None) => true,
            _ => false,
        },
{
    if '0' <= c && c <= '9' {
        Some((c as u32 - 48) as u8)
    } else if 'a' <= c && c <= 'f' {
        Some((c as u32 - 87) as u8)
    } else if 'A' <= c && c <= 'F' {
        Some((c as u32 - 55) as u8)
    } else {
        None
    }
}

/// A cell with one more mark, a volume or an instrument.
pub open spec fn marked(cell: Cell, tok: Seq<char>) -> Result<Cell, Seq<char>> {
    if tok.len() > 0 && tok[0] == 'v' {
        match hex_value(tok[1]) {
            Some(d) if tok.len() == 2 => Ok(Cell { vol: Some((d * 17) as u8), ..cell }),
            _ => Err("bad volume "@ + quoted(tok) + ", want v0..vf"@),
        }
    } else {
        match parse_unsigned(tok, usize::MAX as nat) {
            Some(n) if 1 <= n <= MAX_INSTRUMENTS => Ok(Cell { inst: Some(n as u8), ..cell }),
            _ => Err("bad instrument "@ + quoted(tok) + ", want 1..64"@),
        }
    }
}

/// A cell with the marks from `i` on.
pub open spec fn marked_from(cell: Cell, w: Seq<Seq<char>>, i: int) -> Result<Cell, Seq<char>>
    decreases w.len() - i,
{
    if i >= w.len() {
        Ok(cell)
    } else {
        match marked(cell, w[i]) {
            Err(e) => Err(e),
            Ok(c) => marked_from(c, w, i + 1),
        }
    }
}

/// The cell that a text spells.
pub open spec fn cell_of(s: Seq<char>) -> Result<Cell, Seq<char>> {
    let w = words(s);
    if w.len() == 0 {
        Ok(empty_cell())
    } else {
        match note_of(w[0]) {
            None => Err("bad note "@ + quoted(w[0])),
            Some(note) => marked_from(Cell { note, inst: None, vol: None }, w, 1),
        }
    }
}

/// A message made of a text in quotes between two others.
fn message(before: &str, tok: &[char], after: &str) -> (s: String)
    ensures
        s@ == before@ + quoted(tok@) + after@,
{
    let mut s = before.to_owned();
    s.append(quote(string_of(tok).as_str()).as_str());
    s.append(after);
    s
}

fn parse_mark(cell: Cell, tok: &[char]) -> (r: Result<Cell, String>)
    ensures
        match (r, marked(cell, tok@)) {
            (Ok(a), Ok(b)) => a == b,
            (Err(a), Err(b)) => a@ == b,
            _ => false,
        },
{
    if tok.len() > 0 && tok[0] == 'v' {
        if tok.len() == 2 {
            if let Some(d) = parse_hex(tok[1]) {
                return Ok(Cell { vol: Some(d * 17), ..cell });
            }
        }
        return Err(message("bad volume ", tok, ", want v0..vf"));
    }
    match parse_unsigned_of(tok, usize::MAX as u64) {
        Some(n) => {
            if 1 <= n && n <= MAX_INSTRUMENTS as u64 {
                return Ok(Cell { inst: Some(n as u8), ..cell });
            }
        },
        None => {},
    }
    Err(message("bad instrument ", tok, ", want 1..64"))
}

pub fn parse_cell(cell: &[char]) -> (r: Result<Cell, String>)
    ensures
        match (r, cell_of(cell@)) {
            (Ok(a), Ok(b)) => a == b,
            (Err(a), Err(b)) => a@ == b,
            _ => false,
        },
{
    let toks = words_of(cell);
    let ghost w = words(cell@);
    if toks.len() == 0 {
        return Ok(Cell::default());
    }
    assert(w[0] == toks@[0]@);
    let note = match parse_note(toks[0].as_slice()) {
        Some(n) => n,
        None => {
            let m = message("bad note ", toks[0].as_slice(), "");
            proof {
                reveal_strlit("");
            }
            assert(m@ =~= "bad note "@ + quoted(w[0]));
            return Err(m);
        },
    };
    let mut out = Cell { note, inst: None, vol: None };
    let mut i: usize = 1;
    while i < toks.len()
        invariant
            1 <= i <= toks@.len(),
            w == views(toks@),
            cell_of(cell@) == marked_from(out, w, i as int),
        decreases toks.len() - i,
    {
        assert(w[i as int] == toks@[i as int]@);
        match parse_mark(out, toks[i].as_slice()) {
            Ok(c) => {
                out = c;
            },
            Err(e) => return Err(e),
        }
        i += 1;
    }
    Ok(out)
}

// ----- instruments ----------------------------------------------------------

/// What is said of a value that does not parse.
pub open spec fn bad_value(v: Seq<char>, key: Seq<char>) -> Seq<char> {
    "bad value "@ + quoted(v) + " for "@ + key
}

fn refuse_value(v: &[char], key: &str) -> (s: String)
    ensures
        s@ == bad_value(v@, key@),
{
    let mut s = message("bad value ", v, " for ");
    s.append(key);
    s
}

/// A patch with its duty set.
pub open spec fn with_duty(p: PatchView, val: Seq<char>) -> Result<PatchView, Seq<char>> {
    match parse_unsigned(val, u32::MAX as nat) {
        None => Err(bad_value(val, "duty"@)),
        Some(pct) => if pct > 100 {
            Err("duty is a percentage 0..100"@)
        } else {
            Ok(PatchView { duty: (pct * 255 / 100) as u8, ..p })
        },
    }
}

/// A patch with its envelope set.
pub open spec fn with_adsr(p: PatchView, val: Seq<char>) -> Result<PatchView, Seq<char>> {
    let w = split(val, ',');
    if w.len() != 4 {
        Err("adsr wants attack,decay,sustain,release"@)
    } else {
        match parse_unsigned(w[0], 255) {
            None => Err(bad_value(w[0], "adsr"@)),
            Some(attack) => match parse_unsigned(w[1], 255) {
                None => Err(bad_value(w[1], "adsr"@)),
                Some(decay) => match parse_unsigned(w[2], u32::MAX as nat) {
                    None => Err(bad_value(w[2], "adsr"@)),
                    Some(sustain) => if sustain > 100 {
                        Err("sustain is a percentage 0..100"@)
                    } else {
                        match parse_unsigned(w[3], 255) {
                            None => Err(bad_value(w[3], "adsr"@)),
                            Some(release) => Ok(
                                PatchView {
                                    attack: attack as u8,
                                    decay: decay as u8,
                                    sustain: (sustain * 255 / 100) as u8,
                                    release: release as u8,
                                    ..p
                                },
                            ),
                        }
                    },
                },
            },
        }
    }
}

/// A patch with its slide set.
pub open spec fn with_slide(p: PatchView, val: Seq<char>) -> Result<PatchView, Seq<char>> {
    match parse_signed(val, 32767) {
        None => Err(bad_value(val, "slide"@)),
        Some(n) => Ok(PatchView { slide: n as i16, ..p }),
    }
}

/// A patch with its arpeggio set.
pub open spec fn with_arp(p: PatchView, val: Seq<char>) -> Result<PatchView, Seq<char>> {
    let w = split(val, ',');
    if w.len() != 3 {
        Err("arp wants three semitone offsets"@)
    } else {
        match parse_signed(w[0], 127) {
            None => Err(bad_value(w[0], "arp"@)),
            Some(a) => match parse_signed(w[1], 127) {
                None => Err(bad_value(w[1], "arp"@)),
                Some(b) => match parse_signed(w[2], 127) {
                    None => Err(bad_value(w[2], "arp"@)),
                    Some(c) => Ok(PatchView { arp: seq![a as i8, b as i8, c as i8], ..p }),
                },
            },
        }
    }
}

/// A patch with one more `key=value`.
pub open spec fn with_option(p: PatchView, tok: Seq<char>) -> Result<PatchView, Seq<char>> {
    let n = find(tok, '=');
    if n >= tok.len() {
        Err("expected key=value, got "@ + quoted(tok))
    } else {
        let key = tok.take(n);
        let val = tok.skip(n + 1);
        if key == "duty"@ {
            with_duty(p, val)
        } else if key == "adsr"@ {
            with_adsr(p, val)
        } else if key == "slide"@ {
            with_slide(p, val)
        } else if key == "arp"@ {
            with_arp(p, val)
        } else {
            Err("unknown instrument key "@ + quoted(key))
        }
    }
}

pub open spec fn with_options(p: PatchView, w: Seq<Seq<char>>, i: int) -> Result<
    PatchView,
    Seq<char>,
>
    decreases w.len() - i,
{
    if i >= w.len() {
        Ok(p)
    } else {
        match with_option(p, w[i]) {
            Err(e) => Err(e),
            Ok(q) => with_options(q, w, i + 1),
        }
    }
}

/// A square wave at full level without slide or arpeggio, in another
/// waveform.
pub open spec fn plain_patch(wave: Wave) -> PatchView {
    PatchView {
        wave,
        duty: 128,
        attack: 0,
        decay: 0,
        sustain: 255,
        release: 0,
        slide: 0,
        arp: seq![0i8, 0, 0],
    }
}

/// The number and instrument that the rest of an `inst` line spells.
pub open spec fn instrument_of(rest: Seq<char>) -> Result<(nat, InstrumentView), Seq<char>> {
    let w = words(rest);
    let number = if w.len() > 0 {
        parse_unsigned(w[0], usize::MAX as nat)
    } else {
        None
    };
    match number {
        Some(n) if 1 <= n <= MAX_INSTRUMENTS => if w.len() < 2 {
            Err("inst needs a waveform or sample=name"@)
        } else if "sample="@.is_prefix_of(w[1]) {
            let name = w[1].skip(7);
            if is_asset_name(name) {
                Ok((n, InstrumentView::Sample(name)))
            } else {
                Err("bad sample name "@ + quoted(name))
            }
        } else {
            match wave_named(w[1]) {
                None => Err(
                    "unknown waveform "@ + quoted(w[1])
                        + ": pulse, tri, saw, sine, noise or sample=name"@,
                ),
                Some(wave) => match with_options(plain_patch(wave), w, 2) {
                    Err(e) => Err(e),
                    Ok(p) => Ok((n, InstrumentView::Synth(p))),
                },
            }
        },
        _ => Err("inst needs a number 1..64"@),
    }
}

fn parse_duty(p: Patch, val: &[char]) -> (r: Result<Patch, String>)
    ensures
        match (r, with_duty(p@, val@)) {
            (Ok(a), Ok(b)) => a@ == b,
            (Err(a), Err(b)) => a@ == b,
            _ => false,
        },
{
    match parse_unsigned_of(val, u32::MAX as u64) {
        None => Err(refuse_value(val, "duty")),
        Some(pct) => {
            if pct > 100 {
                return Err("duty is a percentage 0..100".to_owned());
            }
            Ok(Patch { duty: (pct * 255 / 100) as u8, ..p })
        },
    }
}

fn parse_adsr(p: Patch, val: &[char]) -> (r: Result<Patch, String>)
    ensures
        match (r, with_adsr(p@, val@)) {
            (Ok(a), Ok(b)) => a@ == b,
            (Err(a), Err(b)) => a@ == b,
            _ => false,
        },
{
    let parts = split_of(val, ',');
    let ghost w = split(val@, ',');
    if parts.len() != 4 {
        return Err("adsr wants attack,decay,sustain,release".to_owned());
    }
    assert(w[0] == parts@[0]@ && w[1] == parts@[1]@ && w[2] == parts@[2]@ && w[3] == parts@[3]@);
    let attack = match parse_unsigned_of(parts[0].as_slice(), 255) {
        None => return Err(refuse_value(parts[0].as_slice(), "adsr")),
        Some(n) => n,
    };
    let decay = match parse_unsigned_of(parts[1].as_slice(), 255) {
        None => return Err(refuse_value(parts[1].as_slice(), "adsr")),
        Some(n) => n,
    };
    let sustain = match parse_unsigned_of(parts[2].as_slice(), u32::MAX as u64) {
        None => return Err(refuse_value(parts[2].as_slice(), "adsr")),
        Some(n) => n,
    };
    if sustain > 100 {
        return Err("sustain is a percentage 0..100".to_owned());
    }
    let release = match parse_unsigned_of(parts[3].as_slice(), 255) {
        None => return Err(refuse_value(parts[3].as_slice(), "adsr")),
        Some(n) => n,
    };
    Ok(
        Patch {
            attack: attack as u8,
            decay: decay as u8,
            sustain: (sustain * 255 / 100) as u8,
            release: release as u8,
            ..p
        },
    )
}

fn parse_arp(p: Patch, val: &[char]) -> (r: Result<Patch, String>)
    ensures
        match (r, with_arp(p@, val@)) {
            (Ok(a), Ok(b)) => a@ == b,
            (Err(a), Err(b)) => a@ == b,
            _ => false,
        },
{
    let parts = split_of(val, ',');
    let ghost w = split(val@, ',');
    if parts.len() != 3 {
        return Err("arp wants three semitone offsets".to_owned());
    }
    assert(w[0] == parts@[0]@ && w[1] == parts@[1]@ && w[2] == parts@[2]@);
    let a = match parse_signed_of(parts[0].as_slice(), 127) {
        None => return Err(refuse_value(parts[0].as_slice(), "arp")),
        Some(n) => n,
    };
    let b = match parse_signed_of(parts[1].as_slice(), 127) {
        None => return Err(refuse_value(parts[1].as_slice(), "arp")),
        Some(n) => n,
    };
    let c = match parse_signed_of(parts[2].as_slice(), 127) {
        None => return Err(refuse_value(parts[2].as_slice(), "arp")),
        Some(n) => n,
    };
    let arp: [i8; 3] = [a as i8, b as i8, c as i8];
    assert(arp@ =~= seq![a as i8, b as i8, c as i8]);
    Ok(Patch { arp, ..p })
}

fn parse_option(p: Patch, tok: &[char]) -> (r: Result<Patch, String>)
    ensures
        match (r, with_option(p@, tok@)) {
            (Ok(a), Ok(b)) => a@ == b,
            (Err(a), Err(b)) => a@ == b,
            _ => false,
        },
{
    let n = find_char(tok, '=');
    if n >= tok.len() {
        let m = message("expected key=value, got ", tok, "");
        proof {
            reveal_strlit("");
        }
        assert(m@ =~= "expected key=value, got "@ + quoted(tok@));
        return Err(m);
    }
    let key = slice_subrange(tok, 0, n);
    let val = slice_subrange(tok, n + 1, tok.len());
    assert(key@ =~= tok@.take(n as int));
    assert(val@ =~= tok@.skip(n + 1));
    if spells(key, "duty") {
        parse_duty(p, val)
    } else if spells(key, "adsr") {
        parse_adsr(p, val)
    } else if spells(key, "slide") {
        match parse_signed_of(val, 32767) {
            None => Err(refuse_value(val, "slide")),
            Some(n) => Ok(Patch { slide: n as i16, ..p }),
        }
    } else if spells(key, "arp") {
        parse_arp(p, val)
    } else {
        let m = message("unknown instrument key ", key, "");
        proof {
            reveal_strlit("");
        }
        assert(m@ =~= "unknown instrument key "@ + quoted(key@));
        Err(m)
    }
}

pub fn parse_inst(rest: &[char]) -> (r: Result<(usize, Instrument), String>)
    ensures
        match (r, instrument_of(rest@)) {
            (Ok(a), Ok(b)) => a.0 == b.0 && a.1@ == b.1 && 1 <= a.0 <= MAX_INSTRUMENTS,
            (Err(a), Err(b)) => a@ == b,
            _ => false,
        },
{
    let toks = words_of(rest);
    let ghost w = words(rest@);
    let mut number: u64 = 0;
    if toks.len() > 0 {
        assert(w[0] == toks@[0]@);
        if let Some(n) = parse_unsigned_of(toks[0].as_slice(), usize::MAX as u64) {
            number = n;
        }
    }
    if number < 1 || number > MAX_INSTRUMENTS as u64 {
        return Err("inst needs a number 1..64".to_owned());
    }
    let n = number as usize;
    if toks.len() < 2 {
        return Err("inst needs a waveform or sample=name".to_owned());
    }
    assert(w[1] == toks@[1]@);
    let kind = toks[1].as_slice();
    if starts_with(kind, "sample=") {
        proof {
            reveal_strlit("sample=");
        }
        let name = slice_subrange(kind, 7, kind.len());
        assert(name@ =~= w[1].skip(7));
        let text = string_of(name);
        if !valid_asset_name(text.as_str()) {
            let m = message("bad sample name ", name, "");
            proof {
                reveal_strlit("");
            }
            assert(m@ =~= "bad sample name "@ + quoted(name@));
            return Err(m);
        }
        return Ok((n, Instrument::Sample(text)));
    }
    let wave = match Wave::parse(string_of(kind).as_str()) {
        Some(x) => x,
        None => return Err(
            message(
                "unknown waveform ",
                kind,
                ": pulse, tri, saw, sine, noise or sample=name",
            ),
        ),
    };
    let mut patch = Patch { wave, ..Patch::default() };
    assert(patch@ == plain_patch(wave));
    let mut i: usize = 2;
    while i < toks.len()
        invariant
            2 <= i <= toks@.len(),
            w == views(toks@),
            1 <= n <= MAX_INSTRUMENTS,
            instrument_of(rest@) == (match with_options(patch@, w, i as int) {
                Err(e) => Err::<(nat, InstrumentView), Seq<char>>(e),
                Ok(p) => Ok((n as nat, InstrumentView::Synth(p))),
            }),
        decreases toks.len() - i,
    {
        assert(w[i as int] == toks@[i as int]@);
        match parse_option(patch, toks[i].as_slice()) {
            Ok(p) => {
                patch = p;
            },
            Err(e) => return Err(e),
        }
        i += 1;
    }
    Ok((n, Instrument::Synth(patch)))
}

// ----- files ----------------------------------------------------------------

/// A track as far as it was read, and the row to loop to as written.
pub struct Draft {
    pub track: TrackView,
    pub loop_row: Option<nat>,
}

/// A file before its first line.
pub open spec fn blank_draft() -> Draft {
    Draft {
        track: TrackView {
            tempo: 8,
            columns: 0,
            loop_row: None,
            instruments: seq![],
            rows: seq![],
        },
        loop_row: None,
    }
}

/// Instruments with room for number `n`.
pub open spec fn with_room(v: Seq<Option<InstrumentView>>, n: nat) -> Seq<
    Option<InstrumentView>,
> {
    if v.len() >= n {
        v
    } else {
        v + Seq::new((n - v.len()) as nat, |i: int| None::<InstrumentView>)
    }
}

pub open spec fn add_instrument(d: Draft, rest: Seq<char>) -> Result<Draft, Seq<char>> {
    match instrument_of(rest) {
        Err(e) => Err(e),
        Ok((n, inst)) => {
            let room = with_room(d.track.instruments, n);
            if room[n - 1] is Some {
                Err("instrument "@ + dec(n) + " defined twice"@)
            } else {
                Ok(
                    Draft {
                        track: TrackView {
                            instruments: room.update(n - 1, Some(inst)),
                            ..d.track
                        },
                        ..d
                    },
                )
            }
        },
    }
}

/// The cells of a row from part `i` on, or the first that does not parse.
pub open spec fn cells_from(parts: Seq<Seq<char>>, i: int, read: Seq<Cell>) -> Result<
    Seq<Cell>,
    Seq<char>,
>
    decreases parts.len() - i,
{
    if i >= parts.len() {
        Ok(read)
    } else {
        match cell_of(parts[i]) {
            Err(e) => Err(e),
            Ok(c) => cells_from(parts, i + 1, read.push(c)),
        }
    }
}

/// The first instrument, from cell `i` on, that is not defined.
pub open spec fn undefined_from(t: TrackView, cells: Seq<Cell>, i: int) -> Option<u8>
    decreases cells.len() - i,
{
    if i >= cells.len() {
        None
    } else {
        match cells[i].inst {
            Some(n) if t.instrument(n) is None => Some(n),
            _ => undefined_from(t, cells, i + 1),
        }
    }
}

pub open spec fn add_row(d: Draft, content: Seq<char>) -> Result<Draft, Seq<char>> {
    if d.track.rows.len() >= MAX_ROWS {
        Err("more than 1024 rows"@)
    } else {
        match cells_from(split(content, '|'), 0, seq![]) {
            Err(e) => Err(e),
            Ok(cells) => if cells.len() > MAX_COLUMNS {
                Err("more than 8 channels"@)
            } else {
                match undefined_from(d.track, cells, 0) {
                    Some(n) => Err("instrument "@ + dec(n as nat) + " is not defined"@),
                    None => Ok(
                        Draft {
                            track: TrackView {
                                columns: if cells.len() > d.track.columns {
                                    cells.len()
                                } else {
                                    d.track.columns
                                },
                                rows: d.track.rows.push(cells),
                                ..d.track
                            },
                            ..d
                        },
                    ),
                }
            },
        }
    }
}

/// A draft with one more line; comments and blank lines change nothing.
pub open spec fn add_line(d: Draft, raw: Seq<char>) -> Result<Draft, Seq<char>> {
    let content = trim(raw.take(find(raw, ';')));
    let n = find_space(content);
    let word = content.take(n);
    let rest = if n < content.len() {
        content.skip(n + 1)
    } else {
        seq![]
    };
    if content.len() == 0 || content[0] == '#' {
        Ok(d)
    } else if word == "tempo"@ {
        match parse_unsigned(trim(rest), u32::MAX as nat) {
            None => Err(bad_value(trim(rest), "tempo"@)),
            Some(t) => if 1 <= t <= 255 {
                Ok(Draft { track: TrackView { tempo: t as u8, ..d.track }, ..d })
            } else {
                Err("tempo is frames per row, 1..255"@)
            },
        }
    } else if word == "loop"@ {
        match parse_unsigned(trim(rest), usize::MAX as nat) {
            None => Err(bad_value(trim(rest), "loop"@)),
            Some(l) => Ok(Draft { loop_row: Some(l), ..d }),
        }
    } else if word == "inst"@ {
        add_instrument(d, rest)
    } else {
        add_row(d, content)
    }
}

/// A draft with the lines from `i` on, or the first that is wrong and
/// why.
pub open spec fn add_lines(d: Draft, l: Seq<Seq<char>>, i: int) -> Result<Draft, (nat, Seq<char>)>
    decreases l.len() - i,
{
    if i >= l.len() {
        Ok(d)
    } else {
        match add_line(d, l[i]) {
            Err(e) => Err(((i + 1) as nat, e)),
            Ok(e) => add_lines(e, l, i + 1),
        }
    }
}

/// A row filled up to the width of the track.
pub open spec fn padded(row: Seq<Cell>, columns: nat) -> Seq<Cell> {
    if row.len() >= columns {
        row
    } else {
        row + Seq::new((columns - row.len()) as nat, |i: int| empty_cell())
    }
}

/// The track that a draft makes at the end of its file.
pub open spec fn finished(d: Draft) -> Result<TrackView, (nat, Seq<char>)> {
    if d.track.rows.len() == 0 {
        Err((0, "no rows"@))
    } else if d.loop_row matches Some(l) && l >= d.track.rows.len() {
        Err((0, "loop row "@ + dec(d.loop_row->0) + " is past the last row"@))
    } else {
        Ok(
            TrackView {
                loop_row: d.loop_row,
                rows: d.track.rows.map_values(|r: Seq<Cell>| padded(r, d.track.columns)),
                ..d.track
            },
        )
    }
}

/// The track that a file spells, or the line that is wrong and why; line
/// 0 is the file as a whole.
pub open spec fn track_of(bytes: Seq<u8>) -> Result<TrackView, (nat, Seq<char>)> {
    if bytes.len() > MAX_TRACK_BYTES {
        Err((0, "file larger than 262144 bytes"@))
    } else if !valid_utf8(bytes) {
        Err((0, "not valid UTF-8"@))
    } else {
        match add_lines(blank_draft(), lines(decode_utf8(bytes)), 0) {
            Err(e) => Err(e),
            Ok(d) => finished(d),
        }
    }
}

fn fail(path: &str, line: u32, why: String) -> (e: AudioError)
    ensures
        e@ == (AudioErrorView::Track { path: path@, line, why: why@ }),
{
    AudioError::Track { path: path.to_owned(), line, why }
}

/// The draft that a track in the making and a row to loop to stand for.
pub open spec fn draft_of(t: Track, l: Option<usize>) -> Draft {
    Draft { track: t@, loop_row: loop_view(l) }
}

fn read_instrument(track: &mut Track, rest: &[char], Ghost(l): Ghost<Option<usize>>) -> (r: Result<
    (),
    String,
>)
    ensures
        match (r, add_instrument(draft_of(*old(track), l), rest@)) {
            (Ok(_), Ok(d)) => draft_of(*final(track), l) == d,
            (Err(a), Err(b)) => a@ == b,
            _ => false,
        },
        final(track).columns == old(track).columns,
{
    let (n, inst) = match parse_inst(rest) {
        Ok(x) => x,
        Err(e) => return Err(e),
    };
    let ghost before = insts_of(track.instruments@);
    let ghost view = inst@;
    while track.instruments.len() < n
        invariant
            track.rows == old(track).rows,
            track.columns == old(track).columns,
            track.tempo == old(track).tempo,
            track.loop_row == old(track).loop_row,
            before == insts_of(old(track).instruments@),
            track.instruments@.len() <= n || track.instruments@ == old(track).instruments@,
            track.instruments@.len() >= before.len(),
            insts_of(track.instruments@) == with_room(before, track.instruments@.len()),
        decreases n - track.instruments.len(),
    {
        let ghost had = track.instruments@;
        track.instruments.push(None);
        assert(insts_of(track.instruments@) =~= insts_of(had).push(None));
        assert(insts_of(track.instruments@) =~= with_room(before, track.instruments@.len()));
    }
    let ghost room = insts_of(track.instruments@);
    assert(room == with_room(before, n as nat));
    assert(room[n - 1] == inst_view(track.instruments@[n - 1]));
    if track.instruments[n - 1].is_some() {
        let mut s = "instrument ".to_owned();
        push_dec(&mut s, n as u64);
        s.append(" defined twice");
        return Err(s);
    }
    track.instruments[n - 1] = Some(inst);
    assert(insts_of(track.instruments@) =~= room.update(n - 1, Some(view)));
    Ok(())
}

fn read_cells(content: &[char]) -> (r: Result<Vec<Cell>, String>)
    ensures
        match (r, cells_from(split(content@, '|'), 0, seq![])) {
            (Ok(a), Ok(b)) => a@ == b,
            (Err(a), Err(b)) => a@ == b,
            _ => false,
        },
{
    let parts = split_of(content, '|');
    let ghost w = split(content@, '|');
    let mut cells: Vec<Cell> = Vec::new();
    let mut i: usize = 0;
    while i < parts.len()
        invariant
            i <= parts@.len(),
            w == views(parts@),
            w == split(content@, '|'),
            cells_from(w, 0, seq![]) == cells_from(w, i as int, cells@),
        decreases parts.len() - i,
    {
        assert(w[i as int] == parts@[i as int]@);
        match parse_cell(parts[i].as_slice()) {
            Ok(c) => cells.push(c),
            Err(e) => return Err(e),
        }
        i += 1;
    }
    Ok(cells)
}

fn read_row(track: &mut Track, content: &[char], Ghost(l): Ghost<Option<usize>>) -> (r: Result<
    (),
    String,
>)
    requires
        old(track).columns <= MAX_COLUMNS,
    ensures
        final(track).columns <= MAX_COLUMNS,
        match (r, add_row(draft_of(*old(track), l), content@)) {
            (Ok(_), Ok(d)) => draft_of(*final(track), l) == d,
            (Err(a), Err(b)) => a@ == b,
            _ => false,
        },
{
    if track.rows.len() >= MAX_ROWS {
        return Err("more than 1024 rows".to_owned());
    }
    let cells = match read_cells(content) {
        Ok(x) => x,
        Err(e) => return Err(e),
    };
    if cells.len() > MAX_COLUMNS {
        return Err("more than 8 channels".to_owned());
    }
    let mut i: usize = 0;
    while i < cells.len()
        invariant
            i <= cells@.len(),
            *track == *old(track),
            undefined_from(track@, cells@, 0) == undefined_from(track@, cells@, i as int),
            cells@.len() <= MAX_COLUMNS,
            track.columns <= MAX_COLUMNS,
            track@.rows.len() < MAX_ROWS,
            cells_from(split(content@, '|'), 0, seq![]) == Ok::<Seq<Cell>, Seq<char>>(cells@),
        decreases cells.len() - i,
    {
        if let Some(n) = cells[i].inst {
            if track.instrument(n).is_none() {
                let mut s = "instrument ".to_owned();
                push_dec(&mut s, n as u64);
                s.append(" is not defined");
                return Err(s);
            }
        }
        i += 1;
    }
    if cells.len() > track.columns {
        track.columns = cells.len();
    }
    let ghost row = cells@;
    track.rows.push(cells);
    assert(rows_of(track.rows@) =~= rows_of(old(track).rows@).push(row));
    Ok(())
}

fn read_line(track: &mut Track, loop_row: &mut Option<usize>, raw: &[char]) -> (r: Result<
    (),
    String,
>)
    requires
        old(track).columns <= MAX_COLUMNS,
    ensures
        final(track).columns <= MAX_COLUMNS,
        match (r, add_line(draft_of(*old(track), *old(loop_row)), raw@)) {
            (Ok(_), Ok(d)) => draft_of(*final(track), *final(loop_row)) == d,
            (Err(a), Err(b)) => a@ == b,
            _ => false,
        },
{
    let end = find_char(raw, ';');
    let head = slice_subrange(raw, 0, end);
    assert(head@ =~= raw@.take(end as int));
    let content = trim_of(head);
    if content.len() == 0 || content[0] == '#' {
        return Ok(());
    }
    let n = find_whitespace(content);
    let word = slice_subrange(content, 0, n);
    assert(word@ =~= content@.take(n as int));
    let from: usize = if n < content.len() { n + 1 } else { n };
    let rest = slice_subrange(content, from, content.len());
    assert(rest@ =~= (if n < content@.len() {
        content@.skip(n + 1)
    } else {
        seq![]
    }));
    if spells(word, "tempo") {
        let v = trim_of(rest);
        let t = match parse_unsigned_of(v, u32::MAX as u64) {
            None => return Err(refuse_value(v, "tempo")),
            Some(t) => t,
        };
        if t < 1 || t > 255 {
            return Err("tempo is frames per row, 1..255".to_owned());
        }
        track.tempo = t as u8;
        Ok(())
    } else if spells(word, "loop") {
        let v = trim_of(rest);
        let l = match parse_unsigned_of(v, usize::MAX as u64) {
            None => return Err(refuse_value(v, "loop")),
            Some(l) => l,
        };
        *loop_row = Some(l as usize);
        Ok(())
    } else if spells(word, "inst") {
        let ghost l = *loop_row;
        read_instrument(track, rest, Ghost(l))
    } else {
        let ghost l = *loop_row;
        read_row(track, content, Ghost(l))
    }
}

/// A text has no more lines than characters, and no more characters than
/// bytes.
pub proof fn lemma_lines_len(s: Seq<char>)
    ensures
        lines(s).len() <= s.len(),
    decreases s.len(),
{
    if s.len() > 0 {
        let n = find(s, '\n');
        if !(n >= s.len() || n < 0) {
            lemma_lines_len(s.skip(n + 1));
        }
    }
}

pub proof fn lemma_chars_at_most_bytes(s: Seq<char>)
    ensures
        s.len() <= encode_utf8(s).len(),
    decreases s.len(),
{
    if s.len() > 0 {
        lemma_chars_at_most_bytes(s.drop_first());
    }
}

fn pad_rows(rows: Vec<Vec<Cell>>, columns: usize) -> (out: Vec<Vec<Cell>>)
    ensures
        rows_of(out@) == rows_of(rows@).map_values(|r: Seq<Cell>| padded(r, columns as nat)),
{
    let mut rows = rows;
    let ghost start = rows_of(rows@);
    let mut i: usize = 0;
    while i < rows.len()
        invariant
            i <= rows@.len(),
            rows@.len() == start.len(),
            forall|k: int| 0 <= k < i ==> (#[trigger] rows@[k])@ == padded(start[k], columns as nat),
            forall|k: int| i <= k < start.len() ==> (#[trigger] rows@[k])@ == start[k],
        decreases rows.len() - i,
    {
        let mut row: Vec<Cell> = Vec::new();
        std::mem::swap(&mut row, &mut rows[i]);
        let ghost r0 = row@;
        while row.len() < columns
            invariant
                row@.len() <= columns || row@ == r0,
                row@.len() >= r0.len(),
                row@ =~= padded(r0, row@.len()),
            decreases columns - row.len(),
        {
            row.push(Cell::default());
        }
        assert(row@ =~= padded(r0, columns as nat));
        rows[i] = row;
        i += 1;
    }
    assert(rows_of(rows@) =~= start.map_values(|r: Seq<Cell>| padded(r, columns as nat)));
    rows
}

/// Parse a `.trk` file. `path` is only for messages.
#[verifier::spinoff_prover]
#[verifier::rlimit(50)]
pub fn parse(path: &str, bytes: &[u8]) -> (r: Result<Track, AudioError>)
    ensures
        match (r, track_of(bytes@)) {
            (Ok(t), Ok(v)) => t@ == v && t@.wf() && t@.whole(),
            (Err(e), Err((line, why))) => e@ == (AudioErrorView::Track {
                path: path@,
                line: line as u32,
                why,
            }) && line <= MAX_TRACK_BYTES,
            _ => false,
        },
{
    if bytes.len() > MAX_TRACK_BYTES {
        return Err(fail(path, 0, "file larger than 262144 bytes".to_owned()));
    }
    let text = match string_from_utf8(slice_to_vec(bytes)) {
        Some(s) => s,
        None => return Err(fail(path, 0, "not valid UTF-8".to_owned())),
    };
    proof {
        encode_utf8_decode_utf8(text@);
        lemma_chars_at_most_bytes(text@);
        lemma_lines_len(text@);
    }
    let chars = chars_of(text.as_str());
    let list = lines_of(chars.as_slice());
    let ghost l = lines(text@);
    let mut track = Track {
        tempo: 8,
        columns: 0,
        loop_row: None,
        instruments: Vec::new(),
        rows: Vec::new(),
    };
    let mut loop_row: Option<usize> = None;
    assert(insts_of(track.instruments@) =~= seq![]);
    assert(rows_of(track.rows@) =~= seq![]);
    assert(draft_of(track, loop_row) == blank_draft());
    proof {
        lemma_wf_blank();
    }
    let mut i: usize = 0;
    while i < list.len()
        invariant
            i <= list@.len() <= MAX_TRACK_BYTES,
            l == views(list@),
            track.columns <= MAX_COLUMNS,
            track.loop_row is None,
            draft_wf(draft_of(track, loop_row)),
            track_of(bytes@) == (match add_lines(draft_of(track, loop_row), l, i as int) {
                Err(e) => Err::<TrackView, (nat, Seq<char>)>(e),
                Ok(d) => finished(d),
            }),
        decreases list.len() - i,
    {
        assert(l[i as int] == list@[i as int]@);
        let ghost d = draft_of(track, loop_row);
        match read_line(&mut track, &mut loop_row, list[i].as_slice()) {
            Ok(_) => {},
            Err(e) => return Err(fail(path, (i + 1) as u32, e)),
        }
        proof {
            lemma_wf_line(d, l[i as int]);
        }
        i += 1;
    }
    if track.rows.len() == 0 {
        return Err(fail(path, 0, "no rows".to_owned()));
    }
    if let Some(n) = loop_row {
        if n >= track.rows.len() {
            let mut s = "loop row ".to_owned();
            push_dec(&mut s, n as u64);
            s.append(" is past the last row");
            return Err(fail(path, 0, s));
        }
    }
    let ghost d = draft_of(track, loop_row);
    let rows = pad_rows(track.rows, track.columns);
    let track = Track {
        tempo: track.tempo,
        columns: track.columns,
        loop_row,
        instruments: track.instruments,
        rows,
    };
    assert(track@ == finished(d)->Ok_0);
    proof {
        law_a_spelled_track_is_whole(bytes@);
    }
    Ok(track)
}

/// What a draft keeps of its cells from line to line.
spec fn draft_whole(d: Draft) -> bool {
    &&& d.track.rows.len() > 0 ==> d.track.columns >= 1
    &&& d.track.instruments.len() <= MAX_INSTRUMENTS
    &&& forall|r: int| 0 <= r < d.track.rows.len() ==> d.track.has_all(#[trigger] d.track.rows[r])
}

proof fn lemma_marks_keep_the_note(cell: Cell, w: Seq<Seq<char>>, i: int)
    ensures
        marked_from(cell, w, i) matches Ok(c) ==> c.note == cell.note,
    decreases w.len() - i,
{
    if i < w.len() {
        if let Ok(c) = marked(cell, w[i]) {
            lemma_marks_keep_the_note(c, w, i + 1);
        }
    }
}

proof fn lemma_cells_in_range(parts: Seq<Seq<char>>, i: int, read: Seq<Cell>)
    requires
        0 <= i <= parts.len(),
        forall|k: int|
            0 <= k < read.len() ==> ((#[trigger] read[k]).note matches Note::On(n) ==> n
                <= MAX_NOTE),
    ensures
        cells_from(parts, i, read) matches Ok(cells) ==> cells.len() == read.len() + parts.len() - i
            && forall|k: int|
            0 <= k < cells.len() ==> ((#[trigger] cells[k]).note matches Note::On(n) ==> n
                <= MAX_NOTE),
    decreases parts.len() - i,
{
    if i < parts.len() {
        if let Ok(c) = cell_of(parts[i]) {
            let w = words(parts[i]);
            if w.len() > 0 {
                let note = note_of(w[0])->0;
                lemma_marks_keep_the_note(Cell { note, inst: None, vol: None }, w, 1);
            }
            lemma_cells_in_range(parts, i + 1, read.push(c));
        }
    }
}

proof fn lemma_defined(t: TrackView, cells: Seq<Cell>, i: int)
    requires
        0 <= i <= cells.len(),
        undefined_from(t, cells, i) is None,
    ensures
        forall|k: int|
            i <= k < cells.len() ==> ((#[trigger] cells[k]).inst matches Some(n) ==> t.instrument(
                n,
            ) is Some),
    decreases cells.len() - i,
{
    if i < cells.len() {
        lemma_defined(t, cells, i + 1);
    }
}

/// A row stays whole where instruments are added.
proof fn lemma_still_has(t: TrackView, u: TrackView, row: Seq<Cell>)
    requires
        t.has_all(row),
        forall|n: u8| t.instrument(n) is Some ==> #[trigger] u.instrument(n) is Some,
    ensures
        u.has_all(row),
{
    assert forall|i: int| 0 <= i < row.len() implies u.has(#[trigger] row[i]) by {
        assert(t.has(row[i]));
    }
}

proof fn lemma_whole_line(d: Draft, raw: Seq<char>)
    requires
        draft_whole(d),
    ensures
        add_line(d, raw) matches Ok(e) ==> draft_whole(e),
{
    if let Ok(e) = add_line(d, raw) {
        let t = d.track;
        let u = e.track;
        let content = trim(raw.take(find(raw, ';')));
        assert forall|n: u8| t.instrument(n) is Some implies #[trigger] u.instrument(n) is Some by {}
        assert forall|r: int| 0 <= r < t.rows.len() implies u.has_all(#[trigger] t.rows[r]) by {
            lemma_still_has(t, u, t.rows[r]);
        }
        if u.rows.len() > t.rows.len() {
            let parts = split(content, '|');
            let cells = cells_from(parts, 0, seq![])->Ok_0;
            lemma_split_some(content, '|');
            lemma_cells_in_range(parts, 0, seq![]);
            lemma_defined(t, cells, 0);
            assert(u.has_all(cells)) by {
                assert forall|i: int| 0 <= i < cells.len() implies u.has(#[trigger] cells[i]) by {
                    assert(cells[i].note matches Note::On(n) ==> n <= MAX_NOTE);
                    if let Some(n) = cells[i].inst {
                        assert(t.instrument(n) is Some);
                    }
                }
            }
        }
        assert forall|r: int| 0 <= r < u.rows.len() implies u.has_all(#[trigger] u.rows[r]) by {
            if r < t.rows.len() {
                assert(u.rows[r] == t.rows[r]);
            }
        }
    }
}

/// A text splits into one part at least.
proof fn lemma_split_some(s: Seq<char>, c: char)
    ensures
        split(s, c).len() >= 1,
{
}

proof fn lemma_whole_lines(d: Draft, l: Seq<Seq<char>>, i: int)
    requires
        draft_whole(d),
        0 <= i <= l.len(),
    ensures
        add_lines(d, l, i) matches Ok(e) ==> draft_whole(e),
    decreases l.len() - i,
{
    if i < l.len() {
        lemma_whole_line(d, l[i]);
        if let Ok(e) = add_line(d, l[i]) {
            lemma_whole_lines(e, l, i + 1);
        }
    }
}

/// A track that a file spells has a column, few instruments, notes in
/// range, and an instrument for each that a cell names.
pub proof fn law_a_spelled_track_is_whole(bytes: Seq<u8>)
    ensures
        track_of(bytes) matches Ok(t) ==> t.whole(),
{
    if let Ok(t) = track_of(bytes) {
        let l = lines(decode_utf8(bytes));
        lemma_whole_lines(blank_draft(), l, 0);
        let d = add_lines(blank_draft(), l, 0)->Ok_0;
        assert forall|r: int| 0 <= r < t.rows.len() implies t.has_all(#[trigger] t.rows[r]) by {
            let row = d.track.rows[r];
            assert(d.track.has_all(row));
            assert(t.rows[r] == padded(row, d.track.columns));
            assert forall|i: int| 0 <= i < t.rows[r].len() implies t.has(#[trigger] t.rows[r][i]) by {
                if i < row.len() {
                    assert(d.track.has(row[i]));
                    assert(t.rows[r][i] == row[i]);
                    if let Some(n) = row[i].inst {
                        assert(t.instrument(n) == d.track.instrument(n));
                    }
                } else {
                    assert(t.rows[r][i] == empty_cell());
                }
            }
        }
    }
}

/// What a draft keeps from line to line.
pub open spec fn draft_wf(d: Draft) -> bool {
    &&& d.track.tempo >= 1
    &&& d.track.loop_row is None
    &&& d.track.columns <= MAX_COLUMNS
    &&& d.track.rows.len() <= MAX_ROWS
    &&& forall|r: int|
        0 <= r < d.track.rows.len() ==> (#[trigger] d.track.rows[r]).len() <= d.track.columns
}

proof fn lemma_wf_blank()
    ensures
        draft_wf(blank_draft()),
{
}

proof fn lemma_wf_line(d: Draft, raw: Seq<char>)
    requires
        draft_wf(d),
    ensures
        add_line(d, raw) matches Ok(e) ==> draft_wf(e),
{
}

/// The words of a note: its letter, its accidental and its octave.
pub open spec fn note_text(n: u8) -> Seq<char> {
    let s = n as int % 12;
    let letter = if s < 2 {
        'C'
    } else if s < 4 {
        'D'
    } else if s < 5 {
        'E'
    } else if s < 7 {
        'F'
    } else if s < 9 {
        'G'
    } else if s < 11 {
        'A'
    } else {
        'B'
    };
    let sharp = s == 1 || s == 3 || s == 6 || s == 8 || s == 10;
    seq![
        letter,
        if sharp {
            '#'
        } else {
            '-'
        },
        (48 + n as int / 12) as char,
    ]
}

/// Every note has a spelling that reads back as that note.
pub proof fn law_every_note_can_be_written(n: u8)
    requires
        n <= MAX_NOTE,
    ensures
        note_of(note_text(n)) == Some(Note::On(n)),
{
    let t = note_text(n);
    reveal_strlit("---");
    reveal_strlit("...");
    reveal_strlit("===");
    reveal_strlit("off");
    assert("---"@[0] == '-');
    assert("..."@[0] == '.');
    assert("==="@[0] == '=');
    assert("off"@[0] == 'o');
    assert(t[0] != '-' && t[0] != '.' && t[0] != '=' && t[0] != 'o');
}

// ----- the cursor -----------------------------------------------------------

/// What the cursor wants the mixer to do this frame.
#[derive(Debug, Clone, Copy, PartialEq, Eq, Structural)]
pub enum Step {
    /// Nothing new this frame.
    Hold,
    /// Apply this row's cells.
    Row(usize),
    /// The track ended (or faded out): release its channels and drop it.
    End,
}

/// Gain scale: 256 is unity.
pub const GAIN_ONE: i32 = 256;

/// A playing track on channels `base..base + columns`.
#[derive(Debug)]
pub struct Cursor {
    pub track: Rc<Track>,
    pub base: usize,
    pub row: usize,
    pub countdown: u32,
    /// 0..=256, applied to every note of the track.
    pub gain: i32,
    pub fade: i32,
    pub stop_when_silent: bool,
}

/// How far the gain moves per frame to cross its range in `frames`.
pub open spec fn fade_step(frames: u32) -> int {
    let n = GAIN_ONE as int / frames as int;
    if n < 1 {
        1
    } else {
        n
    }
}

fn fade_step_for(frames: u32) -> (n: i32)
    requires
        frames > 0,
    ensures
        n == fade_step(frames),
        1 <= n <= GAIN_ONE,
{
    let n: u32 = 256 / frames;
    if n < 1 {
        1
    } else {
        n as i32
    }
}

impl Cursor {
    /// What every cursor keeps: a playable track, a place in it, and a
    /// gain within its scale.
    pub open spec fn wf(self) -> bool {
        &&& self.track@.wf()
        &&& self.row <= self.track@.rows.len()
        &&& 0 <= self.gain <= GAIN_ONE
        &&& -GAIN_ONE <= self.fade <= GAIN_ONE
    }

    /// A track at its start.
    pub open spec fn started(track: Rc<Track>, base: usize, fade_in: u32) -> Cursor {
        Cursor {
            track,
            base,
            row: 0,
            countdown: 0,
            gain: if fade_in == 0 {
                GAIN_ONE
            } else {
                0
            },
            fade: if fade_in == 0 {
                0
            } else {
                fade_step(fade_in) as i32
            },
            stop_when_silent: false,
        }
    }

    /// `fade_in` frames from silence to unity; 0 starts at unity.
    pub fn new(track: Rc<Track>, base: usize, fade_in: u32) -> (c: Cursor)
        requires
            track@.wf(),
        ensures
            c == Cursor::started(track, base, fade_in),
            c.wf(),
    {
        let (gain, fade): (i32, i32) = if fade_in == 0 {
            (GAIN_ONE, 0)
        } else {
            (0, fade_step_for(fade_in))
        };
        Cursor { track, base, row: 0, countdown: 0, gain, fade, stop_when_silent: false }
    }

    /// Whether the cursor plays on a channel.
    pub open spec fn covers(self, channel: int) -> bool {
        self.base <= channel < self.base + self.track.columns
    }

    /// The first channel it plays on, and the one behind its last.
    pub fn channels(&self) -> (r: (usize, usize))
        requires
            self.base + self.track.columns <= usize::MAX,
        ensures
            r == (self.base, (self.base + self.track.columns) as usize),
    {
        (self.base, self.base + self.track.columns)
    }

    pub fn row(&self) -> (r: usize)
        ensures
            r == self.row,
    {
        self.row
    }

    /// The cursor on its way to silence.
    pub open spec fn fading_out(self, frames: u32) -> Cursor {
        Cursor {
            stop_when_silent: true,
            fade: if frames == 0 {
                (-GAIN_ONE) as i32
            } else {
                (-fade_step(frames)) as i32
            },
            ..self
        }
    }

    /// Fade to silence over `frames` and then end.
    pub fn fade_out(&mut self, frames: u32)
        requires
            old(self).wf(),
        ensures
            *final(self) == old(self).fading_out(frames),
            final(self).wf(),
    {
        self.stop_when_silent = true;
        self.fade = if frames == 0 { -GAIN_ONE } else { -fade_step_for(frames) };
    }

    /// The cursor after one frame of its fade, which ends at unity.
    pub open spec fn faded(self) -> Cursor {
        let gain = clamp(self.gain + self.fade, 0, GAIN_ONE as int) as i32;
        if self.fade == 0 {
            self
        } else {
            Cursor {
                gain,
                fade: if gain == GAIN_ONE && self.fade > 0 {
                    0
                } else {
                    self.fade
                },
                ..self
            }
        }
    }

    /// Whether a cursor that fades out has gone silent.
    pub open spec fn silent(self) -> bool {
        self.fade != 0 && self.faded().gain == 0 && self.stop_when_silent
    }

    /// The row the cursor is to play next, if the track goes on: behind
    /// the last one it is the row to loop to.
    pub open spec fn next_row(self) -> Option<usize> {
        if self.row < self.track@.rows.len() {
            Some(self.row)
        } else {
            self.track.loop_row
        }
    }

    /// What the cursor wants done this frame.
    pub open spec fn step(self) -> Step {
        if self.silent() {
            Step::End
        } else if self.countdown > 0 {
            Step::Hold
        } else {
            match self.next_row() {
                Some(r) => Step::Row(r),
                None => Step::End,
            }
        }
    }

    /// The cursor a frame later.
    pub open spec fn ticked(self) -> Cursor {
        let c = self.faded();
        if self.silent() {
            c
        } else if self.countdown > 0 {
            Cursor { countdown: (self.countdown - 1) as u32, ..c }
        } else {
            match self.next_row() {
                Some(r) => Cursor {
                    row: (r + 1) as usize,
                    countdown: (self.track.tempo - 1) as u32,
                    ..c
                },
                None => c,
            }
        }
    }

    /// Advance one frame.
    pub fn tick(&mut self) -> (s: Step)
        requires
            old(self).wf(),
        ensures
            s == old(self).step(),
            *final(self) == old(self).ticked(),
            final(self).wf(),
            s matches Step::Row(r) ==> r < old(self).track@.rows.len(),
    {
        if self.fade != 0 {
            let gain: i32 = self.gain + self.fade;
            self.gain = if gain < 0 {
                0
            } else if gain > GAIN_ONE {
                GAIN_ONE
            } else {
                gain
            };
            if self.gain == GAIN_ONE && self.fade > 0 {
                self.fade = 0;
            }
            if self.gain == 0 && self.stop_when_silent {
                return Step::End;
            }
        }
        if self.countdown > 0 {
            self.countdown -= 1;
            return Step::Hold;
        }
        assert(self.track@.rows.len() == self.track.rows@.len());
        if self.row >= self.track.rows.len() {
            match self.track.loop_row {
                Some(l) => {
                    assert(self.track@.loop_row == Some(l as nat));
                    self.row = l;
                },
                None => return Step::End,
            }
        }
        let r = self.row;
        self.row = r + 1;
        self.countdown = self.track.tempo as u32 - 1;
        Step::Row(r)
    }
}

impl Cursor {
    /// The cursor some frames later.
    pub open spec fn frames_on(self, n: int) -> Cursor
        decreases n,
    {
        if n <= 0 {
            self
        } else {
            self.frames_on(n - 1).ticked()
        }
    }
}

proof fn lemma_fading(c: Cursor, frames: u32, i: int)
    requires
        c.wf(),
        c.gain == GAIN_ONE,
        c.track.loop_row is Some,
        frames > 0,
        0 <= i,
        i * fade_step(frames) < GAIN_ONE,
    ensures
        ({
            let d = c.fading_out(frames).frames_on(i);
            &&& d.gain == GAIN_ONE - i * fade_step(frames)
            &&& d.fade == -fade_step(frames)
            &&& d.stop_when_silent
            &&& d.track == c.track
        }),
    decreases i,
{
    let s = fade_step(frames);
    assert(GAIN_ONE as int / frames as int <= GAIN_ONE) by (nonlinear_arith)
        requires
            frames > 0,
            GAIN_ONE >= 0,
    ;
    assert(1 <= s <= GAIN_ONE);
    assert(0 * s == 0) by (nonlinear_arith);
    if i > 0 {
        assert((i - 1) * s == i * s - s) by (nonlinear_arith);
        lemma_fading(c, frames, i - 1);
    }
}

/// A track that loops fades out over its frames and then ends: each frame
/// takes the same step off the gain, and the cursor ends with the frame
/// that silences it. Where the frames divide the scale that is the last of
/// them, and with no frames the next one. The place in the track stays.
pub proof fn law_a_fade_out_ends_in_time(c: Cursor, frames: u32, i: int)
    requires
        c.wf(),
        c.gain == GAIN_ONE,
        c.track.loop_row is Some,
        1 <= i,
    ensures
        ({
            let o = c.fading_out(frames);
            &&& o == (Cursor { fade: o.fade, stop_when_silent: true, ..c })
            &&& frames == 0 ==> o.step() == Step::End
            &&& frames > 0 && i * fade_step(frames) < GAIN_ONE ==> {
                &&& o.frames_on(i - 1).step() != Step::End
                &&& o.frames_on(i).gain == GAIN_ONE - i * fade_step(frames)
            }
            &&& frames > 0 && (i - 1) * fade_step(frames) < GAIN_ONE <= i * fade_step(frames) ==> {
                &&& o.frames_on(i - 1).step() == Step::End
                &&& o.frames_on(i).gain == 0
            }
            &&& frames > 0 && GAIN_ONE as int % frames as int == 0 && i <= frames ==> {
                &&& o.frames_on(i).gain == GAIN_ONE - i * (GAIN_ONE as int / frames as int)
                &&& o.frames_on(i - 1).step() == Step::End <==> i == frames
            }
        }),
{
    if frames > 0 {
        let s = fade_step(frames);
        let n = frames as int;
        assert((i - 1) * s == i * s - s) by (nonlinear_arith);
        assert(GAIN_ONE as int / n <= GAIN_ONE) by (nonlinear_arith)
            requires
                n > 0,
                GAIN_ONE >= 0,
        ;
        if (i - 1) * s < GAIN_ONE {
            lemma_fading(c, frames, i - 1);
            if i * s < GAIN_ONE {
                lemma_fading(c, frames, i);
            }
        }
        if GAIN_ONE as int % n == 0 && i <= n {
            vstd::arithmetic::div_mod::lemma_fundamental_div_mod(GAIN_ONE as int, n);
            let q = GAIN_ONE as int / n;
            assert(n * q == GAIN_ONE);
            assert(q >= 1) by (nonlinear_arith)
                requires
                    n * q == 256,
                    n > 0,
            ;
            assert(s == q);
            assert(n * q == q * n) by (nonlinear_arith);
            assert(i < n ==> i * q < n * q) by (nonlinear_arith)
                requires
                    q >= 1,
            ;
            assert((i - 1) * q < n * q) by (nonlinear_arith)
                requires
                    q >= 1,
                    i <= n,
            ;
        }
    }
}

/// A row is held for exactly the tempo: after it come one frame less than
/// the tempo of nothing new, whatever the row.
pub proof fn law_rows_keep_the_tempo(c: Cursor)
    requires
        c.wf(),
        c.step() is Row,
    ensures
        c.ticked().countdown == c.track.tempo - 1,
        c.ticked().countdown > 0 && !c.ticked().silent() ==> c.ticked().step() == Step::Hold
            && c.ticked().ticked().countdown == c.ticked().countdown - 1,
{
}

/// A track that loops never ends of itself.
pub proof fn law_a_looping_track_goes_on(c: Cursor)
    requires
        c.wf(),
        c.track.loop_row is Some,
        !c.stop_when_silent,
    ensures
        c.step() != Step::End,
        !c.ticked().stop_when_silent,
        c.ticked().track == c.track,
{
}

} // verus!
