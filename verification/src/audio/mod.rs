//! The audio subsystem: a mixer rendered in lockstep with the frames.
//! Eight cart channels plus one reserved shell channel, 44.1 kHz mono
//! 16-bit, [`SAMPLES_PER_FRAME`] samples per step. Every operation in the
//! render path is integer or fixed-point so the PCM is bit-identical on
//! every machine, and the mix clips rather than wraps.
//!
//! Audio work is not charged to the cart's cycle budget; the API calls
//! that reach it cost one cycle each in the guest.

pub mod api;
pub mod lasting;
pub mod mixing;
pub mod playing;
pub mod rendering;
pub mod sample;
pub mod scores;
pub mod synth;
pub mod tables;
pub mod tracker;
pub mod waves;

use std::rc::Rc;
use vstd::prelude::*;
use vstd::string::*;
use api::sample_file;
use sample::{sample_step, BankView, Sample, SampleBank, SampleVoice};
use synth::{pitch_increment, Stage, SynthVoice};
use tracker::{Cell, Cursor, Instrument, Note, Step, Track, GAIN_ONE};
use crate::math::{clamp, floor_div, trunc_div};
use crate::shared::{share, Named};
use crate::text::{dec, dec_int, push_dec, push_dec_int};

verus! {

/// Errors from the audio API, with stable codes.
#[derive(Debug, Clone, PartialEq, Eq)]
pub enum AudioError {
    BadChannel { channel: i64 },
    AssetNotFound { path: String },
    AssetInvalid { path: String, why: String },
    Track { path: String, line: u32, why: String },
    Sample { path: String, why: String },
    /// The track has more columns than fit from the requested channel.
    NoRoom { path: String, channel: usize, columns: usize },
}

/// What an audio error says, as plain values.
pub enum AudioErrorView {
    BadChannel { channel: i64 },
    AssetNotFound { path: Seq<char> },
    AssetInvalid { path: Seq<char>, why: Seq<char> },
    Track { path: Seq<char>, line: u32, why: Seq<char> },
    Sample { path: Seq<char>, why: Seq<char> },
    NoRoom { path: Seq<char>, channel: usize, columns: usize },
}

impl View for AudioError {
    type V = AudioErrorView;

    open spec fn view(&self) -> AudioErrorView {
        match self {
            AudioError::BadChannel { channel } => AudioErrorView::BadChannel { channel: *channel },
            AudioError::AssetNotFound { path } => AudioErrorView::AssetNotFound { path: path@ },
            AudioError::AssetInvalid { path, why } => AudioErrorView::AssetInvalid {
                path: path@,
                why: why@,
            },
            AudioError::Track { path, line, why } => AudioErrorView::Track {
                path: path@,
                line: *line,
                why: why@,
            },
            AudioError::Sample { path, why } => AudioErrorView::Sample { path: path@, why: why@ },
            AudioError::NoRoom { path, channel, columns } => AudioErrorView::NoRoom {
                path: path@,
                channel: *channel,
                columns: *columns,
            },
        }
    }
}

impl AudioErrorView {
    /// The stable code.
    pub open spec fn code(self) -> Seq<char> {
        match self {
            AudioErrorView::BadChannel { .. } => "audio_bad_channel"@,
            AudioErrorView::AssetNotFound { .. } => "asset_not_found"@,
            AudioErrorView::AssetInvalid { .. } => "asset_invalid"@,
            AudioErrorView::Track { .. } => "track_error"@,
            AudioErrorView::Sample { .. } => "sample_error"@,
            AudioErrorView::NoRoom { .. } => "audio_no_room"@,
        }
    }

    /// What went wrong, in words.
    pub open spec fn words(self) -> Seq<char> {
        match self {
            AudioErrorView::BadChannel { channel } => "channel "@ + dec_int(channel as int)
                + " is not 0..8"@,
            AudioErrorView::AssetNotFound { path } => path + " not found in the cart"@,
            AudioErrorView::AssetInvalid { path, why } => path + ": "@ + why,
            AudioErrorView::Track { path, line, why } => if line > 0 {
                path + ":"@ + dec(line as nat) + ": "@ + why
            } else {
                path + ": "@ + why
            },
            AudioErrorView::Sample { path, why } => path + ": "@ + why,
            AudioErrorView::NoRoom { path, channel, columns } => path + " has "@ + dec(
                columns as nat,
            ) + " channels, which do not fit from channel "@ + dec(channel as nat),
        }
    }
}

impl AudioError {
    pub fn code(&self) -> (s: &'static str)
        ensures
            s@ == self@.code(),
    {
        match self {
            AudioError::BadChannel { .. } => "audio_bad_channel",
            AudioError::AssetNotFound { .. } => "asset_not_found",
            AudioError::AssetInvalid { .. } => "asset_invalid",
            AudioError::Track { .. } => "track_error",
            AudioError::Sample { .. } => "sample_error",
            AudioError::NoRoom { .. } => "audio_no_room",
        }
    }

    /// The code, then what went wrong.
    pub fn text(&self) -> (s: String)
        ensures
            s@ == self@.code() + ": "@ + self@.words(),
    {
        let mut s = self.code().to_owned();
        s.append(": ");
        match self {
            AudioError::BadChannel { channel } => {
                s.append("channel ");
                push_dec_int(&mut s, *channel);
                s.append(" is not 0..8");
            },
            AudioError::AssetNotFound { path } => {
                s.append(path.as_str());
                s.append(" not found in the cart");
            },
            AudioError::AssetInvalid { path, why } => {
                s.append(path.as_str());
                s.append(": ");
                s.append(why.as_str());
            },
            AudioError::Track { path, line, why } => {
                s.append(path.as_str());
                if *line > 0 {
                    s.append(":");
                    push_dec(&mut s, *line as u64);
                }
                s.append(": ");
                s.append(why.as_str());
            },
            AudioError::Sample { path, why } => {
                s.append(path.as_str());
                s.append(": ");
                s.append(why.as_str());
            },
            AudioError::NoRoom { path, channel, columns } => {
                s.append(path.as_str());
                s.append(" has ");
                push_dec(&mut s, *columns as u64);
                s.append(" channels, which do not fit from channel ");
                push_dec(&mut s, *channel as u64);
            },
        }
        assert(s@ =~= self@.code() + ": "@ + self@.words());
        s
    }
}

/// Samples per 60 Hz frame.
pub const SAMPLES_PER_FRAME: usize = 735;

/// Channels a cart may address: 0 to 7.
pub const CART_CHANNELS: usize = 8;

/// The shell's reserved channel; a cart cannot name it.
pub const SHELL_CHANNEL: usize = 8;

/// Every channel, cart and shell.
pub const CHANNELS: usize = CART_CHANNELS + 1;

/// Most simultaneous sfx cursors; older ones are dropped first.
pub const MAX_SFX_CURSORS: usize = CHANNELS;

/// Middle C plays a sample at its native rate.
pub const SAMPLE_ROOT_NOTE: u8 = 48;

/// A sample scaled by an 8-bit volume where 255 is exactly unity.
pub open spec fn scaled(s: int, v: u8) -> int {
    if v == 255 {
        s
    } else {
        s * v / 256
    }
}

fn scale(s: i32, v: u8) -> (r: i32)
    requires
        -32768 <= s <= 32768,
    ensures
        r == scaled(s as int, v),
        -32768 <= r <= 32768,
{
    if v == 255 {
        s
    } else {
        assert(-32768 * 256 <= s * v <= 32768 * 256) by (nonlinear_arith)
            requires
                -32768 <= s <= 32768,
                0 <= v <= 255,
        ;
        floor_div(s as i64 * v as i64, 256) as i32
    }
}

#[derive(Debug)]
pub enum Voice {
    Synth(SynthVoice),
    Sample(SampleVoice),
}

impl Voice {
    pub open spec fn wf(self) -> bool {
        match self {
            Voice::Synth(v) => v.wf(),
            Voice::Sample(v) => v.wf(),
        }
    }

    pub open spec fn off(self) -> bool {
        match self {
            Voice::Synth(v) => v.stage == Stage::Off,
            Voice::Sample(v) => v.pos / 0x1_0000 >= v.sample.data@.len(),
        }
    }

    /// The voice's next sample, if it has one.
    pub open spec fn sample(self) -> Option<i32> {
        match self {
            Voice::Synth(v) => v.sample(),
            Voice::Sample(v) => {
                let i = v.pos as int / 0x1_0000;
                if i < v.sample.data@.len() {
                    Some(v.sample.data@[i] as i32)
                } else {
                    None
                }
            },
        }
    }

    /// The voice behind that sample.
    pub open spec fn stepped(self) -> Voice {
        match self {
            Voice::Synth(v) => Voice::Synth(v.stepped()),
            Voice::Sample(v) => if v.pos as int / 0x1_0000 < v.sample.data@.len() {
                Voice::Sample(SampleVoice { pos: (v.pos + v.step) as u64, ..v })
            } else {
                self
            },
        }
    }

    pub fn next_sample(&mut self) -> (r: Option<i32>)
        requires
            old(self).wf(),
        ensures
            r == old(self).sample(),
            *final(self) == old(self).stepped(),
            final(self).wf(),
            r matches Some(s) ==> -32768 <= s <= 32767,
    {
        match self {
            Voice::Synth(v) => v.next_sample(),
            Voice::Sample(v) => v.next_sample(),
        }
    }

    pub fn is_off(&self) -> (r: bool)
        ensures
            r == self.off(),
    {
        match self {
            Voice::Synth(v) => v.is_off(),
            Voice::Sample(v) => v.is_off(),
        }
    }
}

#[derive(Debug)]
pub struct Channel {
    pub voice: Option<Voice>,
    /// `volume(channel, v)`, 0..=255.
    pub gain: u8,
    /// The last `vN` the track set, 0..=255.
    pub vol: u8,
    /// The owning cursor's fade gain, 0..=256.
    pub track_gain: i32,
    pub last_inst: u8,
}

/// A channel nothing was played on yet.
pub open spec fn quiet_channel() -> Channel {
    Channel { voice: None, gain: 255, vol: 255, track_gain: GAIN_ONE, last_inst: 1 }
}

impl Default for Channel {
    fn default() -> (c: Channel)
        ensures
            c == quiet_channel(),
    {
        Channel { voice: None, gain: 255, vol: 255, track_gain: GAIN_ONE, last_inst: 1 }
    }
}

impl Channel {
    pub open spec fn wf(self) -> bool {
        &&& 0 <= self.track_gain <= GAIN_ONE
        &&& self.voice matches Some(v) ==> v.wf()
    }

    /// Whether nothing sounds on the channel.
    pub open spec fn idle(self) -> bool {
        match self.voice {
            Some(v) => v.off(),
            None => true,
        }
    }

    pub fn is_idle(&self) -> (r: bool)
        ensures
            r == self.idle(),
    {
        match &self.voice {
            Some(v) => v.is_off(),
            None => true,
        }
    }

    /// The channel with its note let go: a synth note goes into its
    /// release, a sample stops.
    pub open spec fn released(self) -> Channel {
        Channel {
            voice: match self.voice {
                Some(Voice::Synth(v)) => Some(Voice::Synth(v.released())),
                _ => None,
            },
            ..self
        }
    }

    pub fn release(&mut self)
        ensures
            *final(self) == old(self).released(),
    {
        match &mut self.voice {
            Some(Voice::Synth(v)) => {
                v.release();
            },
            _ => {
                self.voice = None;
            },
        }
    }

    /// The channel a frame later: a synth note's slide moves.
    pub open spec fn ticked(self) -> Channel {
        Channel {
            voice: match self.voice {
                Some(Voice::Synth(v)) => Some(Voice::Synth(v.ticked())),
                _ => self.voice,
            },
            ..self
        }
    }

    fn tick_frame(&mut self)
        requires
            old(self).wf(),
        ensures
            *final(self) == old(self).ticked(),
            final(self).wf(),
    {
        match &mut self.voice {
            Some(Voice::Synth(v)) => {
                v.tick_frame();
            },
            _ => {},
        }
    }

    /// What the channel adds to the mix: its sample at its volumes.
    pub open spec fn contribution(self) -> int {
        match self.voice {
            Some(v) => match v.sample() {
                Some(s) => scaled(scaled(s as int, self.vol), self.gain) * self.track_gain / 256,
                None => 0,
            },
            None => 0,
        }
    }

    /// The channel behind that sample; a voice that is done goes.
    pub open spec fn stepped(self) -> Channel {
        match self.voice {
            Some(v) => Channel {
                voice: if v.sample() is Some {
                    Some(v.stepped())
                } else {
                    None
                },
                ..self
            },
            None => self,
        }
    }

    fn next_sample(&mut self) -> (r: i32)
        requires
            old(self).wf(),
        ensures
            r == old(self).contribution(),
            *final(self) == old(self).stepped(),
            final(self).wf(),
            -32768 <= r <= 32768,
    {
        let sample = match &mut self.voice {
            Some(v) => v.next_sample(),
            None => return 0,
        };
        match sample {
            Some(s) => {
                let t = scale(scale(s, self.vol), self.gain);
                let g = self.track_gain;
                assert(-32768 * 256 <= t * g <= 32768 * 256) by (nonlinear_arith)
                    requires
                        -32768 <= t <= 32768,
                        0 <= g <= 256,
                ;
                floor_div(t as i64 * g as i64, 256) as i32
            },
            None => {
                self.voice = None;
                0
            },
        }
    }
}

/// The mixer: channels, playing cursors, and the cart's decoded audio
/// assets. Owned by the draw state; the host owns the master volume.
#[derive(Debug)]
pub struct Mixer {
    pub channels: Vec<Channel>,
    pub master: u8,
    pub out: Vec<i16>,
    pub music: Option<Cursor>,
    pub sfx: Vec<Cursor>,
    pub tracks: Named<Rc<Track>>,
    pub samples: SampleBank,
    /// A frame of PCM rendered elsewhere, output by the next `render`.
    pub external: Option<Vec<i16>>,
}

/// A mixer as plain values.
pub struct MixerView {
    pub channels: Seq<Channel>,
    pub master: u8,
    pub out: Seq<i16>,
    pub music: Option<Cursor>,
    pub sfx: Seq<Cursor>,
    pub tracks: Map<Seq<char>, Rc<Track>>,
    pub bank: BankView,
    pub external: Option<Seq<i16>>,
}

impl View for Mixer {
    type V = MixerView;

    open spec fn view(&self) -> MixerView {
        MixerView {
            channels: self.channels@,
            master: self.master,
            out: self.out@,
            music: self.music,
            sfx: self.sfx@,
            tracks: self.tracks@,
            bank: self.samples@,
            external: match self.external {
                Some(v) => Some(v@),
                None => None,
            },
        }
    }
}

/// Whether two ranges of channels, each given by its first and the one
/// behind its last, share a channel.
pub open spec fn overlaps(a: int, b: int, lo: int, hi: int) -> bool {
    a < b && lo < hi && a < hi && lo < b
}

/// Whether a cursor plays on a channel of a range.
pub open spec fn cursor_overlaps(c: Cursor, lo: int, hi: int) -> bool {
    overlaps(c.base as int, c.base + c.track.columns, lo, hi)
}

/// A cursor within the cart's channels.
pub open spec fn cursor_ok(c: Cursor) -> bool {
    c.wf() && c.base + c.track.columns <= CART_CHANNELS
}

/// The factor a note plays a sample at, in 16.16, over its root note.
pub open spec fn note_pitch(note: u8) -> u32 {
    (pitch_increment(note * 16) * 0x1_0000 / pitch_increment(SAMPLE_ROOT_NOTE * 16) as int) as u32
}

/// The voice a note gets from an instrument.
pub open spec fn voice_for(
    inst: Option<Instrument>,
    note: u8,
    samples: Map<Seq<char>, Rc<Sample>>,
) -> Option<Voice> {
    match inst {
        Some(Instrument::Synth(patch)) => Some(Voice::Synth(SynthVoice::started(patch, note))),
        Some(Instrument::Sample(name)) => {
            let path = sample_file(name@);
            if samples.contains_key(path) {
                let s = samples[path];
                Some(
                    Voice::Sample(
                        SampleVoice {
                            sample: s,
                            pos: 0,
                            step: sample_step(s.rate, note_pitch(note)) as u64,
                        },
                    ),
                )
            } else {
                None
            }
        },
        None => None,
    }
}

/// The instrument of a number in a track.
pub open spec fn inst_at(track: Track, n: u8) -> Option<Instrument> {
    if 1 <= n <= track.instruments@.len() {
        track.instruments@[n - 1]
    } else {
        None
    }
}

/// A channel after a cell of a track.
pub open spec fn cell_applied(
    c: Channel,
    cell: Cell,
    track: Track,
    samples: Map<Seq<char>, Rc<Sample>>,
) -> Channel {
    let c = Channel {
        vol: match cell.vol {
            Some(v) => v,
            None => c.vol,
        },
        last_inst: match cell.inst {
            Some(i) => i,
            None => c.last_inst,
        },
        ..c
    };
    match cell.note {
        Note::Empty => c,
        Note::Off => c.released(),
        Note::On(note) => Channel {
            voice: voice_for(inst_at(track, c.last_inst), note, samples),
            ..c
        },
    }
}

impl MixerView {
    pub open spec fn wf(self) -> bool {
        &&& self.channels.len() == CHANNELS
        &&& forall|i: int| 0 <= i < CHANNELS ==> (#[trigger] self.channels[i]).wf()
        &&& self.master <= 100
        &&& self.out.len() == SAMPLES_PER_FRAME
        &&& self.music matches Some(c) ==> cursor_ok(c)
        &&& forall|i: int| 0 <= i < self.sfx.len() ==> cursor_ok(#[trigger] self.sfx[i])
        &&& self.bank.wf()
        &&& self.external matches Some(e) ==> e.len() == SAMPLES_PER_FRAME
    }

    /// Whether a cursor plays on a channel.
    pub open spec fn owned(self, channel: int) -> bool {
        ||| self.music matches Some(c) && c.covers(channel)
        ||| exists|i: int| 0 <= i < self.sfx.len() && (#[trigger] self.sfx[i]).covers(channel)
    }

    /// Whether a run of channels is idle and unowned.
    pub open spec fn free_run(self, base: int, columns: int) -> bool {
        forall|i: int|
            base <= i < base + columns ==> (#[trigger] self.channels[i]).idle() && !self.owned(i)
    }

    /// The highest free run at or below `base`, or the top run when there
    /// is none.
    pub open spec fn run_below(self, base: int, columns: int) -> int
        decreases base,
    {
        if self.free_run(base, columns) {
            base
        } else if base <= 0 {
            CART_CHANNELS - columns
        } else {
            self.run_below(base - 1, columns)
        }
    }

    /// The highest run of `columns` idle, unowned cart channels, or the
    /// top run regardless when every channel is busy.
    pub open spec fn picked(self, columns: int) -> int {
        let n = clamp(columns, 1, CART_CHANNELS as int);
        self.run_below(CART_CHANNELS - n, n)
    }

    /// The mixer without the sfx cursors that overlap a range; their
    /// notes are let go.
    pub open spec fn evicted(self, lo: int, hi: int) -> MixerView {
        MixerView {
            sfx: self.sfx.filter(|c: Cursor| !cursor_overlaps(c, lo, hi)),
            channels: Seq::new(
                self.channels.len(),
                |i: int|
                    if exists|k: int|
                        0 <= k < self.sfx.len() && cursor_overlaps(self.sfx[k], lo, hi)
                            && #[trigger] self.sfx[k].covers(i) {
                        self.channels[i].released()
                    } else {
                        self.channels[i]
                    },
            ),
            ..self
        }
    }

    /// The mixer with a track started as a sound effect.
    pub open spec fn sfx_started(self, track: Rc<Track>, base: usize) -> MixerView {
        let hi = base + track.columns;
        let e = self.evicted(base as int, hi);
        let rest = if e.sfx.len() >= MAX_SFX_CURSORS {
            e.sfx.remove(0)
        } else {
            e.sfx
        };
        MixerView {
            channels: Seq::new(
                e.channels.len(),
                |i: int|
                    if base <= i < hi {
                        Channel {
                            voice: None,
                            track_gain: GAIN_ONE,
                            last_inst: 1,
                            ..e.channels[i]
                        }
                    } else {
                        e.channels[i]
                    },
            ),
            sfx: rest.push(Cursor::started(track, base, 0)),
            ..e
        }
    }

    /// The mixer without its music: gone at once, or fading out.
    pub open spec fn music_stopped(self, fade: u32) -> MixerView {
        match self.music {
            None => self,
            Some(c) => if fade > 0 {
                MixerView { music: Some(c.fading_out(fade)), ..self }
            } else {
                MixerView {
                    music: None,
                    channels: Seq::new(
                        self.channels.len(),
                        |i: int|
                            if c.covers(i) {
                                Channel { track_gain: GAIN_ONE, ..self.channels[i].released() }
                            } else {
                                self.channels[i]
                            },
                    ),
                    ..self
                }
            },
        }
    }

    /// The mixer with a track started as music.
    pub open spec fn music_started(self, track: Rc<Track>, fade_in: u32) -> MixerView {
        let e = self.music_stopped(0).evicted(0, track.columns as int);
        MixerView {
            channels: Seq::new(
                e.channels.len(),
                |i: int|
                    if i < track.columns {
                        Channel { voice: None, last_inst: 1, ..e.channels[i] }
                    } else {
                        e.channels[i]
                    },
            ),
            music: Some(Cursor::started(track, 0, fade_in)),
            ..e
        }
    }

    /// The mixer with a channel's gain set.
    pub open spec fn with_gain(self, ch: int, gain: u8) -> MixerView {
        MixerView {
            channels: self.channels.update(ch, Channel { gain, ..self.channels[ch] }),
            ..self
        }
    }

    /// The mixer without a voice or a cursor. Assets, gains and the master
    /// volume stay.
    pub open spec fn silenced(self) -> MixerView {
        MixerView {
            channels: self.channels.map_values(|c: Channel| Channel { voice: None, ..c }),
            music: None,
            sfx: seq![],
            ..self
        }
    }

    /// The mixer with one voice started outside any track.
    pub open spec fn voice_started(self, ch: int, voice: Voice) -> MixerView {
        MixerView {
            channels: self.channels.update(
                ch,
                Channel { voice: Some(voice), vol: 255, track_gain: GAIN_ONE, ..self.channels[ch] },
            ),
            ..self
        }
    }

    /// The channels after the cells of a row from column `col` on.
    pub open spec fn row_applied(
        channels: Seq<Channel>,
        base: int,
        row: Seq<Cell>,
        col: int,
        track: Track,
        samples: Map<Seq<char>, Rc<Sample>>,
    ) -> Seq<Channel>
        decreases row.len() - col,
    {
        if col >= row.len() {
            channels
        } else {
            Self::row_applied(
                channels.update(
                    base + col,
                    cell_applied(channels[base + col], row[col], track, samples),
                ),
                base,
                row,
                col + 1,
                track,
                samples,
            )
        }
    }

    /// The channels with a cursor's fade gain on those it plays on.
    pub open spec fn gained(channels: Seq<Channel>, c: Cursor, gain: i32) -> Seq<Channel> {
        Seq::new(
            channels.len(),
            |i: int|
                if c.covers(i) {
                    Channel { track_gain: gain, ..channels[i] }
                } else {
                    channels[i]
                },
        )
    }

    /// The channels after a frame of a cursor.
    pub open spec fn cursor_stepped(
        channels: Seq<Channel>,
        c: Cursor,
        samples: Map<Seq<char>, Rc<Sample>>,
    ) -> Seq<Channel> {
        let channels = Self::gained(channels, c, c.ticked().gain);
        match c.step() {
            Step::Hold => channels,
            Step::Row(r) => Self::row_applied(
                channels,
                c.base as int,
                c.track.rows@[r as int]@,
                0,
                *c.track,
                samples,
            ),
            Step::End => Seq::new(
                channels.len(),
                |i: int|
                    if c.covers(i) {
                        Channel { track_gain: GAIN_ONE, ..channels[i].released() }
                    } else {
                        channels[i]
                    },
            ),
        }
    }

    /// The channels after a frame of each sfx cursor from `k` on.
    pub open spec fn sfx_stepped(
        channels: Seq<Channel>,
        sfx: Seq<Cursor>,
        k: int,
        samples: Map<Seq<char>, Rc<Sample>>,
    ) -> Seq<Channel>
        decreases sfx.len() - k,
    {
        if k >= sfx.len() {
            channels
        } else {
            Self::sfx_stepped(
                Self::cursor_stepped(channels, sfx[k], samples),
                sfx,
                k + 1,
                samples,
            )
        }
    }

    /// The sfx cursors that go on, a frame later, from `k` on.
    pub open spec fn sfx_kept(sfx: Seq<Cursor>, k: int) -> Seq<Cursor>
        decreases sfx.len() - k,
    {
        if k >= sfx.len() {
            seq![]
        } else if sfx[k].step() == Step::End {
            Self::sfx_kept(sfx, k + 1)
        } else {
            seq![sfx[k].ticked()] + Self::sfx_kept(sfx, k + 1)
        }
    }

    /// The mixer after its cursors moved a frame and its notes slid.
    pub open spec fn advanced(self) -> MixerView {
        let samples = self.bank.samples;
        let after_music = match self.music {
            Some(c) => Self::cursor_stepped(self.channels, c, samples),
            None => self.channels,
        };
        let after_sfx = Self::sfx_stepped(after_music, self.sfx, 0, samples);
        MixerView {
            channels: after_sfx.map_values(|c: Channel| c.ticked()),
            music: match self.music {
                Some(c) => if c.step() == Step::End {
                    None
                } else {
                    Some(c.ticked())
                },
                None => None,
            },
            sfx: Self::sfx_kept(self.sfx, 0),
            ..self
        }
    }

    /// The sum of what the channels from `j` on add to one sample.
    pub open spec fn sum_from(channels: Seq<Channel>, j: int) -> int
        decreases channels.len() - j,
    {
        if j >= channels.len() {
            0
        } else {
            channels[j].contribution() + Self::sum_from(channels, j + 1)
        }
    }

    /// A sum at the master volume, clipped to a sample.
    pub open spec fn clipped(sum: int, master: u8) -> i16 {
        clamp(trunc_div(sum * master, 100), i16::MIN as int, i16::MAX as int) as i16
    }

    /// The channels after `n` samples.
    pub open spec fn channels_after(channels: Seq<Channel>, n: nat) -> Seq<Channel>
        decreases n,
    {
        if n == 0 {
            channels
        } else {
            Self::channels_after(channels, (n - 1) as nat).map_values(|c: Channel| c.stepped())
        }
    }

    /// The mixer after a frame: PCM handed in at the master volume, or
    /// the channels mixed sample by sample.
    pub open spec fn rendered(self) -> MixerView {
        match self.external {
            Some(e) => MixerView {
                external: None,
                out: Seq::new(SAMPLES_PER_FRAME as nat, |i: int| Self::clipped(e[i] as int, self.master)),
                ..self
            },
            None => {
                let a = self.advanced();
                MixerView {
                    channels: Self::channels_after(a.channels, SAMPLES_PER_FRAME as nat),
                    out: Seq::new(
                        SAMPLES_PER_FRAME as nat,
                        |i: int|
                            Self::clipped(
                                Self::sum_from(Self::channels_after(a.channels, i as nat), 0),
                                self.master,
                            ),
                    ),
                    ..a
                }
            },
        }
    }
}

impl Default for Mixer {
    fn default() -> (m: Mixer)
        ensures
            m@ == new_mixer(),
            m@.wf(),
    {
        Mixer::new()
    }
}

/// A mixer at its start: quiet, at full master volume.
pub open spec fn new_mixer() -> MixerView {
    MixerView {
        channels: Seq::new(CHANNELS as nat, |i: int| quiet_channel()),
        master: 100,
        out: Seq::new(SAMPLES_PER_FRAME as nat, |i: int| 0i16),
        music: None,
        sfx: seq![],
        tracks: Map::empty(),
        bank: BankView { samples: Map::empty(), used: 0 },
        external: None,
    }
}

impl Mixer {
    pub fn new() -> (m: Mixer)
        ensures
            m@ == new_mixer(),
            m@.wf(),
    {
        let mut channels: Vec<Channel> = Vec::new();
        let mut i: usize = 0;
        while i < CHANNELS
            invariant
                i <= CHANNELS,
                channels@ =~= Seq::new(i as nat, |i: int| quiet_channel()),
            decreases CHANNELS - i,
        {
            channels.push(Channel::default());
            i += 1;
        }
        let out: Vec<i16> = vec![0i16; SAMPLES_PER_FRAME];
        assert(out@ =~= Seq::new(SAMPLES_PER_FRAME as nat, |i: int| 0i16));
        Mixer {
            channels,
            master: 100,
            out,
            music: None,
            sfx: Vec::new(),
            tracks: Named::new(),
            samples: SampleBank::default(),
            external: None,
        }
    }

    /// Hand the mixer a frame of PCM rendered in another process. The
    /// next `render` outputs it at the master volume instead of mixing
    /// the channels; it applies to one frame only, so a frame that brings
    /// none mixes as usual. Short input is padded with silence.
    pub fn set_external(&mut self, samples: &[i16])
        ensures
            final(self)@ == (MixerView {
                external: Some(
                    Seq::new(
                        SAMPLES_PER_FRAME as nat,
                        |i: int|
                            if i < samples@.len() {
                                samples@[i]
                            } else {
                                0i16
                            },
                    ),
                ),
                ..old(self)@
            }),
            old(self)@.wf() ==> final(self)@.wf(),
    {
        let mut ext: Vec<i16> = Vec::new();
        while ext.len() < SAMPLES_PER_FRAME
            invariant
                ext@.len() <= SAMPLES_PER_FRAME,
                forall|i: int|
                    0 <= i < ext@.len() ==> #[trigger] ext@[i] == (if i < samples@.len() {
                        samples@[i]
                    } else {
                        0i16
                    }),
            decreases SAMPLES_PER_FRAME - ext.len(),
        {
            let i = ext.len();
            ext.push(if i < samples.len() { samples[i] } else { 0 });
        }
        assert(ext@ =~= Seq::new(
            SAMPLES_PER_FRAME as nat,
            |i: int|
                if i < samples@.len() {
                    samples@[i]
                } else {
                    0i16
                },
        ));
        self.external = Some(ext);
    }

    /// Master volume, 0..=100, applied after the mix. The host sets it.
    pub fn set_master(&mut self, v: u8)
        ensures
            final(self)@ == (MixerView {
                master: if v < 100 {
                    v
                } else {
                    100
                },
                ..old(self)@
            }),
            old(self)@.wf() ==> final(self)@.wf(),
    {
        self.master = if v < 100 { v } else { 100 };
    }

    pub fn master(&self) -> (v: u8)
        ensures
            v == self@.master,
    {
        self.master
    }

    /// The last rendered frame.
    pub fn output(&self) -> (o: &[i16])
        ensures
            o@ == self@.out,
    {
        self.out.as_slice()
    }

    /// Silence every channel and drop every cursor. Assets stay cached.
    pub fn stop_all(&mut self)
        ensures
            final(self)@ == old(self)@.silenced(),
            old(self)@.wf() ==> final(self)@.wf(),
    {
        let mut i: usize = 0;
        while i < self.channels.len()
            invariant
                i <= self.channels@.len() == old(self).channels@.len(),
                forall|k: int|
                    0 <= k < i ==> #[trigger] self.channels@[k] == (Channel {
                        voice: None,
                        ..old(self).channels@[k]
                    }),
                forall|k: int|
                    i <= k < self.channels@.len() ==> #[trigger] self.channels@[k] == old(
                        self,
                    ).channels@[k],
                self.master == old(self).master,
                self.out == old(self).out,
                self.tracks == old(self).tracks,
                self.samples == old(self).samples,
                self.external == old(self).external,
            decreases self.channels.len() - i,
        {
            self.channels[i].voice = None;
            i += 1;
        }
        self.music = None;
        self.sfx.clear();
        assert(self.channels@ =~= old(self)@.channels.map_values(
            |c: Channel| Channel { voice: None, ..c },
        ));
    }

    pub fn is_playing(&self, channel: usize) -> (r: bool)
        ensures
            r == (channel < self@.channels.len() && !self@.channels[channel as int].idle()),
    {
        channel < self.channels.len() && !self.channels[channel].is_idle()
    }

    pub fn music_playing(&self) -> (r: bool)
        ensures
            r == (self@.music is Some),
    {
        self.music.is_some()
    }

    /// Number of sound effects whose tracks go on.
    pub fn sfx_playing(&self) -> (n: usize)
        ensures
            n == self@.sfx.len(),
    {
        self.sfx.len()
    }

    // ----- assets -------------------------------------------------------

    pub fn cached_track(&self, path: &str) -> (r: Option<Rc<Track>>)
        ensures
            match r {
                Some(t) => self@.tracks.contains_key(path@) && t == self@.tracks[path@],
                None => !self@.tracks.contains_key(path@),
            },
    {
        match self.tracks.get(path) {
            Some(t) => Some(share(t)),
            None => None,
        }
    }

    pub fn cache_track(&mut self, path: &str, track: Track) -> (r: Rc<Track>)
        ensures
            *r == track,
            final(self)@ == (MixerView {
                tracks: old(self)@.tracks.insert(path@, r),
                ..old(self)@
            }),
    {
        let rc = Rc::new(track);
        self.tracks.set(path, share(&rc));
        rc
    }

    pub fn samples(&self) -> (b: &SampleBank)
        ensures
            b@ == self@.bank,
    {
        &self.samples
    }

    pub fn samples_mut(&mut self) -> (b: &mut SampleBank)
        ensures
            b@ == old(self)@.bank,
            final(self)@ == (MixerView { bank: final(b)@, ..old(self)@ }),
    {
        &mut self.samples
    }
}

} // verus!
