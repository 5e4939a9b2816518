//! One frame of sound.

use vstd::prelude::*;
use super::api::sample_path;
use super::sample::{Sample, SampleBank, SampleVoice};
use super::synth::{increment, pitch_increment, SynthVoice};
use super::tables::OCTAVE_8_INC;
use super::tracker::{Cell, Cursor, Instrument, Note, Step, Track, GAIN_ONE};
use super::{
    cell_applied, cursor_ok, voice_for, Channel, Mixer, MixerView, Voice, CART_CHANNELS, CHANNELS,
    SAMPLES_PER_FRAME, SAMPLE_ROOT_NOTE,
};
use crate::math::{clamped, div_trunc, trunc_div};
use crate::shared::share;

verus! {

proof fn lemma_root_increment()
    ensures
        pitch_increment(SAMPLE_ROOT_NOTE * 16) >= 0x100_0000,
{
    let x = OCTAVE_8_INC@[0];
    assert(x >= 0x1000_0000);
    assert(x >> 4u32 >= 0x100_0000) by (bit_vector)
        requires
            x >= 0x1000_0000u32,
    ;
}

/// The voice a note gets from an instrument.
fn voice_of(inst: Option<&Instrument>, note: u8, bank: &SampleBank) -> (v: Option<Voice>)
    requires
        bank@.wf(),
    ensures
        v == voice_for(
            match inst {
                Some(i) => Some(*i),
                None => None,
            },
            note,
            bank@.samples,
        ),
        v matches Some(x) ==> x.wf(),
{
    match inst {
        Some(Instrument::Synth(patch)) => Some(Voice::Synth(SynthVoice::new(*patch, note))),
        Some(Instrument::Sample(name)) => match bank.get(sample_path(name.as_str()).as_str()) {
            Some(s) => {
                proof {
                    lemma_root_increment();
                }
                let a: u64 = increment(note as i32 * 16) as u64;
                let b: u64 = increment(SAMPLE_ROOT_NOTE as i32 * 16) as u64;
                let pitch: u64 = a * 0x1_0000 / b;
                assert(pitch <= 0xffff_ffff) by (nonlinear_arith)
                    requires
                        a <= 0xffff_ffff,
                        b >= 0x100_0000,
                        pitch == (a * 0x1_0000) / b as int,
                ;
                Some(Voice::Sample(SampleVoice::new(s, pitch as u32)))
            },
            None => None,
        },
        None => None,
    }
}

impl Channel {
    fn apply_cell(&mut self, cell: &Cell, track: &Track, bank: &SampleBank)
        requires
            old(self).wf(),
            bank@.wf(),
        ensures
            *final(self) == cell_applied(*old(self), *cell, *track, bank@.samples),
            final(self).wf(),
    {
        if let Some(v) = cell.vol {
            self.vol = v;
        }
        if let Some(i) = cell.inst {
            self.last_inst = i;
        }
        match cell.note {
            Note::Empty => {},
            Note::Off => self.release(),
            Note::On(note) => {
                let inst = track.instrument(self.last_inst);
                let n = self.last_inst;
                proof {
                    if inst is None && 1 <= n <= track.instruments@.len() {
                        assert(track@.instruments[n - 1] == super::tracker::inst_view(
                            track.instruments@[n - 1],
                        ));
                    }
                }
                self.voice = voice_of(inst, note, bank);
            },
        }
    }
}

/// Whether every channel keeps its ranges.
pub open spec fn all_wf(channels: Seq<Channel>) -> bool {
    channels.len() == CHANNELS && forall|i: int|
        0 <= i < CHANNELS ==> (#[trigger] channels[i]).wf()
}

/// A frame of one cursor on the channels; the cursor if it goes on.
fn step_cursor(channels: &mut Vec<Channel>, cursor: Cursor, bank: &SampleBank) -> (r: Option<
    Cursor,
>)
    requires
        all_wf(old(channels)@),
        cursor_ok(cursor),
        bank@.wf(),
    ensures
        all_wf(final(channels)@),
        final(channels)@ == MixerView::cursor_stepped(old(channels)@, cursor, bank@.samples),
        r == (if cursor.step() == Step::End {
            None
        } else {
            Some(cursor.ticked())
        }),
        r matches Some(c) ==> cursor_ok(c),
{
    let ghost before = cursor;
    let mut cursor = cursor;
    let step = cursor.tick();
    let base: usize = cursor.base;
    let end: usize = base + cursor.track.columns;
    let gain = cursor.gain;
    let ghost start = channels@;
    let mut ch: usize = base;
    while ch < end
        invariant
            base <= ch <= end <= CART_CHANNELS,
            0 <= gain <= GAIN_ONE,
            all_wf(start),
            channels@.len() == CHANNELS,
            forall|i: int|
                0 <= i < CHANNELS ==> #[trigger] channels@[i] == (if base <= i < ch {
                    Channel { track_gain: gain, ..start[i] }
                } else {
                    start[i]
                }),
        decreases end - ch,
    {
        channels[ch].track_gain = gain;
        ch += 1;
    }
    let ghost gained = MixerView::gained(start, before, gain);
    assert(channels@ =~= gained);
    match step {
        Step::Hold => Some(cursor),
        Step::Row(r) => {
            let track = share(&cursor.track);
            assert(track@.rows[r as int] == track.rows@[r as int]@);
            let ghost row = track.rows@[r as int]@;
            let mut col: usize = 0;
            while col < track.rows[r].len()
                invariant
                    r < track.rows@.len(),
                    row == track.rows@[r as int]@,
                    row.len() == end - base,
                    base + row.len() <= CART_CHANNELS,
                    col <= row.len(),
                    bank@.wf(),
                    all_wf(channels@),
                    MixerView::row_applied(gained, base as int, row, 0, *track, bank@.samples)
                        == MixerView::row_applied(
                        channels@,
                        base as int,
                        row,
                        col as int,
                        *track,
                        bank@.samples,
                    ),
                decreases row.len() - col,
            {
                let ghost had = channels@;
                let cell = track.rows[r][col];
                channels[base + col].apply_cell(&cell, &*track, bank);
                assert(channels@ =~= had.update(
                    base + col,
                    cell_applied(had[base + col], row[col as int], *track, bank@.samples),
                ));
                col += 1;
            }
            Some(cursor)
        },
        Step::End => {
            let mut ch: usize = base;
            while ch < end
                invariant
                    base <= ch <= end <= CART_CHANNELS,
                    all_wf(gained),
                    channels@.len() == CHANNELS,
                    forall|i: int|
                        0 <= i < CHANNELS ==> #[trigger] channels@[i] == (if base <= i < ch {
                            Channel { track_gain: GAIN_ONE, ..gained[i].released() }
                        } else {
                            gained[i]
                        }),
                decreases end - ch,
            {
                channels[ch].release();
                channels[ch].track_gain = GAIN_ONE;
                ch += 1;
            }
            assert(channels@ =~= MixerView::cursor_stepped(start, before, bank@.samples));
            None
        },
    }
}

/// A sum at the master volume, clipped to a sample.
fn clip(sum: i32, master: u8) -> (s: i16)
    requires
        -300_000 <= sum <= 300_000,
        master <= 100,
    ensures
        s == MixerView::clipped(sum as int, master),
{
    assert(-30_000_000 <= sum * master <= 30_000_000) by (nonlinear_arith)
        requires
            -300_000 <= sum <= 300_000,
            0 <= master <= 100,
    ;
    let v: i64 = div_trunc(sum as i64 * master as i64, 100);
    clamped(v, i16::MIN as i64, i16::MAX as i64) as i16
}

/// One sample of every channel, summed.
fn mix_sample(channels: &mut Vec<Channel>) -> (sum: i32)
    requires
        all_wf(old(channels)@),
    ensures
        all_wf(final(channels)@),
        final(channels)@ == old(channels)@.map_values(|c: Channel| c.stepped()),
        sum == MixerView::sum_from(old(channels)@, 0),
        -300_000 <= sum <= 300_000,
{
    let ghost start = channels@;
    let mut sum: i32 = 0;
    let mut i: usize = 0;
    while i < channels.len()
        invariant
            i <= CHANNELS,
            all_wf(start),
            channels@.len() == CHANNELS,
            forall|k: int| 0 <= k < i ==> #[trigger] channels@[k] == start[k].stepped(),
            forall|k: int| 0 <= k < i ==> (#[trigger] channels@[k]).wf(),
            forall|k: int| i <= k < CHANNELS ==> #[trigger] channels@[k] == start[k],
            sum + MixerView::sum_from(start, i as int) == MixerView::sum_from(start, 0),
            -32768 * i <= sum <= 32768 * i,
        decreases CHANNELS - i,
    {
        let s = channels[i].next_sample();
        sum += s;
        i += 1;
    }
    assert(channels@ =~= start.map_values(|c: Channel| c.stepped()));
    sum
}

impl Mixer {
    /// Move every cursor a frame and slide the notes.
    fn advance(&mut self)
        requires
            old(self)@.wf(),
        ensures
            final(self)@ == old(self)@.advanced(),
            final(self)@.wf(),
    {
        let ghost start = self@;
        let ghost samples = self.samples@.samples;
        if let Some(music) = self.music.take() {
            self.music = step_cursor(&mut self.channels, music, &self.samples);
        }
        let ghost after_music = self.channels@;
        let ghost music = self.music;
        let mut all: Vec<Cursor> = Vec::new();
        std::mem::swap(&mut all, &mut self.sfx);
        let ghost sfx = start.sfx;
        let ghost mut n: int = 0;
        assert(sfx.skip(0) =~= sfx);
        assert(self.sfx@ + MixerView::sfx_kept(sfx, 0) =~= MixerView::sfx_kept(sfx, 0));
        while all.len() > 0
            invariant
                start.wf(),
                start == old(self)@,
                sfx == start.sfx,
                samples == start.bank.samples,
                0 <= n <= sfx.len(),
                all@ == sfx.skip(n),
                self@ == (MixerView {
                    channels: self@.channels,
                    sfx: self@.sfx,
                    music,
                    ..start
                }),
                all_wf(self.channels@),
                MixerView::sfx_stepped(after_music, sfx, 0, samples) == MixerView::sfx_stepped(
                    self.channels@,
                    sfx,
                    n,
                    samples,
                ),
                self.sfx@ + MixerView::sfx_kept(sfx, n) == MixerView::sfx_kept(sfx, 0),
                forall|i: int| 0 <= i < self.sfx@.len() ==> cursor_ok(#[trigger] self.sfx@[i]),
            decreases all.len(),
        {
            let ghost kept = self.sfx@;
            let c = all.remove(0);
            assert(c == sfx[n] && cursor_ok(sfx[n]));
            assert(sfx.skip(n).remove(0) =~= sfx.skip(n + 1));
            match step_cursor(&mut self.channels, c, &self.samples) {
                Some(c) => self.sfx.push(c),
                None => {},
            }
            proof {
                assert(self.sfx@ + MixerView::sfx_kept(sfx, n + 1) =~= kept + MixerView::sfx_kept(
                    sfx,
                    n,
                ));
                n = n + 1;
            }
        }
        assert(self.sfx@ =~= MixerView::sfx_kept(sfx, 0));
        let ghost before = self.channels@;
        let mut i: usize = 0;
        while i < self.channels.len()
            invariant
                i <= CHANNELS,
                all_wf(before),
                self@ == (MixerView {
                    channels: self@.channels,
                    sfx: self@.sfx,
                    music,
                    ..start
                }),
                self.sfx@ == MixerView::sfx_kept(sfx, 0),
                self.channels@.len() == CHANNELS,
                forall|k: int| 0 <= k < i ==> #[trigger] self.channels@[k] == before[k].ticked(),
                forall|k: int| 0 <= k < i ==> (#[trigger] self.channels@[k]).wf(),
                forall|k: int| i <= k < CHANNELS ==> #[trigger] self.channels@[k] == before[k],
            decreases CHANNELS - i,
        {
            self.channels[i].tick_frame();
            i += 1;
        }
        assert(self@.channels =~= before.map_values(|c: Channel| c.ticked()));
        assert(self@.channels == start.advanced().channels);
    }

    /// Advance every cursor and voice one frame and mix it.
    pub fn render(&mut self) -> (o: &[i16])
        requires
            old(self)@.wf(),
        ensures
            final(self)@ == old(self)@.rendered(),
            final(self)@.wf(),
            o@ == final(self)@.out,
    {
        if let Some(ext) = self.external.take() {
            let ghost start = old(self)@;
            let mut i: usize = 0;
            while i < SAMPLES_PER_FRAME
                invariant
                    i <= SAMPLES_PER_FRAME,
                    start.wf(),
                    ext@.len() == SAMPLES_PER_FRAME,
                    self@ == (MixerView { external: None, out: self@.out, ..start }),
                    self.out@.len() == SAMPLES_PER_FRAME,
                    forall|k: int|
                        0 <= k < i ==> #[trigger] self.out@[k] == MixerView::clipped(
                            ext@[k] as int,
                            start.master,
                        ),
                decreases SAMPLES_PER_FRAME - i,
            {
                let s = clip(ext[i] as i32, self.master);
                self.out[i] = s;
                i += 1;
            }
            assert(self@.out =~= start.rendered().out);
            return self.out.as_slice();
        }
        self.advance();
        let ghost a = self@;
        let mut i: usize = 0;
        while i < SAMPLES_PER_FRAME
            invariant
                i <= SAMPLES_PER_FRAME,
                a.wf(),
                self@ == (MixerView { channels: self@.channels, out: self@.out, ..a }),
                all_wf(self.channels@),
                self.channels@ == MixerView::channels_after(a.channels, i as nat),
                self.out@.len() == SAMPLES_PER_FRAME,
                forall|k: int|
                    0 <= k < i ==> #[trigger] self.out@[k] == MixerView::clipped(
                        MixerView::sum_from(MixerView::channels_after(a.channels, k as nat), 0),
                        a.master,
                    ),
            decreases SAMPLES_PER_FRAME - i,
        {
            let sum = mix_sample(&mut self.channels);
            let s = clip(sum, self.master);
            self.out[i] = s;
            i += 1;
        }
        assert(self@.out =~= old(self)@.rendered().out);
        self.out.as_slice()
    }
}

/// The mix clips: whatever the channels add up to, a sample of the output
/// is the sum at the master volume, as near as a sample can hold it.
pub proof fn law_the_mix_clips(sum: int, master: u8)
    requires
        master <= 100,
    ensures
        ({
            let v = trunc_div(sum * master, 100);
            let s = MixerView::clipped(sum, master);
            &&& -32768 <= v <= 32767 ==> s == v
            &&& v > 32767 ==> s == 32767
            &&& v < -32768 ==> s == -32768
        }),
{
}

/// PCM handed in is for one frame: it comes out at the master volume, at
/// the full one as it went in, and nothing else moves; the next frame is
/// mixed as if none had been handed in, whether or not another was waiting
/// before.
pub proof fn law_external_sound_lasts_one_frame(m: MixerView)
    requires
        m.wf(),
        m.external is Some,
    ensures
        m.rendered().out.len() == m.external->0.len(),
        forall|i: int|
            0 <= i < m.external->0.len() ==> #[trigger] m.rendered().out[i] == trunc_div(
                m.external->0[i] * m.master,
                100,
            ),
        m.master == 100 ==> m.rendered().out == m.external->0,
        m.rendered() == (MixerView { external: None, out: m.rendered().out, ..m }),
        m.rendered().rendered() == (MixerView { external: None, ..m }).rendered(),
{
    let e = m.external->0;
    assert forall|i: int| 0 <= i < SAMPLES_PER_FRAME implies #[trigger] m.rendered().out[i]
        == trunc_div(e[i] * m.master, 100) by {
        let s = e[i] as int;
        let v = m.master as int;
        assert(-32768 * 100 <= s * v <= 32767 * 100) by (nonlinear_arith)
            requires
                -32768 <= s <= 32767,
                0 <= v <= 100,
        ;
    }
    if m.master == 100 {
        assert forall|i: int| 0 <= i < SAMPLES_PER_FRAME implies #[trigger] m.rendered().out[i]
            == e[i] by {
            let s = e[i] as int;
            assert(trunc_div(s * 100, 100) == s);
        }
        assert(m.rendered().out =~= e);
    }
    let a = m.rendered().advanced();
    let b = (MixerView { external: None, ..m }).advanced();
    assert(a.channels == b.channels);
    assert(m.rendered().rendered() =~= (MixerView { external: None, ..m }).rendered());
}

} // verus!
