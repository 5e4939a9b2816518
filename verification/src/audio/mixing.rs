//! What the channels add up to, and what a note, a sample and a sound
//! effect do to them.

use std::rc::Rc;
use vstd::prelude::*;
use vstd::arithmetic::div_mod::*;
use super::lasting::{lemma_advanced_gain, lemma_after_gain};
use super::playing::{sample_played, sfx_played};
use super::sample::{sample_step, SampleVoice, SAMPLE_RATE};
use super::synth::{law_octaves_halve, pitch_increment, SynthVoice};
use super::tables::OCTAVE_8_INC;
use super::tracker::{Cell, Cursor, Instrument, Note, Step, Track, GAIN_ONE};
use super::{
    cell_applied, cursor_overlaps, inst_at, note_pitch, sample_file, scaled, AudioError, Channel,
    MixerView, Voice, CART_CHANNELS, CHANNELS, SAMPLES_PER_FRAME, SAMPLE_ROOT_NOTE,
};
use crate::math::trunc_div;

verus! {

proof fn lemma_scaled(s: int, v: u8)
    ensures
        v == 255 ==> scaled(s, v) == s,
        v < 255 ==> 256 * scaled(s, v) <= s * v < 256 * scaled(s, v) + 256,
        s >= 0 ==> 0 <= scaled(s, v) <= s,
        s <= 0 ==> s <= scaled(s, v) <= 0,
        v == 0 ==> scaled(s, v) == 0,
{
    if v < 255 {
        lemma_fundamental_div_mod(s * v, 256);
        lemma_mod_bound(s * v, 256);
        if v == 0 {
            assert(s * v == 0) by (nonlinear_arith)
                requires
                    v == 0,
            ;
        }
        if s >= 0 {
            assert(0 <= s * v <= s * 256) by (nonlinear_arith)
                requires
                    s >= 0,
                    0 <= v <= 255,
            ;
        } else {
            assert(s * 256 <= s * v <= 0) by (nonlinear_arith)
                requires
                    s <= 0,
                    0 <= v <= 255,
            ;
        }
    }
}

/// A channel adds its voice's sample at its volumes: all of it where every
/// volume is full, nothing where one is off, a share where one is less, and
/// never more than the sample or the other way round.
pub proof fn law_volumes_only_turn_down(c: Channel)
    requires
        c.wf(),
        c.voice is Some,
        c.voice->0.sample() is Some,
    ensures
        ({
            let s = c.voice->0.sample()->0 as int;
            let out = c.contribution();
            &&& c.vol == 255 && c.gain == 255 && c.track_gain == GAIN_ONE ==> out == s
            &&& c.vol == 0 || c.gain == 0 || c.track_gain == 0 ==> out == 0
            &&& c.vol < 255 && c.gain == 255 && c.track_gain == GAIN_ONE ==> 256 * out <= s * c.vol
                < 256 * out + 256
            &&& c.vol == 255 && c.gain < 255 && c.track_gain == GAIN_ONE ==> 256 * out <= s * c.gain
                < 256 * out + 256
            &&& c.vol == 255 && c.gain == 255 ==> 256 * out <= s * c.track_gain < 256 * out + 256
            &&& s >= 0 ==> 0 <= out <= s
            &&& s <= 0 ==> s <= out <= 0
        }),
{
    let s = c.voice->0.sample()->0 as int;
    let a = scaled(s, c.vol);
    let b = scaled(a, c.gain);
    let g = c.track_gain as int;
    lemma_scaled(s, c.vol);
    lemma_scaled(a, c.gain);
    lemma_fundamental_div_mod(b * g, 256);
    lemma_mod_bound(b * g, 256);
    if g == 0 {
        assert(b * g == 0) by (nonlinear_arith)
            requires
                g == 0,
        ;
    }
    if b == 0 {
        assert(b * g == 0) by (nonlinear_arith)
            requires
                b == 0,
        ;
    }
    if s >= 0 {
        assert(0 <= b * g <= b * 256) by (nonlinear_arith)
            requires
                b >= 0,
                0 <= g <= 256,
        ;
    } else {
        assert(b * 256 <= b * g <= 0) by (nonlinear_arith)
            requires
                b <= 0,
                0 <= g <= 256,
        ;
    }
}

/// A sample of a frame is what the nine channels add up to at the master
/// volume, unless that is too loud for a sample.
pub proof fn law_a_frame_is_the_sum_of_its_channels(m: MixerView, i: int)
    requires
        m.wf(),
        m.external is None,
        0 <= i < SAMPLES_PER_FRAME,
    ensures
        ({
            let c = MixerView::channels_after(m.advanced().channels, i as nat);
            let sum = c[0].contribution() + c[1].contribution() + c[2].contribution()
                + c[3].contribution() + c[4].contribution() + c[5].contribution()
                + c[6].contribution() + c[7].contribution() + c[8].contribution();
            let v = trunc_div(sum * m.master, 100);
            &&& m.rendered().out.len() == SAMPLES_PER_FRAME
            &&& -32768 <= v <= 32767 ==> m.rendered().out[i] == v
            &&& m.master == 100 && -32768 <= sum <= 32767 ==> m.rendered().out[i] == sum
            &&& m.master == 0 ==> m.rendered().out[i] == 0
        }),
{
    let c = MixerView::channels_after(m.advanced().channels, i as nat);
    lemma_advanced_gain(m, 0);
    lemma_after_gain(m.advanced().channels, i as nat, 0);
    assert(c.len() == 9);
    reveal_with_fuel(MixerView::sum_from, 10);
    let sum = MixerView::sum_from(c, 0);
    assert(sum == c[0].contribution() + c[1].contribution() + c[2].contribution()
        + c[3].contribution() + c[4].contribution() + c[5].contribution() + c[6].contribution()
        + c[7].contribution() + c[8].contribution());
    assert(sum * 0 == 0) by (nonlinear_arith);
    if m.master == 100 {
        assert(trunc_div(sum * 100, 100) == sum);
    }
}

/// A cell does what its columns say: a volume and an instrument are kept
/// until another comes, a note starts the instrument that is kept, an end
/// lets the note go, and an empty cell leaves it sounding.
pub proof fn law_a_cell_does_what_it_says(
    c: Channel,
    cell: Cell,
    track: Track,
    samples: Map<Seq<char>, Rc<super::sample::Sample>>,
)
    ensures
        ({
            let n = cell_applied(c, cell, track, samples);
            let kept = match cell.inst {
                Some(i) => i,
                None => c.last_inst,
            };
            &&& n.last_inst == kept
            &&& n.vol == (match cell.vol {
                Some(v) => v,
                None => c.vol,
            })
            &&& n.gain == c.gain && n.track_gain == c.track_gain
            &&& cell.note is Empty ==> n.voice == c.voice
            &&& cell.note is Off ==> match c.voice {
                Some(Voice::Synth(v)) => n.voice == Some(Voice::Synth(v.released())),
                _ => n.voice is None,
            }
            &&& (cell.note matches Note::On(note) ==> match inst_at(track, kept) {
                Some(Instrument::Synth(p)) => n.voice matches Some(Voice::Synth(v)) && v
                    == SynthVoice::started(p, note),
                Some(Instrument::Sample(name)) => if samples.contains_key(sample_file(name@)) {
                    n.voice matches Some(Voice::Sample(v)) && v.sample == samples[sample_file(
                        name@,
                    )] && v.pos == 0 && v.step == sample_step(v.sample.rate, note_pitch(note)) as u64
                } else {
                    n.voice is None
                },
                None => n.voice is None,
            })
        }),
{
}

/// The instrument of a number is the one that the track has under it,
/// counted from one.
pub proof fn law_instruments_count_from_one(track: Track, n: u8)
    ensures
        1 <= n <= track.instruments@.len() ==> inst_at(track, n) == track.instruments@[n - 1],
        n == 0 || n > track.instruments@.len() ==> inst_at(track, n) is None,
{
}

/// A row's cells go to the cursor's channels in order, one each, and no
/// other channel is touched.
pub proof fn law_a_row_goes_to_its_channels(
    channels: Seq<Channel>,
    base: int,
    row: Seq<Cell>,
    col: int,
    track: Track,
    samples: Map<Seq<char>, Rc<super::sample::Sample>>,
    i: int,
)
    requires
        0 <= base,
        0 <= col <= row.len(),
        base + row.len() <= channels.len(),
        0 <= i < channels.len(),
    ensures
        MixerView::row_applied(channels, base, row, col, track, samples)[i] == (if base + col <= i
            < base + row.len() {
            cell_applied(channels[i], row[i - base], track, samples)
        } else {
            channels[i]
        }),
    decreases row.len() - col,
{
    if col < row.len() {
        law_a_row_goes_to_its_channels(
            channels.update(
                base + col,
                cell_applied(channels[base + col], row[col], track, samples),
            ),
            base,
            row,
            col + 1,
            track,
            samples,
            i,
        );
    }
}

// ----- samples --------------------------------------------------------------------------------

/// A sample plays at its own rate: in one second of output its position
/// moves by as many values as its rate says, times its pitch.
pub proof fn law_a_sample_keeps_its_rate(rate: u32, pitch: u32)
    ensures
        ({
            let step = sample_step(rate, pitch);
            let want = rate * pitch;
            &&& want >= SAMPLE_RATE ==> SAMPLE_RATE * step <= want < SAMPLE_RATE * (step + 1)
            &&& want < SAMPLE_RATE ==> step == 1
        }),
        sample_step(44100, 0x1_0000) == 0x1_0000,
{
    let want = rate * pitch;
    let wide = rate * 0x1_0000 * pitch;
    assert(wide == want * 0x1_0000 && want >= 0) by (nonlinear_arith)
        requires
            wide == rate * 0x1_0000 * pitch,
            want == rate * pitch,
            rate >= 0,
            pitch >= 0,
    ;
    assert(wide / 44100 / 0x1_0000 == want / 44100) by {
        lemma_div_denominator(wide, 44100, 0x1_0000);
        lemma_div_denominator(wide, 0x1_0000, 44100);
        lemma_div_by_multiple(want, 0x1_0000);
    }
    lemma_fundamental_div_mod(want, 44100);
    lemma_mod_bound(want, 44100);
    assert(44100int * 0x1_0000 * 0x1_0000 / 44100 / 0x1_0000 == 0x1_0000);
}

/// The root note plays a sample as it is, and an octave above it at about
/// twice the pitch.
pub proof fn law_the_root_note_plays_a_sample_as_it_is(note: u8)
    ensures
        note == SAMPLE_ROOT_NOTE ==> note_pitch(note) == 0x1_0000,
        note + 12 == SAMPLE_ROOT_NOTE ==> 0x7fff <= note_pitch(note) <= 0x8000,
{
    let root = pitch_increment(SAMPLE_ROOT_NOTE * 16);
    law_octaves_halve(SAMPLE_ROOT_NOTE * 16 - 192);
    let x = OCTAVE_8_INC@[0];
    assert(x >= 0x1000_0000);
    assert(x >> 4u32 >= 0x100_0000) by (bit_vector)
        requires
            x >= 0x1000_0000,
    ;
    assert(root == x >> 4u32);
    if note == SAMPLE_ROOT_NOTE {
        lemma_div_by_multiple(0x1_0000, root as int);
        assert(root * 0x1_0000 == 0x1_0000 * root) by (nonlinear_arith);
    }
    if note + 12 == SAMPLE_ROOT_NOTE {
        let half = pitch_increment(note * 16);
        assert(half == root >> 1u32);
        assert(root >> 1u32 == root / 2) by (bit_vector);
        let q = half * 0x1_0000 / root as int;
        lemma_fundamental_div_mod(half * 0x1_0000, root as int);
        lemma_mod_bound(half * 0x1_0000, root as int);
        let r = root as int;
        assert(2 * half <= r <= 2 * half + 1);
        assert(0x7fff <= q <= 0x8000) by (nonlinear_arith)
            requires
                half * 0x1_0000 == r * q + half * 0x1_0000 % r,
                0 <= half * 0x1_0000 % r < r,
                2 * half <= r <= 2 * half + 1,
                r >= 0x100_0000,
        ;
    }
}

/// The voice some samples on.
pub open spec fn played(v: SampleVoice, n: nat) -> Voice
    decreases n,
{
    if n == 0 {
        Voice::Sample(v)
    } else {
        played(v, (n - 1) as nat).stepped()
    }
}

/// A sample plays its values in order from the start, each time a step on,
/// and ends behind its last.
pub proof fn law_a_sample_plays_through(v: SampleVoice, n: nat)
    requires
        v.wf(),
        v.pos == 0,
        n > 0 ==> (n - 1) * v.step < v.sample.data@.len() * 0x1_0000,
    ensures
        played(v, n) matches Voice::Sample(w) && w.pos == n * v.step && w.step == v.step && w.sample
            == v.sample,
        played(v, n).sample() == (if n * v.step < v.sample.data@.len() * 0x1_0000 {
            Some(v.sample.data@[n * v.step / 0x1_0000] as i32)
        } else {
            None
        }),
        played(v, n).off() <==> n * v.step >= v.sample.data@.len() * 0x1_0000,
    decreases n,
{
    if n > 0 {
        let m = (n - 1) as nat;
        let d = v.step as int;
        assert(m * d == n * d - d) by (nonlinear_arith)
            requires
                m == n - 1,
        ;
        if m > 0 {
            assert((m - 1) * d <= m * d) by (nonlinear_arith)
                requires
                    d >= 0,
            ;
        }
        law_a_sample_plays_through(v, m);
    } else {
        assert(n * v.step == 0) by (nonlinear_arith)
            requires
                n == 0,
        ;
    }
}

// ----- sound effects --------------------------------------------------------------------------

proof fn lemma_run_below(m: MixerView, base: int, columns: int, q: int)
    requires
        0 <= base,
    ensures
        ({
            let p = m.run_below(base, columns);
            &&& 0 <= q <= base && m.free_run(q, columns) ==> m.free_run(p, columns) && q <= p <= base
            &&& (p <= base && m.free_run(p, columns)) || p == CART_CHANNELS - columns
        }),
    decreases base,
{
    if !m.free_run(base, columns) && base > 0 {
        lemma_run_below(m, base - 1, columns, q);
    }
}

/// A sound effect takes the highest channels that are free: where some run
/// of as many is, it gets a free one and none above it is free; where none
/// is, it gets the top ones.
pub proof fn law_a_sound_effect_takes_the_highest_free_channels(m: MixerView, columns: int, q: int)
    requires
        1 <= columns <= CART_CHANNELS,
    ensures
        ({
            let p = m.picked(columns);
            let top = CART_CHANNELS - columns;
            &&& 0 <= q <= top && m.free_run(q, columns) ==> m.free_run(p, columns) && q <= p <= top
            &&& m.free_run(p, columns) || p == top
        }),
{
    lemma_run_below(m, CART_CHANNELS - columns, columns, q);
}

/// A sound effect that starts plays its track from the start on its own
/// channels, and leaves the music, every channel outside those and outside
/// the effects that it pushed out, and every gain as they were.
pub proof fn law_a_sound_effect_keeps_to_its_channels(
    m: MixerView,
    track: Rc<Track>,
    base: usize,
    i: int,
)
    requires
        m.wf(),
        base + track.columns <= CART_CHANNELS,
        0 <= i < CHANNELS,
    ensures
        ({
            let n = m.sfx_started(track, base);
            &&& n.sfx.last() == Cursor::started(track, base, 0)
            &&& n.music == m.music && n.master == m.master
            &&& n.channels.len() == CHANNELS
            &&& n.channels[i].gain == m.channels[i].gain
            &&& base <= i < base + track.columns ==> n.channels[i].voice is None
                && n.channels[i].track_gain == GAIN_ONE
            &&& !(base <= i < base + track.columns) && (forall|k: int|
                0 <= k < m.sfx.len() ==> !(#[trigger] m.sfx[k].covers(i))) ==> n.channels[i]
                == m.channels[i]
        }),
{
}

/// A sound effect plays on the channel that is asked for, or on the ones
/// that are picked for it; one that is no channel of a cart, and one that
/// leaves too few, is refused and nothing changes.
pub proof fn law_a_sound_effect_plays_where_it_is_asked(
    was: MixerView,
    now: MixerView,
    path: Seq<char>,
    track: Rc<Track>,
    channel: Option<i64>,
    r: Result<usize, AudioError>,
)
    requires
        sfx_played(was, now, path, track, channel, r),
    ensures
        channel matches Some(c) && !(0 <= c < 8) ==> r is Err && now == was,
        channel matches Some(c) && 0 <= c < 8 && c + track.columns <= 8 ==> r
            == Ok::<usize, AudioError>(channel->0 as usize) && now.sfx.last() == Cursor::started(
            track,
            channel->0 as usize,
            0,
        ),
        channel matches Some(c) && 0 <= c < 8 && c + track.columns > 8 ==> r is Err && now == was,
        channel is None && r is Ok ==> r->Ok_0 == was.picked(track.columns as int) as usize
            && now.sfx.last() == Cursor::started(track, r->Ok_0, 0),
{
}

/// A sample plays on its channel from its start, at full volume, and at the
/// rate of its file times the pitch; the other gains stay.
pub proof fn law_a_sample_plays_on_its_channel(
    was: MixerView,
    now: MixerView,
    sample: Rc<super::sample::Sample>,
    c: i64,
    pitch: u32,
    r: Result<usize, AudioError>,
    i: int,
)
    requires
        was.wf(),
        sample_played(was, now, sample, Some(c), pitch, r),
        0 <= i < CHANNELS,
    ensures
        !(0 <= c < 8) ==> r is Err && now == was,
        0 <= c < 8 ==> {
            &&& r == Ok::<usize, AudioError>(c as usize)
            &&& now.channels[c as int].voice == Some(
                Voice::Sample(
                    SampleVoice { sample, pos: 0, step: sample_step(sample.rate, pitch) as u64 },
                ),
            )
            &&& now.channels[c as int].vol == 255 && now.channels[c as int].track_gain == GAIN_ONE
            &&& now.channels[i].gain == was.channels[i].gain
            &&& now.music == was.music
        },
{
}

/// Music plays on the channels from the first on, as many as it has
/// columns, in place of the music before it; a channel that neither of them
/// nor a sound effect had stays as it was, and so does every gain.
pub proof fn law_music_plays_on_the_first_channels(
    m: MixerView,
    track: Rc<Track>,
    fade_in: u32,
    i: int,
)
    requires
        m.wf(),
        track.columns <= CART_CHANNELS,
        0 <= i < CHANNELS,
    ensures
        ({
            let n = m.music_started(track, fade_in);
            &&& n.music == Some(Cursor::started(track, 0, fade_in))
            &&& n.channels.len() == CHANNELS
            &&& n.channels[i].gain == m.channels[i].gain
            &&& i < track.columns ==> n.channels[i].voice is None
            &&& i >= track.columns && !m.owned(i) ==> n.channels[i] == m.channels[i]
            &&& n.master == m.master
        }),
{
}

/// Music that is stopped is gone at once, and its notes are let go; with a
/// fade it goes on, more and more quietly. What is not its own stays.
pub proof fn law_music_stops_at_once_or_fades(m: MixerView, fade: u32, i: int)
    requires
        m.wf(),
        m.music is Some,
        0 <= i < CHANNELS,
    ensures
        m.music_stopped(0).music is None,
        m.music->0.covers(i) ==> m.music_stopped(0).channels[i].voice == m.channels[i].released().voice
            && m.music_stopped(0).channels[i].track_gain == GAIN_ONE,
        !m.music->0.covers(i) ==> m.music_stopped(0).channels[i] == m.channels[i],
        fade > 0 ==> m.music_stopped(fade).music == Some(m.music->0.fading_out(fade))
            && m.music_stopped(fade).channels == m.channels,
        m.music_stopped(fade).sfx == m.sfx && m.music_stopped(0).sfx == m.sfx,
{
}

/// Setting a channel's gain changes that gain and nothing else.
pub proof fn law_a_gain_is_a_channels_own(m: MixerView, ch: int, gain: u8, i: int)
    requires
        m.wf(),
        0 <= ch < CHANNELS,
        0 <= i < CHANNELS,
    ensures
        m.with_gain(ch, gain).channels[ch].gain == gain,
        m.with_gain(ch, gain).channels[ch].voice == m.channels[ch].voice,
        m.with_gain(ch, gain).channels[ch].vol == m.channels[ch].vol,
        i != ch ==> m.with_gain(ch, gain).channels[i] == m.channels[i],
        m.with_gain(ch, gain).music == m.music && m.with_gain(ch, gain).sfx == m.sfx,
{
}

/// Silence ends every voice and every track, and keeps the gains and the
/// volumes.
pub proof fn law_silence_ends_every_voice(m: MixerView, i: int)
    requires
        m.wf(),
        0 <= i < CHANNELS,
    ensures
        ({
            let n = m.silenced();
            &&& n.music is None && n.sfx.len() == 0
            &&& n.channels.len() == CHANNELS
            &&& n.channels[i].voice is None
            &&& n.channels[i].gain == m.channels[i].gain && n.channels[i].vol == m.channels[i].vol
            &&& n.master == m.master && n.bank == m.bank && n.tracks == m.tracks
        }),
{
}

/// A sound effect that starts pushes out those that have one of its
/// channels, and none of the others as long as there are few.
pub proof fn law_a_sound_effect_pushes_out_what_it_meets(
    m: MixerView,
    track: Rc<Track>,
    base: usize,
    i: int,
    k: int,
)
    requires
        m.wf(),
        base + track.columns <= CART_CHANNELS,
    ensures
        ({
            let n = m.sfx_started(track, base).sfx;
            &&& n.len() > 0
            &&& base <= i < base + track.columns && 0 <= k < n.len() - 1 ==> !n[k].covers(i)
            &&& 0 <= k < m.sfx.len() < CHANNELS && (forall|c: int|
                base <= c < base + track.columns ==> !(#[trigger] m.sfx[k].covers(c))) ==> n.contains(
                m.sfx[k],
            )
        }),
{
    let lo = base as int;
    let hi = base + track.columns;
    let keep = |c: Cursor| !cursor_overlaps(c, lo, hi);
    let kept = m.sfx.filter(keep);
    m.sfx.filter_lemma(keep);
    let n = m.sfx_started(track, base).sfx;
    let rest = if kept.len() >= CHANNELS {
        kept.remove(0)
    } else {
        kept
    };
    assert(n =~= rest.push(Cursor::started(track, base, 0)));
    if lo <= i < hi && 0 <= k < n.len() - 1 {
        let j = if kept.len() >= CHANNELS {
            k + 1
        } else {
            k
        };
        assert(n[k] == kept[j]);
        assert(keep(kept[j]));
    }
    if 0 <= k < m.sfx.len() < CHANNELS && (forall|c: int|
        lo <= c < hi ==> !(#[trigger] m.sfx[k].covers(c))) {
        let c = m.sfx[k];
        let t = if c.base > lo {
            c.base as int
        } else {
            lo
        };
        assert(lo <= t < hi ==> !m.sfx[k].covers(t));
        assert(keep(c));
        assert(kept.contains(c));
        let j = kept.index_of(c);
        assert(n[j] == c);
    }
}

proof fn lemma_kept_push(s: Seq<Cursor>, c: Cursor, k: int)
    requires
        0 <= k <= s.len(),
    ensures
        MixerView::sfx_kept(s.push(c), k) == MixerView::sfx_kept(s, k) + (if c.step()
            == Step::End {
            seq![]
        } else {
            seq![c.ticked()]
        }),
    decreases s.len() - k,
{
    let t = s.push(c);
    if k < s.len() {
        lemma_kept_push(s, c, k + 1);
        assert(t[k] == s[k]);
        assert(MixerView::sfx_kept(t, k) =~= MixerView::sfx_kept(s, k) + (if c.step()
            == Step::End {
            seq![]
        } else {
            seq![c.ticked()]
        }));
    } else {
        assert(t[k] == c);
        reveal_with_fuel(MixerView::sfx_kept, 2);
        assert(MixerView::sfx_kept(t, k) =~= MixerView::sfx_kept(s, k) + (if c.step()
            == Step::End {
            seq![]
        } else {
            seq![c.ticked()]
        }));
    }
}

/// A frame moves each sound effect on, in order, and drops those that have
/// come to their end.
pub proof fn law_sound_effects_go_on_until_their_end(s: Seq<Cursor>, c: Cursor)
    ensures
        MixerView::sfx_kept(seq![], 0) == Seq::<Cursor>::empty(),
        c.step() == Step::End ==> MixerView::sfx_kept(s.push(c), 0) == MixerView::sfx_kept(s, 0),
        c.step() != Step::End ==> MixerView::sfx_kept(s.push(c), 0) == MixerView::sfx_kept(
            s,
            0,
        ).push(c.ticked()),
{
    lemma_kept_push(s, c, 0);
    assert(MixerView::sfx_kept(s, 0) + seq![] =~= MixerView::sfx_kept(s, 0));
    assert(MixerView::sfx_kept(s, 0) + seq![c.ticked()] =~= MixerView::sfx_kept(s, 0).push(
        c.ticked(),
    ));
}

/// A frame moves the music and the sound effects on by one, and music that
/// has come to its end is gone.
pub proof fn law_a_frame_moves_the_tracks_on(m: MixerView)
    ensures
        m.advanced().sfx == MixerView::sfx_kept(m.sfx, 0),
        m.music is None ==> m.advanced().music is None,
        m.music matches Some(c) ==> m.advanced().music == (if c.step() == Step::End {
            None
        } else {
            Some(c.ticked())
        }),
        m.advanced().master == m.master,
{
}

} // verus!
