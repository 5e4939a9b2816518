//! Starting and stopping what the mixer plays.

use std::rc::Rc;
use vstd::prelude::*;
use vstd::string::*;
use super::sample::{sample_step, Sample, SampleVoice};
use super::synth::{Patch, SynthVoice};
use super::tracker::{Cursor, Track, GAIN_ONE};
use super::{
    cursor_ok, cursor_overlaps, overlaps, AudioError, AudioErrorView, Channel, Mixer, MixerView,
    Voice, CART_CHANNELS, CHANNELS, MAX_SFX_CURSORS,
};
use crate::math::clamp;

verus! {

/// A channel a cart may name.
pub open spec fn cart_channel(channel: i64) -> bool {
    0 <= channel < CART_CHANNELS
}

fn check_channel(channel: i64) -> (r: Result<usize, AudioError>)
    ensures
        match r {
            Ok(c) => cart_channel(channel) && c == channel,
            Err(e) => !cart_channel(channel) && e@ == (AudioErrorView::BadChannel { channel }),
        },
{
    if 0 <= channel && channel < CART_CHANNELS as i64 {
        Ok(channel as usize)
    } else {
        Err(AudioError::BadChannel { channel })
    }
}

fn ranges_overlap(a: usize, b: usize, lo: usize, hi: usize) -> (r: bool)
    ensures
        r == overlaps(a as int, b as int, lo as int, hi as int),
{
    a < b && lo < hi && a < hi && lo < b
}

/// What comes of playing a track as a sound effect.
pub open spec fn sfx_played(
    was: MixerView,
    now: MixerView,
    path: Seq<char>,
    track: Rc<Track>,
    channel: Option<i64>,
    r: Result<usize, AudioError>,
) -> bool {
    let base = match channel {
        Some(c) => c as int,
        None => was.picked(track.columns as int),
    };
    if channel matches Some(c) && !cart_channel(c) {
        r is Err && r->Err_0@ == (AudioErrorView::BadChannel { channel: channel->0 }) && now == was
    } else if base + track.columns > CART_CHANNELS {
        r is Err && r->Err_0@ == (AudioErrorView::NoRoom {
            path,
            channel: base as usize,
            columns: track.columns,
        }) && now == was
    } else {
        r == Ok::<usize, AudioError>(base as usize) && now == was.sfx_started(track, base as usize)
    }
}

/// What comes of playing a sample.
pub open spec fn sample_played(
    was: MixerView,
    now: MixerView,
    sample: Rc<Sample>,
    channel: Option<i64>,
    pitch: u32,
    r: Result<usize, AudioError>,
) -> bool {
    if channel matches Some(c) && !cart_channel(c) {
        r is Err && r->Err_0@ == (AudioErrorView::BadChannel { channel: channel->0 }) && now == was
    } else {
        let ch = match channel {
            Some(c) => c as int,
            None => was.picked(1),
        };
        r == Ok::<usize, AudioError>(ch as usize) && now == was.evicted(
            ch,
            ch + 1,
        ).voice_started(
            ch,
            Voice::Sample(
                SampleVoice { sample, pos: 0, step: sample_step(sample.rate, pitch) as u64 },
            ),
        )
    }
}

impl Mixer {
    fn cursor_owns(&self, channel: usize) -> (r: bool)
        requires
            self@.wf(),
        ensures
            r == self@.owned(channel as int),
    {
        if let Some(c) = &self.music {
            if c.base <= channel && channel < c.base + c.track.columns {
                return true;
            }
        }
        let mut i: usize = 0;
        while i < self.sfx.len()
            invariant
                i <= self.sfx@.len(),
                self@.wf(),
                !(self@.music matches Some(c) && c.covers(channel as int)),
                forall|k: int| 0 <= k < i ==> !(#[trigger] self.sfx@[k]).covers(channel as int),
            decreases self.sfx.len() - i,
        {
            let c = &self.sfx[i];
            assert(cursor_ok(self@.sfx[i as int]));
            if c.base <= channel && channel < c.base + c.track.columns {
                assert(self@.sfx[i as int].covers(channel as int));
                return true;
            }
            i += 1;
        }
        false
    }

    /// The highest run of `columns` idle, unowned cart channels, or the
    /// top run regardless when every channel is busy.
    fn pick_channel(&self, columns: usize) -> (r: usize)
        requires
            self@.wf(),
        ensures
            r == self@.picked(columns as int),
            r + clamp(columns as int, 1, 8) <= CART_CHANNELS,
    {
        let n: usize = if columns < 1 {
            1
        } else if columns > CART_CHANNELS {
            CART_CHANNELS
        } else {
            columns
        };
        let mut base: usize = CART_CHANNELS - n;
        loop
            invariant
                self@.wf(),
                1 <= n <= CART_CHANNELS,
                n == clamp(columns as int, 1, 8),
                base + n <= CART_CHANNELS,
                self@.picked(columns as int) == self@.run_below(base as int, n as int),
            decreases base,
        {
            let ghost m = self@;
            let mut free = true;
            let mut i: usize = base;
            while i < base + n
                invariant
                    self@.wf(),
                    m == self@,
                    base + n <= CART_CHANNELS,
                    base <= i <= base + n,
                    free ==> forall|k: int|
                        base <= k < i ==> (#[trigger] m.channels[k]).idle() && !m.owned(k),
                    !free ==> !m.free_run(base as int, n as int),
                decreases base + n - i,
            {
                let idle = self.channels[i].is_idle();
                let owned = self.cursor_owns(i);
                if !idle || owned {
                    free = false;
                    assert(!(m.channels[i as int].idle() && !m.owned(i as int)));
                    assert(!m.free_run(base as int, n as int));
                }
                i += 1;
            }
            if free {
                assert(m.free_run(base as int, n as int));
                return base;
            }
            if base == 0 {
                return CART_CHANNELS - n;
            }
            base -= 1;
        }
    }

    /// Drop sfx cursors overlapping a range and release their notes.
    fn evict_sfx(&mut self, lo: usize, hi: usize)
        requires
            old(self)@.wf(),
        ensures
            final(self)@ == old(self)@.evicted(lo as int, hi as int),
            final(self)@.wf(),
    {
        let ghost start = self@;
        let ghost sfx = self.sfx@;
        let ghost pred = |c: Cursor| !cursor_overlaps(c, lo as int, hi as int);
        let mut k: usize = 0;
        while k < self.sfx.len()
            invariant
                k <= self.sfx@.len(),
                self.sfx@ == sfx,
                start == old(self)@,
                start.wf(),
                sfx == start.sfx,
                self@ == (MixerView { channels: self@.channels, ..start }),
                self.channels@.len() == CHANNELS,
                forall|i: int|
                    0 <= i < CHANNELS ==> #[trigger] self.channels@[i] == (if exists|m: int|
                        0 <= m < k && cursor_overlaps(sfx[m], lo as int, hi as int)
                            && #[trigger] sfx[m].covers(i) {
                        start.channels[i].released()
                    } else {
                        start.channels[i]
                    }),
            decreases self.sfx.len() - k,
        {
            let base: usize = self.sfx[k].base;
            assert(cursor_ok(sfx[k as int]));
            let end: usize = base + self.sfx[k].track.columns;
            let ghost before = self.channels@;
            if ranges_overlap(base, end, lo, hi) {
                let mut ch: usize = base;
                while ch < end
                    invariant
                        base <= ch <= end <= CART_CHANNELS,
                        self.sfx@ == sfx,
                        self@ == (MixerView { channels: self@.channels, ..start }),
                        self.channels@.len() == CHANNELS == before.len(),
                        forall|i: int|
                            0 <= i < CHANNELS ==> #[trigger] self.channels@[i] == (if base <= i
                                < ch {
                                before[i].released()
                            } else {
                                before[i]
                            }),
                    decreases end - ch,
                {
                    self.channels[ch].release();
                    ch += 1;
                }
            }
            assert forall|i: int| 0 <= i < CHANNELS implies #[trigger] self.channels@[i] == (
            if exists|m: int|
                0 <= m < k + 1 && cursor_overlaps(sfx[m], lo as int, hi as int)
                    && #[trigger] sfx[m].covers(i) {
                start.channels[i].released()
            } else {
                start.channels[i]
            }) by {
                let hit = cursor_overlaps(sfx[k as int], lo as int, hi as int)
                    && sfx[k as int].covers(i);
                let earlier = exists|m: int|
                    0 <= m < k && cursor_overlaps(sfx[m], lo as int, hi as int)
                        && #[trigger] sfx[m].covers(i);
                assert(before[i] == (if earlier {
                    start.channels[i].released()
                } else {
                    start.channels[i]
                }));
                assert(start.channels[i].released().released() == start.channels[i].released());
            }
            k += 1;
        }
        let ghost channels = self.channels@;
        let mut all: Vec<Cursor> = Vec::new();
        std::mem::swap(&mut all, &mut self.sfx);
        let mut keep: Vec<Cursor> = Vec::new();
        let ghost mut n: int = 0;
        assert(sfx.skip(0) =~= sfx);
        proof {
            reveal(Seq::filter);
        }
        assert(keep@ =~= sfx.take(0).filter(pred));
        while all.len() > 0
            invariant
                0 <= n <= sfx.len(),
                all@ == sfx.skip(n),
                keep@ == sfx.take(n).filter(pred),
                pred == (|c: Cursor| !cursor_overlaps(c, lo as int, hi as int)),
                start.wf(),
                sfx == start.sfx,
                self.channels@ == channels,
                self@ == (MixerView { channels, sfx: seq![], ..start }),
                forall|i: int| 0 <= i < keep@.len() ==> cursor_ok(#[trigger] keep@[i]),
            decreases all.len(),
        {
            let c = all.remove(0);
            proof {
                assert(c == sfx[n]);
                assert(cursor_ok(sfx[n]));
                assert(sfx.skip(n).remove(0) =~= sfx.skip(n + 1));
                assert(sfx.take(n + 1).drop_last() =~= sfx.take(n));
                reveal(Seq::filter);
                n = n + 1;
            }
            if !ranges_overlap(c.base, c.base + c.track.columns, lo, hi) {
                keep.push(c);
            }
        }
        self.sfx = keep;
        assert(sfx.take(n) =~= sfx);
        assert(self.channels@ =~= start.evicted(lo as int, hi as int).channels);
        assert(self@.sfx =~= start.evicted(lo as int, hi as int).sfx);
    }

    /// Start `track` as a sound effect from `channel`, or from a free
    /// channel. Any sfx already on those channels is dropped; music is
    /// left alone but its notes there are cut.
    pub fn play_sfx(&mut self, path: &str, track: Rc<Track>, channel: Option<i64>) -> (r: Result<
        usize,
        AudioError,
    >)
        requires
            old(self)@.wf(),
            track@.wf(),
        ensures
            final(self)@.wf(),
            sfx_played(old(self)@, final(self)@, path@, track, channel, r),
    {
        let columns: usize = track.columns;
        let base: usize = match channel {
            Some(c) => match check_channel(c) {
                Ok(b) => b,
                Err(e) => return Err(e),
            },
            None => self.pick_channel(columns),
        };
        if base + columns > CART_CHANNELS {
            return Err(AudioError::NoRoom { path: path.to_owned(), channel: base, columns });
        }
        self.evict_sfx(base, base + columns);
        let ghost e = self@;
        let mut ch: usize = base;
        while ch < base + columns
            invariant
                base <= ch <= base + columns <= CART_CHANNELS,
                e.wf(),
                self@ == (MixerView { channels: self@.channels, ..e }),
                self.channels@.len() == CHANNELS,
                forall|i: int|
                    0 <= i < CHANNELS ==> #[trigger] self.channels@[i] == (if base <= i < ch {
                        Channel {
                            voice: None,
                            track_gain: GAIN_ONE,
                            last_inst: 1,
                            ..e.channels[i]
                        }
                    } else {
                        e.channels[i]
                    }),
            decreases base + columns - ch,
        {
            let c = &mut self.channels[ch];
            c.voice = None;
            c.track_gain = GAIN_ONE;
            c.last_inst = 1;
            ch += 1;
        }
        if self.sfx.len() >= MAX_SFX_CURSORS {
            let _ = self.sfx.remove(0);
        }
        let ghost rest = self.sfx@;
        self.sfx.push(Cursor::new(track, base, 0));
        assert(self.channels@ =~= old(self)@.sfx_started(track, base).channels);
        assert(self.sfx@ =~= rest.push(Cursor::started(track, base, 0)));
        assert forall|i: int| 0 <= i < self@.sfx.len() implies cursor_ok(#[trigger] self@.sfx[i]) by {
            if i < rest.len() {
                let j = if e.sfx.len() >= MAX_SFX_CURSORS {
                    i + 1
                } else {
                    i
                };
                assert(rest[i] == e.sfx[j]);
            }
        }
        Ok(base)
    }

    /// Fade the music out over `fade` frames (0 stops it now).
    pub fn stop_music(&mut self, fade: u32)
        requires
            old(self)@.wf(),
        ensures
            final(self)@ == old(self)@.music_stopped(fade),
            final(self)@.wf(),
    {
        match self.music.take() {
            None => {},
            Some(cursor) => {
                let mut cursor = cursor;
                if fade > 0 {
                    cursor.fade_out(fade);
                    self.music = Some(cursor);
                } else {
                    let ghost start = old(self)@;
                    let end: usize = cursor.base + cursor.track.columns;
                    let mut ch: usize = cursor.base;
                    while ch < end
                        invariant
                            cursor.base <= ch <= end <= CART_CHANNELS,
                            start.wf(),
                            self@ == (MixerView {
                                channels: self@.channels,
                                music: None,
                                ..start
                            }),
                            self.channels@.len() == CHANNELS,
                            forall|i: int|
                                0 <= i < CHANNELS ==> #[trigger] self.channels@[i] == (
                                if cursor.base <= i < ch {
                                    Channel {
                                        track_gain: GAIN_ONE,
                                        ..start.channels[i].released()
                                    }
                                } else {
                                    start.channels[i]
                                }),
                        decreases end - ch,
                    {
                        self.channels[ch].release();
                        self.channels[ch].track_gain = GAIN_ONE;
                        ch += 1;
                    }
                    assert(self@.channels =~= start.music_stopped(fade).channels);
                }
            },
        }
    }

    /// Start `track` as music on channels 0 to its column count, fading
    /// in over `fade_in` frames. The previous music stops at once.
    pub fn play_music(&mut self, track: Rc<Track>, fade_in: u32)
        requires
            old(self)@.wf(),
            track@.wf(),
        ensures
            final(self)@ == old(self)@.music_started(track, fade_in),
            final(self)@.wf(),
    {
        self.stop_music(0);
        let columns: usize = track.columns;
        self.evict_sfx(0, columns);
        let ghost e = self@;
        let mut ch: usize = 0;
        while ch < columns
            invariant
                ch <= columns <= CART_CHANNELS,
                e.wf(),
                self@ == (MixerView { channels: self@.channels, ..e }),
                self.channels@.len() == CHANNELS,
                forall|i: int|
                    0 <= i < CHANNELS ==> #[trigger] self.channels@[i] == (if i < ch {
                        Channel { voice: None, last_inst: 1, ..e.channels[i] }
                    } else {
                        e.channels[i]
                    }),
            decreases columns - ch,
        {
            let c = &mut self.channels[ch];
            c.voice = None;
            c.last_inst = 1;
            ch += 1;
        }
        self.music = Some(Cursor::new(track, 0, fade_in));
        assert(self@.channels =~= old(self)@.music_started(track, fade_in).channels);
    }

    /// Play a sample once on `channel` (or a free one) at `pitch` (16.16;
    /// `1 << 16` is the file's own rate).
    pub fn play_sample(&mut self, sample: Rc<Sample>, channel: Option<i64>, pitch: u32) -> (r:
        Result<usize, AudioError>)
        requires
            old(self)@.wf(),
            sample.data@.len() <= 0xffff_ffff,
        ensures
            final(self)@.wf(),
            sample_played(old(self)@, final(self)@, sample, channel, pitch, r),
    {
        let ch: usize = match channel {
            Some(c) => match check_channel(c) {
                Ok(b) => b,
                Err(e) => return Err(e),
            },
            None => self.pick_channel(1),
        };
        self.evict_sfx(ch, ch + 1);
        let ghost e = self@;
        let voice = Voice::Sample(SampleVoice::new(sample, pitch));
        let c = &mut self.channels[ch];
        c.voice = Some(voice);
        c.vol = 255;
        c.track_gain = GAIN_ONE;
        assert(self@.channels =~= e.voice_started(ch as int, voice).channels);
        Ok(ch)
    }

    /// A synth note outside any track, e.g. the shell's UI sounds on
    /// the shell channel. Any channel index is accepted here; the cart
    /// API checks its own range before calling.
    pub fn play_note(&mut self, channel: usize, patch: Patch, note: u8)
        requires
            old(self)@.wf(),
        ensures
            final(self)@.wf(),
            final(self)@ == (if channel < CHANNELS {
                old(self)@.voice_started(
                    channel as int,
                    Voice::Synth(SynthVoice::started(patch, note)),
                )
            } else {
                old(self)@
            }),
    {
        if channel < self.channels.len() {
            let voice = Voice::Synth(SynthVoice::new(patch, note));
            let c = &mut self.channels[channel];
            c.voice = Some(voice);
            c.vol = 255;
            c.track_gain = GAIN_ONE;
            assert(self@.channels =~= old(self)@.voice_started(channel as int, voice).channels);
        }
    }

    /// Per-channel volume, 0..=255.
    pub fn set_volume(&mut self, channel: i64, gain: u8) -> (r: Result<(), AudioError>)
        requires
            old(self)@.wf(),
        ensures
            final(self)@.wf(),
            if cart_channel(channel) {
                r is Ok && final(self)@ == old(self)@.with_gain(channel as int, gain)
            } else {
                r is Err && r->Err_0@ == (AudioErrorView::BadChannel { channel }) && final(self)@
                    == old(self)@
            },
    {
        let ch = match check_channel(channel) {
            Ok(c) => c,
            Err(e) => return Err(e),
        };
        self.channels[ch].gain = gain;
        assert(self@.channels =~= old(self)@.channels.update(
            channel as int,
            Channel { gain, ..old(self)@.channels[channel as int] },
        ));
        Ok(())
    }
}

/// The shell's channel is out of a cart's reach: no channel a cart may
/// name is the shell's, and a free run never reaches it.
pub proof fn law_the_shell_channel_is_out_of_reach(m: MixerView, columns: int, channel: i64)
    requires
        m.wf(),
    ensures
        cart_channel(channel) ==> channel != super::SHELL_CHANNEL,
        0 <= m.picked(columns),
        m.picked(columns) + clamp(columns, 1, CART_CHANNELS as int) <= CART_CHANNELS,
{
    let n = clamp(columns, 1, CART_CHANNELS as int);
    lemma_run_below(m, CART_CHANNELS - n, n);
}

proof fn lemma_run_below(m: MixerView, base: int, n: int)
    requires
        0 <= base,
        1 <= n <= CART_CHANNELS,
        base + n <= CART_CHANNELS,
    ensures
        0 <= m.run_below(base, n),
        m.run_below(base, n) + n <= CART_CHANNELS,
    decreases base,
{
    if !m.free_run(base, n) && base > 0 {
        lemma_run_below(m, base - 1, n);
    }
}

} // verus!
