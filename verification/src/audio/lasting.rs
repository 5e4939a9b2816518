//! What lasts in the mixer: silence until something is played, and a
//! channel's gain until it is set again.

use std::rc::Rc;
use vstd::prelude::*;
use super::sample::Sample;
use super::tracker::{Cell, Cursor, Step, Track};
use super::{
    cell_applied, cursor_ok, Channel, MixerView, Voice, CART_CHANNELS, CHANNELS, SAMPLES_PER_FRAME,
};

verus! {

// ----- silence --------------------------------------------------------------------------

/// Whether nothing sounds or is about to.
pub open spec fn quiet(m: MixerView) -> bool {
    &&& forall|i: int| 0 <= i < m.channels.len() ==> (#[trigger] m.channels[i]).voice is None
    &&& m.music is None
    &&& m.sfx.len() == 0
    &&& m.external is None
}

/// The mixer after some frames.
pub open spec fn frames_on(m: MixerView, n: nat) -> MixerView
    decreases n,
{
    if n == 0 {
        m
    } else {
        frames_on(m, (n - 1) as nat).rendered()
    }
}

proof fn lemma_voiceless_sum(channels: Seq<Channel>, j: int)
    requires
        0 <= j,
        forall|i: int| 0 <= i < channels.len() ==> (#[trigger] channels[i]).voice is None,
    ensures
        MixerView::sum_from(channels, j) == 0,
    decreases channels.len() - j,
{
    if j < channels.len() {
        lemma_voiceless_sum(channels, j + 1);
    }
}

proof fn lemma_voiceless_after(channels: Seq<Channel>, n: nat)
    requires
        forall|i: int| 0 <= i < channels.len() ==> (#[trigger] channels[i]).voice is None,
    ensures
        MixerView::channels_after(channels, n) == channels,
    decreases n,
{
    if n > 0 {
        lemma_voiceless_after(channels, (n - 1) as nat);
        assert(MixerView::channels_after(channels, n) =~= channels);
    }
}

proof fn lemma_quiet_frame(m: MixerView)
    requires
        quiet(m),
    ensures
        quiet(m.rendered()),
        m.rendered() == (MixerView { out: Seq::new(SAMPLES_PER_FRAME as nat, |i: int| 0i16), ..m }),
{
    let a = m.advanced();
    assert(MixerView::sfx_stepped(m.channels, m.sfx, 0, m.bank.samples) == m.channels);
    assert(a.channels =~= m.channels);
    assert(a.sfx =~= m.sfx);
    let r = m.rendered();
    lemma_voiceless_after(a.channels, SAMPLES_PER_FRAME as nat);
    assert forall|i: int| 0 <= i < SAMPLES_PER_FRAME implies #[trigger] r.out[i] == 0i16 by {
        lemma_voiceless_after(a.channels, i as nat);
        lemma_voiceless_sum(a.channels, 0);
        assert(0 * m.master == 0) by (nonlinear_arith);
    }
    assert(r.out =~= Seq::new(SAMPLES_PER_FRAME as nat, |i: int| 0i16));
}

/// Once everything is stopped, no channel plays and there is no music,
/// every frame is silent until something is played again, and the assets,
/// the gains and the master volume are as they were.
pub proof fn law_stopping_lasts(m: MixerView, n: nat)
    requires
        m.external is None,
    ensures
        forall|i: int| 0 <= i < m.channels.len() ==> (#[trigger] m.silenced().channels[i]).idle(),
        m.silenced().music is None,
        m.silenced().sfx.len() == 0,
        n > 0 ==> frames_on(m.silenced(), n).out == Seq::new(
            SAMPLES_PER_FRAME as nat,
            |i: int| 0i16,
        ),
        frames_on(m.silenced(), n) == (MixerView {
            out: frames_on(m.silenced(), n).out,
            ..m.silenced()
        }),
        m.silenced().tracks == m.tracks,
        m.silenced().bank == m.bank,
        m.silenced().master == m.master,
        forall|i: int|
            0 <= i < m.channels.len() ==> (#[trigger] m.silenced().channels[i]).gain
                == m.channels[i].gain,
{
    lemma_quiet_frames(m.silenced(), n);
}

proof fn lemma_quiet_frames(m: MixerView, n: nat)
    requires
        quiet(m),
    ensures
        quiet(frames_on(m, n)),
        n > 0 ==> frames_on(m, n).out == Seq::new(SAMPLES_PER_FRAME as nat, |i: int| 0i16),
        frames_on(m, n) == (MixerView { out: frames_on(m, n).out, ..m }),
    decreases n,
{
    if n > 0 {
        lemma_quiet_frames(m, (n - 1) as nat);
        lemma_quiet_frame(frames_on(m, (n - 1) as nat));
    }
}

// ----- gains ----------------------------------------------------------------------------

/// Whether a channel's gain is the same in two lists of channels.
pub open spec fn same_gain(a: Seq<Channel>, b: Seq<Channel>, ch: int) -> bool {
    a.len() == b.len() && a[ch].gain == b[ch].gain
}

/// A channel after a cell of a shared track.
spec fn with_cell(
    c: Channel,
    cell: Cell,
    track: Rc<Track>,
    samples: Map<Seq<char>, Rc<Sample>>,
) -> Channel {
    cell_applied(c, cell, *track, samples)
}

proof fn lemma_row_gain(
    channels: Seq<Channel>,
    base: int,
    row: Seq<Cell>,
    col: int,
    track: Rc<Track>,
    samples: Map<Seq<char>, Rc<Sample>>,
    ch: int,
)
    requires
        0 <= col,
        0 <= base,
        base + row.len() <= channels.len(),
        0 <= ch < channels.len(),
    ensures
        same_gain(
            channels,
            MixerView::row_applied(channels, base, row, col, *track, samples),
            ch,
        ),
    decreases row.len() - col,
{
    if col < row.len() {
        let c = with_cell(channels[base + col], row[col], track, samples);
        lemma_row_gain(channels.update(base + col, c), base, row, col + 1, track, samples, ch);
    }
}

proof fn lemma_cursor_gain(
    channels: Seq<Channel>,
    c: Cursor,
    samples: Map<Seq<char>, Rc<Sample>>,
    ch: int,
)
    requires
        cursor_ok(c),
        channels.len() == CHANNELS,
        0 <= ch < CHANNELS,
    ensures
        same_gain(channels, MixerView::cursor_stepped(channels, c, samples), ch),
{
    let g = MixerView::gained(channels, c, c.ticked().gain);
    if let Step::Row(r) = c.step() {
        let rows = c.track@.rows;
        assert(r < rows.len());
        assert(rows[r as int] == c.track.rows@[r as int]@);
        assert(rows[r as int].len() == c.track@.columns);
        lemma_row_gain(
            g,
            c.base as int,
            c.track.rows@[r as int]@,
            0,
            c.track,
            samples,
            ch,
        );
    }
}

proof fn lemma_sfx_gain(
    channels: Seq<Channel>,
    sfx: Seq<Cursor>,
    k: int,
    samples: Map<Seq<char>, Rc<Sample>>,
    ch: int,
)
    requires
        0 <= k,
        forall|i: int| 0 <= i < sfx.len() ==> cursor_ok(#[trigger] sfx[i]),
        channels.len() == CHANNELS,
        0 <= ch < CHANNELS,
    ensures
        same_gain(channels, MixerView::sfx_stepped(channels, sfx, k, samples), ch),
    decreases sfx.len() - k,
{
    if k < sfx.len() {
        lemma_cursor_gain(channels, sfx[k], samples, ch);
        lemma_sfx_gain(
            MixerView::cursor_stepped(channels, sfx[k], samples),
            sfx,
            k + 1,
            samples,
            ch,
        );
    }
}

pub(crate) proof fn lemma_after_gain(channels: Seq<Channel>, n: nat, ch: int)
    requires
        0 <= ch < channels.len(),
    ensures
        same_gain(channels, MixerView::channels_after(channels, n), ch),
    decreases n,
{
    if n > 0 {
        lemma_after_gain(channels, (n - 1) as nat, ch);
    }
}

pub(crate) proof fn lemma_advanced_gain(m: MixerView, ch: int)
    requires
        m.wf(),
        0 <= ch < CHANNELS,
    ensures
        same_gain(m.channels, m.advanced().channels, ch),
{
    let samples = m.bank.samples;
    let after = match m.music {
        Some(c) => MixerView::cursor_stepped(m.channels, c, samples),
        None => m.channels,
    };
    if let Some(c) = m.music {
        lemma_cursor_gain(m.channels, c, samples, ch);
    }
    lemma_sfx_gain(after, m.sfx, 0, samples, ch);
}

/// A channel of gain 0 adds nothing.
proof fn lemma_no_gain(c: Channel)
    requires
        c.gain == 0,
    ensures
        c.contribution() == 0,
{
    if let Some(v) = c.voice {
        if let Some(s) = v.sample() {
            let t = super::scaled(s as int, c.vol);
            assert(t * 0 == 0) by (nonlinear_arith);
            assert(super::scaled(t, c.gain) == 0);
            assert(0 * c.track_gain == 0) by (nonlinear_arith);
        }
    }
}

/// The mixer after any of its calls but one that sets the gain of a
/// channel.
pub open spec fn moved(was: MixerView, now: MixerView, ch: int) -> bool {
    ||| now == was.rendered()
    ||| now == was.silenced()
    // The master volume, PCM from elsewhere and assets.
    ||| now.channels == was.channels
    ||| exists|track: Rc<Track>, base: usize| now == #[trigger] was.sfx_started(track, base)
    ||| exists|fade: u32| now == #[trigger] was.music_stopped(fade)
    ||| exists|track: Rc<Track>, fade: u32| now == #[trigger] was.music_started(track, fade)
    ||| exists|at: int, v: Voice| 0 <= at < CHANNELS && now == #[trigger] was.voice_started(at, v)
    ||| exists|at: int, v: Voice|
        0 <= at < CART_CHANNELS && now == #[trigger] was.evicted(at, at + 1).voice_started(at, v)
    ||| exists|at: int, gain: u8|
        at != ch && 0 <= at < CHANNELS && now == #[trigger] was.with_gain(at, gain)
}

proof fn lemma_moved_gain(was: MixerView, now: MixerView, ch: int)
    requires
        was.wf(),
        0 <= ch < CHANNELS,
        moved(was, now, ch),
    ensures
        same_gain(was.channels, now.channels, ch),
{
    if now == was.rendered() {
        if was.external is None {
            lemma_advanced_gain(was, ch);
            lemma_after_gain(was.advanced().channels, SAMPLES_PER_FRAME as nat, ch);
        }
    }
}

/// A channel's gain outlives whatever is played on it: at gain 0 it adds
/// nothing to any sample of any frame until its gain is set again.
pub proof fn law_a_gain_outlives_notes(path: Seq<MixerView>, k: int, ch: int, n: nat)
    requires
        0 <= ch < CHANNELS,
        forall|i: int| 0 <= i < path.len() ==> (#[trigger] path[i]).wf(),
        forall|i: int| 0 <= i < path.len() - 1 ==> moved(path[i], #[trigger] path[i + 1], ch),
        0 <= k < path.len(),
    ensures
        path[k].channels[ch].gain == path[0].channels[ch].gain,
        path[0].channels[ch].gain == 0 ==> MixerView::channels_after(
            path[k].advanced().channels,
            n,
        )[ch].contribution() == 0,
{
    lemma_path_gain(path, k, ch);
    lemma_advanced_gain(path[k], ch);
    lemma_after_gain(path[k].advanced().channels, n, ch);
    if path[0].channels[ch].gain == 0 {
        lemma_no_gain(MixerView::channels_after(path[k].advanced().channels, n)[ch]);
    }
}

proof fn lemma_path_gain(path: Seq<MixerView>, k: int, ch: int)
    requires
        0 <= ch < CHANNELS,
        forall|i: int| 0 <= i < path.len() ==> (#[trigger] path[i]).wf(),
        forall|i: int| 0 <= i < path.len() - 1 ==> moved(path[i], #[trigger] path[i + 1], ch),
        0 <= k < path.len(),
    ensures
        path[k].channels[ch].gain == path[0].channels[ch].gain,
    decreases k,
{
    if k > 0 {
        lemma_path_gain(path, k - 1, ch);
        assert(path[k - 1].wf());
        assert(moved(path[k - 1], path[(k - 1) + 1], ch));
        lemma_moved_gain(path[k - 1], path[k], ch);
    }
}

} // verus!
