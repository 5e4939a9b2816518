//! What the waveforms, the envelope and the pitch of a voice are, said of
//! the phase, the patch and the samples that come out.

use vstd::prelude::*;
use vstd::arithmetic::div_mod::*;
use super::synth::{
    envelope_step, pitch_increment, Patch, Stage, SynthVoice, Wave, ARP_SAMPLES, ENV_ONE,
    FRAME_SAMPLES, MAX_NOTE, MAX_PITCH,
};
use super::tables::{OCTAVE_8_INC, SINE};

verus! {

/// What a voice's waveform is at a phase.
pub open spec fn heard(v: SynthVoice, phase: int) -> int {
    SynthVoice { phase: phase as u32, ..v }.clocked().wave_value()
}

/// A triangle has no jumps and mirrors itself in time: it rises by two for
/// each 65536th of its period up to half of it, falls back the same way,
/// and is greatest in the middle.
pub proof fn law_a_triangle_mirrors_itself(v: SynthVoice, p: int, low: int)
    requires
        v.patch.wave == Wave::Triangle,
        0 <= p < 0x1_0000,
        0 <= low < 0x1_0000,
    ensures
        heard(v, p * 0x1_0000 + low) == heard(v, (0xffff - p) * 0x1_0000 + low),
        p + 1 < 0x8000 ==> heard(v, (p + 1) * 0x1_0000 + low) == heard(v, p * 0x1_0000 + low) + 2,
        0x8000 <= p < 0xffff ==> heard(v, (p + 1) * 0x1_0000 + low) == heard(
            v,
            p * 0x1_0000 + low,
        ) - 2,
        p == 0x8000 ==> heard(v, p * 0x1_0000 + low) == 32767,
        p == 0 ==> heard(v, p * 0x1_0000 + low) == -32767,
        -32767 <= heard(v, p * 0x1_0000 + low) <= 32767,
{
}

/// A saw rises by one for each 65536th of its period, through zero in the
/// middle, and falls back only at its end. Its lowest two steps are one.
pub proof fn law_a_saw_rises_all_the_way(v: SynthVoice, p: int, low: int)
    requires
        v.patch.wave == Wave::Saw,
        0 <= p < 0x1_0000,
        0 <= low < 0x1_0000,
    ensures
        1 <= p < 0xffff ==> heard(v, (p + 1) * 0x1_0000 + low) == heard(v, p * 0x1_0000 + low) + 1,
        p <= 1 ==> heard(v, p * 0x1_0000 + low) == -32767,
        p == 0x8000 ==> heard(v, p * 0x1_0000 + low) == 0,
        p == 0xffff ==> heard(v, p * 0x1_0000 + low) == 32767,
{
}

/// A pulse is high for the first `duty` 256ths of its period and low for
/// the rest.
pub proof fn law_a_pulse_keeps_its_duty(v: SynthVoice, phase: int)
    requires
        v.patch.wave == Wave::Pulse,
        0 <= phase < 0x1_0000_0000,
    ensures
        phase < v.patch.duty * 0x100_0000 ==> heard(v, phase) == 32767,
        phase >= v.patch.duty * 0x100_0000 ==> heard(v, phase) == -32767,
{
}

/// The second half of the sine is the first turned over.
proof fn lemma_sine_turns(k: int)
    requires
        0 <= k < 128,
    ensures
        SINE@[k + 128] == -SINE@[k],
{
}

/// The first half of the sine is its own mirror image.
proof fn lemma_sine_mirrors(k: int)
    requires
        0 <= k <= 64,
    ensures
        SINE@[128 - k] == SINE@[k],
{
}

/// The sine rises over its first quarter.
proof fn lemma_sine_rises(k: int)
    requires
        0 <= k < 64,
    ensures
        SINE@[k] < SINE@[k + 1],
        SINE@[0] == 0,
        SINE@[64] == 32767,
{
}

/// A sine starts at zero, rises to its peak at a quarter of its period,
/// comes back the way it went, and repeats that turned over.
pub proof fn law_a_sine_turns_about(v: SynthVoice, k: int, low: int)
    requires
        v.patch.wave == Wave::Sine,
        0 <= k < 128,
        0 <= low < 0x100_0000,
    ensures
        heard(v, (k + 128) * 0x100_0000 + low) == -heard(v, k * 0x100_0000 + low),
        k <= 64 ==> heard(v, (128 - k) * 0x100_0000 + low) == heard(v, k * 0x100_0000 + low),
        k < 64 ==> heard(v, k * 0x100_0000 + low) < heard(v, (k + 1) * 0x100_0000 + low),
        k == 0 ==> heard(v, k * 0x100_0000 + low) == 0,
        k == 64 ==> heard(v, k * 0x100_0000 + low) == 32767,
{
    lemma_sine_turns(k);
    if k <= 64 {
        lemma_sine_mirrors(k);
    }
    if k < 64 {
        lemma_sine_rises(k);
    } else {
        lemma_sine_rises(0);
    }
    let a = (k * 0x100_0000 + low) as u32;
    let b = ((k + 128) * 0x100_0000 + low) as u32;
    assert(a as int / 0x100_0000 == k);
    assert(b as int / 0x100_0000 == k + 128);
    if k <= 64 {
        let c = ((128 - k) * 0x100_0000 + low) as u32;
        assert(c as int / 0x100_0000 == 128 - k);
    }
    if k < 64 {
        let d = ((k + 1) * 0x100_0000 + low) as u32;
        assert(d as int / 0x100_0000 == k + 1);
    }
}

/// The noise is a shift register of fifteen bits: each step moves every
/// bit down by one and puts the sum of the two lowest in at the top, so
/// that it never runs empty. It steps when the phase enters another 32nd
/// of the period, and the lowest bit is the sign.
pub proof fn law_noise_is_a_shift_register(v: SynthVoice)
    requires
        v.wf(),
        v.patch.wave == Wave::Noise,
    ensures
        ({
            let n = v.clocked();
            let moved = v.phase >> 27u32 != v.noise_clock;
            &&& moved ==> n.lfsr == (v.lfsr >> 1u16) | (((v.lfsr ^ (v.lfsr >> 1u16)) & 1u16)
                << 14u16)
            &&& moved ==> n.noise_clock == v.phase >> 27u32
            &&& moved ==> n.wave_value() == (if n.lfsr & 1u16 == 1 {
                32767int
            } else {
                -32767
            })
            &&& !moved ==> n == v && n.wave_value() == v.noise_bit * 32767
            &&& v.lfsr != 0 ==> n.lfsr != 0
        }),
{
    let x = v.lfsr;
    let p = v.phase;
    assert(p >> 27u32 == p / 0x800_0000) by (bit_vector);
    let y = ((x >> 1u16) | (((x ^ (x >> 1u16)) & 1u16) << 14u16));
    assert(y == x / 2 + ((x % 2 + x / 2 % 2) % 2) * 0x4000 && (x != 0 ==> y != 0) && (y & 1u16 == 1)
        == (y % 2 == 1)) by (bit_vector)
        requires
            x < 0x8000,
            y == ((x >> 1u16) | (((x ^ (x >> 1u16)) & 1u16) << 14u16)),
    ;
    assert((x as int + x as int / 2) % 2 == (x % 2 + x / 2 % 2) % 2);
}

/// A sample is the waveform at the level of the envelope: all of it at the
/// full level, nothing at none, and never more than the waveform.
pub proof fn law_a_sample_is_the_wave_at_its_level(v: SynthVoice)
    requires
        v.wf(),
        v.sample() is Some,
    ensures
        ({
            let w = v.enveloped().clocked().wave_value();
            let level = v.enveloped().level;
            let s = v.sample()->0;
            &&& level == ENV_ONE ==> s == w
            &&& level < 256 ==> s == 0
            &&& s * 0x100_0000 <= w * (level - level % 256) < (s + 1) * 0x100_0000
            &&& w >= 0 ==> 0 <= s <= w
            &&& w < 0 ==> w <= s <= 0
        }),
{
    let e = v.enveloped();
    let w = e.clocked().wave_value();
    let a = e.level as int / 256;
    super::synth::law_a_wave_keeps_its_range(e.clocked());
    let q = w * a / 0x1_0000;
    lemma_fundamental_div_mod(w * a, 0x1_0000);
    lemma_mod_bound(w * a, 0x1_0000);
    assert(0 <= a <= 0x1_0000);
    assert(-32767 * 0x1_0000 <= w * a <= 32767 * 0x1_0000) by (nonlinear_arith)
        requires
            -32767 <= w <= 32767,
            0 <= a <= 0x1_0000,
    ;
    assert(w * (256 * a) == 256 * (w * a)) by (nonlinear_arith);
    assert(e.level - e.level % 256 == 256 * a);
    if e.level == ENV_ONE {
        assert(w * a == w * 0x1_0000);
    }
    if a == 0 {
        assert(w * a == 0) by (nonlinear_arith)
            requires
                a == 0,
        ;
    }
    if w >= 0 {
        assert(0 <= w * a <= w * 0x1_0000) by (nonlinear_arith)
            requires
                0 <= w,
                0 <= a <= 0x1_0000,
        ;
    } else {
        assert(w * 0x1_0000 <= w * a <= 0) by (nonlinear_arith)
            requires
                w < 0,
                0 <= a <= 0x1_0000,
        ;
    }
}

/// The voice some samples on.
pub open spec fn samples_on(v: SynthVoice, n: nat) -> SynthVoice
    decreases n,
{
    if n == 0 {
        v
    } else {
        samples_on(v, (n - 1) as nat).stepped()
    }
}

/// While a voice without an arpeggio sounds, its phase moves by the same
/// increment each sample, around the period of 2^32.
pub proof fn law_the_phase_keeps_its_pace(v: SynthVoice, n: nat)
    requires
        !v.patch.arpeggiates(),
        forall|k: nat| k <= n ==> (#[trigger] samples_on(v, k)).stage != Stage::Off,
    ensures
        samples_on(v, n).phase == (v.phase + n * v.inc) % 0x1_0000_0000,
        samples_on(v, n).inc == v.inc,
        samples_on(v, n).patch == v.patch,
    decreases n,
{
    if n > 0 {
        let m = (n - 1) as nat;
        assert forall|k: nat| k <= m implies (#[trigger] samples_on(v, k)).stage != Stage::Off by {
            assert(k <= n);
        }
        law_the_phase_keeps_its_pace(v, m);
        let a = v.phase + m * v.inc;
        assert(samples_on(v, n).stage != Stage::Off);
        assert((a % 0x1_0000_0000 + v.inc) % 0x1_0000_0000 == (a + v.inc) % 0x1_0000_0000) by {
            lemma_add_mod_noop(a, v.inc as int, 0x1_0000_0000);
        }
        assert(m * v.inc + v.inc == n * v.inc) by (nonlinear_arith)
            requires
                m == n - 1,
        ;
    } else {
        assert(n * v.inc == 0) by (nonlinear_arith)
            requires
                n == 0,
        ;
    }
}

/// The envelope goes up to its peak, down to the sustain level and stays
/// there; once released it only goes down, and at nothing the voice is
/// over. No stage is left out and none comes back.
pub proof fn law_the_envelope_takes_its_stages_in_turn(v: SynthVoice)
    requires
        v.wf(),
    ensures
        ({
            let n = v.enveloped();
            &&& v.stage == Stage::Attack ==> n.level >= v.level && (n.stage == Stage::Attack
                && n.level < ENV_ONE && n.level == v.level + v.attack_step || n.stage
                == Stage::Decay && n.level == ENV_ONE && v.level + v.attack_step >= ENV_ONE)
            &&& v.stage == Stage::Decay ==> (n.stage == Stage::Decay && n.level > v.sustain_level
                && n.level == v.level - v.decay_step || n.stage == Stage::Sustain && n.level
                == v.sustain_level && v.level - v.decay_step <= v.sustain_level)
            &&& v.stage == Stage::Sustain ==> n == v
            &&& v.stage == Stage::Release ==> n.level <= v.level && (n.stage == Stage::Release
                && n.level > 0 && n.level == v.level - v.release_step || n.stage == Stage::Off
                && n.level == 0 && v.level <= v.release_step)
            &&& v.stage == Stage::Off ==> n == v
            &&& v.released().stage == (if v.stage == Stage::Off {
                Stage::Off
            } else {
                Stage::Release
            })
            &&& v.released().level == v.level
        }),
{
}

/// A stage of some frames takes them: as many steps as the frames have
/// samples do not go over the span, and one more unit a step would. With
/// no frames a single step is the whole scale.
pub proof fn law_an_envelope_step_crosses_its_span(frames: u8, span: int)
    requires
        0 <= span <= ENV_ONE,
    ensures
        ({
            let n = envelope_step(frames, span);
            let samples = frames * FRAME_SAMPLES;
            &&& frames == 0 ==> n == ENV_ONE
            &&& frames > 0 && span >= samples ==> n * samples <= span < (n + 1) * samples
            &&& frames > 0 && span < samples ==> n == 1
        }),
{
    if frames > 0 {
        let samples = frames * FRAME_SAMPLES;
        assert(samples > 0) by (nonlinear_arith)
            requires
                samples == frames * FRAME_SAMPLES,
                frames > 0,
                FRAME_SAMPLES == 735,
        ;
        lemma_fundamental_div_mod(span, samples);
        lemma_mod_bound(span, samples);
        let q = span / samples;
        assert(samples * q == q * samples && (q + 1) * samples == q * samples + samples)
            by (nonlinear_arith);
        if span < samples {
            lemma_basic_div(span, samples);
        } else {
            assert(q >= 1) by (nonlinear_arith)
                requires
                    span >= samples,
                    span == samples * q + span % samples,
                    span % samples < samples,
                    samples > 0,
            ;
        }
    }
}

/// The table of the highest octave rises, and ends within an octave of its
/// start.
proof fn lemma_octave_rises(k: int)
    requires
        0 <= k < 191,
    ensures
        OCTAVE_8_INC@[k] + 256 <= OCTAVE_8_INC@[k + 1],
        OCTAVE_8_INC@[191] + 256 <= 2 * OCTAVE_8_INC@[0] <= 0x4000_0000,
{
}

/// A higher pitch sounds higher.
pub proof fn law_higher_notes_sound_higher(a: int, b: int)
    requires
        0 <= a < b <= MAX_PITCH,
    ensures
        pitch_increment(a) < pitch_increment(b),
    decreases b - a,
{
    if b == a + 1 {
        let k = a % 192;
        let o = a / 192;
        let x = OCTAVE_8_INC@[k];
        let n = (8 - o) as u32;
        if k < 191 {
            lemma_octave_rises(k);
            let y = OCTAVE_8_INC@[k + 1];
            assert(b % 192 == k + 1 && b / 192 == o);
            assert(x >> n < y >> n) by (bit_vector)
                requires
                    x + 256 <= y,
                    n <= 8,
            ;
        } else {
            lemma_octave_rises(0);
            let y = OCTAVE_8_INC@[0];
            assert(b % 192 == 0 && b / 192 == o + 1);
            let m = (7 - o) as u32;
            assert(x >> n < y >> m) by (bit_vector)
                requires
                    x + 256 <= 2 * y,
                    y <= 0x2000_0000,
                    n <= 8,
                    n >= 1,
                    n == m + 1,
            ;
        }
    } else {
        law_higher_notes_sound_higher(a, b - 1);
        law_higher_notes_sound_higher(b - 1, b);
    }
}

/// A voice sounds at its note, moved by its slide once a frame and by the
/// current step of its arpeggio, sixteen parts to the semitone.
pub proof fn law_a_voice_sounds_at_its_pitch(v: SynthVoice)
    requires
        v.wf(),
    ensures
        v.retuned().inc == pitch_increment(
            v.slid_x16 + (if v.patch.arp@[0] == 0 && v.patch.arp@[1] == 0 && v.patch.arp@[2] == 0 {
                0int
            } else {
                16 * v.patch.arp@[v.arp_index as int]
            }),
        ),
        v.patch.slide == 0 ==> v.ticked() == v,
        0 <= v.slid_x16 + v.patch.slide <= MAX_PITCH && v.patch.slide != 0 ==> v.ticked().slid_x16
            == v.slid_x16 + v.patch.slide && v.ticked().inc == v.ticked().retuned().inc,
{
}

/// An arpeggio goes through its three steps in turn and begins again,
/// each held for a third of a frame.
pub proof fn law_an_arpeggio_takes_its_steps_in_turn(v: SynthVoice)
    requires
        v.wf(),
        v.patch.arpeggiates(),
    ensures
        ({
            let n = v.advanced();
            &&& v.arp_countdown > 1 ==> n.arp_index == v.arp_index && n.arp_countdown
                == v.arp_countdown - 1 && n.inc == v.inc
            &&& v.arp_countdown == 1 ==> n.arp_countdown == ARP_SAMPLES && n.inc == n.retuned().inc
            &&& v.arp_countdown == 1 ==> n.arp_index == (if v.arp_index == 2 {
                0usize
            } else {
                (v.arp_index + 1) as usize
            })
        }),
        3 * ARP_SAMPLES == FRAME_SAMPLES,
{
}

/// A note starts at its own pitch, from the beginning of its wave and in
/// silence, and rises; its sustain is the patch's share of the full level,
/// and each stage takes as many frames as the patch says.
pub proof fn law_a_note_starts_from_silence(patch: Patch, note: u8)
    ensures
        ({
            let v = SynthVoice::started(patch, note);
            &&& v.patch == patch
            &&& v.phase == 0 && v.level == 0 && v.stage == Stage::Attack
            &&& note <= MAX_NOTE ==> v.slid_x16 == 16 * note
            &&& note > MAX_NOTE ==> v.slid_x16 == 16 * MAX_NOTE
            &&& v.inc == v.retuned().inc
            &&& v.arp_index == 0
            &&& 255 * v.sustain_level <= patch.sustain * ENV_ONE < 255 * (v.sustain_level + 1)
            &&& v.attack_step == envelope_step(patch.attack, ENV_ONE as int) as u32
            &&& v.decay_step == envelope_step(patch.decay, ENV_ONE - v.sustain_level) as u32
            &&& v.release_step == envelope_step(patch.release, ENV_ONE as int) as u32
        }),
{
    let full = patch.sustain * ENV_ONE;
    lemma_fundamental_div_mod(full, 255);
    lemma_mod_bound(full, 255);
}

/// A note that is let go goes to its release from wherever it was, at the
/// level it had; one that is over stays over.
pub proof fn law_a_note_that_is_let_go_fades(v: SynthVoice)
    ensures
        v.stage != Stage::Off ==> v.released().stage == Stage::Release,
        v.stage == Stage::Off ==> v.released() == v,
        v.released().level == v.level && v.released().phase == v.phase && v.released().inc == v.inc,
{
}

} // verus!
