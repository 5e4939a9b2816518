//! Synth voices: pulse, triangle, saw, sine and noise through an ADSR
//! envelope, with a pitch slide and an arpeggio. Everything is integer:
//! a 32-bit phase accumulator per voice, a 24-bit envelope level, and
//! the note tables in `tables.rs`. No floating point anywhere here, so
//! the PCM is the same on every machine.

use vstd::prelude::*;
use vstd::string::*;
use super::tables::{OCTAVE_8_INC, SINE};
use crate::math::{clamp, clamped, floor_div};
use crate::text::str_eq;

verus! {

/// Seed every noise voice starts from; a 15-bit Fibonacci LFSR.
pub const NOISE_SEED: u16 = 0x2a7f;

/// Highest note: B-8. `C-0` is 0, so a note is `octave * 12 + semitone`.
pub const MAX_NOTE: u8 = 107;

/// Highest pitch in sixteenths of a semitone.
pub const MAX_PITCH: i32 = 1727;

/// The arpeggio changes step three times per frame.
pub const ARP_SAMPLES: u32 = 245;

/// Samples of one frame.
pub const FRAME_SAMPLES: u32 = 735;

/// Envelope level resolution: 24 bits, so a 255-frame attack still steps.
pub const ENV_ONE: u32 = 0x100_0000;

#[derive(Debug, Clone, Copy, PartialEq, Eq, Structural)]
pub enum Wave {
    Pulse,
    Triangle,
    Saw,
    Sine,
    Noise,
}

/// The waveform of a name.
pub open spec fn wave_named(s: Seq<char>) -> Option<Wave> {
    if s == "pulse"@ || s == "square"@ {
        Some(Wave::Pulse)
    } else if s == "tri"@ || s == "triangle"@ {
        Some(Wave::Triangle)
    } else if s == "saw"@ {
        Some(Wave::Saw)
    } else if s == "sine"@ {
        Some(Wave::Sine)
    } else if s == "noise"@ {
        Some(Wave::Noise)
    } else {
        None
    }
}

impl Wave {
    pub fn parse(s: &str) -> (w: Option<Wave>)
        ensures
            w == wave_named(s@),
    {
        if str_eq(s, "pulse") || str_eq(s, "square") {
            Some(Wave::Pulse)
        } else if str_eq(s, "tri") || str_eq(s, "triangle") {
            Some(Wave::Triangle)
        } else if str_eq(s, "saw") {
            Some(Wave::Saw)
        } else if str_eq(s, "sine") {
            Some(Wave::Sine)
        } else if str_eq(s, "noise") {
            Some(Wave::Noise)
        } else {
            None
        }
    }
}

/// An instrument as a tracker file defines it. Times are in frames.
#[derive(Debug, Clone, Copy, PartialEq, Eq)]
pub struct Patch {
    pub wave: Wave,
    /// Pulse duty in 1/256ths of the period; 128 is a square.
    pub duty: u8,
    pub attack: u8,
    pub decay: u8,
    /// Sustain level, 0..=255 of the peak.
    pub sustain: u8,
    pub release: u8,
    /// Pitch slide in sixteenths of a semitone per frame.
    pub slide: i16,
    /// Arpeggio offsets in semitones, cycled three times per frame; all
    /// zero means none.
    pub arp: [i8; 3],
}

impl Patch {
    /// A square wave at full level without slide or arpeggio.
    pub open spec fn is_plain(self) -> bool {
        &&& self.wave == Wave::Pulse
        &&& self.duty == 128
        &&& self.attack == 0
        &&& self.decay == 0
        &&& self.sustain == 255
        &&& self.release == 0
        &&& self.slide == 0
        &&& self.arp@ == seq![0i8, 0, 0]
    }

    /// Whether there is an arpeggio.
    pub open spec fn arpeggiates(self) -> bool {
        self.arp@[0] != 0 || self.arp@[1] != 0 || self.arp@[2] != 0
    }

    pub fn has_arp(&self) -> (r: bool)
        ensures
            r == self.arpeggiates(),
    {
        self.arp[0] != 0 || self.arp[1] != 0 || self.arp[2] != 0
    }
}

impl Default for Patch {
    fn default() -> (p: Patch)
        ensures
            p.is_plain(),
    {
        let arp: [i8; 3] = [0, 0, 0];
        assert(arp@ =~= seq![0i8, 0, 0]);
        Patch {
            wave: Wave::Pulse,
            duty: 128,
            attack: 0,
            decay: 0,
            sustain: 255,
            release: 0,
            slide: 0,
            arp,
        }
    }
}

/// The phase increment of a pitch: that of octave 8, halved once per
/// octave below; pitches out of range count as the nearest in range.
pub open spec fn pitch_increment(note_x16: int) -> u32 {
    let n = clamp(note_x16, 0, MAX_PITCH as int);
    let octave = n / 192;
    OCTAVE_8_INC@[n % 192] >> ((8 - octave) as u32)
}

/// Phase increment per sample for a pitch in sixteenths of a semitone
/// above C-0; clamps to the supported range.
pub fn increment(note_x16: i32) -> (inc: u32)
    ensures
        inc == pitch_increment(note_x16 as int),
{
    let n: u32 = clamped(note_x16 as i64, 0, MAX_PITCH as i64) as u32;
    let octave: u32 = n / 192;
    OCTAVE_8_INC[(n % 192) as usize] >> (8 - octave)
}

/// Where a voice is in its envelope.
#[derive(Debug, Clone, Copy, PartialEq, Eq, Structural)]
pub enum Stage {
    Attack,
    Decay,
    Sustain,
    Release,
    Off,
}

/// One sounding synth note.
#[derive(Debug, Clone, Copy)]
pub struct SynthVoice {
    pub patch: Patch,
    /// The pitch in sixteenths of a semitone, moved by the slide.
    pub slid_x16: i32,
    pub phase: u32,
    pub inc: u32,
    pub lfsr: u16,
    pub noise_bit: i32,
    pub noise_clock: u32,
    pub arp_index: usize,
    pub arp_countdown: u32,
    pub stage: Stage,
    pub level: u32,
    pub attack_step: u32,
    pub decay_step: u32,
    pub release_step: u32,
    pub sustain_level: u32,
}

/// Per-sample envelope step that crosses `span` of level in `frames`.
pub open spec fn envelope_step(frames: u8, span: int) -> int {
    if frames == 0 {
        ENV_ONE as int
    } else {
        let n = span / (frames * FRAME_SAMPLES);
        if n < 1 {
            1
        } else {
            n
        }
    }
}

fn step_for(frames: u8, span: u32) -> (n: u32)
    ensures
        n == envelope_step(frames, span as int),
{
    if frames == 0 {
        return ENV_ONE;
    }
    assert(frames * FRAME_SAMPLES <= 255 * 735) by (nonlinear_arith)
        requires
            frames <= 255,
            FRAME_SAMPLES == 735,
    ;
    assert(frames * FRAME_SAMPLES > 0) by (nonlinear_arith)
        requires
            frames > 0,
            FRAME_SAMPLES == 735,
    ;
    let n: u32 = span / (frames as u32 * FRAME_SAMPLES);
    if n < 1 {
        1
    } else {
        n
    }
}

impl SynthVoice {
    /// What every voice keeps: its pitch, register, arpeggio and levels
    /// within their ranges.
    pub open spec fn wf(self) -> bool {
        &&& 0 <= self.slid_x16 <= MAX_PITCH
        &&& self.lfsr < 0x8000
        &&& self.noise_bit == 1 || self.noise_bit == -1
        &&& self.arp_index < 3
        &&& 1 <= self.arp_countdown <= ARP_SAMPLES
        &&& self.level <= ENV_ONE
        &&& self.sustain_level <= ENV_ONE
    }

    /// The pitch with the current step of the arpeggio.
    pub open spec fn sounding_pitch(self) -> int {
        self.slid_x16 + (if self.patch.arpeggiates() {
            self.patch.arp@[self.arp_index as int] * 16
        } else {
            0
        })
    }

    /// The voice with its increment set to its pitch.
    pub open spec fn retuned(self) -> SynthVoice {
        SynthVoice { inc: pitch_increment(self.sounding_pitch()), ..self }
    }

    /// A note at its start.
    pub open spec fn started(patch: Patch, note: u8) -> SynthVoice {
        let sustain = patch.sustain * ENV_ONE / 255;
        SynthVoice {
            patch,
            slid_x16: ((if note < MAX_NOTE {
                note
            } else {
                MAX_NOTE
            }) * 16) as i32,
            phase: 0,
            inc: 0,
            lfsr: NOISE_SEED,
            noise_bit: 1,
            noise_clock: 0,
            arp_index: 0,
            arp_countdown: ARP_SAMPLES,
            stage: Stage::Attack,
            level: 0,
            attack_step: envelope_step(patch.attack, ENV_ONE as int) as u32,
            decay_step: envelope_step(patch.decay, ENV_ONE - sustain) as u32,
            release_step: envelope_step(patch.release, ENV_ONE as int) as u32,
            sustain_level: sustain as u32,
        }.retuned()
    }

    pub fn new(patch: Patch, note: u8) -> (v: SynthVoice)
        ensures
            v == SynthVoice::started(patch, note),
            v.wf(),
    {
        let base: u8 = if note < MAX_NOTE { note } else { MAX_NOTE };
        let sustain_level: u32 = ((patch.sustain as u64 * ENV_ONE as u64) / 255) as u32;
        let mut v = SynthVoice {
            patch,
            slid_x16: base as i32 * 16,
            phase: 0,
            inc: 0,
            lfsr: NOISE_SEED,
            noise_bit: 1,
            noise_clock: 0,
            arp_index: 0,
            arp_countdown: ARP_SAMPLES,
            stage: Stage::Attack,
            level: 0,
            attack_step: step_for(patch.attack, ENV_ONE),
            decay_step: step_for(patch.decay, ENV_ONE - sustain_level),
            release_step: step_for(patch.release, ENV_ONE),
            sustain_level,
        };
        v.retune();
        v
    }

    /// The voice in its release stage, unless it is done already.
    pub open spec fn released(self) -> SynthVoice {
        SynthVoice { stage: if self.stage == Stage::Off { Stage::Off } else { Stage::Release }, ..self }
    }

    /// Enter the release stage; the voice is done when the level hits 0.
    pub fn release(&mut self)
        ensures
            *final(self) == old(self).released(),
    {
        if self.stage != Stage::Off {
            self.stage = Stage::Release;
        }
    }

    pub fn is_off(&self) -> (r: bool)
        ensures
            r == (self.stage == Stage::Off),
    {
        self.stage == Stage::Off
    }

    /// The voice a frame later: the slide moves the pitch.
    pub open spec fn ticked(self) -> SynthVoice {
        if self.patch.slide != 0 {
            SynthVoice {
                slid_x16: clamp(self.slid_x16 + self.patch.slide, 0, MAX_PITCH as int) as i32,
                ..self
            }.retuned()
        } else {
            self
        }
    }

    /// Once per frame: the slide moves the pitch.
    pub fn tick_frame(&mut self)
        requires
            old(self).wf(),
        ensures
            *final(self) == old(self).ticked(),
            final(self).wf(),
    {
        if self.patch.slide != 0 {
            self.slid_x16 = clamped(
                self.slid_x16 as i64 + self.patch.slide as i64,
                0,
                MAX_PITCH as i64,
            ) as i32;
            self.retune();
        }
    }

    fn retune(&mut self)
        requires
            0 <= old(self).slid_x16 <= MAX_PITCH,
            old(self).arp_index < 3,
        ensures
            *final(self) == old(self).retuned(),
    {
        let arp: i32 = if self.patch.has_arp() {
            self.patch.arp[self.arp_index] as i32 * 16
        } else {
            0
        };
        self.inc = increment(self.slid_x16 + arp);
    }

    /// The voice after one sample of its envelope.
    pub open spec fn enveloped(self) -> SynthVoice {
        match self.stage {
            Stage::Attack => {
                let n = self.level + self.attack_step;
                if n >= ENV_ONE {
                    SynthVoice { level: ENV_ONE, stage: Stage::Decay, ..self }
                } else {
                    SynthVoice { level: n as u32, ..self }
                }
            },
            Stage::Decay => {
                let n = self.level - self.decay_step;
                if n <= self.sustain_level {
                    SynthVoice { level: self.sustain_level, stage: Stage::Sustain, ..self }
                } else {
                    SynthVoice { level: n as u32, ..self }
                }
            },
            Stage::Release => {
                let n = self.level - self.release_step;
                if n <= 0 {
                    SynthVoice { level: 0, stage: Stage::Off, ..self }
                } else {
                    SynthVoice { level: n as u32, ..self }
                }
            },
            _ => self,
        }
    }

    fn envelope(&mut self) -> (level: u32)
        requires
            old(self).wf(),
        ensures
            *final(self) == old(self).enveloped(),
            final(self).wf(),
            level == final(self).level,
    {
        match self.stage {
            Stage::Attack => {
                self.level = self.level.saturating_add(self.attack_step);
                if self.level >= ENV_ONE {
                    self.level = ENV_ONE;
                    self.stage = Stage::Decay;
                }
            },
            Stage::Decay => {
                self.level = self.level.saturating_sub(self.decay_step);
                if self.level <= self.sustain_level {
                    self.level = self.sustain_level;
                    self.stage = Stage::Sustain;
                }
            },
            Stage::Sustain => {},
            Stage::Release => {
                self.level = self.level.saturating_sub(self.release_step);
                if self.level == 0 {
                    self.stage = Stage::Off;
                }
            },
            Stage::Off => {},
        }
        self.level
    }

    /// The noise register one step on: the two low bits' sum goes in at
    /// the top.
    pub open spec fn shifted(lfsr: u16) -> int {
        lfsr as int / 2 + (lfsr as int + lfsr as int / 2) % 2 * 0x4000
    }

    /// The voice after the noise register was clocked, which happens
    /// whenever the top five phase bits move, so the noise pitch follows
    /// the note.
    pub open spec fn clocked(self) -> SynthVoice {
        let clock = (self.phase as int / 0x800_0000) as u32;
        if self.patch.wave == Wave::Noise && clock != self.noise_clock {
            let lfsr = Self::shifted(self.lfsr);
            SynthVoice {
                noise_clock: clock,
                lfsr: lfsr as u16,
                noise_bit: if lfsr % 2 == 1 {
                    1i32
                } else {
                    -1i32
                },
                ..self
            }
        } else {
            self
        }
    }

    /// The waveform's formula at the current phase.
    pub open spec fn formula(self) -> int {
        let top16 = self.phase as int / 0x1_0000;
        match self.patch.wave {
            Wave::Pulse => if self.phase as int / 0x100_0000 < self.patch.duty {
                32767
            } else {
                -32767
            },
            Wave::Saw => top16 - 32768,
            Wave::Triangle => if top16 < 32768 {
                top16 * 2 - 32767
            } else {
                32767 - (top16 - 32768) * 2
            },
            Wave::Sine => SINE@[self.phase as int / 0x100_0000] as int,
            Wave::Noise => self.noise_bit * 32767,
        }
    }

    /// The raw waveform at the current phase: the formula, within
    /// -32767..=32767.
    pub open spec fn wave_value(self) -> int {
        if self.formula() < -32767 {
            -32767
        } else {
            self.formula()
        }
    }

    /// The raw waveform at the current phase, -32767..=32767.
    pub fn wave(&mut self) -> (w: i32)
        requires
            old(self).wf(),
        ensures
            *final(self) == old(self).clocked(),
            final(self).wf(),
            w == final(self).wave_value(),
            -32767 <= w <= 32767,
    {
        let w: i32 = match self.patch.wave {
            Wave::Pulse => {
                if self.phase / 0x100_0000 < self.patch.duty as u32 {
                    32767
                } else {
                    -32767
                }
            },
            Wave::Saw => (self.phase / 0x1_0000) as i32 - 32768,
            Wave::Triangle => {
                let p: i32 = (self.phase / 0x1_0000) as i32;
                if p < 32768 {
                    p * 2 - 32767
                } else {
                    32767 - (p - 32768) * 2
                }
            },
            Wave::Sine => SINE[(self.phase / 0x100_0000) as usize] as i32,
            Wave::Noise => {
                let clock: u32 = self.phase / 0x800_0000;
                if clock != self.noise_clock {
                    self.noise_clock = clock;
                    let bit: u16 = (self.lfsr % 2 + self.lfsr / 2 % 2) % 2;
                    assert(bit == (self.lfsr as int + self.lfsr as int / 2) % 2);
                    self.lfsr = self.lfsr / 2 + bit * 0x4000;
                    self.noise_bit = if self.lfsr % 2 == 1 { 1 } else { -1 };
                }
                self.noise_bit * 32767
            },
        };
        if w < -32767 {
            -32767
        } else {
            w
        }
    }

    /// The voice with its phase and arpeggio one sample on.
    pub open spec fn advanced(self) -> SynthVoice {
        let v = SynthVoice { phase: ((self.phase + self.inc) % 0x1_0000_0000) as u32, ..self };
        if !v.patch.arpeggiates() {
            v
        } else if v.arp_countdown == 1 {
            SynthVoice {
                arp_countdown: ARP_SAMPLES,
                arp_index: ((v.arp_index + 1) % 3) as usize,
                ..v
            }.retuned()
        } else {
            SynthVoice { arp_countdown: (v.arp_countdown - 1) as u32, ..v }
        }
    }

    /// The voice after one sample: its envelope moves, and unless that
    /// ended it, its waveform and pitch do.
    pub open spec fn stepped(self) -> SynthVoice {
        let v = self.enveloped();
        if self.stage == Stage::Off {
            self
        } else if v.stage == Stage::Off {
            v
        } else {
            v.clocked().advanced()
        }
    }

    /// The sample of that step: the waveform times the level, rounded
    /// down; none once the voice is off.
    pub open spec fn sample(self) -> Option<i32> {
        let v = self.enveloped();
        if v.stage == Stage::Off {
            None
        } else {
            Some((v.clocked().wave_value() * (v.level as int / 256) / 0x1_0000) as i32)
        }
    }

    /// One sample at full volume, or `None` once the voice is off.
    pub fn next_sample(&mut self) -> (r: Option<i32>)
        requires
            old(self).wf(),
        ensures
            *final(self) == old(self).stepped(),
            final(self).wf(),
            r == old(self).sample(),
            r matches Some(s) ==> -32768 <= s <= 32767,
    {
        if self.stage == Stage::Off {
            return None;
        }
        let env = self.envelope();
        if self.stage == Stage::Off {
            return None;
        }
        let w = self.wave();
        let sum: u64 = (self.phase as u64 + self.inc as u64) % 0x1_0000_0000;
        self.phase = sum as u32;
        if self.patch.has_arp() {
            self.arp_countdown -= 1;
            if self.arp_countdown == 0 {
                self.arp_countdown = ARP_SAMPLES;
                self.arp_index = (self.arp_index + 1) % 3;
                self.retune();
            }
        }
        let level: i64 = (env / 256) as i64;
        proof {
            let p = w as int * level as int;
            assert(-32768 * 65536 <= p <= 32767 * 65536) by (nonlinear_arith)
                requires
                    -32768 <= w <= 32767,
                    0 <= level <= 65536,
                    p == w as int * level as int,
            ;
        }
        Some(floor_div(w as i64 * level, 0x1_0000) as i32)
    }
}

/// The waveform keeps within its range, whatever the voice and its phase.
pub proof fn law_a_wave_keeps_its_range(v: SynthVoice)
    requires
        v.wf(),
    ensures
        -32767 <= v.wave_value() <= 32767,
{
}

/// A released voice only gets quieter and, once it is off, stays silent.
pub proof fn law_release_ends(v: SynthVoice)
    requires
        v.wf(),
        v.stage == Stage::Release || v.stage == Stage::Off,
        v.release_step >= 1,
    ensures
        v.stepped().stage == Stage::Release || v.stepped().stage == Stage::Off,
        v.stepped().level <= v.level,
        v.stage == Stage::Release && v.level > 0 ==> v.stepped().level < v.level,
        v.stage == Stage::Off ==> v.stepped() == v && v.sample() is None,
{
}

/// Pitches follow the octaves: an octave down halves the increment,
/// dropping the odd bit, a pitch out of range counts as the nearest in
/// range, and A-4 is 440 Hz.
pub proof fn law_octaves_halve(note_x16: int)
    ensures
        pitch_increment(note_x16) == pitch_increment(clamp(note_x16, 0, MAX_PITCH as int)),
        0 <= note_x16 <= MAX_PITCH - 192 ==> pitch_increment(note_x16) == pitch_increment(
            note_x16 + 192,
        ) >> 1u32,
        note_x16 == 57 * 16 ==> pitch_increment(note_x16) == 42_852_281,
{
    if 0 <= note_x16 <= MAX_PITCH - 192 {
        let x = OCTAVE_8_INC@[note_x16 % 192];
        let k = (7 - note_x16 / 192) as u32;
        assert((note_x16 + 192) % 192 == note_x16 % 192);
        assert((note_x16 + 192) / 192 == note_x16 / 192 + 1);
        let j = (8 - note_x16 / 192) as u32;
        assert(x >> j == (x >> k) >> 1u32) by (bit_vector)
            requires
                k < 8,
                j == k + 1,
        ;
    }
    if note_x16 == 57 * 16 {
        let x = OCTAVE_8_INC@[144];
        assert(x >> 4u32 == x / 16) by (bit_vector);
        assert(x / 16 == 42_852_281);
    }
}

} // verus!
