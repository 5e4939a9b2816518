//! The bounded framed protocol between the broker and the worker. One
//! frame is a little-endian `u32` length, a tag byte and the payload; the
//! length covers tag plus payload and may not exceed [`MAX_FRAME`]. Every
//! field is length-checked before it is read and a payload must be
//! consumed exactly.

use vstd::prelude::*;
use vstd::slice::*;
use vstd::string::*;
use vstd::utf8::*;
use crate::console::ConsoleState;
use crate::fault::{Fault, FaultView};
use crate::input::FrameInput;
use crate::meter::FrameProfile;
use crate::palette::{Rgb, PALETTE_SIZE};
use crate::snapshot::{
    default_limits, entries_of, refusal, Entry, Snapshot, SnapshotLimits, MAX_FILES, MAX_FILE_BYTES,
    MAX_TOTAL_BYTES,
};
use crate::text::{dec, hex, push_dec, push_hex, texts};
use crate::wire::{
    at, clipped, field, from_le, lemma_at_split, lemma_field_at, lemma_le_len, lemma_num_at,
    lemma_pow256, lemma_take_at, lemma_text_at, lemma_whole, le, le32, p_field, p_num, p_take,
    p_text, put_bytes, put_field, put_le, put_len, put_text, text_field, Parsed, ProtoError, Reader,
};
use crate::save::{SLOT_BYTES, SLOT_COUNT};

verus! {

/// Save slots as they travel: `(slot, bytes)`, at most one entry per
/// slot, each within the slot size. A `Load` carries the cart's slots as
/// the broker found them; a `Frame` carries what the cart wrote during
/// that frame, for the broker to persist.
pub type Saves = Vec<(u8, Vec<u8>)>;

/// The slots and bytes of a list of saves.
pub open spec fn saves_of(s: Seq<(u8, Vec<u8>)>) -> Seq<(u8, Seq<u8>)> {
    s.map_values(|e: (u8, Vec<u8>)| (e.0, e.1@))
}

/// Bytes the save slots may add to a message: every slot full, framed.
pub const SAVES_BYTES: usize = 8 * (SLOT_BYTES + 5);

/// Largest frame either side accepts: a 1024x1024 frame with palette,
/// log and a frame of audio is about 1.1 MiB; a `Load` carrying a cart at
/// the snapshot limits plus every save slot full is the largest message,
/// so the cap is those limits plus per-entry framing (length prefixes and
/// a name of up to 255 bytes), the slots, and slack.
pub const MAX_FRAME: usize = MAX_TOTAL_BYTES + MAX_FILES * (8 + 255) + SAVES_BYTES + 1024;

/// Largest screen side a `Frame` may claim.
pub const MAX_SIDE: u32 = 1024;

/// Audio samples a `Frame` may carry: one frame's worth.
pub const MAX_AUDIO_SAMPLES: usize = 735;

/// Log lines a `Frame` may carry: a frame's worth and the note that more
/// were dropped.
pub const MAX_LINES: usize = 257;

/// Bytes of one log line.
pub const MAX_LINE_BYTES: usize = 1032;

/// String bounds shared by the encoder and the decoder. The encoder clips
/// to these on a character boundary, so a long cart error message still
/// arrives as a fault rather than being refused as a protocol violation.
pub const MAX_CODE_BYTES: usize = 64;

pub const MAX_FILE_NAME_BYTES: usize = 255;

pub const MAX_MESSAGE_BYTES: usize = 4096;

pub const TAG_LOAD: u8 = 0x01;

pub const TAG_STEP: u8 = 0x02;

pub const TAG_STOP: u8 = 0x03;

pub const TAG_READY: u8 = 0x81;

pub const TAG_FRAME: u8 = 0x82;

pub const TAG_ERROR: u8 = 0x83;

/// One frame of a cart's output, owned: what a headless run keeps and
/// what a worker sends.
#[derive(Debug, Clone, PartialEq, Eq)]
pub struct OwnedFrame {
    pub frame: u64,
    pub width: u32,
    pub height: u32,
    pub pixels: Vec<u8>,
    pub palette: [Rgb; PALETTE_SIZE],
    pub log: Vec<String>,
    pub state: ConsoleState,
    pub profile: FrameProfile,
    pub audio: Vec<i16>,
}

/// What a frame shows, as plain values.
pub struct FrameView {
    pub frame: u64,
    pub width: u32,
    pub height: u32,
    pub pixels: Seq<u8>,
    pub palette: Seq<Seq<u8>>,
    pub log: Seq<Seq<char>>,
    pub fault: Option<FaultView>,
    pub cycles: Seq<u64>,
    pub budget: u64,
    pub lua_mem: u64,
    pub audio: Seq<i16>,
}

/// The channels of each colour of a palette.
pub open spec fn channels(p: Seq<Rgb>) -> Seq<Seq<u8>> {
    p.map_values(|c: Rgb| c@)
}

impl View for OwnedFrame {
    type V = FrameView;

    open spec fn view(&self) -> FrameView {
        FrameView {
            frame: self.frame,
            width: self.width,
            height: self.height,
            pixels: self.pixels@,
            palette: channels(self.palette@),
            log: texts(self.log@),
            fault: self.state@,
            cycles: self.profile.cycles@,
            budget: self.profile.budget,
            lua_mem: self.profile.lua_mem,
            audio: self.audio@,
        }
    }
}

#[derive(Debug, Clone, PartialEq, Eq)]
pub enum Message {
    /// Broker to worker: the whole cart and its save slots.
    Load { snapshot: Snapshot, saves: Saves },
    /// Broker to worker: run one frame with this input.
    Step(FrameInput),
    /// Broker to worker: exit.
    Stop,
    /// Worker to broker: loaded, screen is this size.
    Ready { width: u32, height: u32 },
    /// Worker to broker: one frame, and the slots the cart wrote in it.
    Frame { frame: OwnedFrame, saves: Saves },
    /// Worker to broker: something the worker could not do.
    Error { code: String, message: String },
}

/// What a message says, as plain values.
pub enum MessageView {
    Load { entries: Seq<Entry>, saves: Seq<(u8, Seq<u8>)> },
    Step { buttons: u8 },
    Stop,
    Ready { width: u32, height: u32 },
    Frame { frame: FrameView, saves: Seq<(u8, Seq<u8>)> },
    Error { code: Seq<char>, message: Seq<char> },
}

impl View for Message {
    type V = MessageView;

    open spec fn view(&self) -> MessageView {
        match self {
            Message::Load { snapshot, saves } => MessageView::Load {
                entries: snapshot@,
                saves: saves_of(saves@),
            },
            Message::Step(input) => MessageView::Step { buttons: input.buttons },
            Message::Stop => MessageView::Stop,
            Message::Ready { width, height } => MessageView::Ready {
                width: *width,
                height: *height,
            },
            Message::Frame { frame, saves } => MessageView::Frame {
                frame: frame@,
                saves: saves_of(saves@),
            },
            Message::Error { code, message } => MessageView::Error {
                code: code@,
                message: message@,
            },
        }
    }
}

// ----- encoding -----------------------------------------------------------

pub open spec fn saves_from(s: Seq<(u8, Seq<u8>)>, i: int) -> Seq<u8>
    decreases s.len() - i,
{
    if i >= s.len() {
        seq![]
    } else {
        (seq![s[i].0] + field(s[i].1)) + saves_from(s, i + 1)
    }
}

pub open spec fn saves_bytes(s: Seq<(u8, Seq<u8>)>) -> Seq<u8> {
    le32(s.len()) + saves_from(s, 0)
}

pub open spec fn entries_from(e: Seq<Entry>, i: int) -> Seq<u8>
    decreases e.len() - i,
{
    if i >= e.len() {
        seq![]
    } else {
        (field(encode_utf8(e[i].0)) + field(e[i].1)) + entries_from(e, i + 1)
    }
}

pub open spec fn palette_from(p: Seq<Seq<u8>>, i: int) -> Seq<u8>
    decreases p.len() - i,
{
    if i >= p.len() {
        seq![]
    } else {
        p[i] + palette_from(p, i + 1)
    }
}

pub open spec fn log_from(l: Seq<Seq<char>>, i: int) -> Seq<u8>
    decreases l.len() - i,
{
    if i >= l.len() {
        seq![]
    } else {
        field(encode_utf8(l[i])) + log_from(l, i + 1)
    }
}

pub open spec fn cycles_from(c: Seq<u64>, i: int) -> Seq<u8>
    decreases c.len() - i,
{
    if i >= c.len() {
        seq![]
    } else {
        le(c[i] as nat, 8) + cycles_from(c, i + 1)
    }
}

/// A sample's two's-complement bits.
pub open spec fn sample_bits(s: i16) -> nat {
    if s < 0 {
        (s + 0x1_0000) as nat
    } else {
        s as nat
    }
}

pub open spec fn audio_from(a: Seq<i16>, i: int) -> Seq<u8>
    decreases a.len() - i,
{
    if i >= a.len() {
        seq![]
    } else {
        le(sample_bits(a[i]), 2) + audio_from(a, i + 1)
    }
}

/// The samples a frame carries: at most one frame's worth.
pub open spec fn sent_audio(a: Seq<i16>) -> Seq<i16> {
    if a.len() <= MAX_AUDIO_SAMPLES {
        a
    } else {
        a.take(MAX_AUDIO_SAMPLES as int)
    }
}

pub open spec fn fault_bytes(f: FaultView) -> Seq<u8> {
    text_field(f.code, 64) + text_field(f.file, 255) + le(
        match f.line {
            Some(n) => n as nat,
            None => 0,
        },
        4,
    ) + text_field(f.message, 4096)
}

pub open spec fn state_bytes(f: Option<FaultView>) -> Seq<u8> {
    match f {
        None => seq![0u8],
        Some(f) => seq![1u8] + fault_bytes(f),
    }
}

pub open spec fn log_bytes(l: Seq<Seq<char>>) -> Seq<u8> {
    le32(l.len()) + log_from(l, 0)
}

pub open spec fn profile_bytes(f: FrameView) -> Seq<u8> {
    le(f.budget as nat, 8) + le(f.lua_mem as nat, 8) + cycles_from(f.cycles, 0)
}

pub open spec fn audio_bytes(a: Seq<i16>) -> Seq<u8> {
    le32(a.len()) + audio_from(a, 0)
}

pub open spec fn head_bytes(f: FrameView) -> Seq<u8> {
    le(f.frame as nat, 8) + le(f.width as nat, 4) + le(f.height as nat, 4)
}

pub open spec fn frame_bytes(f: FrameView) -> Seq<u8> {
    head_bytes(f) + f.pixels + palette_from(f.palette, 0) + state_bytes(f.fault) + log_bytes(f.log)
        + profile_bytes(f) + audio_bytes(sent_audio(f.audio))
}

/// A message's tag and payload.
pub open spec fn body(m: MessageView) -> Seq<u8> {
    match m {
        MessageView::Load { entries, saves } => seq![TAG_LOAD] + le32(entries.len())
            + entries_from(entries, 0) + saves_bytes(saves),
        MessageView::Step { buttons } => seq![TAG_STEP] + seq![buttons],
        MessageView::Stop => seq![TAG_STOP],
        MessageView::Ready { width, height } => seq![TAG_READY] + le(width as nat, 4) + le(
            height as nat,
            4,
        ),
        MessageView::Frame { frame, saves } => seq![TAG_FRAME] + frame_bytes(frame) + saves_bytes(
            saves,
        ),
        MessageView::Error { code, message } => seq![TAG_ERROR] + text_field(code, 64)
            + text_field(message, 4096),
    }
}

fn put_saves(out: &mut Vec<u8>, saves: &Saves)
    ensures
        final(out)@ == old(out)@ + saves_bytes(saves_of(saves@)),
{
    let ghost s = saves_of(saves@);
    put_len(out, saves.len());
    let mut i: usize = 0;
    while i < saves.len()
        invariant
            i <= saves@.len(),
            s == saves_of(saves@),
            out@ + saves_from(s, i as int) =~= old(out)@ + saves_bytes(s),
        decreases saves.len() - i,
    {
        let ghost before = out@;
        out.push(saves[i].0);
        put_field(out, saves[i].1.as_slice());
        assert(out@ =~= before + (seq![s[i as int].0] + field(s[i as int].1)));
        i += 1;
    }
    assert(out@ + saves_from(s, i as int) =~= out@);
}

fn put_entries(out: &mut Vec<u8>, entries: &Vec<(String, Vec<u8>)>)
    ensures
        final(out)@ == old(out)@ + entries_from(entries_of(entries@), 0),
{
    let ghost e = entries_of(entries@);
    let mut i: usize = 0;
    while i < entries.len()
        invariant
            i <= entries@.len(),
            e == entries_of(entries@),
            out@ + entries_from(e, i as int) =~= old(out)@ + entries_from(e, 0),
        decreases entries.len() - i,
    {
        let ghost before = out@;
        put_field(out, entries[i].0.as_str().as_bytes());
        put_field(out, entries[i].1.as_slice());
        assert(out@ =~= before + (field(encode_utf8(e[i as int].0)) + field(e[i as int].1)));
        i += 1;
    }
    assert(out@ + entries_from(e, i as int) =~= out@);
}

fn put_palette(out: &mut Vec<u8>, palette: &[Rgb; PALETTE_SIZE])
    ensures
        final(out)@ == old(out)@ + palette_from(channels(palette@), 0),
{
    let ghost p = channels(palette@);
    let mut i: usize = 0;
    while i < PALETTE_SIZE
        invariant
            i <= PALETTE_SIZE,
            p == channels(palette@),
            out@ + palette_from(p, i as int) =~= old(out)@ + palette_from(p, 0),
        decreases PALETTE_SIZE - i,
    {
        let ghost before = out@;
        let rgb = palette[i];
        out.push(rgb[0]);
        out.push(rgb[1]);
        out.push(rgb[2]);
        assert(rgb@ == p[i as int]);
        assert(out@ =~= before + p[i as int]);
        i += 1;
    }
    assert(out@ + palette_from(p, i as int) =~= out@);
}

fn put_state(out: &mut Vec<u8>, state: &ConsoleState)
    ensures
        final(out)@ == old(out)@ + state_bytes(state@),
{
    match state {
        ConsoleState::Running => {
            out.push(0);
        },
        ConsoleState::Faulted(f) => {
            out.push(1);
            put_text(out, f.code.as_str(), MAX_CODE_BYTES);
            put_text(out, f.file.as_str(), MAX_FILE_NAME_BYTES);
            let line: u32 = match f.line {
                Some(n) => n,
                None => 0,
            };
            put_le(out, line as u64, 4);
            put_text(out, f.message.as_str(), MAX_MESSAGE_BYTES);
        },
    }
    assert(out@ =~= old(out)@ + state_bytes(state@));
}

fn put_log(out: &mut Vec<u8>, log: &Vec<String>)
    ensures
        final(out)@ == old(out)@ + log_bytes(texts(log@)),
{
    let ghost l = texts(log@);
    put_len(out, log.len());
    let mut i: usize = 0;
    while i < log.len()
        invariant
            i <= log@.len(),
            l == texts(log@),
            out@ + log_from(l, i as int) =~= old(out)@ + log_bytes(l),
        decreases log.len() - i,
    {
        let ghost before = out@;
        put_field(out, log[i].as_str().as_bytes());
        assert(out@ =~= before + field(encode_utf8(l[i as int])));
        i += 1;
    }
    assert(out@ + log_from(l, i as int) =~= out@);
}

fn put_profile(out: &mut Vec<u8>, f: &OwnedFrame)
    ensures
        final(out)@ == old(out)@ + profile_bytes(f@),
{
    put_le(out, f.profile.budget, 8);
    put_le(out, f.profile.lua_mem, 8);
    let ghost c = f.profile.cycles@;
    let mut i: usize = 0;
    while i < 7
        invariant
            i <= 7,
            c == f.profile.cycles@,
            out@ + cycles_from(c, i as int) =~= old(out)@ + profile_bytes(f@),
        decreases 7 - i,
    {
        let ghost before = out@;
        put_le(out, f.profile.cycles[i], 8);
        assert(out@ =~= before + le(c[i as int] as nat, 8));
        i += 1;
    }
    assert(out@ + cycles_from(c, i as int) =~= out@);
}

fn put_audio(out: &mut Vec<u8>, audio: &Vec<i16>)
    ensures
        final(out)@ == old(out)@ + audio_bytes(sent_audio(audio@)),
{
    let n: usize = if audio.len() <= MAX_AUDIO_SAMPLES { audio.len() } else { MAX_AUDIO_SAMPLES };
    let ghost a = sent_audio(audio@);
    put_len(out, n);
    let mut i: usize = 0;
    while i < n
        invariant
            i <= n <= audio@.len(),
            a == sent_audio(audio@),
            a.len() == n,
            out@ + audio_from(a, i as int) =~= old(out)@ + audio_bytes(a),
        decreases n - i,
    {
        let ghost before = out@;
        let s = audio[i];
        let bits: u64 = if s < 0 { (s as i32 + 0x1_0000) as u64 } else { s as u64 };
        put_le(out, bits, 2);
        assert(out@ =~= before + le(sample_bits(a[i as int]), 2));
        i += 1;
    }
    assert(out@ + audio_from(a, i as int) =~= out@);
}

#[verifier::spinoff_prover]
#[verifier::rlimit(60)]
fn put_body(out: &mut Vec<u8>, msg: &Message)
    ensures
        final(out)@ == old(out)@ + body(msg@),
{
    match msg {
        Message::Load { snapshot, saves } => {
            out.push(TAG_LOAD);
            put_len(out, snapshot.len());
            put_entries(out, snapshot.entries());
            put_saves(out, saves);
        },
        Message::Step(input) => {
            out.push(TAG_STEP);
            out.push(input.buttons);
        },
        Message::Stop => {
            out.push(TAG_STOP);
        },
        Message::Ready { width, height } => {
            out.push(TAG_READY);
            put_le(out, *width as u64, 4);
            put_le(out, *height as u64, 4);
        },
        Message::Frame { frame, saves } => {
            out.push(TAG_FRAME);
            put_le(out, frame.frame, 8);
            put_le(out, frame.width as u64, 4);
            put_le(out, frame.height as u64, 4);
            put_bytes(out, frame.pixels.as_slice());
            put_palette(out, &frame.palette);
            put_state(out, &frame.state);
            put_log(out, &frame.log);
            put_profile(out, frame);
            put_audio(out, &frame.audio);
            put_saves(out, saves);
        },
        Message::Error { code, message } => {
            out.push(TAG_ERROR);
            put_text(out, code.as_str(), MAX_CODE_BYTES);
            put_text(out, message.as_str(), MAX_MESSAGE_BYTES);
        },
    }
    assert(out@ =~= old(out)@ + body(msg@));
}

/// Encode a message as one frame, ready to write.
pub fn encode(msg: &Message) -> (out: Vec<u8>)
    ensures
        out@ == le32(body(msg@).len()) + body(msg@),
{
    let mut payload: Vec<u8> = Vec::new();
    put_body(&mut payload, msg);
    assert(payload@ =~= body(msg@));
    let mut out: Vec<u8> = Vec::new();
    put_len(&mut out, payload.len());
    put_bytes(&mut out, payload.as_slice());
    assert(out@ =~= le32(body(msg@).len()) + body(msg@));
    out
}

// ----- decoding -----------------------------------------------------------

/// Whether a slot is among the saves read so far.
pub open spec fn has_slot(s: Seq<(u8, Seq<u8>)>, slot: u8) -> bool {
    exists|i: int| 0 <= i < s.len() && (#[trigger] s[i]).0 == slot
}

pub open spec fn p_saves_from(
    b: Seq<u8>,
    pos: int,
    count: nat,
    read: Seq<(u8, Seq<u8>)>,
) -> Parsed<Seq<(u8, Seq<u8>)>>
    decreases count - read.len(),
{
    if read.len() >= count {
        Ok((read, pos))
    } else {
        match p_num(b, pos, 1) {
            Err(e) => Err(e),
            Ok((slot, p)) => if slot >= SLOT_COUNT || has_slot(read, slot as u8) {
                Err("save slot "@ + dec(slot) + " refused"@)
            } else {
                match p_field(b, p, SLOT_BYTES as nat) {
                    Err(e) => Err(e),
                    Ok((data, q)) => p_saves_from(b, q, count, read.push((slot as u8, data))),
                }
            },
        }
    }
}

/// Save slots: at most one entry per slot, each within the slot size.
pub open spec fn p_saves(b: Seq<u8>, pos: int) -> Parsed<Seq<(u8, Seq<u8>)>> {
    match p_num(b, pos, 4) {
        Err(e) => Err(e),
        Ok((count, p)) => if count > SLOT_COUNT {
            Err(dec(count) + " save entries, more than 8 slots"@)
        } else {
            p_saves_from(b, p, count, seq![])
        },
    }
}

pub open spec fn p_entries_from(
    b: Seq<u8>,
    pos: int,
    count: nat,
    read: Seq<Entry>,
) -> Parsed<Seq<Entry>>
    decreases count - read.len(),
{
    if read.len() >= count {
        Ok((read, pos))
    } else {
        match p_text(b, pos, 255) {
            Err(e) => Err(e),
            Ok((name, p)) => match p_field(b, p, MAX_FILE_BYTES as nat) {
                Err(e) => Err(e),
                Ok((data, q)) => p_entries_from(b, q, count, read.push((name, data))),
            },
        }
    }
}

pub open spec fn p_load(b: Seq<u8>, pos: int) -> Parsed<MessageView> {
    match p_num(b, pos, 4) {
        Err(e) => Err(e),
        Ok((count, p)) => if count > MAX_FILES {
            Err("too many snapshot entries"@)
        } else {
            match p_entries_from(b, p, count, seq![]) {
                Err(e) => Err(e),
                Ok((entries, q)) => match refusal(entries, default_limits()) {
                    Some((path, message)) => Err("snapshot: "@ + (path + ": "@ + message)),
                    None => match p_saves(b, q) {
                        Err(e) => Err(e),
                        Ok((saves, r)) => Ok((MessageView::Load { entries, saves }, r)),
                    },
                },
            }
        },
    }
}

pub open spec fn p_palette_from(b: Seq<u8>, pos: int, read: Seq<Seq<u8>>) -> Parsed<Seq<Seq<u8>>>
    decreases PALETTE_SIZE - read.len(),
{
    if read.len() >= PALETTE_SIZE {
        Ok((read, pos))
    } else {
        match p_take(b, pos, 3) {
            Err(e) => Err(e),
            Ok((rgb, p)) => p_palette_from(b, p, read.push(rgb)),
        }
    }
}

pub open spec fn p_fault(b: Seq<u8>, pos: int) -> Parsed<FaultView> {
    match p_text(b, pos, 64) {
        Err(e) => Err(e),
        Ok((code, p)) => match p_text(b, p, 255) {
            Err(e) => Err(e),
            Ok((file, q)) => match p_num(b, q, 4) {
                Err(e) => Err(e),
                Ok((line, r)) => match p_text(b, r, 4096) {
                    Err(e) => Err(e),
                    Ok((message, s)) => Ok(
                        (
                            FaultView {
                                code,
                                message,
                                file,
                                line: if line == 0 {
                                    None
                                } else {
                                    Some(line as u32)
                                },
                            },
                            s,
                        ),
                    ),
                },
            },
        },
    }
}

pub open spec fn p_state(b: Seq<u8>, pos: int) -> Parsed<Option<FaultView>> {
    match p_num(b, pos, 1) {
        Err(e) => Err(e),
        Ok((tag, p)) => if tag == 0 {
            Ok((None, p))
        } else if tag == 1 {
            match p_fault(b, p) {
                Err(e) => Err(e),
                Ok((f, q)) => Ok((Some(f), q)),
            }
        } else {
            Err("bad state byte "@ + dec(tag))
        },
    }
}

pub open spec fn p_log_from(b: Seq<u8>, pos: int, count: nat, read: Seq<Seq<char>>) -> Parsed<
    Seq<Seq<char>>,
>
    decreases count - read.len(),
{
    if read.len() >= count {
        Ok((read, pos))
    } else {
        match p_text(b, pos, MAX_LINE_BYTES as nat) {
            Err(e) => Err(e),
            Ok((line, p)) => p_log_from(b, p, count, read.push(line)),
        }
    }
}

pub open spec fn p_log(b: Seq<u8>, pos: int) -> Parsed<Seq<Seq<char>>> {
    match p_num(b, pos, 4) {
        Err(e) => Err(e),
        Ok((count, p)) => if count > MAX_LINES {
            Err("too many log lines"@)
        } else {
            p_log_from(b, p, count, seq![])
        },
    }
}

pub open spec fn p_cycles_from(b: Seq<u8>, pos: int, read: Seq<u64>) -> Parsed<Seq<u64>>
    decreases 7 - read.len(),
{
    if read.len() >= 7 {
        Ok((read, pos))
    } else {
        match p_num(b, pos, 8) {
            Err(e) => Err(e),
            Ok((n, p)) => p_cycles_from(b, p, read.push(n as u64)),
        }
    }
}

/// Budget, heap and the cycles by category.
pub open spec fn p_profile(b: Seq<u8>, pos: int) -> Parsed<(u64, u64, Seq<u64>)> {
    match p_num(b, pos, 8) {
        Err(e) => Err(e),
        Ok((budget, p)) => match p_num(b, p, 8) {
            Err(e) => Err(e),
            Ok((mem, q)) => match p_cycles_from(b, q, seq![]) {
                Err(e) => Err(e),
                Ok((cycles, r)) => Ok(((budget as u64, mem as u64, cycles), r)),
            },
        },
    }
}

/// The sample that two bytes spell.
pub open spec fn sample_of(lo: u8, hi: u8) -> i16 {
    let n = lo + 256 * hi;
    (if n >= 0x8000 {
        n - 0x1_0000
    } else {
        n
    }) as i16
}

pub open spec fn samples_of(s: Seq<u8>) -> Seq<i16> {
    Seq::new((s.len() / 2) as nat, |i: int| sample_of(s[2 * i], s[2 * i + 1]))
}

pub open spec fn p_audio(b: Seq<u8>, pos: int) -> Parsed<Seq<i16>> {
    match p_num(b, pos, 4) {
        Err(e) => Err(e),
        Ok((count, p)) => if count > MAX_AUDIO_SAMPLES {
            Err("too many audio samples"@)
        } else {
            match p_take(b, p, 2 * count) {
                Err(e) => Err(e),
                Ok((s, q)) => Ok((samples_of(s), q)),
            }
        },
    }
}

/// The number of a frame and its size.
pub open spec fn p_head(b: Seq<u8>, pos: int) -> Parsed<(u64, u32, u32)> {
    match p_num(b, pos, 8) {
        Err(e) => Err(e),
        Ok((frame, p)) => match p_num(b, p, 4) {
            Err(e) => Err(e),
            Ok((width, q)) => match p_num(b, q, 4) {
                Err(e) => Err(e),
                Ok((height, r)) => if width == 0 || height == 0 || width > MAX_SIDE || height
                    > MAX_SIDE {
                    Err("frame size "@ + dec(width) + "x"@ + dec(height) + " refused"@)
                } else {
                    Ok(((frame as u64, width as u32, height as u32), r))
                },
            },
        },
    }
}

/// What follows a frame's pixels and palette.
pub open spec fn p_tail(
    b: Seq<u8>,
    pos: int,
    head: (u64, u32, u32),
    pixels: Seq<u8>,
    palette: Seq<Seq<u8>>,
) -> Parsed<MessageView> {
    match p_state(b, pos) {
        Err(e) => Err(e),
        Ok((fault, p)) => match p_log(b, p) {
            Err(e) => Err(e),
            Ok((log, q)) => match p_profile(b, q) {
                Err(e) => Err(e),
                Ok((profile, r)) => match p_audio(b, r) {
                    Err(e) => Err(e),
                    Ok((audio, s)) => match p_saves(b, s) {
                        Err(e) => Err(e),
                        Ok((saves, t)) => Ok(
                            (
                                MessageView::Frame {
                                    frame: FrameView {
                                        frame: head.0,
                                        width: head.1,
                                        height: head.2,
                                        pixels,
                                        palette,
                                        log,
                                        fault,
                                        cycles: profile.2,
                                        budget: profile.0,
                                        lua_mem: profile.1,
                                        audio,
                                    },
                                    saves,
                                },
                                t,
                            ),
                        ),
                    },
                },
            },
        },
    }
}

pub open spec fn p_frame(b: Seq<u8>, pos: int) -> Parsed<MessageView> {
    match p_head(b, pos) {
        Err(e) => Err(e),
        Ok((head, p)) => match p_take(b, p, head.1 as nat * head.2 as nat) {
            Err(e) => Err(e),
            Ok((pixels, q)) => match p_palette_from(b, q, seq![]) {
                Err(e) => Err(e),
                Ok((palette, r)) => p_tail(b, r, head, pixels, palette),
            },
        },
    }
}

pub open spec fn p_ready(b: Seq<u8>, pos: int) -> Parsed<MessageView> {
    match p_num(b, pos, 4) {
        Err(e) => Err(e),
        Ok((width, p)) => match p_num(b, p, 4) {
            Err(e) => Err(e),
            Ok((height, q)) => Ok(
                (MessageView::Ready { width: width as u32, height: height as u32 }, q),
            ),
        },
    }
}

pub open spec fn p_error(b: Seq<u8>, pos: int) -> Parsed<MessageView> {
    match p_text(b, pos, 64) {
        Err(e) => Err(e),
        Ok((code, p)) => match p_text(b, p, 4096) {
            Err(e) => Err(e),
            Ok((message, q)) => Ok((MessageView::Error { code, message }, q)),
        },
    }
}

pub open spec fn p_step(b: Seq<u8>, pos: int) -> Parsed<MessageView> {
    match p_num(b, pos, 1) {
        Err(e) => Err(e),
        Ok((buttons, p)) => Ok((MessageView::Step { buttons: buttons as u8 }, p)),
    }
}

/// A payload under its tag.
pub open spec fn p_payload(b: Seq<u8>, pos: int, tag: nat) -> Parsed<MessageView> {
    if tag == TAG_LOAD {
        p_load(b, pos)
    } else if tag == TAG_STEP {
        p_step(b, pos)
    } else if tag == TAG_STOP {
        Ok((MessageView::Stop, pos))
    } else if tag == TAG_READY {
        p_ready(b, pos)
    } else if tag == TAG_FRAME {
        p_frame(b, pos)
    } else if tag == TAG_ERROR {
        p_error(b, pos)
    } else {
        Err("unknown tag 0x"@ + hex(tag, 2))
    }
}

/// The message that a body spells, or what is wrong with it.
#[verifier::opaque]
pub open spec fn decoded(b: Seq<u8>) -> Result<MessageView, Seq<char>> {
    match p_num(b, 0, 1) {
        Err(e) => Err(e),
        Ok((tag, p)) => match p_payload(b, p, tag) {
            Err(e) => Err(e),
            Ok((m, q)) => if q == b.len() {
                Ok(m)
            } else {
                Err(dec((b.len() - q) as nat) + " trailing bytes in payload"@)
            },
        },
    }
}

fn get_saves<'a>(r: &mut Reader<'a>) -> (res: Result<Saves, ProtoError>)
    requires
        old(r).wf(),
    ensures
        final(r).wf(),
        final(r).buf == old(r).buf,
        match (res, p_saves(old(r).buf@, old(r).pos as int)) {
            (Ok(v), Ok((s, p))) => saves_of(v@) == s && final(r).pos == p,
            (Err(e), Err(m)) => e.message@ == m,
            _ => false,
        },
{
    let ghost b = r.buf@;
    let count = match r.num(4) {
        Ok(n) => n,
        Err(e) => return Err(e),
    };
    if count > SLOT_COUNT as u64 {
        let mut s = String::new();
        push_dec(&mut s, count);
        s.append(" save entries, more than 8 slots");
        assert(s@ =~= dec(count as nat) + " save entries, more than 8 slots"@);
        return Err(ProtoError { message: s });
    }
    let mut out: Saves = Vec::new();
    assert(saves_of(out@) =~= seq![]);
    while (out.len() as u64) < count
        invariant
            r.wf(),
            r.buf == old(r).buf,
            b == r.buf@,
            out@.len() <= count <= 8,
            p_saves(old(r).buf@, old(r).pos as int) == p_saves_from(
                b,
                r.pos as int,
                count as nat,
                saves_of(out@),
            ),
        decreases count - out.len(),
    {
        let ghost read = saves_of(out@);
        let slot: u64 = match r.num(1) {
            Ok(n) => n,
            Err(e) => return Err(e),
        };
        let mut seen = slot >= SLOT_COUNT as u64;
        let mut i: usize = 0;
        while i < out.len()
            invariant
                i <= out@.len(),
                read == saves_of(out@),
                slot < 8 ==> (seen <==> exists|j: int|
                    0 <= j < i && (#[trigger] read[j]).0 == slot as u8),
                slot >= 8 ==> seen,
            decreases out.len() - i,
        {
            assert(read[i as int].0 == out@[i as int].0);
            if out[i].0 as u64 == slot {
                seen = true;
            }
            i += 1;
        }
        if seen {
            let mut s = "save slot ".to_owned();
            push_dec(&mut s, slot);
            s.append(" refused");
            return Err(ProtoError { message: s });
        }
        let bytes = match r.field(SLOT_BYTES) {
            Ok(x) => x,
            Err(e) => return Err(e),
        };
        out.push((slot as u8, slice_to_vec(bytes)));
        assert(saves_of(out@) =~= read.push((slot as u8, bytes@)));
    }
    Ok(out)
}

fn get_load<'a>(r: &mut Reader<'a>) -> (res: Result<Message, ProtoError>)
    requires
        old(r).wf(),
    ensures
        final(r).wf(),
        final(r).buf == old(r).buf,
        match (res, p_load(old(r).buf@, old(r).pos as int)) {
            (Ok(v), Ok((s, p))) => v@ == s && final(r).pos == p,
            (Err(e), Err(m)) => e.message@ == m,
            _ => false,
        },
{
    let ghost b = r.buf@;
    let count = match r.num(4) {
        Ok(n) => n,
        Err(e) => return Err(e),
    };
    if count > MAX_FILES as u64 {
        return Err(ProtoError::new("too many snapshot entries"));
    }
    let ghost start = r.pos as int;
    let mut entries: Vec<(String, Vec<u8>)> = Vec::new();
    assert(entries_of(entries@) =~= seq![]);
    while (entries.len() as u64) < count
        invariant
            r.wf(),
            r.buf == old(r).buf,
            b == r.buf@,
            entries@.len() <= count <= MAX_FILES,
            p_num(old(r).buf@, old(r).pos as int, 4) == Ok::<(nat, int), Seq<char>>(
                (count as nat, start),
            ),
            p_entries_from(b, start, count as nat, seq![]) == p_entries_from(
                b,
                r.pos as int,
                count as nat,
                entries_of(entries@),
            ),
        decreases count - entries.len(),
    {
        let ghost read = entries_of(entries@);
        let name = match r.text(MAX_FILE_NAME_BYTES) {
            Ok(x) => x,
            Err(e) => return Err(e),
        };
        let data = match r.field(MAX_FILE_BYTES) {
            Ok(x) => x,
            Err(e) => return Err(e),
        };
        let ghost entry: Entry = (name@, data@);
        entries.push((name, slice_to_vec(data)));
        assert(entries_of(entries@) =~= read.push(entry));
    }
    let snapshot = match Snapshot::from_entries(entries, SnapshotLimits::default()) {
        Ok(s) => s,
        Err(e) => {
            let mut s = "snapshot: ".to_owned();
            s.append(e.text().as_str());
            return Err(ProtoError { message: s });
        },
    };
    let saves = match get_saves(r) {
        Ok(x) => x,
        Err(e) => return Err(e),
    };
    Ok(Message::Load { snapshot, saves })
}

fn get_palette<'a>(r: &mut Reader<'a>) -> (res: Result<[Rgb; PALETTE_SIZE], ProtoError>)
    requires
        old(r).wf(),
    ensures
        final(r).wf(),
        final(r).buf == old(r).buf,
        match (res, p_palette_from(old(r).buf@, old(r).pos as int, seq![])) {
            (Ok(v), Ok((s, p))) => channels(v@) == s && final(r).pos == p,
            (Err(e), Err(m)) => e.message@ == m,
            _ => false,
        },
{
    let ghost b = r.buf@;
    let mut palette: [Rgb; PALETTE_SIZE] = [[0u8; 3]; 128];
    let mut i: usize = 0;
    assert(channels(palette@).take(0) =~= seq![]);
    while i < PALETTE_SIZE
        invariant
            r.wf(),
            r.buf == old(r).buf,
            b == r.buf@,
            i <= PALETTE_SIZE,
            p_palette_from(b, old(r).pos as int, seq![]) == p_palette_from(
                b,
                r.pos as int,
                channels(palette@).take(i as int),
            ),
        decreases PALETTE_SIZE - i,
    {
        let ghost read = channels(palette@).take(i as int);
        let s = match r.take(3) {
            Ok(x) => x,
            Err(e) => return Err(e),
        };
        let rgb: Rgb = [s[0], s[1], s[2]];
        assert(rgb@ =~= s@);
        palette[i] = rgb;
        i += 1;
        assert(channels(palette@).take(i as int) =~= read.push(s@));
    }
    assert(channels(palette@).take(128) =~= channels(palette@));
    Ok(palette)
}

fn get_state<'a>(r: &mut Reader<'a>) -> (res: Result<ConsoleState, ProtoError>)
    requires
        old(r).wf(),
    ensures
        final(r).wf(),
        final(r).buf == old(r).buf,
        match (res, p_state(old(r).buf@, old(r).pos as int)) {
            (Ok(v), Ok((s, p))) => v@ == s && final(r).pos == p,
            (Err(e), Err(m)) => e.message@ == m,
            _ => false,
        },
{
    proof {
        lemma_pow256();
    }
    let tag = match r.num(1) {
        Ok(n) => n,
        Err(e) => return Err(e),
    };
    if tag == 0 {
        return Ok(ConsoleState::Running);
    }
    if tag != 1 {
        let mut s = "bad state byte ".to_owned();
        push_dec(&mut s, tag);
        return Err(ProtoError { message: s });
    }
    let code = match r.text(MAX_CODE_BYTES) {
        Ok(x) => x,
        Err(e) => return Err(e),
    };
    let file = match r.text(MAX_FILE_NAME_BYTES) {
        Ok(x) => x,
        Err(e) => return Err(e),
    };
    let line = match r.num(4) {
        Ok(n) => n,
        Err(e) => return Err(e),
    };
    let message = match r.text(MAX_MESSAGE_BYTES) {
        Ok(x) => x,
        Err(e) => return Err(e),
    };
    let line: Option<u32> = if line == 0 { None } else { Some(line as u32) };
    Ok(ConsoleState::Faulted(Fault::new(code.as_str(), file.as_str(), line, message.as_str())))
}

fn get_log<'a>(r: &mut Reader<'a>) -> (res: Result<Vec<String>, ProtoError>)
    requires
        old(r).wf(),
    ensures
        final(r).wf(),
        final(r).buf == old(r).buf,
        match (res, p_log(old(r).buf@, old(r).pos as int)) {
            (Ok(v), Ok((s, p))) => texts(v@) == s && final(r).pos == p,
            (Err(e), Err(m)) => e.message@ == m,
            _ => false,
        },
{
    let ghost b = r.buf@;
    let count = match r.num(4) {
        Ok(n) => n,
        Err(e) => return Err(e),
    };
    if count > MAX_LINES as u64 {
        return Err(ProtoError::new("too many log lines"));
    }
    let mut log: Vec<String> = Vec::new();
    assert(texts(log@) =~= seq![]);
    while (log.len() as u64) < count
        invariant
            r.wf(),
            r.buf == old(r).buf,
            b == r.buf@,
            log@.len() <= count <= MAX_LINES,
            p_log(old(r).buf@, old(r).pos as int) == p_log_from(
                b,
                r.pos as int,
                count as nat,
                texts(log@),
            ),
        decreases count - log.len(),
    {
        let ghost read = texts(log@);
        let line = match r.text(MAX_LINE_BYTES) {
            Ok(x) => x,
            Err(e) => return Err(e),
        };
        let ghost l = line@;
        log.push(line);
        assert(texts(log@) =~= read.push(l));
    }
    Ok(log)
}

fn get_profile<'a>(r: &mut Reader<'a>) -> (res: Result<FrameProfile, ProtoError>)
    requires
        old(r).wf(),
    ensures
        final(r).wf(),
        final(r).buf == old(r).buf,
        match (res, p_profile(old(r).buf@, old(r).pos as int)) {
            (Ok(v), Ok((s, p))) => v.budget == s.0 && v.lua_mem == s.1 && v.cycles@ == s.2
                && final(r).pos == p,
            (Err(e), Err(m)) => e.message@ == m,
            _ => false,
        },
{
    proof {
        lemma_pow256();
    }
    let ghost b = r.buf@;
    let budget = match r.num(8) {
        Ok(n) => n,
        Err(e) => return Err(e),
    };
    let lua_mem = match r.num(8) {
        Ok(n) => n,
        Err(e) => return Err(e),
    };
    let ghost start = r.pos as int;
    let mut cycles: [u64; 7] = [0, 0, 0, 0, 0, 0, 0];
    let mut i: usize = 0;
    assert(cycles@.take(0) =~= seq![]);
    while i < 7
        invariant
            r.wf(),
            r.buf == old(r).buf,
            b == r.buf@,
            i <= 7,
            p_profile(b, old(r).pos as int) == (match p_cycles_from(b, start, seq![]) {
                Err(e) => Err(e),
                Ok((cycles, p)) => Ok::<((u64, u64, Seq<u64>), int), Seq<char>>(
                    ((budget, lua_mem, cycles), p),
                ),
            }),
            p_cycles_from(b, start, seq![]) == p_cycles_from(
                b,
                r.pos as int,
                cycles@.take(i as int),
            ),
        decreases 7 - i,
    {
        let ghost read = cycles@.take(i as int);
        let n = match r.num(8) {
            Ok(n) => n,
            Err(e) => return Err(e),
        };
        cycles[i] = n;
        i += 1;
        assert(cycles@.take(i as int) =~= read.push(n));
    }
    assert(cycles@.take(7) =~= cycles@);
    Ok(FrameProfile { cycles, budget, lua_mem })
}

fn get_audio<'a>(r: &mut Reader<'a>) -> (res: Result<Vec<i16>, ProtoError>)
    requires
        old(r).wf(),
    ensures
        final(r).wf(),
        final(r).buf == old(r).buf,
        match (res, p_audio(old(r).buf@, old(r).pos as int)) {
            (Ok(v), Ok((s, p))) => v@ == s && final(r).pos == p,
            (Err(e), Err(m)) => e.message@ == m,
            _ => false,
        },
{
    let count = match r.num(4) {
        Ok(n) => n,
        Err(e) => return Err(e),
    };
    if count > MAX_AUDIO_SAMPLES as u64 {
        return Err(ProtoError::new("too many audio samples"));
    }
    let n = count as usize;
    let s = match r.take(2 * n) {
        Ok(x) => x,
        Err(e) => return Err(e),
    };
    let mut audio: Vec<i16> = Vec::new();
    let mut i: usize = 0;
    while i < n
        invariant
            i <= n <= MAX_AUDIO_SAMPLES,
            s@.len() == 2 * n,
            audio@ =~= samples_of(s@).take(i as int),
        decreases n - i,
    {
        let v: i32 = s[2 * i] as i32 + 256 * s[2 * i + 1] as i32;
        let v: i32 = if v >= 0x8000 { v - 0x1_0000 } else { v };
        audio.push(v as i16);
        i += 1;
    }
    assert(samples_of(s@).take(n as int) =~= samples_of(s@));
    Ok(audio)
}

fn get_frame<'a>(r: &mut Reader<'a>) -> (res: Result<Message, ProtoError>)
    requires
        old(r).wf(),
    ensures
        final(r).wf(),
        final(r).buf == old(r).buf,
        match (res, p_frame(old(r).buf@, old(r).pos as int)) {
            (Ok(v), Ok((s, p))) => v@ == s && final(r).pos == p,
            (Err(e), Err(m)) => e.message@ == m,
            _ => false,
        },
{
    proof {
        lemma_pow256();
    }
    let frame = match r.num(8) {
        Ok(n) => n,
        Err(e) => return Err(e),
    };
    let width = match r.num(4) {
        Ok(n) => n,
        Err(e) => return Err(e),
    };
    let height = match r.num(4) {
        Ok(n) => n,
        Err(e) => return Err(e),
    };
    if width == 0 || height == 0 || width > MAX_SIDE as u64 || height > MAX_SIDE as u64 {
        let mut s = "frame size ".to_owned();
        push_dec(&mut s, width);
        s.append("x");
        push_dec(&mut s, height);
        s.append(" refused");
        return Err(ProtoError { message: s });
    }
    assert(width * height <= 1024 * 1024) by (nonlinear_arith)
        requires
            width <= 1024,
            height <= 1024,
    ;
    let pixels = match r.take(width as usize * height as usize) {
        Ok(x) => x,
        Err(e) => return Err(e),
    };
    let palette = match get_palette(r) {
        Ok(x) => x,
        Err(e) => return Err(e),
    };
    let state = match get_state(r) {
        Ok(x) => x,
        Err(e) => return Err(e),
    };
    let log = match get_log(r) {
        Ok(x) => x,
        Err(e) => return Err(e),
    };
    let profile = match get_profile(r) {
        Ok(x) => x,
        Err(e) => return Err(e),
    };
    let audio = match get_audio(r) {
        Ok(x) => x,
        Err(e) => return Err(e),
    };
    let saves = match get_saves(r) {
        Ok(x) => x,
        Err(e) => return Err(e),
    };
    Ok(
        Message::Frame {
            frame: OwnedFrame {
                frame,
                width: width as u32,
                height: height as u32,
                pixels: slice_to_vec(pixels),
                palette,
                log,
                state,
                profile,
                audio,
            },
            saves,
        },
    )
}

fn get_payload<'a>(r: &mut Reader<'a>, tag: u64) -> (res: Result<Message, ProtoError>)
    requires
        old(r).wf(),
        tag < 256,
    ensures
        final(r).wf(),
        final(r).buf == old(r).buf,
        match (res, p_payload(old(r).buf@, old(r).pos as int, tag as nat)) {
            (Ok(v), Ok((s, p))) => v@ == s && final(r).pos == p,
            (Err(e), Err(m)) => e.message@ == m,
            _ => false,
        },
{
    proof {
        lemma_pow256();
    }
    if tag == TAG_LOAD as u64 {
        get_load(r)
    } else if tag == TAG_STEP as u64 {
        match r.num(1) {
            Ok(n) => Ok(Message::Step(FrameInput::new(n as u8))),
            Err(e) => Err(e),
        }
    } else if tag == TAG_STOP as u64 {
        Ok(Message::Stop)
    } else if tag == TAG_READY as u64 {
        let width = match r.num(4) {
            Ok(n) => n,
            Err(e) => return Err(e),
        };
        let height = match r.num(4) {
            Ok(n) => n,
            Err(e) => return Err(e),
        };
        Ok(Message::Ready { width: width as u32, height: height as u32 })
    } else if tag == TAG_FRAME as u64 {
        get_frame(r)
    } else if tag == TAG_ERROR as u64 {
        let code = match r.text(MAX_CODE_BYTES) {
            Ok(x) => x,
            Err(e) => return Err(e),
        };
        let message = match r.text(MAX_MESSAGE_BYTES) {
            Ok(x) => x,
            Err(e) => return Err(e),
        };
        Ok(Message::Error { code, message })
    } else {
        let mut s = "unknown tag 0x".to_owned();
        push_hex(&mut s, tag, 2);
        Err(ProtoError { message: s })
    }
}

/// Decode one frame's body (tag plus payload).
pub fn decode(payload: &[u8]) -> (res: Result<Message, ProtoError>)
    ensures
        match (res, decoded(payload@)) {
            (Ok(v), Ok(m)) => v@ == m,
            (Err(e), Err(m)) => e.message@ == m,
            _ => false,
        },
{
    proof {
        reveal(decoded);
        lemma_pow256();
    }
    let mut r = Reader { buf: payload, pos: 0 };
    let tag = match r.num(1) {
        Ok(n) => n,
        Err(e) => return Err(e),
    };
    let msg = match get_payload(&mut r, tag) {
        Ok(m) => m,
        Err(e) => return Err(e),
    };
    if r.pos == payload.len() {
        Ok(msg)
    } else {
        let mut s = String::new();
        push_dec(&mut s, (payload.len() - r.pos) as u64);
        s.append(" trailing bytes in payload");
        assert(s@ =~= dec((payload@.len() - r.pos) as nat) + " trailing bytes in payload"@);
        Err(ProtoError { message: s })
    }
}

/// Errors from reading a frame: the stream broke or the bytes were wrong.
#[derive(Debug, Clone, PartialEq, Eq)]
pub enum ReadError {
    Io(String),
    Proto(ProtoError),
}

/// What is said of a read error.
pub enum ReadErrorView {
    Io(Seq<char>),
    Proto(Seq<char>),
}

impl View for ReadError {
    type V = ReadErrorView;

    open spec fn view(&self) -> ReadErrorView {
        match self {
            ReadError::Io(e) => ReadErrorView::Io(e@),
            ReadError::Proto(e) => ReadErrorView::Proto(e.message@),
        }
    }
}

impl ReadError {
    /// What went wrong, in words.
    pub fn text(&self) -> (s: String)
        ensures
            s@ == (match self@ {
                ReadErrorView::Io(e) => "pipe: "@ + e,
                ReadErrorView::Proto(e) => "protocol: "@ + e,
            }),
    {
        match self {
            ReadError::Io(e) => {
                let mut s = "pipe: ".to_owned();
                s.append(e.as_str());
                s
            },
            ReadError::Proto(e) => {
                let mut s = "protocol: ".to_owned();
                s.append(e.message.as_str());
                s
            },
        }
    }
}

/// Whether a frame may be this long: one that has a tag and is within
/// the cap.
pub open spec fn length_ok(n: int) -> bool {
    0 < n <= MAX_FRAME
}

/// What is said of a frame that may not.
pub open spec fn length_refused(n: nat) -> Seq<char> {
    "frame length "@ + dec(n) + " refused (max "@ + dec(MAX_FRAME as nat) + ")"@
}

/// The length of a frame's body from its header, or its refusal.
pub fn frame_length(header: u32) -> (r: Result<usize, ProtoError>)
    ensures
        match r {
            Ok(n) => n == header && length_ok(header as int),
            Err(e) => !length_ok(header as int) && e.message@ == length_refused(header as nat),
        },
{
    let n = header as usize;
    if n == 0 || n > MAX_FRAME {
        let mut s = "frame length ".to_owned();
        push_dec(&mut s, header as u64);
        s.append(" refused (max ");
        push_dec(&mut s, MAX_FRAME as u64);
        s.append(")");
        return Err(ProtoError { message: s });
    }
    Ok(n)
}

/// The first frame of a stream and the place behind it: nothing where the
/// stream ends before a frame, an error for a header that breaks off, a
/// length that is refused, a body that breaks off, or a body that does not
/// decode.
pub open spec fn first_frame(b: Seq<u8>) -> Result<Option<(MessageView, int)>, ReadErrorView> {
    if b.len() == 0 {
        Ok(None)
    } else if b.len() < 4 {
        Err(ReadErrorView::Io("failed to fill whole buffer"@))
    } else {
        let n = from_le(b.take(4));
        if !length_ok(n as int) {
            Err(ReadErrorView::Proto(length_refused(n)))
        } else if b.len() < 4 + n {
            Err(ReadErrorView::Io("failed to fill whole buffer"@))
        } else {
            match decoded(b.subrange(4, 4 + n as int)) {
                Ok(m) => Ok(Some((m, 4 + n as int))),
                Err(e) => Err(ReadErrorView::Proto(e)),
            }
        }
    }
}

/// Read one frame from the bytes of a stream. `Ok(None)` on a clean end
/// of stream before a frame.
pub fn read_frame(stream: &[u8]) -> (r: Result<Option<(Message, usize)>, ReadError>)
    ensures
        match (r, first_frame(stream@)) {
            (Ok(None), Ok(None)) => true,
            (Ok(Some((m, n))), Ok(Some((v, p)))) => m@ == v && n == p,
            (Err(e), Err(v)) => e@ == v,
            _ => false,
        },
{
    if stream.len() == 0 {
        return Ok(None);
    }
    if stream.len() < 4 {
        return Err(ReadError::Io("failed to fill whole buffer".to_owned()));
    }
    proof {
        lemma_pow256();
        assert(stream@.take(4) =~= stream@.subrange(0, 4));
    }
    let mut header = Reader { buf: stream, pos: 0 };
    let n = match header.num(4) {
        Ok(n) => n,
        Err(e) => return Err(ReadError::Proto(e)),
    };
    let n = match frame_length(n as u32) {
        Ok(n) => n,
        Err(e) => return Err(ReadError::Proto(e)),
    };
    if stream.len() - 4 < n {
        return Err(ReadError::Io("failed to fill whole buffer".to_owned()));
    }
    match decode(slice_subrange(stream, 4, 4 + n)) {
        Ok(m) => Ok(Some((m, 4 + n))),
        Err(e) => Err(ReadError::Proto(e)),
    }
}

// ----- what arrives of what was sent ----------------------------------------

/// Saves that the decoder accepts.
pub open spec fn saves_ok(s: Seq<(u8, Seq<u8>)>) -> bool {
    &&& s.len() <= SLOT_COUNT
    &&& forall|i: int|
        0 <= i < s.len() ==> (#[trigger] s[i]).0 < SLOT_COUNT && s[i].1.len() <= SLOT_BYTES
    &&& forall|i: int, j: int| 0 <= i < j < s.len() ==> (#[trigger] s[i]).0 != (#[trigger] s[j]).0
}

/// Cart entries that the decoder accepts.
pub open spec fn entries_ok(e: Seq<Entry>) -> bool {
    &&& e.len() <= MAX_FILES
    &&& forall|i: int|
        0 <= i < e.len() ==> encode_utf8((#[trigger] e[i]).0).len() <= 255 && e[i].1.len()
            <= MAX_FILE_BYTES
    &&& refusal(e, default_limits()) is None
}

/// A frame that the decoder accepts.
pub open spec fn frame_ok(f: FrameView) -> bool {
    &&& 1 <= f.width <= MAX_SIDE
    &&& 1 <= f.height <= MAX_SIDE
    &&& f.pixels.len() == f.width * f.height
    &&& f.palette.len() == PALETTE_SIZE
    &&& forall|i: int| 0 <= i < PALETTE_SIZE ==> (#[trigger] f.palette[i]).len() == 3
    &&& f.log.len() <= MAX_LINES
    &&& forall|i: int|
        0 <= i < f.log.len() ==> encode_utf8(#[trigger] f.log[i]).len() <= MAX_LINE_BYTES
    &&& f.cycles.len() == 7
}

/// A message that the decoder accepts.
pub open spec fn sendable(m: MessageView) -> bool {
    match m {
        MessageView::Load { entries, saves } => entries_ok(entries) && saves_ok(saves),
        MessageView::Frame { frame, saves } => frame_ok(frame) && saves_ok(saves),
        _ => true,
    }
}

/// What arrives of a fault: its texts clipped, line 0 as no line.
pub open spec fn sent_fault(f: FaultView) -> FaultView {
    FaultView {
        code: clipped(f.code, 64),
        message: clipped(f.message, 4096),
        file: clipped(f.file, 255),
        line: if f.line == Some(0u32) {
            None
        } else {
            f.line
        },
    }
}

/// What arrives of a message: everything, but for long texts of a fault
/// or an error, which are clipped, and audio beyond one frame.
pub open spec fn sent(m: MessageView) -> MessageView {
    match m {
        MessageView::Frame { frame, saves } => MessageView::Frame {
            frame: FrameView {
                fault: match frame.fault {
                    Some(f) => Some(sent_fault(f)),
                    None => None,
                },
                audio: sent_audio(frame.audio),
                ..frame
            },
            saves,
        },
        MessageView::Error { code, message } => MessageView::Error {
            code: clipped(code, 64),
            message: clipped(message, 4096),
        },
        _ => m,
    }
}

proof fn lemma_byte_at(b: Seq<u8>, pos: int, v: u8)
    requires
        at(b, pos, seq![v]),
    ensures
        p_num(b, pos, 1) == Ok::<(nat, int), Seq<char>>((v as nat, pos + 1)),
{
    lemma_pow256();
    assert(le(v as nat, 1) =~= seq![v]) by {
        assert(le(v as nat / 256, 0) =~= seq![]);
    }
    lemma_num_at(b, pos, v as nat, 1);
}

proof fn lemma_plain_text_at(b: Seq<u8>, pos: int, s: Seq<char>, max: nat)
    requires
        at(b, pos, field(encode_utf8(s))),
        encode_utf8(s).len() <= max,
        max < 0x1_0000_0000,
    ensures
        p_text(b, pos, max) == Ok::<(Seq<char>, int), Seq<char>>(
            (s, pos + field(encode_utf8(s)).len()),
        ),
{
    let e = encode_utf8(s);
    encode_utf8_decode_utf8(s);
    assert(e.take(e.len() as int) =~= e);
    lemma_text_at(b, pos, s, max);
}

proof fn lemma_saves_from_at(b: Seq<u8>, pos: int, s: Seq<(u8, Seq<u8>)>, i: int)
    requires
        saves_ok(s),
        0 <= i <= s.len(),
        at(b, pos, saves_from(s, i)),
    ensures
        p_saves_from(b, pos, s.len(), s.take(i)) == Ok::<(Seq<(u8, Seq<u8>)>, int), Seq<char>>(
            (s, pos + saves_from(s, i).len()),
        ),
    decreases s.len() - i,
{
    if i == s.len() {
        assert(s.take(i) =~= s);
    } else {
        let slot = s[i].0;
        let head = seq![slot];
        let data = field(s[i].1);
        let rest = saves_from(s, i + 1);
        lemma_at_split(b, pos, head + data, rest);
        lemma_at_split(b, pos, head, data);
        lemma_byte_at(b, pos, slot);
        lemma_field_at(b, pos + 1, s[i].1, SLOT_BYTES as nat);
        let read = s.take(i);
        assert(!has_slot(read, slot));
        assert(read.push((slot, s[i].1)) =~= s.take(i + 1));
        lemma_saves_from_at(b, pos + (head + data).len(), s, i + 1);
    }
}

proof fn lemma_saves_at(b: Seq<u8>, pos: int, s: Seq<(u8, Seq<u8>)>)
    requires
        saves_ok(s),
        at(b, pos, saves_bytes(s)),
    ensures
        p_saves(b, pos) == Ok::<(Seq<(u8, Seq<u8>)>, int), Seq<char>>(
            (s, pos + saves_bytes(s).len()),
        ),
{
    lemma_pow256();
    lemma_le_len(s.len(), 4);
    lemma_at_split(b, pos, le32(s.len()), saves_from(s, 0));
    lemma_num_at(b, pos, s.len(), 4);
    assert(s.take(0) =~= seq![]);
    lemma_saves_from_at(b, pos + 4, s, 0);
}

proof fn lemma_entries_from_at(b: Seq<u8>, pos: int, e: Seq<Entry>, i: int)
    requires
        entries_ok(e),
        0 <= i <= e.len(),
        at(b, pos, entries_from(e, i)),
    ensures
        p_entries_from(b, pos, e.len(), e.take(i)) == Ok::<(Seq<Entry>, int), Seq<char>>(
            (e, pos + entries_from(e, i).len()),
        ),
    decreases e.len() - i,
{
    if i == e.len() {
        assert(e.take(i) =~= e);
    } else {
        let name = field(encode_utf8(e[i].0));
        let data = field(e[i].1);
        lemma_at_split(b, pos, name + data, entries_from(e, i + 1));
        lemma_at_split(b, pos, name, data);
        lemma_plain_text_at(b, pos, e[i].0, 255);
        lemma_field_at(b, pos + name.len(), e[i].1, MAX_FILE_BYTES as nat);
        assert(e.take(i).push((e[i].0, e[i].1)) =~= e.take(i + 1));
        lemma_entries_from_at(b, pos + (name + data).len(), e, i + 1);
    }
}

proof fn lemma_palette_from_at(b: Seq<u8>, pos: int, p: Seq<Seq<u8>>, i: int)
    requires
        p.len() == PALETTE_SIZE,
        forall|k: int| 0 <= k < PALETTE_SIZE ==> (#[trigger] p[k]).len() == 3,
        0 <= i <= p.len(),
        at(b, pos, palette_from(p, i)),
    ensures
        p_palette_from(b, pos, p.take(i)) == Ok::<(Seq<Seq<u8>>, int), Seq<char>>(
            (p, pos + palette_from(p, i).len()),
        ),
    decreases p.len() - i,
{
    if i == p.len() {
        assert(p.take(i) =~= p);
    } else {
        lemma_at_split(b, pos, p[i], palette_from(p, i + 1));
        lemma_take_at(b, pos, p[i]);
        assert(p.take(i).push(p[i]) =~= p.take(i + 1));
        lemma_palette_from_at(b, pos + 3, p, i + 1);
    }
}

proof fn lemma_log_from_at(b: Seq<u8>, pos: int, l: Seq<Seq<char>>, i: int)
    requires
        forall|k: int|
            0 <= k < l.len() ==> encode_utf8(#[trigger] l[k]).len() <= MAX_LINE_BYTES,
        0 <= i <= l.len(),
        at(b, pos, log_from(l, i)),
    ensures
        p_log_from(b, pos, l.len(), l.take(i)) == Ok::<(Seq<Seq<char>>, int), Seq<char>>(
            (l, pos + log_from(l, i).len()),
        ),
    decreases l.len() - i,
{
    if i == l.len() {
        assert(l.take(i) =~= l);
    } else {
        let line = field(encode_utf8(l[i]));
        lemma_at_split(b, pos, line, log_from(l, i + 1));
        lemma_plain_text_at(b, pos, l[i], MAX_LINE_BYTES as nat);
        assert(l.take(i).push(l[i]) =~= l.take(i + 1));
        lemma_log_from_at(b, pos + line.len(), l, i + 1);
    }
}

proof fn lemma_log_at(b: Seq<u8>, pos: int, l: Seq<Seq<char>>)
    requires
        l.len() <= MAX_LINES,
        forall|k: int|
            0 <= k < l.len() ==> encode_utf8(#[trigger] l[k]).len() <= MAX_LINE_BYTES,
        at(b, pos, log_bytes(l)),
    ensures
        p_log(b, pos) == Ok::<(Seq<Seq<char>>, int), Seq<char>>((l, pos + log_bytes(l).len())),
{
    lemma_pow256();
    lemma_le_len(l.len(), 4);
    lemma_at_split(b, pos, le32(l.len()), log_from(l, 0));
    lemma_num_at(b, pos, l.len(), 4);
    assert(l.take(0) =~= seq![]);
    lemma_log_from_at(b, pos + 4, l, 0);
}

proof fn lemma_cycles_from_at(b: Seq<u8>, pos: int, c: Seq<u64>, i: int)
    requires
        c.len() == 7,
        0 <= i <= 7,
        at(b, pos, cycles_from(c, i)),
    ensures
        p_cycles_from(b, pos, c.take(i)) == Ok::<(Seq<u64>, int), Seq<char>>(
            (c, pos + cycles_from(c, i).len()),
        ),
    decreases 7 - i,
{
    if i == 7 {
        assert(c.take(i) =~= c);
    } else {
        lemma_pow256();
        lemma_le_len(c[i] as nat, 8);
        lemma_at_split(b, pos, le(c[i] as nat, 8), cycles_from(c, i + 1));
        lemma_num_at(b, pos, c[i] as nat, 8);
        assert(c.take(i).push(c[i]) =~= c.take(i + 1));
        lemma_cycles_from_at(b, pos + 8, c, i + 1);
    }
}

proof fn lemma_profile_at(b: Seq<u8>, pos: int, f: FrameView)
    requires
        f.cycles.len() == 7,
        at(b, pos, profile_bytes(f)),
    ensures
        p_profile(b, pos) == Ok::<((u64, u64, Seq<u64>), int), Seq<char>>(
            ((f.budget, f.lua_mem, f.cycles), pos + profile_bytes(f).len()),
        ),
{
    lemma_pow256();
    let x = le(f.budget as nat, 8);
    let y = le(f.lua_mem as nat, 8);
    lemma_le_len(f.budget as nat, 8);
    lemma_le_len(f.lua_mem as nat, 8);
    lemma_at_split(b, pos, x + y, cycles_from(f.cycles, 0));
    lemma_at_split(b, pos, x, y);
    lemma_num_at(b, pos, f.budget as nat, 8);
    lemma_num_at(b, pos + 8, f.lua_mem as nat, 8);
    assert(f.cycles.take(0) =~= seq![]);
    lemma_cycles_from_at(b, pos + 16, f.cycles, 0);
}

proof fn lemma_audio_from(a: Seq<i16>, i: int)
    requires
        0 <= i <= a.len(),
    ensures
        audio_from(a, i).len() == 2 * (a.len() - i),
        samples_of(audio_from(a, i)) == a.skip(i),
    decreases a.len() - i,
{
    if i < a.len() {
        lemma_audio_from(a, i + 1);
        let n = sample_bits(a[i]);
        let two = le(n, 2);
        assert(two =~= seq![(n % 256) as u8, (n / 256 % 256) as u8]) by {
            assert(le(n / 256, 1) =~= seq![(n / 256 % 256) as u8]) by {
                assert(le(n / 256 / 256, 0) =~= seq![]);
            }
        }
        let rest = audio_from(a, i + 1);
        let all = audio_from(a, i);
        assert(sample_of(two[0], two[1]) == a[i]);
        assert forall|k: int| 0 <= k < a.len() - i implies #[trigger] samples_of(all)[k] == a.skip(
            i,
        )[k] by {
            if k > 0 {
                assert(all[2 * k] == rest[2 * (k - 1)]);
                assert(all[2 * k + 1] == rest[2 * (k - 1) + 1]);
                assert(samples_of(rest)[k - 1] == a.skip(i + 1)[k - 1]);
            }
        }
        assert(samples_of(all) =~= a.skip(i));
    } else {
        assert(samples_of(audio_from(a, i)) =~= a.skip(i));
    }
}

proof fn lemma_audio_at(b: Seq<u8>, pos: int, a: Seq<i16>)
    requires
        a.len() <= MAX_AUDIO_SAMPLES,
        at(b, pos, audio_bytes(a)),
    ensures
        p_audio(b, pos) == Ok::<(Seq<i16>, int), Seq<char>>((a, pos + audio_bytes(a).len())),
{
    lemma_pow256();
    lemma_le_len(a.len(), 4);
    lemma_at_split(b, pos, le32(a.len()), audio_from(a, 0));
    lemma_num_at(b, pos, a.len(), 4);
    lemma_audio_from(a, 0);
    lemma_take_at(b, pos + 4, audio_from(a, 0));
    assert(a.skip(0) =~= a);
}

proof fn lemma_fault_at(b: Seq<u8>, pos: int, f: FaultView)
    requires
        at(b, pos, fault_bytes(f)),
    ensures
        p_fault(b, pos) == Ok::<(FaultView, int), Seq<char>>(
            (sent_fault(f), pos + fault_bytes(f).len()),
        ),
{
    lemma_pow256();
    let line = match f.line {
        Some(n) => n as nat,
        None => 0,
    };
    let x = text_field(f.code, 64);
    let y = text_field(f.file, 255);
    let z = le(line, 4);
    lemma_le_len(line, 4);
    lemma_at_split(b, pos, x + y + z, text_field(f.message, 4096));
    lemma_at_split(b, pos, x + y, z);
    lemma_at_split(b, pos, x, y);
    lemma_text_at(b, pos, f.code, 64);
    lemma_text_at(b, pos + x.len(), f.file, 255);
    lemma_num_at(b, pos + (x + y).len(), line, 4);
    lemma_text_at(b, pos + (x + y + z).len(), f.message, 4096);
}

proof fn lemma_state_at(b: Seq<u8>, pos: int, f: Option<FaultView>)
    requires
        at(b, pos, state_bytes(f)),
    ensures
        p_state(b, pos) == Ok::<(Option<FaultView>, int), Seq<char>>(
            (
                match f {
                    Some(f) => Some(sent_fault(f)),
                    None => None,
                },
                pos + state_bytes(f).len(),
            ),
        ),
{
    match f {
        None => {
            lemma_byte_at(b, pos, 0);
        },
        Some(f) => {
            lemma_at_split(b, pos, seq![1u8], fault_bytes(f));
            lemma_byte_at(b, pos, 1);
            lemma_fault_at(b, pos + 1, f);
        },
    }
}

proof fn lemma_head_at(b: Seq<u8>, pos: int, f: FrameView)
    requires
        frame_ok(f),
        at(b, pos, head_bytes(f)),
    ensures
        p_head(b, pos) == Ok::<((u64, u32, u32), int), Seq<char>>(
            ((f.frame, f.width, f.height), pos + 16),
        ),
        head_bytes(f).len() == 16,
{
    lemma_pow256();
    let x = le(f.frame as nat, 8);
    let y = le(f.width as nat, 4);
    let z = le(f.height as nat, 4);
    lemma_le_len(f.frame as nat, 8);
    lemma_le_len(f.width as nat, 4);
    lemma_le_len(f.height as nat, 4);
    lemma_at_split(b, pos, x + y, z);
    lemma_at_split(b, pos, x, y);
    lemma_num_at(b, pos, f.frame as nat, 8);
    lemma_num_at(b, pos + 8, f.width as nat, 4);
    lemma_num_at(b, pos + 12, f.height as nat, 4);
}

/// Where the parts of a frame stand.
proof fn lemma_frame_parts(b: Seq<u8>, pos: int, f: FrameView, s: Seq<u8>)
    requires
        at(b, pos, frame_bytes(f) + s),
    ensures
        ({
            let p1 = pos + head_bytes(f).len();
            let p2 = p1 + f.pixels.len();
            let p3 = p2 + palette_from(f.palette, 0).len();
            let p4 = p3 + state_bytes(f.fault).len();
            let p5 = p4 + log_bytes(f.log).len();
            let p6 = p5 + profile_bytes(f).len();
            let p7 = p6 + audio_bytes(sent_audio(f.audio)).len();
            &&& at(b, pos, head_bytes(f))
            &&& at(b, p1, f.pixels)
            &&& at(b, p2, palette_from(f.palette, 0))
            &&& at(b, p3, state_bytes(f.fault))
            &&& at(b, p4, log_bytes(f.log))
            &&& at(b, p5, profile_bytes(f))
            &&& at(b, p6, audio_bytes(sent_audio(f.audio)))
            &&& at(b, p7, s)
            &&& p7 + s.len() == pos + (frame_bytes(f) + s).len()
        }),
{
    let head = head_bytes(f);
    let pal = palette_from(f.palette, 0);
    let state = state_bytes(f.fault);
    let log = log_bytes(f.log);
    let profile = profile_bytes(f);
    let audio = audio_bytes(sent_audio(f.audio));
    lemma_at_split(b, pos, frame_bytes(f), s);
    lemma_seven_parts(b, pos, head, f.pixels, pal, state, log, profile, audio);
}

proof fn lemma_seven_parts(
    b: Seq<u8>,
    pos: int,
    e1: Seq<u8>,
    e2: Seq<u8>,
    e3: Seq<u8>,
    e4: Seq<u8>,
    e5: Seq<u8>,
    e6: Seq<u8>,
    e7: Seq<u8>,
)
    requires
        at(b, pos, e1 + e2 + e3 + e4 + e5 + e6 + e7),
    ensures
        at(b, pos, e1),
        at(b, pos + e1.len(), e2),
        at(b, pos + e1.len() + e2.len(), e3),
        at(b, pos + e1.len() + e2.len() + e3.len(), e4),
        at(b, pos + e1.len() + e2.len() + e3.len() + e4.len(), e5),
        at(b, pos + e1.len() + e2.len() + e3.len() + e4.len() + e5.len(), e6),
        at(b, pos + e1.len() + e2.len() + e3.len() + e4.len() + e5.len() + e6.len(), e7),
{
    lemma_at_split(b, pos, e1 + e2 + e3 + e4 + e5 + e6, e7);
    lemma_at_split(b, pos, e1 + e2 + e3 + e4 + e5, e6);
    lemma_at_split(b, pos, e1 + e2 + e3 + e4, e5);
    lemma_at_split(b, pos, e1 + e2 + e3, e4);
    lemma_at_split(b, pos, e1 + e2, e3);
    lemma_at_split(b, pos, e1, e2);
}

#[verifier::rlimit(50)]
#[verifier::spinoff_prover]
proof fn lemma_frame_at(b: Seq<u8>, pos: int, f: FrameView, saves: Seq<(u8, Seq<u8>)>)
    requires
        frame_ok(f),
        saves_ok(saves),
        at(b, pos, frame_bytes(f) + saves_bytes(saves)),
    ensures
        p_frame(b, pos) == Ok::<(MessageView, int), Seq<char>>(
            (
                sent(MessageView::Frame { frame: f, saves }),
                pos + (frame_bytes(f) + saves_bytes(saves)).len(),
            ),
        ),
{
    let p1 = pos + head_bytes(f).len();
    let p2 = p1 + f.pixels.len();
    let p3 = p2 + palette_from(f.palette, 0).len();
    let p4 = p3 + state_bytes(f.fault).len();
    let p5 = p4 + log_bytes(f.log).len();
    let p6 = p5 + profile_bytes(f).len();
    let p7 = p6 + audio_bytes(sent_audio(f.audio)).len();
    lemma_frame_parts(b, pos, f, saves_bytes(saves));
    lemma_head_at(b, pos, f);
    assert(f.width as nat * f.height as nat == f.pixels.len());
    assert(f.palette.take(0) =~= seq![]);
    lemma_take_at(b, p1, f.pixels);
    lemma_palette_from_at(b, p2, f.palette, 0);
    assert(p_frame(b, pos) == p_tail(
        b,
        p3,
        (f.frame, f.width, f.height),
        f.pixels,
        f.palette,
    ));
    lemma_state_at(b, p3, f.fault);
    lemma_log_at(b, p4, f.log);
    lemma_profile_at(b, p5, f);
    lemma_audio_at(b, p6, sent_audio(f.audio));
    lemma_saves_at(b, p7, saves);
}

#[verifier::rlimit(50)]
#[verifier::spinoff_prover]
proof fn lemma_load_at(b: Seq<u8>, pos: int, entries: Seq<Entry>, saves: Seq<(u8, Seq<u8>)>)
    requires
        entries_ok(entries),
        saves_ok(saves),
        at(b, pos, le32(entries.len()) + entries_from(entries, 0) + saves_bytes(saves)),
    ensures
        p_load(b, pos) == Ok::<(MessageView, int), Seq<char>>(
            (
                MessageView::Load { entries, saves },
                pos + (le32(entries.len()) + entries_from(entries, 0) + saves_bytes(saves)).len(),
            ),
        ),
{
    let n = le32(entries.len());
    let e = entries_from(entries, 0);
    let s = saves_bytes(saves);
    lemma_pow256();
    lemma_le_len(entries.len(), 4);
    lemma_at_split(b, pos, n + e, s);
    lemma_at_split(b, pos, n, e);
    lemma_num_at(b, pos, entries.len(), 4);
    assert(entries.take(0) =~= seq![]);
    lemma_entries_from_at(b, pos + 4, entries, 0);
    lemma_saves_at(b, pos + 4 + e.len(), saves);
}

proof fn lemma_load_arrives(entries: Seq<Entry>, saves: Seq<(u8, Seq<u8>)>)
    requires
        entries_ok(entries),
        saves_ok(saves),
    ensures
        decoded(body(MessageView::Load { entries, saves })) == Ok::<MessageView, Seq<char>>(
            MessageView::Load { entries, saves },
        ),
{
    let s = le32(entries.len()) + entries_from(entries, 0) + saves_bytes(saves);
    let b = seq![TAG_LOAD] + s;
    assert(b =~= body(MessageView::Load { entries, saves }));
    lemma_whole(b);
    lemma_at_split(b, 0, seq![TAG_LOAD], s);
    lemma_byte_at(b, 0, TAG_LOAD);
    lemma_load_at(b, 1, entries, saves);
    assert(p_payload(b, 1, TAG_LOAD as nat) == p_load(b, 1));
    reveal(decoded);
}

#[verifier::spinoff_prover]
#[verifier::rlimit(100)]
proof fn lemma_frame_arrives(frame: FrameView, saves: Seq<(u8, Seq<u8>)>)
    requires
        frame_ok(frame),
        saves_ok(saves),
    ensures
        decoded(body(MessageView::Frame { frame, saves })) == Ok::<MessageView, Seq<char>>(
            sent(MessageView::Frame { frame, saves }),
        ),
{
    let f = frame_bytes(frame);
    let s = saves_bytes(saves);
    let b = seq![TAG_FRAME] + (f + s);
    assert(b =~= body(MessageView::Frame { frame, saves }));
    lemma_whole(b);
    lemma_at_split(b, 0, seq![TAG_FRAME], f + s);
    lemma_byte_at(b, 0, TAG_FRAME);
    lemma_frame_at(b, 1, frame, saves);
    assert(p_payload(b, 1, TAG_FRAME as nat) == p_frame(b, 1));
    reveal(decoded);
}

proof fn lemma_error_arrives(code: Seq<char>, message: Seq<char>)
    ensures
        decoded(body(MessageView::Error { code, message })) == Ok::<MessageView, Seq<char>>(
            sent(MessageView::Error { code, message }),
        ),
{
    let c = text_field(code, 64);
    let m = text_field(message, 4096);
    let b = seq![TAG_ERROR] + c + m;
    assert(b =~= body(MessageView::Error { code, message }));
    lemma_whole(b);
    lemma_at_split(b, 0, seq![TAG_ERROR] + c, m);
    lemma_at_split(b, 0, seq![TAG_ERROR], c);
    lemma_byte_at(b, 0, TAG_ERROR);
    lemma_text_at(b, 1, code, 64);
    lemma_text_at(b, 1 + c.len() as int, message, 4096);
    assert(p_payload(b, 1, TAG_ERROR as nat) == p_error(b, 1));
    reveal(decoded);
}

proof fn lemma_small_arrives(m: MessageView)
    requires
        m is Step || m is Stop || m is Ready,
    ensures
        decoded(body(m)) == Ok::<MessageView, Seq<char>>(m),
{
    reveal(decoded);
    let b = body(m);
    lemma_pow256();
    lemma_whole(b);
    match m {
        MessageView::Step { buttons } => {
            lemma_at_split(b, 0, seq![TAG_STEP], seq![buttons]);
            lemma_byte_at(b, 0, TAG_STEP);
            lemma_byte_at(b, 1, buttons);
        },
        MessageView::Ready { width, height } => {
            let w = le(width as nat, 4);
            let h = le(height as nat, 4);
            lemma_le_len(width as nat, 4);
            lemma_le_len(height as nat, 4);
            lemma_at_split(b, 0, seq![TAG_READY] + w, h);
            lemma_at_split(b, 0, seq![TAG_READY], w);
            lemma_byte_at(b, 0, TAG_READY);
            lemma_num_at(b, 1, width as nat, 4);
            lemma_num_at(b, 5, height as nat, 4);
        },
        _ => {
            lemma_byte_at(b, 0, TAG_STOP);
        },
    }
}

/// What a read gives back of a write: a message that the decoder accepts
/// arrives as it was sent, with long fault and error texts clipped rather
/// than refused.
pub proof fn law_messages_arrive(m: MessageView)
    requires
        sendable(m),
    ensures
        decoded(body(m)) == Ok::<MessageView, Seq<char>>(sent(m)),
{
    match m {
        MessageView::Load { entries, saves } => {
            lemma_load_arrives(entries, saves);
        },
        MessageView::Frame { frame, saves } => {
            lemma_frame_arrives(frame, saves);
        },
        MessageView::Error { code, message } => {
            lemma_error_arrives(code, message);
        },
        _ => {
            lemma_small_arrives(m);
        },
    }
}

/// Whether nothing of a message is clipped on the way.
pub open spec fn in_bounds(m: MessageView) -> bool {
    match m {
        MessageView::Frame { frame, saves } => {
            &&& frame.audio.len() <= MAX_AUDIO_SAMPLES
            &&& frame.fault matches Some(f) ==> {
                &&& encode_utf8(f.code).len() <= 64
                &&& encode_utf8(f.file).len() <= 255
                &&& encode_utf8(f.message).len() <= 4096
                &&& f.line != Some(0u32)
            }
        },
        MessageView::Error { code, message } => encode_utf8(code).len() <= 64 && encode_utf8(
            message,
        ).len() <= 4096,
        _ => true,
    }
}

/// A message within the bounds arrives as it was sent: what stands behind
/// the length of its frame decodes to it.
pub proof fn law_a_message_in_bounds_arrives_whole(m: MessageView)
    requires
        sendable(m),
        in_bounds(m),
    ensures
        decoded((le32(body(m).len()) + body(m)).skip(4)) == Ok::<MessageView, Seq<char>>(m),
{
    law_messages_arrive(m);
    lemma_le_len(body(m).len() % 0x1_0000_0000, 4);
    assert((le32(body(m).len()) + body(m)).skip(4) =~= body(m));
    match m {
        MessageView::Frame { frame, saves } => {
            if let Some(f) = frame.fault {
                crate::wire::law_clip_is_the_longest_prefix(f.code, 64);
                crate::wire::law_clip_is_the_longest_prefix(f.file, 255);
                crate::wire::law_clip_is_the_longest_prefix(f.message, 4096);
            }
        },
        MessageView::Error { code, message } => {
            crate::wire::law_clip_is_the_longest_prefix(code, 64);
            crate::wire::law_clip_is_the_longest_prefix(message, 4096);
        },
        _ => {},
    }
}

proof fn lemma_body_has_a_tag(e: Seq<u8>)
    requires
        decoded(e) is Ok,
    ensures
        e.len() >= 1,
{
    if e.len() == 0 {
        assert(p_num(e, 0, 1) is Err);
        reveal(decoded);
    }
}

proof fn lemma_read_back(e: Seq<u8>, m: MessageView, rest: Seq<u8>)
    requires
        decoded(e) == Ok::<MessageView, Seq<char>>(m),
        e.len() <= MAX_FRAME,
    ensures
        first_frame(le32(e.len()) + e + rest) == Ok::<Option<(MessageView, int)>, ReadErrorView>(
            Some((m, 4 + e.len() as int)),
        ),
{
    let b = le32(e.len()) + e + rest;
    lemma_body_has_a_tag(e);
    lemma_pow256();
    lemma_le_len(e.len(), 4);
    crate::wire::lemma_from_le(e.len(), 4);
    assert(b.take(4) =~= le32(e.len()));
    assert(b.subrange(4, 4 + e.len() as int) =~= e);
}

/// A frame on the wire reads back as the message in it, and reading stops
/// right behind it, whatever follows.
pub proof fn law_frames_read_back(m: MessageView, rest: Seq<u8>)
    requires
        sendable(m),
        body(m).len() <= MAX_FRAME,
    ensures
        first_frame(le32(body(m).len()) + body(m) + rest) == Ok::<
            Option<(MessageView, int)>,
            ReadErrorView,
        >(Some((sent(m), 4 + body(m).len() as int))),
{
    law_messages_arrive(m);
    lemma_read_back(body(m), sent(m), rest);
}

/// The bytes of a list of saves, framed.
proof fn lemma_saves_size(s: Seq<(u8, Seq<u8>)>, i: int)
    requires
        saves_ok(s),
        0 <= i <= s.len(),
    ensures
        saves_from(s, i).len() <= (s.len() - i) * (SLOT_BYTES + 5),
    decreases s.len() - i,
{
    if i < s.len() {
        lemma_saves_size(s, i + 1);
        lemma_le_len(s[i].1.len() % 0x1_0000_0000, 4);
        assert((s.len() - i) * (SLOT_BYTES + 5) == (s.len() - i - 1) * (SLOT_BYTES + 5) + (
        SLOT_BYTES + 5)) by (nonlinear_arith);
    }
}

proof fn lemma_entries_size(e: Seq<Entry>, i: int)
    requires
        entries_ok(e),
        0 <= i <= e.len(),
    ensures
        entries_from(e, i).len() <= (e.len() - i) * (8 + 255) + crate::snapshot::bytes_before(
            e,
            e.len() as int,
        ) - crate::snapshot::bytes_before(e, i),
    decreases e.len() - i,
{
    if i < e.len() {
        lemma_entries_size(e, i + 1);
        lemma_le_len(encode_utf8(e[i].0).len() % 0x1_0000_0000, 4);
        lemma_le_len(e[i].1.len() % 0x1_0000_0000, 4);
        assert((e.len() - i) * (8 + 255) == (e.len() - i - 1) * (8 + 255) + (8 + 255))
            by (nonlinear_arith);
    }
}

proof fn lemma_total_within(e: Seq<Entry>, i: int)
    requires
        0 <= i <= e.len(),
        crate::snapshot::refusal_from(e, default_limits(), i) is None,
        crate::snapshot::bytes_before(e, i) <= MAX_TOTAL_BYTES,
    ensures
        crate::snapshot::bytes_before(e, e.len() as int) <= MAX_TOTAL_BYTES,
    decreases e.len() - i,
{
    if i < e.len() {
        lemma_total_within(e, i + 1);
    }
}

/// A cart at the limits with every save slot full still fits in one
/// frame.
pub proof fn law_a_cart_fits_in_one_frame(entries: Seq<Entry>, saves: Seq<(u8, Seq<u8>)>)
    requires
        entries_ok(entries),
        saves_ok(saves),
    ensures
        body(MessageView::Load { entries, saves }).len() <= MAX_FRAME,
{
    lemma_le_len(entries.len() % 0x1_0000_0000, 4);
    lemma_le_len(saves.len() % 0x1_0000_0000, 4);
    lemma_entries_size(entries, 0);
    lemma_saves_size(saves, 0);
    lemma_total_within(entries, 0);
    assert(entries.len() * (8 + 255) <= MAX_FILES * (8 + 255)) by (nonlinear_arith)
        requires
            entries.len() <= MAX_FILES,
    ;
    assert(saves.len() * (SLOT_BYTES + 5) <= 8 * (SLOT_BYTES + 5)) by (nonlinear_arith)
        requires
            saves.len() <= 8,
    ;
}

} // verus!
