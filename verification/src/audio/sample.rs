//! PCM samples: a bounded WAV decoder (8 or 16-bit mono PCM only), the
//! per-cart bank with its 2 MB budget, and a voice that plays a sample
//! at a 16.16 fixed-point step with nearest-sample resampling.

use std::rc::Rc;
use vstd::prelude::*;
use vstd::slice::*;
use vstd::string::*;
use super::{AudioError, AudioErrorView};
use crate::shared::{share, Named};
use crate::text::{dec, push_dec};
use crate::wire::{
    from_le, le, lemma_from_le, lemma_from_le_bound, lemma_le_len, lemma_pow256, put_bytes, put_le,
};

verus! {

/// Bytes of sample data (as stored in the files) a cart may hold.
pub const SAMPLE_BUDGET: usize = 2 * 1024 * 1024;

/// Sample rates outside this range are refused.
pub const MIN_RATE: u32 = 4000;

pub const MAX_RATE: u32 = 96_000;

/// Output rate in Hz.
pub const SAMPLE_RATE: u32 = 44_100;

#[derive(Debug, Clone, PartialEq, Eq)]
pub struct Sample {
    pub data: Vec<i16>,
    pub rate: u32,
    /// Bytes charged to the budget: the size of the PCM data in the file.
    pub bytes: usize,
}

/// A sample as plain values.
pub struct SampleView {
    pub data: Seq<i16>,
    pub rate: nat,
    pub bytes: nat,
}

impl View for Sample {
    type V = SampleView;

    open spec fn view(&self) -> SampleView {
        SampleView { data: self.data@, rate: self.rate as nat, bytes: self.bytes as nat }
    }
}

/// The fields of a `fmt ` chunk that are read: format, channels, rate and
/// bits per sample.
pub type Fmt = (nat, nat, nat, nat);

pub open spec fn tag_riff() -> Seq<u8> {
    seq![0x52u8, 0x49, 0x46, 0x46]
}

pub open spec fn tag_wave() -> Seq<u8> {
    seq![0x57u8, 0x41, 0x56, 0x45]
}

pub open spec fn tag_fmt() -> Seq<u8> {
    seq![0x66u8, 0x6d, 0x74, 0x20]
}

pub open spec fn tag_data() -> Seq<u8> {
    seq![0x64u8, 0x61, 0x74, 0x61]
}

pub open spec fn fmt_at(b: Seq<u8>, start: int) -> Fmt {
    (
        from_le(b.subrange(start, start + 2)),
        from_le(b.subrange(start + 2, start + 4)),
        from_le(b.subrange(start + 4, start + 8)),
        from_le(b.subrange(start + 14, start + 16)),
    )
}

/// The last `fmt ` chunk and the one `data` chunk from `pos` on, or what
/// is wrong with a chunk. Chunks are word aligned.
pub open spec fn chunks_from(
    b: Seq<u8>,
    pos: int,
    fmt: Option<Fmt>,
    data: Option<(int, int)>,
) -> Result<(Option<Fmt>, Option<(int, int)>), Seq<char>>
    decreases b.len() + 1 - pos,
{
    if pos + 8 > b.len() {
        Ok((fmt, data))
    } else {
        let id = b.subrange(pos, pos + 4);
        let len = from_le(b.subrange(pos + 4, pos + 8));
        let start = pos + 8;
        let end = start + len;
        let next = end + len % 2;
        if end > usize::MAX {
            Err("chunk overflow"@)
        } else if end > b.len() {
            Err("chunk runs past the end of the file"@)
        } else if id == tag_fmt() {
            if len < 16 {
                Err("fmt chunk too short"@)
            } else {
                chunks_from(b, next, Some(fmt_at(b, start)), data)
            }
        } else if id == tag_data() {
            if data is Some {
                Err("more than one data chunk"@)
            } else {
                chunks_from(b, next, fmt, Some((start, end)))
            }
        } else {
            chunks_from(b, next, fmt, data)
        }
    }
}

/// Unsigned bytes as samples: 128 is silence.
pub open spec fn samples_8(d: Seq<u8>) -> Seq<i16> {
    Seq::new(d.len(), |i: int| ((d[i] - 128) * 256) as i16)
}

/// The signed number that two bytes spell.
pub open spec fn signed_16(lo: u8, hi: u8) -> i16 {
    let n = lo + 256 * hi;
    (if n >= 0x8000 {
        n - 0x1_0000
    } else {
        n
    }) as i16
}

/// Pairs of bytes as samples.
pub open spec fn samples_16(d: Seq<u8>) -> Seq<i16> {
    Seq::new((d.len() / 2) as nat, |i: int| signed_16(d[2 * i], d[2 * i + 1]))
}

/// The sample that a format and data make, or what is wrong with them.
pub open spec fn sample_from(fmt: Fmt, d: Seq<u8>) -> Result<SampleView, Seq<char>> {
    if fmt.0 != 1 {
        Err("only PCM (format 1) is supported"@)
    } else if fmt.1 != 1 {
        Err("only mono samples are supported"@)
    } else if !(MIN_RATE <= fmt.2 <= MAX_RATE) {
        Err("sample rate must be 4000 to 96000 Hz"@)
    } else if d.len() > SAMPLE_BUDGET {
        Err("sample data larger than the 2 MB budget"@)
    } else if fmt.3 == 16 && d.len() % 2 != 0 {
        Err("odd number of bytes in 16-bit data"@)
    } else if fmt.3 != 8 && fmt.3 != 16 {
        Err("only 8 or 16-bit samples are supported"@)
    } else if d.len() == 0 {
        Err("empty sample"@)
    } else {
        Ok(
            SampleView {
                data: if fmt.3 == 8 {
                    samples_8(d)
                } else {
                    samples_16(d)
                },
                rate: fmt.2,
                bytes: d.len(),
            },
        )
    }
}

/// The sample that a WAV file holds, or why it is refused.
pub open spec fn wav(b: Seq<u8>) -> Result<SampleView, Seq<char>> {
    if b.len() > SAMPLE_BUDGET + 4096 {
        Err("file larger than the 2 MB sample budget"@)
    } else if b.len() < 12 || b.subrange(0, 4) != tag_riff() || b.subrange(8, 12) != tag_wave() {
        Err("not a RIFF WAVE file"@)
    } else {
        match chunks_from(b, 12, None, None) {
            Err(e) => Err(e),
            Ok((fmt, data)) => match fmt {
                None => Err("no fmt chunk"@),
                Some(fmt) => match data {
                    None => Err("no data chunk"@),
                    Some((start, end)) => sample_from(fmt, b.subrange(start, end)),
                },
            },
        }
    }
}

/// The little-endian number of `k` bytes at `pos`.
fn number_at(b: &[u8], pos: usize, k: usize) -> (n: u32)
    requires
        pos + k <= b@.len(),
        k <= 4,
    ensures
        n == from_le(b@.subrange(pos as int, pos + k)),
{
    let total: usize = b.len();
    let mut n: u64 = 0;
    let mut i: usize = k;
    let ghost s = b@.subrange(pos as int, pos + k);
    assert(s.skip(k as int) =~= seq![]);
    while i > 0
        invariant
            i <= k <= 4,
            pos + k <= b@.len() == total,
            s == b@.subrange(pos as int, pos + k),
            n == from_le(s.skip(i as int)),
            n < 0x1_0000_0000,
        decreases i,
    {
        i -= 1;
        proof {
            let t = s.skip(i as int);
            assert(t.skip(1) =~= s.skip(i + 1));
            lemma_from_le_bound(t);
            lemma_pow256();
            vstd::arithmetic::power::lemma_pow_increases(256, t.len(), 4);
        }
        n = b[pos + i] as u64 + 256 * n;
    }
    assert(s.skip(0) =~= s);
    n as u32
}

/// Whether four bytes stand at `pos`.
fn tag_at(b: &[u8], pos: usize, t0: u8, t1: u8, t2: u8, t3: u8) -> (r: bool)
    requires
        pos + 4 <= b@.len(),
    ensures
        r == (b@.subrange(pos as int, pos + 4) == seq![t0, t1, t2, t3]),
{
    let ghost s = b@.subrange(pos as int, pos + 4);
    let r = b[pos] == t0 && b[pos + 1] == t1 && b[pos + 2] == t2 && b[pos + 3] == t3;
    proof {
        assert(s[0] == b@[pos as int] && s[1] == b@[pos + 1] && s[2] == b@[pos + 2] && s[3]
            == b@[pos + 3]);
        if r {
            assert(s =~= seq![t0, t1, t2, t3]);
        } else {
            let t = seq![t0, t1, t2, t3];
            assert(s[0] != t[0] || s[1] != t[1] || s[2] != t[2] || s[3] != t[3]);
        }
    }
    r
}

fn refuse(path: &str, why: &str) -> (e: AudioError)
    ensures
        e@ == (AudioErrorView::Sample { path: path@, why: why@ }),
{
    AudioError::Sample { path: path.to_owned(), why: why.to_owned() }
}

fn read_8(d: &[u8]) -> (v: Vec<i16>)
    ensures
        v@ == samples_8(d@),
{
    let mut v: Vec<i16> = Vec::new();
    let mut i: usize = 0;
    while i < d.len()
        invariant
            i <= d@.len(),
            v@ =~= samples_8(d@).take(i as int),
        decreases d.len() - i,
    {
        v.push((d[i] as i16 - 128) * 256);
        i += 1;
    }
    assert(samples_8(d@).take(i as int) =~= samples_8(d@));
    v
}

fn read_16(d: &[u8]) -> (v: Vec<i16>)
    ensures
        v@ == samples_16(d@),
{
    let mut v: Vec<i16> = Vec::new();
    let total: usize = d.len();
    let n: usize = total / 2;
    let mut i: usize = 0;
    while i < n
        invariant
            i <= n,
            d@.len() == total,
            n == total / 2,
            v@ =~= samples_16(d@).take(i as int),
        decreases n - i,
    {
        let x: i32 = d[2 * i] as i32 + 256 * d[2 * i + 1] as i32;
        let x: i32 = if x >= 0x8000 { x - 0x1_0000 } else { x };
        v.push(x as i16);
        i += 1;
    }
    assert(samples_16(d@).take(n as int) =~= samples_16(d@));
    v
}

/// Decode a RIFF WAVE file. Only format 1 (PCM), one channel, 8 or 16
/// bits is accepted; anything else is a `sample_error`.
pub fn decode_wav(path: &str, bytes: &[u8]) -> (r: Result<Sample, AudioError>)
    ensures
        match (r, wav(bytes@)) {
            (Ok(s), Ok(v)) => s@ == v,
            (Err(e), Err(why)) => e@ == (AudioErrorView::Sample { path: path@, why }),
            _ => false,
        },
{
    if bytes.len() > SAMPLE_BUDGET + 4096 {
        return Err(refuse(path, "file larger than the 2 MB sample budget"));
    }
    if bytes.len() < 12 || !tag_at(bytes, 0, 0x52, 0x49, 0x46, 0x46) || !tag_at(
        bytes,
        8,
        0x57,
        0x41,
        0x56,
        0x45,
    ) {
        return Err(refuse(path, "not a RIFF WAVE file"));
    }
    let ghost b = bytes@;
    let mut pos: usize = 12;
    let mut fmt: Option<(u32, u32, u32, u32)> = None;
    let mut data: Option<(usize, usize)> = None;
    let ghost mut gfmt: Option<Fmt> = None;
    let ghost mut gdata: Option<(int, int)> = None;
    while pos + 8 <= bytes.len()
        invariant
            b == bytes@,
            b.len() <= SAMPLE_BUDGET + 4096,
            12 <= pos <= b.len() + 1,
            chunks_from(b, 12, None, None) == chunks_from(b, pos as int, gfmt, gdata),
            match (fmt, gfmt) {
                (Some(f), Some(g)) => f.0 == g.0 && f.1 == g.1 && f.2 == g.2 && f.3 == g.3,
                (None, None) => true,
                _ => false,
            },
            match (data, gdata) {
                (Some(d), Some(g)) => d.0 == g.0 && d.1 == g.1 && d.0 <= d.1 <= b.len(),
                (None, None) => true,
                _ => false,
            },
            wav(b) == (match chunks_from(b, 12, None, None) {
                Err(e) => Err(e),
                Ok((fmt, data)) => match fmt {
                    None => Err("no fmt chunk"@),
                    Some(fmt) => match data {
                        None => Err("no data chunk"@),
                        Some((start, end)) => sample_from(fmt, b.subrange(start, end)),
                    },
                },
            }),
        decreases b.len() + 1 - pos,
    {
        let len = number_at(bytes, pos + 4, 4);
        let start: usize = pos + 8;
        if len as u64 > (usize::MAX - start) as u64 {
            return Err(refuse(path, "chunk overflow"));
        }
        let end: usize = start + len as usize;
        if end > bytes.len() {
            return Err(refuse(path, "chunk runs past the end of the file"));
        }
        if tag_at(bytes, pos, 0x66, 0x6d, 0x74, 0x20) {
            if len < 16 {
                return Err(refuse(path, "fmt chunk too short"));
            }
            fmt = Some(
                (
                    number_at(bytes, start, 2),
                    number_at(bytes, start + 2, 2),
                    number_at(bytes, start + 4, 4),
                    number_at(bytes, start + 14, 2),
                ),
            );
            proof {
                gfmt = Some(fmt_at(b, start as int));
            }
        } else if tag_at(bytes, pos, 0x64, 0x61, 0x74, 0x61) {
            proof {
                assert(tag_data()[0] != tag_fmt()[0]);
            }
            if data.is_some() {
                return Err(refuse(path, "more than one data chunk"));
            }
            data = Some((start, end));
            proof {
                gdata = Some((start as int, end as int));
            }
        }
        pos = end + (len % 2) as usize;
    }
    let fmt = match fmt {
        Some(f) => f,
        None => return Err(refuse(path, "no fmt chunk")),
    };
    let span = match data {
        Some(d) => d,
        None => return Err(refuse(path, "no data chunk")),
    };
    let d = slice_subrange(bytes, span.0, span.1);
    if fmt.0 != 1 {
        return Err(refuse(path, "only PCM (format 1) is supported"));
    }
    if fmt.1 != 1 {
        return Err(refuse(path, "only mono samples are supported"));
    }
    if fmt.2 < MIN_RATE || fmt.2 > MAX_RATE {
        return Err(refuse(path, "sample rate must be 4000 to 96000 Hz"));
    }
    if d.len() > SAMPLE_BUDGET {
        return Err(refuse(path, "sample data larger than the 2 MB budget"));
    }
    let samples = if fmt.3 == 8 {
        read_8(d)
    } else if fmt.3 == 16 {
        if d.len() % 2 != 0 {
            return Err(refuse(path, "odd number of bytes in 16-bit data"));
        }
        read_16(d)
    } else {
        return Err(refuse(path, "only 8 or 16-bit samples are supported"));
    };
    if d.len() == 0 {
        return Err(refuse(path, "empty sample"));
    }
    Ok(Sample { data: samples, rate: fmt.2, bytes: d.len() })
}

/// A decoded sample is not empty, is within the budget and has no more
/// samples than bytes.
pub proof fn lemma_wav_bounds(b: Seq<u8>)
    requires
        wav(b) is Ok,
    ensures
        0 < wav(b)->Ok_0.bytes <= SAMPLE_BUDGET,
        0 < wav(b)->Ok_0.data.len() <= wav(b)->Ok_0.bytes,
        MIN_RATE <= wav(b)->Ok_0.rate <= MAX_RATE,
{
}

/// The cart's decoded samples by path, within [`SAMPLE_BUDGET`].
#[derive(Debug)]
pub struct SampleBank {
    samples: Named<Rc<Sample>>,
    used: usize,
}

/// What a bank holds and the bytes charged for it.
pub struct BankView {
    pub samples: Map<Seq<char>, Rc<Sample>>,
    pub used: nat,
}

impl View for SampleBank {
    type V = BankView;

    closed spec fn view(&self) -> BankView {
        BankView { samples: self.samples@, used: self.used as nat }
    }
}

impl BankView {
    /// Every sample in a bank can be played.
    pub open spec fn wf(self) -> bool {
        &&& self.used <= SAMPLE_BUDGET
        &&& forall|k: Seq<char>|
            self.samples.contains_key(k) ==> (#[trigger] self.samples[k]).data@.len()
                <= SAMPLE_BUDGET
    }
}

impl Default for SampleBank {
    fn default() -> (b: SampleBank)
        ensures
            b@.samples == Map::<Seq<char>, Rc<Sample>>::empty(),
            b@.used == 0,
            b@.wf(),
    {
        SampleBank { samples: Named::new(), used: 0 }
    }
}

/// Why the bank refuses a sample for its size.
pub open spec fn budget_refusal(used: nat, bytes: nat) -> Seq<char> {
    "sample budget exceeded: "@ + dec(used) + " + "@ + dec(bytes) + " bytes of 2097152"@
}

impl SampleBank {
    pub fn get(&self, path: &str) -> (r: Option<Rc<Sample>>)
        ensures
            match r {
                Some(s) => self@.samples.contains_key(path@) && s == self@.samples[path@],
                None => !self@.samples.contains_key(path@),
            },
    {
        match self.samples.get(path) {
            Some(s) => Some(share(s)),
            None => None,
        }
    }

    pub fn used(&self) -> (n: usize)
        ensures
            n == self@.used,
    {
        self.used
    }

    /// Decode and keep a sample, or fail if the budget would overflow.
    pub fn insert(&mut self, path: &str, bytes: &[u8]) -> (r: Result<Rc<Sample>, AudioError>)
        requires
            old(self)@.wf(),
        ensures
            final(self)@.wf(),
            old(self)@.samples.contains_key(path@) ==> r == Ok::<Rc<Sample>, AudioError>(
                old(self)@.samples[path@],
            ) && final(self)@ == old(self)@,
            !old(self)@.samples.contains_key(path@) ==> match (r, wav(bytes@)) {
                (Err(e), Err(why)) => e@ == (AudioErrorView::Sample { path: path@, why })
                    && final(self)@ == old(self)@,
                (Err(e), Ok(v)) => old(self)@.used + v.bytes > SAMPLE_BUDGET && e@ == (
                AudioErrorView::Sample {
                    path: path@,
                    why: budget_refusal(old(self)@.used, v.bytes),
                }) && final(self)@ == old(self)@,
                (Ok(s), Ok(v)) => old(self)@.used + v.bytes <= SAMPLE_BUDGET && s@ == v
                    && final(self)@ == (BankView {
                    samples: old(self)@.samples.insert(path@, s),
                    used: old(self)@.used + v.bytes,
                }),
                _ => false,
            },
    {
        if let Some(s) = self.get(path) {
            return Ok(s);
        }
        let sample = match decode_wav(path, bytes) {
            Ok(s) => s,
            Err(e) => return Err(e),
        };
        proof {
            lemma_wav_bounds(bytes@);
        }
        let total: usize = self.used + sample.bytes;
        if total > SAMPLE_BUDGET {
            let mut why = "sample budget exceeded: ".to_owned();
            push_dec(&mut why, self.used as u64);
            why.append(" + ");
            push_dec(&mut why, sample.bytes as u64);
            why.append(" bytes of 2097152");
            return Err(AudioError::Sample { path: path.to_owned(), why });
        }
        self.used = total;
        let rc = Rc::new(sample);
        self.samples.add_new(path.to_owned(), share(&rc));
        Ok(rc)
    }
}

/// A sample playing once at a fixed step.
#[derive(Debug)]
pub struct SampleVoice {
    pub sample: Rc<Sample>,
    /// Position in 16.16.
    pub pos: u64,
    pub step: u64,
}

/// The step of a sample at a 16.16 pitch: its rate over the output rate,
/// in 16.16, at least one.
pub open spec fn sample_step(rate: u32, pitch: u32) -> int {
    let n = rate * 0x1_0000 * pitch / SAMPLE_RATE as int / 0x1_0000;
    if n < 1 {
        1
    } else {
        n
    }
}

impl SampleVoice {
    pub open spec fn wf(self) -> bool {
        &&& self.sample.data@.len() <= 0xffff_ffff
        &&& 1 <= self.step <= 0x2_0000_0000_0000
        &&& self.pos <= 0x1_0000_0000_0000 + self.step
    }

    /// `pitch` is 16.16; `1 << 16` plays at the file's own rate.
    pub fn new(sample: Rc<Sample>, pitch: u32) -> (v: SampleVoice)
        requires
            sample.data@.len() <= 0xffff_ffff,
        ensures
            v.sample == sample,
            v.pos == 0,
            v.step == sample_step(sample.rate, pitch),
            v.wf(),
    {
        let rate: u32 = sample.rate;
        assert(rate * 0x1_0000 * pitch <= 0xffff_ffff * 0x1_0000 * 0xffff_ffff) by (nonlinear_arith)
            requires
                rate <= 0xffff_ffff,
                pitch <= 0xffff_ffff,
        ;
        assert(rate * 0x1_0000 * pitch >= 0) by (nonlinear_arith);
        let wide: u128 = rate as u128 * 0x1_0000 * pitch as u128;
        let per_second: u128 = wide / SAMPLE_RATE as u128;
        assert(per_second <= 0x1_8000_0000_0000_0000) by {
            assert(wide <= 0x1_0000_0000_0000_0000_0000);
            assert(per_second == wide as int / 44100);
        }
        let step: u128 = per_second / 0x1_0000;
        let step: u64 = if step < 1 { 1 } else { step as u64 };
        SampleVoice { sample, pos: 0, step }
    }

    pub fn is_off(&self) -> (r: bool)
        ensures
            r == (self.pos / 0x1_0000 >= self.sample.data@.len()),
    {
        self.pos / 0x1_0000 >= self.sample.data.len() as u64
    }

    /// The sample under the position, and a step on; `None` behind the
    /// end.
    pub fn next_sample(&mut self) -> (r: Option<i32>)
        requires
            old(self).wf(),
        ensures
            final(self).wf(),
            final(self).sample == old(self).sample,
            final(self).step == old(self).step,
            ({
                let i = old(self).pos as int / 0x1_0000;
                if i < old(self).sample.data@.len() {
                    r == Some(old(self).sample.data@[i] as i32) && final(self).pos == old(self).pos
                        + old(self).step
                } else {
                    r is None && final(self).pos == old(self).pos
                }
            }),
    {
        let i: u64 = self.pos / 0x1_0000;
        if i >= self.sample.data.len() as u64 {
            return None;
        }
        let s = self.sample.data[i as usize];
        self.pos = self.pos + self.step;
        Some(s as i32)
    }
}

/// The bytes of a WAV file.
pub open spec fn wav_bytes(rate: u32, bits: u16, channels: u16, data: Seq<u8>) -> Seq<u8> {
    let block = channels * bits / 8;
    tag_riff() + le((36 + data.len()) as nat, 4) + tag_wave() + tag_fmt() + le(16, 4) + le(1, 2)
        + le(channels as nat, 2) + le(rate as nat, 4) + le((rate * block) as nat, 4) + le(
        block as nat,
        2,
    ) + le(bits as nat, 2) + tag_data() + le(data.len(), 4) + data
}

/// Build a WAV file in memory, for tests and the asset tools.
pub fn encode_wav(rate: u32, bits: u16, channels: u16, data: &[u8]) -> (out: Vec<u8>)
    requires
        channels * bits <= u16::MAX,
        rate * (channels * bits / 8) <= u32::MAX,
        36 + data@.len() <= u32::MAX,
    ensures
        out@ == wav_bytes(rate, bits, channels, data@),
{
    let block: u16 = channels * bits / 8;
    let mut out: Vec<u8> = Vec::new();
    put_bytes(&mut out, &[0x52, 0x49, 0x46, 0x46]);
    put_le(&mut out, 36 + data.len() as u64, 4);
    put_bytes(&mut out, &[0x57, 0x41, 0x56, 0x45]);
    put_bytes(&mut out, &[0x66, 0x6d, 0x74, 0x20]);
    put_le(&mut out, 16, 4);
    put_le(&mut out, 1, 2);
    put_le(&mut out, channels as u64, 2);
    put_le(&mut out, rate as u64, 4);
    put_le(&mut out, (rate * block as u32) as u64, 4);
    put_le(&mut out, block as u64, 2);
    put_le(&mut out, bits as u64, 2);
    put_bytes(&mut out, &[0x64, 0x61, 0x74, 0x61]);
    put_le(&mut out, data.len() as u64, 4);
    put_bytes(&mut out, data);
    assert(out@ =~= wav_bytes(rate, bits, channels, data@));
    out
}

/// A mono file of 8 or 16 bits decodes exactly if its rate is one that is
/// played, it has data, and samples of 16 bits are whole; what it was
/// written with is then what it decodes to.
pub proof fn law_wav_reads_back(rate: u32, bits: u16, data: Seq<u8>)
    requires
        bits == 8 || bits == 16,
        rate * (bits / 8) <= u32::MAX,
        data.len() <= SAMPLE_BUDGET,
    ensures
        wav(wav_bytes(rate, bits, 1, data)) is Ok <==> MIN_RATE <= rate <= MAX_RATE && data.len() > 0
            && (bits == 16 ==> data.len() % 2 == 0),
        wav(wav_bytes(rate, bits, 1, data)) matches Ok(s) ==> s == (SampleView {
            data: if bits == 8 {
                samples_8(data)
            } else {
                samples_16(data)
            },
            rate: rate as nat,
            bytes: data.len(),
        }),
{
    let block = 1 * bits / 8;
    let b = wav_bytes(rate, bits, 1, data);
    lemma_pow256();
    lemma_le_len((36 + data.len()) as nat, 4);
    lemma_le_len(16, 4);
    lemma_le_len(1, 2);
    lemma_le_len(rate as nat, 4);
    lemma_le_len((rate * block) as nat, 4);
    lemma_le_len(block as nat, 2);
    lemma_le_len(bits as nat, 2);
    lemma_le_len(data.len(), 4);
    lemma_from_le(16, 4);
    lemma_from_le(1, 2);
    lemma_from_le(rate as nat, 4);
    lemma_from_le(bits as nat, 2);
    lemma_from_le(data.len(), 4);
    assert(b.len() == 44 + data.len());
    assert(b.subrange(0, 4) =~= tag_riff());
    assert(b.subrange(8, 12) =~= tag_wave());
    assert(b.subrange(12, 16) =~= tag_fmt());
    assert(b.subrange(16, 20) =~= le(16, 4));
    assert(b.subrange(20, 22) =~= le(1, 2));
    assert(b.subrange(22, 24) =~= le(1, 2));
    assert(b.subrange(24, 28) =~= le(rate as nat, 4));
    assert(b.subrange(34, 36) =~= le(bits as nat, 2));
    assert(b.subrange(36, 40) =~= tag_data());
    assert(b.subrange(40, 44) =~= le(data.len(), 4));
    assert(b.subrange(44, 44 + data.len() as int) =~= data);
    let fmt = fmt_at(b, 20);
    let span = (44int, 44 + data.len() as int);
    assert(tag_data()[0] != tag_fmt()[0]);
    let next = 44 + data.len() + data.len() % 2;
    assert(chunks_from(b, next as int, Some(fmt), Some(span)) == Ok::<
        (Option<Fmt>, Option<(int, int)>),
        Seq<char>,
    >((Some(fmt), Some(span))));
    assert(chunks_from(b, 36, Some(fmt), None) == chunks_from(
        b,
        next as int,
        Some(fmt),
        Some(span),
    ));
    assert(chunks_from(b, 12, None, None) == chunks_from(b, 36, Some(fmt), None));
}

} // verus!
