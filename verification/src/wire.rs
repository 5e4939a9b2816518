//! Bytes as they travel between processes: little-endian numbers,
//! length-prefixed fields, and a reader that checks every length before
//! it reads.

use vstd::prelude::*;
use vstd::arithmetic::power::*;
use vstd::slice::*;
use vstd::string::*;
use vstd::utf8::*;
use crate::text::{dec, push_dec, string_from_utf8};

verus! {

/// The low `k` bytes of `n`, least significant first.
pub open spec fn le(n: nat, k: nat) -> Seq<u8>
    decreases k,
{
    if k == 0 {
        seq![]
    } else {
        seq![(n % 256) as u8] + le(n / 256, (k - 1) as nat)
    }
}

/// The number that bytes spell, least significant first.
pub open spec fn from_le(s: Seq<u8>) -> nat
    decreases s.len(),
{
    if s.len() == 0 {
        0
    } else {
        s[0] as nat + 256 * from_le(s.skip(1))
    }
}

pub proof fn lemma_le_len(n: nat, k: nat)
    ensures
        le(n, k).len() == k,
    decreases k,
{
    if k > 0 {
        lemma_le_len(n / 256, (k - 1) as nat);
    }
}

/// Reading back what `le` wrote gives the number, as far as it fits.
pub proof fn lemma_from_le(n: nat, k: nat)
    requires
        n < pow(256, k),
    ensures
        from_le(le(n, k)) == n,
    decreases k,
{
    if k == 0 {
        lemma_pow0(256);
    } else {
        let m = n / 256;
        let j = (k - 1) as nat;
        lemma_pow1(256);
        lemma_pow_adds(256, j, 1);
        assert(pow(256, k) == pow(256, j) * 256);
        assert(m < pow(256, j));
        lemma_from_le(m, j);
        assert(le(n, k).skip(1) =~= le(m, j));
    }
}

/// How large `k` bytes can get.
pub proof fn lemma_from_le_bound(s: Seq<u8>)
    ensures
        from_le(s) < pow(256, s.len()),
    decreases s.len(),
{
    if s.len() == 0 {
        lemma_pow0(256);
    } else {
        lemma_from_le_bound(s.skip(1));
        lemma_pow1(256);
        lemma_pow_adds(256, (s.len() - 1) as nat, 1);
    }
}

pub proof fn lemma_pow256()
    ensures
        pow(256, 1) == 0x100,
        pow(256, 2) == 0x1_0000,
        pow(256, 4) == 0x1_0000_0000,
        pow(256, 8) == 0x1_0000_0000_0000_0000,
{
    lemma_pow1(256);
    lemma_pow_adds(256, 1, 1);
    lemma_pow_adds(256, 2, 2);
    lemma_pow_adds(256, 4, 4);
    assert(0x1_0000 * 0x1_0000 == 0x1_0000_0000);
    assert(0x1_0000_0000 * 0x1_0000_0000 == 0x1_0000_0000_0000_0000);
}

/// A length as it is written: its low 32 bits.
pub open spec fn le32(n: nat) -> Seq<u8> {
    le(n % 0x1_0000_0000, 4)
}

/// Bytes with their length in front.
pub open spec fn field(b: Seq<u8>) -> Seq<u8> {
    le32(b.len()) + b
}

/// How much of `b` is kept within `max` bytes: all of it if it fits,
/// else as much as ends where a character ends.
pub open spec fn clip_len(b: Seq<u8>, max: nat) -> nat
    decreases max,
{
    if b.len() <= max {
        b.len()
    } else if max == 0 || is_char_boundary(b, max as int) {
        max
    } else {
        clip_len(b, (max - 1) as nat)
    }
}

/// A text cut to at most `max` bytes, between characters.
pub open spec fn clipped(s: Seq<char>, max: nat) -> Seq<char> {
    let b = encode_utf8(s);
    decode_utf8(b.take(clip_len(b, max) as int))
}

/// A text field: clipped, then its UTF-8 bytes with their length.
pub open spec fn text_field(s: Seq<char>, max: nat) -> Seq<u8> {
    let b = encode_utf8(s);
    field(b.take(clip_len(b, max) as int))
}

/// A clipped text fits.
pub proof fn lemma_clipped_fits(t: Seq<char>, max: nat)
    ensures
        encode_utf8(clipped(t, max)).len() <= max,
{
    let b = encode_utf8(t);
    encode_utf8_valid_utf8(t);
    lemma_clip(b, max);
    decode_utf8_encode_utf8(b.take(clip_len(b, max) as int));
}

pub proof fn lemma_clip(b: Seq<u8>, max: nat)
    requires
        valid_utf8(b),
    ensures
        clip_len(b, max) <= max,
        clip_len(b, max) <= b.len(),
        is_char_boundary(b, clip_len(b, max) as int),
        valid_utf8(b.take(clip_len(b, max) as int)),
        forall|k: int|
            clip_len(b, max) < k <= max && k <= b.len() ==> !#[trigger] is_char_boundary(b, k),
    decreases max,
{
    is_char_boundary_start_end_of_seq(b);
    if b.len() <= max {
    } else if max == 0 || is_char_boundary(b, max as int) {
    } else {
        lemma_clip(b, (max - 1) as nat);
    }
    valid_utf8_split(b, clip_len(b, max) as int);
    assert(b.take(clip_len(b, max) as int) =~= b.subrange(0, clip_len(b, max) as int));
}

/// A text that fits is not cut; one that does not is cut to a prefix
/// that fits, and no longer prefix would.
pub proof fn law_clip_is_the_longest_prefix(s: Seq<char>, max: nat)
    ensures
        encode_utf8(s).len() <= max ==> clipped(s, max) == s,
        encode_utf8(clipped(s, max)).len() <= max,
        clipped(s, max).is_prefix_of(s),
        forall|n: int|
            clipped(s, max).len() < n <= s.len() ==> encode_utf8(#[trigger] s.take(n)).len() > max,
{
    let b = encode_utf8(s);
    encode_utf8_valid_utf8(s);
    encode_utf8_decode_utf8(s);
    lemma_clip(b, max);
    let k = clip_len(b, max) as int;
    assert(b.take(k) =~= b.subrange(0, k));
    decode_utf8_encode_utf8(b.take(k));
    decode_utf8_split(b, k);
    if b.len() <= max {
        assert(b.take(k) =~= b);
    }
    let c = clipped(s, max);
    assert(s =~= c + decode_utf8(b.subrange(k, b.len() as int)));
    assert forall|n: int| c.len() < n <= s.len() implies encode_utf8(#[trigger] s.take(n)).len()
        > max by {
        lemma_prefix_boundary(s, n);
        lemma_prefix_boundary(s, c.len() as int);
        assert(s.take(c.len() as int) =~= c);
        lemma_prefix_grows(s, c.len() as int, n);
        let m = encode_utf8(s.take(n)).len();
        if m <= max {
            assert(is_char_boundary(b, m as int));
        }
    }
}

/// The bytes of a prefix end on a character boundary.
pub proof fn lemma_prefix_boundary(s: Seq<char>, n: int)
    requires
        0 <= n <= s.len(),
    ensures
        is_char_boundary(encode_utf8(s), encode_utf8(s.take(n)).len() as int),
        encode_utf8(s.take(n)).len() <= encode_utf8(s).len(),
    decreases n,
{
    encode_utf8_valid_utf8(s);
    let b = encode_utf8(s);
    if n > 0 {
        let rest = s.drop_first();
        lemma_prefix_boundary(rest, n - 1);
        encode_utf8_first_scalar(s);
        let p = s.take(n);
        assert(p.drop_first() =~= rest.take(n - 1));
        assert(p[0] == s[0]);
        assert(pop_first_scalar(b) =~= encode_utf8(rest));
        let m = encode_utf8(p).len() as int;
        assert(m == encode_scalar(s[0] as u32).len() + encode_utf8(rest.take(n - 1)).len());
    }
}

/// A longer prefix has more bytes.
pub proof fn lemma_prefix_grows(s: Seq<char>, a: int, n: int)
    requires
        0 <= a < n <= s.len(),
    ensures
        encode_utf8(s.take(a)).len() < encode_utf8(s.take(n)).len(),
    decreases a,
{
    let p = s.take(n);
    assert(p[0] == s[0]);
    if a == 0 {
        assert(encode_scalar(s[0] as u32).len() >= 1);
    } else {
        let q = s.take(a);
        let rest = s.drop_first();
        assert(p.drop_first() =~= rest.take(n - 1));
        assert(q.drop_first() =~= rest.take(a - 1));
        lemma_prefix_grows(rest, a - 1, n - 1);
    }
}

// ----- writing --------------------------------------------------------------

pub fn put_bytes(out: &mut Vec<u8>, b: &[u8])
    ensures
        final(out)@ == old(out)@ + b@,
{
    out.extend_from_slice(b);
    assert(out@ =~= old(out)@ + b@);
}

/// Append the low `k` bytes of `n`.
pub fn put_le(out: &mut Vec<u8>, n: u64, k: usize)
    ensures
        final(out)@ == old(out)@ + le(n as nat, k as nat),
{
    let mut m = n;
    let mut i: usize = 0;
    while i < k
        invariant
            i <= k,
            out@ + le(m as nat, (k - i) as nat) =~= old(out)@ + le(n as nat, k as nat),
        decreases k - i,
    {
        let ghost before = out@;
        out.push((m % 256) as u8);
        assert(out@ + le((m / 256) as nat, (k - i - 1) as nat) =~= before + le(
            m as nat,
            (k - i) as nat,
        ));
        m = m / 256;
        i += 1;
    }
    assert(out@ =~= out@ + le(m as nat, 0));
}

/// Append a length.
pub fn put_len(out: &mut Vec<u8>, n: usize)
    ensures
        final(out)@ == old(out)@ + le32(n as nat),
{
    put_le(out, n as u64 % 0x1_0000_0000, 4)
}

/// Append bytes with their length in front.
pub fn put_field(out: &mut Vec<u8>, b: &[u8])
    ensures
        final(out)@ == old(out)@ + field(b@),
{
    put_len(out, b.len());
    put_bytes(out, b);
    assert(out@ =~= old(out)@ + field(b@));
}

/// The longest prefix of `s` within `max` bytes that ends on a char
/// boundary.
pub fn clip<'a>(s: &'a str, max: usize) -> (r: &'a str)
    ensures
        r@ == clipped(s@, max as nat),
        encode_utf8(r@) == encode_utf8(s@).take(clip_len(encode_utf8(s@), max as nat) as int),
{
    let ghost b = encode_utf8(s@);
    proof {
        encode_utf8_valid_utf8(s@);
        encode_utf8_decode_utf8(s@);
        lemma_clip(b, max as nat);
    }
    if s.as_bytes().len() <= max {
        assert(b.take(b.len() as int) =~= b);
        return s;
    }
    let mut end: usize = max;
    proof {
        is_char_boundary_start_end_of_seq(b);
    }
    while !s.is_char_boundary(end)
        invariant
            b == encode_utf8(s@),
            is_char_boundary(b, 0),
            end <= max < b.len(),
            clip_len(b, max as nat) == clip_len(b, end as nat),
        decreases end,
    {
        end -= 1;
    }
    let (head, tail) = s.split_at(end);
    proof {
        encode_utf8_decode_utf8(head@);
        assert(b.take(end as int) =~= b.subrange(0, end as int));
    }
    head
}

/// Append a text field.
pub fn put_text(out: &mut Vec<u8>, s: &str, max: usize)
    ensures
        final(out)@ == old(out)@ + text_field(s@, max as nat),
{
    let c = clip(s, max);
    put_field(out, c.as_bytes());
}

// ----- reading --------------------------------------------------------------

/// Bytes from the other side were wrong.
#[derive(Debug, Clone, PartialEq, Eq)]
pub struct ProtoError {
    pub message: String,
}

impl ProtoError {
    pub fn new(m: &str) -> (e: ProtoError)
        ensures
            e.message@ == m@,
    {
        ProtoError { message: m.to_owned() }
    }

    /// What went wrong, in words.
    pub fn text(&self) -> (s: String)
        ensures
            s@ == self.message@,
    {
        self.message.clone()
    }
}

/// What reading gives: a value and the place behind it, or why not.
pub type Parsed<T> = Result<(T, int), Seq<char>>;

pub open spec fn p_take(b: Seq<u8>, pos: int, n: nat) -> Parsed<Seq<u8>> {
    if b.len() - pos < n {
        Err(
            "payload short: wanted "@ + dec(n) + " bytes at "@ + dec(pos as nat) + ", have "@ + dec(
                (b.len() - pos) as nat,
            ),
        )
    } else {
        Ok((b.subrange(pos, pos + n), pos + n))
    }
}

/// A little-endian number of `k` bytes.
pub open spec fn p_num(b: Seq<u8>, pos: int, k: nat) -> Parsed<nat> {
    match p_take(b, pos, k) {
        Err(e) => Err(e),
        Ok((s, p)) => Ok((from_le(s), p)),
    }
}

/// A length-prefixed field of at most `max` bytes.
pub open spec fn p_field(b: Seq<u8>, pos: int, max: nat) -> Parsed<Seq<u8>> {
    match p_num(b, pos, 4) {
        Err(e) => Err(e),
        Ok((n, p)) => if n > max {
            Err("field of "@ + dec(n) + " bytes exceeds "@ + dec(max))
        } else {
            p_take(b, p, n)
        },
    }
}

/// A length-prefixed text of at most `max` bytes.
pub open spec fn p_text(b: Seq<u8>, pos: int, max: nat) -> Parsed<Seq<char>> {
    match p_field(b, pos, max) {
        Err(e) => Err(e),
        Ok((s, p)) => if valid_utf8(s) {
            Ok((decode_utf8(s), p))
        } else {
            Err("string is not UTF-8"@)
        },
    }
}

/// A payload and how far it was read.
pub struct Reader<'a> {
    pub buf: &'a [u8],
    pub pos: usize,
}

impl<'a> Reader<'a> {
    pub open spec fn wf(&self) -> bool {
        self.pos <= self.buf@.len()
    }

    pub fn take(&mut self, n: usize) -> (r: Result<&'a [u8], ProtoError>)
        requires
            old(self).wf(),
        ensures
            final(self).wf(),
            final(self).buf == old(self).buf,
            match (r, p_take(old(self).buf@, old(self).pos as int, n as nat)) {
                (Ok(v), Ok((s, p))) => v@ == s && final(self).pos == p,
                (Err(e), Err(m)) => e.message@ == m,
                _ => false,
            },
    {
        let have: usize = self.buf.len() - self.pos;
        if have < n {
            let mut s = "payload short: wanted ".to_owned();
            push_dec(&mut s, n as u64);
            s.append(" bytes at ");
            push_dec(&mut s, self.pos as u64);
            s.append(", have ");
            push_dec(&mut s, have as u64);
            return Err(ProtoError { message: s });
        }
        let out = slice_subrange(self.buf, self.pos, self.pos + n);
        self.pos = self.pos + n;
        Ok(out)
    }

    /// A little-endian number of `k` bytes, at most 8.
    pub fn num(&mut self, k: usize) -> (r: Result<u64, ProtoError>)
        requires
            old(self).wf(),
            k <= 8,
        ensures
            final(self).wf(),
            final(self).buf == old(self).buf,
            match (r, p_num(old(self).buf@, old(self).pos as int, k as nat)) {
                (Ok(v), Ok((n, p))) => v == n && final(self).pos == p && v < pow(256, k as nat),
                (Err(e), Err(m)) => e.message@ == m,
                _ => false,
            },
    {
        let s = match self.take(k) {
            Ok(s) => s,
            Err(e) => return Err(e),
        };
        let mut n: u64 = 0;
        let mut i: usize = k;
        assert(s@.skip(k as int) =~= seq![]);
        proof {
            lemma_from_le_bound(s@);
        }
        while i > 0
            invariant
                i <= k <= 8,
                s@.len() == k,
                n == from_le(s@.skip(i as int)),
            decreases i,
        {
            i -= 1;
            proof {
                let t = s@.skip(i as int);
                assert(t.skip(1) =~= s@.skip(i + 1));
                lemma_from_le_bound(t);
                lemma_pow256();
                lemma_pow_increases(256, t.len(), 8);
            }
            n = s[i] as u64 + 256 * n;
        }
        assert(s@.skip(0) =~= s@);
        Ok(n)
    }

    /// A length-prefixed field of at most `max` bytes.
    pub fn field(&mut self, max: usize) -> (r: Result<&'a [u8], ProtoError>)
        requires
            old(self).wf(),
        ensures
            final(self).wf(),
            final(self).buf == old(self).buf,
            match (r, p_field(old(self).buf@, old(self).pos as int, max as nat)) {
                (Ok(v), Ok((s, p))) => v@ == s && final(self).pos == p,
                (Err(e), Err(m)) => e.message@ == m,
                _ => false,
            },
    {
        let n = match self.num(4) {
            Ok(n) => n,
            Err(e) => return Err(e),
        };
        if n > max as u64 {
            let mut s = "field of ".to_owned();
            push_dec(&mut s, n);
            s.append(" bytes exceeds ");
            push_dec(&mut s, max as u64);
            return Err(ProtoError { message: s });
        }
        self.take(n as usize)
    }

    /// A length-prefixed text of at most `max` bytes.
    pub fn text(&mut self, max: usize) -> (r: Result<String, ProtoError>)
        requires
            old(self).wf(),
        ensures
            final(self).wf(),
            final(self).buf == old(self).buf,
            match (r, p_text(old(self).buf@, old(self).pos as int, max as nat)) {
                (Ok(v), Ok((s, p))) => v@ == s && final(self).pos == p,
                (Err(e), Err(m)) => e.message@ == m,
                _ => false,
            },
    {
        let b = match self.field(max) {
            Ok(b) => b,
            Err(e) => return Err(e),
        };
        match string_from_utf8(slice_to_vec(b)) {
            Some(s) => {
                proof {
                    encode_utf8_decode_utf8(s@);
                }
                Ok(s)
            },
            None => Err(ProtoError::new("string is not UTF-8")),
        }
    }
}

// ----- what reading gives back of writing -----------------------------------

/// Whether `e` stands in `b` from `pos` on.
#[verifier::opaque]
pub open spec fn at(b: Seq<u8>, pos: int, e: Seq<u8>) -> bool {
    0 <= pos && pos + e.len() <= b.len() && b.subrange(pos, pos + e.len()) == e
}

pub proof fn lemma_at_split(b: Seq<u8>, pos: int, x: Seq<u8>, y: Seq<u8>)
    requires
        at(b, pos, x + y),
    ensures
        at(b, pos, x),
        at(b, pos + x.len(), y),
{
    reveal(at);
    let s = b.subrange(pos, pos + (x + y).len());
    assert(s.subrange(0, x.len() as int) =~= x);
    assert(b.subrange(pos, pos + x.len()) =~= s.subrange(0, x.len() as int));
    assert(s.subrange(x.len() as int, s.len() as int) =~= y);
    assert(b.subrange(pos + x.len(), pos + x.len() + y.len()) =~= s.subrange(
        x.len() as int,
        s.len() as int,
    ));
}

/// A sequence stands in itself.
pub proof fn lemma_whole(b: Seq<u8>)
    ensures
        at(b, 0, b),
{
    reveal(at);
    assert(b.subrange(0, b.len() as int) =~= b);
}

/// What stands at a place is taken from there.
pub proof fn lemma_take_at(b: Seq<u8>, pos: int, e: Seq<u8>)
    requires
        at(b, pos, e),
    ensures
        p_take(b, pos, e.len()) == Ok::<(Seq<u8>, int), Seq<char>>((e, pos + e.len())),
        0 <= pos,
        pos + e.len() <= b.len(),
{
    reveal(at);
}

pub proof fn lemma_num_at(b: Seq<u8>, pos: int, n: nat, k: nat)
    requires
        at(b, pos, le(n, k)),
        n < pow(256, k),
    ensures
        p_num(b, pos, k) == Ok::<(nat, int), Seq<char>>((n, pos + k)),
{
    lemma_le_len(n, k);
    lemma_from_le(n, k);
    lemma_take_at(b, pos, le(n, k));
}

pub proof fn lemma_field_at(b: Seq<u8>, pos: int, e: Seq<u8>, max: nat)
    requires
        at(b, pos, field(e)),
        e.len() <= max,
        e.len() < 0x1_0000_0000,
    ensures
        p_field(b, pos, max) == Ok::<(Seq<u8>, int), Seq<char>>((e, pos + 4 + e.len())),
        field(e).len() == 4 + e.len(),
{
    lemma_le_len(e.len(), 4);
    lemma_pow256();
    lemma_at_split(b, pos, le32(e.len()), e);
    lemma_num_at(b, pos, e.len(), 4);
    lemma_take_at(b, pos + 4, e);
}

pub proof fn lemma_text_at(b: Seq<u8>, pos: int, s: Seq<char>, max: nat)
    requires
        at(b, pos, text_field(s, max)),
        max < 0x1_0000_0000,
    ensures
        p_text(b, pos, max) == Ok::<(Seq<char>, int), Seq<char>>(
            (clipped(s, max), pos + text_field(s, max).len()),
        ),
{
    let e = encode_utf8(s);
    encode_utf8_valid_utf8(s);
    lemma_clip(e, max);
    lemma_field_at(b, pos, e.take(clip_len(e, max) as int), max);
}

} // verus!
