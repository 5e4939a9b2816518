//! Base64, strictly: canonical padding, no white space, zero padding
//! bits, so an encoding is unique.

use vstd::prelude::*;
use super::CodecError;

verus! {

/// The character of six bits.
#[verifier::opaque]
pub open spec fn letter(n: int) -> u8 {
    (if n < 26 {
        n + 65
    } else if n < 52 {
        n + 71
    } else if n < 62 {
        n - 4
    } else if n == 62 {
        43
    } else {
        47
    }) as u8
}

/// The six bits of a character.
#[verifier::opaque]
pub open spec fn bits(c: u8) -> Option<int> {
    if 65 <= c <= 90 {
        Some(c - 65)
    } else if 97 <= c <= 122 {
        Some(c - 71)
    } else if 48 <= c <= 57 {
        Some(c + 4)
    } else if c == 43 {
        Some(62)
    } else if c == 47 {
        Some(63)
    } else {
        None
    }
}

/// The padding character.
pub const PAD: u8 = 61;

/// Four characters for up to three bytes.
pub open spec fn quad(b: Seq<u8>) -> Seq<u8> {
    let b1 = if b.len() > 1 {
        b[1] as int
    } else {
        0
    };
    let b2 = if b.len() > 2 {
        b[2] as int
    } else {
        0
    };
    seq![
        letter(b[0] as int / 4),
        letter(b[0] as int % 4 * 16 + b1 / 16),
        if b.len() > 1 {
            letter(b1 % 16 * 4 + b2 / 64)
        } else {
            PAD
        },
        if b.len() > 2 {
            letter(b2 % 64)
        } else {
            PAD
        },
    ]
}

/// The base64 text of some bytes, three at a time.
pub open spec fn encoded(b: Seq<u8>) -> Seq<u8>
    decreases b.len(),
{
    if b.len() == 0 {
        seq![]
    } else if b.len() <= 3 {
        quad(b)
    } else {
        quad(b.take(3)) + encoded(b.skip(3))
    }
}

/// The bytes of four characters; only the last four may be padded.
#[verifier::opaque]
pub open spec fn unquad(q: Seq<u8>, last: bool) -> Option<Seq<u8>> {
    let pad: int = if q[3] != PAD {
        0
    } else if q[2] != PAD {
        1
    } else {
        2
    };
    if pad > 0 && !last {
        None
    } else {
        match (bits(q[0]), bits(q[1]), bits(q[2]), bits(q[3])) {
            (Some(a), Some(b), Some(c), Some(d)) => Some(
                seq![
                    (a * 4 + b / 16) as u8,
                    (b % 16 * 16 + c / 4) as u8,
                    (c % 4 * 64 + d) as u8,
                ],
            ),
            (Some(a), Some(b), Some(c), None) => if pad == 1 && c % 4 == 0 {
                Some(seq![(a * 4 + b / 16) as u8, (b % 16 * 16 + c / 4) as u8])
            } else {
                None
            },
            (Some(a), Some(b), None, None) => if pad == 2 && b % 16 == 0 {
                Some(seq![(a * 4 + b / 16) as u8])
            } else {
                None
            },
            _ => None,
        }
    }
}

/// The bytes of a base64 text, if it is one.
pub open spec fn decoded(t: Seq<u8>) -> Option<Seq<u8>>
    decreases t.len(),
{
    if t.len() == 0 {
        Some(seq![])
    } else if t.len() < 4 {
        None
    } else {
        match (unquad(t.take(4), t.len() == 4), decoded(t.skip(4))) {
            (Some(x), Some(y)) => Some(x + y),
            _ => None,
        }
    }
}

proof fn lemma_letter(n: int)
    requires
        0 <= n < 64,
    ensures
        bits(letter(n)) == Some(n),
        letter(n) != PAD,
        43 <= letter(n) <= 122 && letter(n) != 92,
        bits(PAD) is None,
{
    reveal(letter);
    reveal(bits);
}

proof fn lemma_bits(c: u8)
    ensures
        bits(c) matches Some(n) ==> 0 <= n < 64 && letter(n) == c,
        bits(PAD) is None,
{
    reveal(letter);
    reveal(bits);
}

proof fn lemma_quad_back(b: Seq<u8>, last: bool)
    requires
        1 <= b.len() <= 3,
        b.len() == 3 || last,
    ensures
        unquad(quad(b), last) == Some(b),
        quad(b).len() == 4,
{
    reveal(unquad);
    let b1 = if b.len() > 1 {
        b[1] as int
    } else {
        0
    };
    let b2 = if b.len() > 2 {
        b[2] as int
    } else {
        0
    };
    lemma_letter(b[0] as int / 4);
    lemma_letter(b[0] as int % 4 * 16 + b1 / 16);
    lemma_letter(b1 % 16 * 4 + b2 / 64);
    lemma_letter(b2 % 64);
    if b.len() == 3 {
        assert(unquad(quad(b), last)->0 =~= b);
    } else if b.len() == 2 {
        assert(unquad(quad(b), last)->0 =~= b);
    } else {
        assert(unquad(quad(b), last)->0 =~= b);
    }
}

/// Base64 text is printable ASCII without quotes or backslashes.
pub proof fn lemma_encoded_ascii(b: Seq<u8>)
    ensures
        forall|i: int|
            0 <= i < encoded(b).len() ==> 43 <= #[trigger] encoded(b)[i] <= 122 && encoded(b)[i]
                != 92,
    decreases b.len(),
{
    if b.len() > 0 {
        let h = if b.len() <= 3 {
            b
        } else {
            b.take(3)
        };
        let b1 = if h.len() > 1 {
            h[1] as int
        } else {
            0
        };
        let b2 = if h.len() > 2 {
            h[2] as int
        } else {
            0
        };
        lemma_letter(h[0] as int / 4);
        lemma_letter(h[0] as int % 4 * 16 + b1 / 16);
        lemma_letter(b1 % 16 * 4 + b2 / 64);
        lemma_letter(b2 % 64);
        let q = quad(h);
        assert forall|i: int| 0 <= i < 4 implies 43 <= #[trigger] q[i] <= 122 && q[i] != 92 by {
            assert(i == 0 || i == 1 || i == 2 || i == 3);
        }
        if b.len() > 3 {
            lemma_encoded_ascii(b.skip(3));
        }
        assert forall|i: int| 0 <= i < encoded(b).len() implies 43 <= #[trigger] encoded(b)[i]
            <= 122 && encoded(b)[i] != 92 by {
            if i < 4 {
                assert(encoded(b)[i] == q[i]);
            } else {
                assert(encoded(b)[i] == encoded(b.skip(3))[i - 4]);
            }
        }
    }
}

proof fn lemma_unquad_back(q: Seq<u8>, last: bool)
    requires
        q.len() == 4,
        unquad(q, last) is Some,
    ensures
        quad(unquad(q, last)->0) == q,
        1 <= unquad(q, last)->0.len() <= 3,
        unquad(q, last)->0.len() == 3 || last,
{
    reveal(unquad);
    lemma_bits(q[0]);
    lemma_bits(q[1]);
    lemma_bits(q[2]);
    lemma_bits(q[3]);
    let x = unquad(q, last)->0;
    assert(quad(x) =~= q);
}

/// What was encoded decodes to itself.
pub proof fn law_base64_reads_back(b: Seq<u8>)
    ensures
        decoded(encoded(b)) == Some(b),
    decreases b.len(),
{
    if b.len() == 0 {
    } else if b.len() <= 3 {
        lemma_quad_back(b, true);
        let t = quad(b);
        assert(t.take(4) =~= t);
        assert(t.skip(4) =~= seq![]);
        assert(b + seq![] =~= b);
        assert(decoded(t.skip(4)) == Some(Seq::<u8>::empty()));
    } else {
        let h = b.take(3);
        let r = b.skip(3);
        lemma_quad_back(h, false);
        law_base64_reads_back(r);
        let t = quad(h) + encoded(r);
        assert(t.take(4) =~= quad(h));
        assert(t.skip(4) =~= encoded(r));
        assert(h + r =~= b);
        lemma_quad_back(h, true);
    }
}

/// A text that decodes is the one that its bytes encode to: no two texts
/// mean the same bytes.
pub proof fn law_base64_is_unique(t: Seq<u8>)
    requires
        decoded(t) is Some,
    ensures
        encoded(decoded(t)->0) == t,
    decreases t.len(),
{
    if t.len() > 0 {
        let q = t.take(4);
        let r = t.skip(4);
        let last = t.len() == 4;
        lemma_unquad_back(q, last);
        law_base64_is_unique(r);
        let x = unquad(q, last)->0;
        let y = decoded(r)->0;
        if last {
            assert(r =~= seq![]);
            assert(y =~= seq![]);
            assert(x + y =~= x);
            assert(t =~= q);
        } else {
            assert((x + y).take(3) =~= x);
            assert((x + y).skip(3) =~= y);
            assert(t =~= q + r);
            if y.len() == 0 {
                assert(encoded(y) =~= seq![]);
            }
        }
    }
}

/// The decoder undoes the encoder and accepts nothing else.
pub proof fn law_base64_is_strict(t: Seq<u8>, b: Seq<u8>)
    ensures
        decoded(t) == Some(b) <==> t == encoded(b),
{
    law_base64_reads_back(b);
    if decoded(t) is Some {
        law_base64_is_unique(t);
    }
}

fn letter_of(n: u32) -> (c: u8)
    requires
        n < 64,
    ensures
        c == letter(n as int),
{
    proof {
        reveal(letter);
    }
    if n < 26 {
        (n + 65) as u8
    } else if n < 52 {
        (n + 71) as u8
    } else if n < 62 {
        (n - 4) as u8
    } else if n == 62 {
        43
    } else {
        47
    }
}

fn bits_of(c: u8) -> (r: Option<u32>)
    ensures
        match (r, bits(c)) {
            (Some(a), Some(b)) => a == b && a < 64,
            (None, None) => true,
            _ => false,
        },
{
    proof {
        reveal(bits);
    }
    if 65 <= c && c <= 90 {
        Some(c as u32 - 65)
    } else if 97 <= c && c <= 122 {
        Some(c as u32 - 71)
    } else if 48 <= c && c <= 57 {
        Some(c as u32 + 4)
    } else if c == 43 {
        Some(62)
    } else if c == 47 {
        Some(63)
    } else {
        None
    }
}

/// Append the base64 text of some bytes.
pub fn push_base64(out: &mut Vec<u8>, bytes: &[u8])
    ensures
        final(out)@ == old(out)@ + encoded(bytes@),
{
    let total: usize = bytes.len();
    let mut i: usize = 0;
    assert(bytes@.skip(0) =~= bytes@);
    while i < total
        invariant
            i <= total == bytes@.len(),
            out@ + encoded(bytes@.skip(i as int)) =~= old(out)@ + encoded(bytes@),
        decreases total - i,
    {
        let ghost rest = bytes@.skip(i as int);
        let ghost before = out@;
        let have: usize = if total - i < 3 { total - i } else { 3 };
        let b1: u32 = if have > 1 { bytes[i + 1] as u32 } else { 0 };
        let b2: u32 = if have > 2 { bytes[i + 2] as u32 } else { 0 };
        let b0: u32 = bytes[i] as u32;
        out.push(letter_of(b0 / 4));
        out.push(letter_of(b0 % 4 * 16 + b1 / 16));
        out.push(if have > 1 { letter_of(b1 % 16 * 4 + b2 / 64) } else { PAD });
        out.push(if have > 2 { letter_of(b2 % 64) } else { PAD });
        proof {
            let chunk = rest.take(have as int);
            assert(out@ =~= before + quad(chunk));
            if rest.len() <= 3 {
                assert(chunk =~= rest);
                assert(bytes@.skip(i + have) =~= seq![]);
            } else {
                assert(rest.skip(3) =~= bytes@.skip(i + 3));
            }
            assert(out@ + encoded(bytes@.skip(i + have)) =~= before + encoded(rest));
        }
        i = i + have;
    }
    assert(bytes@.skip(i as int) =~= seq![]);
    assert(out@ + encoded(bytes@.skip(i as int)) =~= out@);
}

/// What is said of a text that is not base64.
pub open spec fn malformed() -> Seq<char> {
    "malformed base64"@
}

fn bad() -> (e: CodecError)
    ensures
        e.code@ == "codec_syntax"@,
        e.message@ == malformed(),
{
    CodecError::new(CodecError::SYNTAX, "malformed base64")
}

/// The bytes of four characters, appended.
fn push_unquad(out: &mut Vec<u8>, q: [u8; 4], last: bool) -> (ok: bool)
    ensures
        match unquad(q@, last) {
            Some(x) => ok && final(out)@ == old(out)@ + x,
            None => !ok && final(out)@ == old(out)@,
        },
{
    proof {
        reveal(unquad);
    }
    let pad: u32 = if q[3] != PAD {
        0
    } else if q[2] != PAD {
        1
    } else {
        2
    };
    if pad > 0 && !last {
        return false;
    }
    let a = match bits_of(q[0]) {
        Some(a) => a,
        None => return false,
    };
    let b = match bits_of(q[1]) {
        Some(b) => b,
        None => return false,
    };
    match bits_of(q[2]) {
        Some(c) => match bits_of(q[3]) {
            Some(d) => {
                out.push((a * 4 + b / 16) as u8);
                out.push((b % 16 * 16 + c / 4) as u8);
                out.push((c % 4 * 64 + d) as u8);
                assert(out@ =~= old(out)@ + unquad(q@, last)->0);
                true
            },
            None => {
                if pad == 1 && c % 4 == 0 {
                    out.push((a * 4 + b / 16) as u8);
                    out.push((b % 16 * 16 + c / 4) as u8);
                    assert(out@ =~= old(out)@ + unquad(q@, last)->0);
                    true
                } else {
                    false
                }
            },
        },
        None => {
            if bits_of(q[3]).is_some() {
                return false;
            }
            if pad == 2 && b % 16 == 0 {
                out.push((a * 4 + b / 16) as u8);
                assert(out@ =~= old(out)@ + unquad(q@, last)->0);
                true
            } else {
                false
            }
        },
    }
}

/// Every four characters count: a text whose length is no multiple of
/// four does not decode, nor does one with a wrong part.
proof fn lemma_decoded_len(t: Seq<u8>)
    ensures
        decoded(t) is Some ==> t.len() % 4 == 0,
    decreases t.len(),
{
    if t.len() >= 4 {
        lemma_decoded_len(t.skip(4));
    }
}

/// Strict decode: canonical padding, no whitespace, zero padding bits.
pub fn base64_decode(text: &[u8]) -> (r: Result<Vec<u8>, CodecError>)
    ensures
        match (r, decoded(text@)) {
            (Ok(v), Some(b)) => v@ == b,
            (Err(e), None) => e.code@ == "codec_syntax"@ && e.message@ == malformed(),
            _ => false,
        },
{
    let total: usize = text.len();
    proof {
        lemma_decoded_len(text@);
    }
    if total % 4 != 0 {
        return Err(bad());
    }
    let mut out: Vec<u8> = Vec::new();
    let mut i: usize = 0;
    assert(text@.skip(0) =~= text@);
    while i < total
        invariant
            i <= total == text@.len(),
            total % 4 == 0,
            i % 4 == 0,
            match (decoded(text@), decoded(text@.skip(i as int))) {
                (Some(x), Some(y)) => x == out@ + y,
                (None, None) => true,
                _ => false,
            },
        decreases total - i,
    {
        let ghost rest = text@.skip(i as int);
        let ghost before = out@;
        let q: [u8; 4] = [text[i], text[i + 1], text[i + 2], text[i + 3]];
        assert(q@ =~= rest.take(4));
        assert(rest.skip(4) =~= text@.skip(i + 4));
        if !push_unquad(&mut out, q, total - i == 4) {
            return Err(bad());
        }
        proof {
            if decoded(text@.skip(i + 4)) is Some {
                let x = unquad(q@, total - i == 4)->0;
                let y = decoded(text@.skip(i + 4))->0;
                assert(before + (x + y) =~= before + x + y);
            }
        }
        i += 4;
    }
    assert(text@.skip(i as int) =~= seq![]);
    assert(out@ + seq![] =~= out@);
    Ok(out)
}

} // verus!
