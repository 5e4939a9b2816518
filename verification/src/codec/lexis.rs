//! The tokens of the text form: blanks, words, numbers, strings.

use vstd::prelude::*;
use vstd::slice::*;
use vstd::string::*;
use vstd::utf8::*;
use super::{CodecError, ErrorView};
use crate::text::{bytes_eq, dec, push_dec};

verus! {

pub const TAB: u8 = 0x09;

pub const NEWLINE: u8 = 0x0a;

pub const RETURN: u8 = 0x0d;

pub const SPACE: u8 = 0x20;

pub const QUOTE: u8 = 0x22;

pub const PLUS: u8 = 0x2b;

pub const COMMA: u8 = 0x2c;

pub const MINUS: u8 = 0x2d;

pub const POINT: u8 = 0x2e;

pub const ZERO: u8 = 0x30;

pub const NINE: u8 = 0x39;

pub const EQUALS: u8 = 0x3d;

pub const UPPER_A: u8 = 0x41;

pub const UPPER_E: u8 = 0x45;

pub const UPPER_F: u8 = 0x46;

pub const UPPER_Z: u8 = 0x5a;

pub const OPEN_BRACKET: u8 = 0x5b;

pub const BACKSLASH: u8 = 0x5c;

pub const CLOSE_BRACKET: u8 = 0x5d;

pub const UNDERSCORE: u8 = 0x5f;

pub const LOWER_A: u8 = 0x61;

pub const LOWER_E: u8 = 0x65;

pub const LOWER_F: u8 = 0x66;

pub const LOWER_N: u8 = 0x6e;

pub const LOWER_T: u8 = 0x74;

pub const LOWER_X: u8 = 0x78;

pub const LOWER_Z: u8 = 0x7a;

pub const OPEN_BRACE: u8 = 0x7b;

pub const CLOSE_BRACE: u8 = 0x7d;

/// A kind of byte that tokens are runs of.
#[derive(Debug, Clone, Copy, PartialEq, Eq, Structural)]
pub enum Class {
    Blank,
    Word,
    Digit,
}

pub open spec fn is_digit(b: u8) -> bool {
    ZERO <= b <= NINE
}

pub open spec fn is_letter(b: u8) -> bool {
    LOWER_A <= b <= LOWER_Z || UPPER_A <= b <= UPPER_Z
}

pub open spec fn of_class(c: Class, b: u8) -> bool {
    match c {
        Class::Blank => b == SPACE || b == TAB || b == RETURN || b == NEWLINE,
        Class::Word => is_letter(b) || is_digit(b) || b == UNDERSCORE,
        Class::Digit => is_digit(b),
    }
}

/// Where a run of bytes of one class that begins at `p` ends.
pub open spec fn span(s: Seq<u8>, p: int, c: Class) -> int
    decreases s.len() - p,
{
    if 0 <= p < s.len() && of_class(c, s[p]) {
        span(s, p + 1, c)
    } else {
        p
    }
}

pub proof fn lemma_span(s: Seq<u8>, p: int, c: Class)
    ensures
        span(s, p, c) >= p,
        p <= s.len() ==> span(s, p, c) <= s.len(),
        0 <= p < s.len() && of_class(c, s[p]) ==> span(s, p, c) > p,
        forall|i: int| p <= i < span(s, p, c) ==> of_class(c, #[trigger] s[i]),
        0 <= p && span(s, p, c) < s.len() ==> !of_class(c, s[span(s, p, c)]),
    decreases s.len() - p,
{
    if 0 <= p < s.len() && of_class(c, s[p]) {
        lemma_span(s, p + 1, c);
    }
}

/// A run that ends where the class does.
pub proof fn lemma_span_is(s: Seq<u8>, p: int, c: Class, e: int)
    requires
        0 <= p <= e <= s.len(),
        forall|i: int| p <= i < e ==> of_class(c, #[trigger] s[i]),
        e < s.len() ==> !of_class(c, s[e]),
    ensures
        span(s, p, c) == e,
    decreases e - p,
{
    if p < e {
        lemma_span_is(s, p + 1, c, e);
    }
}

pub open spec fn byte_at(s: Seq<u8>, p: int, b: u8) -> bool {
    0 <= p < s.len() && s[p] == b
}

/// A syntax error at a place.
pub open spec fn syntax(what: Seq<char>, at: int) -> ErrorView {
    ErrorView { code: "codec_syntax"@, message: what + " at byte "@ + dec(at as nat) }
}

/// A number's fraction, if it has one.
pub open spec fn fraction_end(s: Seq<u8>, p: int) -> Result<(int, bool), ErrorView> {
    if byte_at(s, p, POINT) {
        let e = span(s, p + 1, Class::Digit);
        if e == p + 1 {
            Err(syntax("expected digits after '.'"@, e))
        } else {
            Ok((e, true))
        }
    } else {
        Ok((p, false))
    }
}

/// A number's exponent, if it has one.
pub open spec fn exponent_end(s: Seq<u8>, p: int) -> Result<(int, bool), ErrorView> {
    if byte_at(s, p, LOWER_E) || byte_at(s, p, UPPER_E) {
        let d = if byte_at(s, p + 1, PLUS) || byte_at(s, p + 1, MINUS) {
            p + 2
        } else {
            p + 1
        };
        let e = span(s, d, Class::Digit);
        if e == d {
            Err(syntax("expected digits in exponent"@, e))
        } else {
            Ok((e, true))
        }
    } else {
        Ok((p, false))
    }
}

/// Where a number ends, and whether it is written as a float.
pub open spec fn number_end(s: Seq<u8>, p: int) -> Result<(int, bool), ErrorView> {
    let a = if byte_at(s, p, MINUS) {
        p + 1
    } else {
        p
    };
    let b = span(s, a, Class::Digit);
    if b == a {
        Err(syntax("expected digits"@, b))
    } else {
        match fraction_end(s, b) {
            Err(e) => Err(e),
            Ok((c, f)) => match exponent_end(s, c) {
                Err(e) => Err(e),
                Ok((d, g)) => Ok((d, f || g)),
            },
        }
    }
}

pub open spec fn hex_value(b: u8) -> Option<int> {
    if is_digit(b) {
        Some(b - ZERO)
    } else if LOWER_A <= b <= LOWER_F {
        Some(b - LOWER_A + 10)
    } else if UPPER_A <= b <= UPPER_F {
        Some(b - UPPER_A + 10)
    } else {
        None
    }
}

/// Two hexadecimal digits, or a plus sign and one.
pub open spec fn hex_pair(a: u8, b: u8) -> Option<u8> {
    match hex_value(b) {
        None => None,
        Some(y) => if a == PLUS {
            Some(y as u8)
        } else {
            match hex_value(a) {
                None => None,
                Some(x) => Some((x * 16 + y) as u8),
            }
        },
    }
}

/// What a string continues with once one byte of it was read.
pub open spec fn and_string(
    b: u8,
    rest: Result<(Seq<u8>, int), ErrorView>,
) -> Result<(Seq<u8>, int), ErrorView> {
    match rest {
        Ok((t, e)) => Ok((seq![b] + t, e)),
        Err(e) => Err(e),
    }
}

/// The byte of a one-letter escape.
pub open spec fn escape(e: u8) -> Option<u8> {
    if e == LOWER_N {
        Some(NEWLINE)
    } else if e == LOWER_T {
        Some(TAB)
    } else if e == BACKSLASH || e == QUOTE {
        Some(e)
    } else {
        None
    }
}

/// The rest of a string from within its quotes: the bytes it stands for
/// and where it ends, behind the closing quote.
pub open spec fn string_rest(s: Seq<u8>, p: int) -> Result<(Seq<u8>, int), ErrorView>
    decreases s.len() - p,
{
    if p < 0 || p >= s.len() {
        Err(syntax("unterminated string"@, p))
    } else if s[p] == QUOTE {
        Ok((seq![], p + 1))
    } else if s[p] == BACKSLASH {
        if p + 1 >= s.len() {
            Err(syntax("unterminated escape"@, p + 1))
        } else if escape(s[p + 1]) is Some {
            and_string(escape(s[p + 1])->0, string_rest(s, p + 2))
        } else if s[p + 1] == LOWER_X {
            if p + 4 <= s.len() && hex_pair(s[p + 2], s[p + 3]) is Some {
                and_string(hex_pair(s[p + 2], s[p + 3])->0, string_rest(s, p + 4))
            } else {
                Err(syntax("bad \\x escape"@, p + 2))
            }
        } else {
            Err(syntax("unknown escape"@, p + 2))
        }
    } else if s[p] < 0x20 || s[p] == 0x7f {
        Err(syntax("control character in string"@, p + 1))
    } else {
        and_string(s[p], string_rest(s, p + 1))
    }
}

/// A string stands for fewer bytes than it takes.
pub proof fn lemma_string_rest(s: Seq<u8>, p: int)
    ensures
        string_rest(s, p) matches Ok((t, e)) ==> p < e <= s.len() && t.len() < e - p,
    decreases s.len() - p,
{
    if 0 <= p < s.len() {
        lemma_string_rest(s, p + 1);
        if p + 2 <= s.len() {
            lemma_string_rest(s, p + 2);
        }
        if p + 4 <= s.len() {
            lemma_string_rest(s, p + 4);
        }
    }
}

/// The words that no bare key may be.
pub open spec fn is_keyword(w: Seq<u8>) -> bool {
    ||| w == encode_utf8("and"@)
    ||| w == encode_utf8("break"@)
    ||| w == encode_utf8("do"@)
    ||| w == encode_utf8("else"@)
    ||| w == encode_utf8("elseif"@)
    ||| w == encode_utf8("end"@)
    ||| w == encode_utf8("false"@)
    ||| w == encode_utf8("for"@)
    ||| w == encode_utf8("function"@)
    ||| w == encode_utf8("goto"@)
    ||| w == encode_utf8("if"@)
    ||| w == encode_utf8("in"@)
    ||| w == encode_utf8("local"@)
    ||| w == encode_utf8("nil"@)
    ||| w == encode_utf8("not"@)
    ||| w == encode_utf8("or"@)
    ||| w == encode_utf8("repeat"@)
    ||| w == encode_utf8("return"@)
    ||| w == encode_utf8("then"@)
    ||| w == encode_utf8("true"@)
    ||| w == encode_utf8("until"@)
    ||| w == encode_utf8("while"@)
}

/// Whether a string key is written bare: a name that is no keyword.
pub open spec fn is_name(w: Seq<u8>) -> bool {
    &&& w.len() > 0
    &&& !is_digit(w[0])
    &&& forall|i: int| 0 <= i < w.len() ==> of_class(Class::Word, #[trigger] w[i])
    &&& !is_keyword(w)
}

// ----- the same, executable -------------------------------------------------

pub(crate) fn digit(b: u8) -> (r: bool)
    ensures
        r == is_digit(b),
{
    b >= ZERO && b <= NINE
}

pub(crate) fn letter(b: u8) -> (r: bool)
    ensures
        r == is_letter(b),
{
    (b >= LOWER_A && b <= LOWER_Z) || (b >= UPPER_A && b <= UPPER_Z)
}

fn in_class(c: Class, b: u8) -> (r: bool)
    ensures
        r == of_class(c, b),
{
    match c {
        Class::Blank => b == SPACE || b == TAB || b == RETURN || b == NEWLINE,
        Class::Word => letter(b) || digit(b) || b == UNDERSCORE,
        Class::Digit => digit(b),
    }
}

/// Where a run of bytes of one class ends.
pub(crate) fn run_end(s: &[u8], from: usize, c: Class) -> (e: usize)
    requires
        from <= s@.len(),
    ensures
        e == span(s@, from as int, c),
        from <= e <= s@.len(),
{
    let mut p: usize = from;
    while p < s.len() && in_class(c, s[p])
        invariant
            from <= p <= s@.len(),
            span(s@, p as int, c) == span(s@, from as int, c),
        decreases s.len() - p,
    {
        p += 1;
    }
    p
}

pub(crate) fn next_is(s: &[u8], p: usize, b: u8) -> (r: bool)
    ensures
        r == byte_at(s@, p as int, b),
{
    p < s.len() && s[p] == b
}

pub(crate) fn syntax_error(what: &str, at: usize) -> (e: CodecError)
    ensures
        e@ == syntax(what@, at as int),
{
    let mut m = what.to_owned();
    m.append(" at byte ");
    push_dec(&mut m, at as u64);
    CodecError { code: CodecError::SYNTAX, message: m }
}

/// Where a number ends, and whether it is written as a float.
pub(crate) fn scan_number(s: &[u8], p: usize) -> (r: Result<(usize, bool), CodecError>)
    requires
        p < s@.len(),
    ensures
        match (r, number_end(s@, p as int)) {
            (Ok((e, f)), Ok((x, g))) => e == x && f == g && p < e <= s@.len(),
            (Err(e), Err(v)) => e@ == v,
            _ => false,
        },
{
    assert(s.len() == s@.len());
    let a: usize = if next_is(s, p, MINUS) { p + 1 } else { p };
    let b = run_end(s, a, Class::Digit);
    if b == a {
        return Err(syntax_error("expected digits", b));
    }
    let mut is_float = false;
    let mut c: usize = b;
    if next_is(s, b, POINT) {
        is_float = true;
        c = run_end(s, b + 1, Class::Digit);
        if c == b + 1 {
            return Err(syntax_error("expected digits after '.'", c));
        }
    }
    assert(fraction_end(s@, b as int) == Ok::<(int, bool), ErrorView>((c as int, is_float)));
    let mut d: usize = c;
    if next_is(s, c, LOWER_E) || next_is(s, c, UPPER_E) {
        is_float = true;
        let f: usize = if next_is(s, c + 1, PLUS) || next_is(s, c + 1, MINUS) { c + 2 } else { c + 1 };
        d = run_end(s, f, Class::Digit);
        if d == f {
            return Err(syntax_error("expected digits in exponent", d));
        }
    }
    Ok((d, is_float))
}

fn unhex(b: u8) -> (r: Option<u8>)
    ensures
        match (r, hex_value(b)) {
            (Some(x), Some(y)) => x == y && x < 16,
            (None, None) => true,
            _ => false,
        },
{
    if digit(b) {
        Some((b - ZERO) as u8)
    } else if b >= LOWER_A && b <= LOWER_F {
        Some((b - LOWER_A + 10) as u8)
    } else if b >= UPPER_A && b <= UPPER_F {
        Some((b - UPPER_A + 10) as u8)
    } else {
        None
    }
}

fn unhex_pair(a: u8, b: u8) -> (r: Option<u8>)
    ensures
        r == hex_pair(a, b),
{
    match unhex(b) {
        None => None,
        Some(y) => {
            if a == PLUS {
                Some(y)
            } else {
                match unhex(a) {
                    None => None,
                    Some(x) => Some((x * 16 + y) as u8),
                }
            }
        },
    }
}

fn unescape(e: u8) -> (r: Option<u8>)
    ensures
        r == escape(e),
{
    if e == LOWER_N {
        Some(NEWLINE)
    } else if e == LOWER_T {
        Some(TAB)
    } else if e == BACKSLASH || e == QUOTE {
        Some(e)
    } else {
        None
    }
}

/// What was read of a string, before the rest of it.
spec fn before(
    read: Seq<u8>,
    rest: Result<(Seq<u8>, int), ErrorView>,
) -> Result<(Seq<u8>, int), ErrorView> {
    match rest {
        Ok((t, e)) => Ok((read + t, e)),
        Err(e) => Err(e),
    }
}

proof fn lemma_before(read: Seq<u8>, b: u8, rest: Result<(Seq<u8>, int), ErrorView>)
    ensures
        before(read, and_string(b, rest)) == before(read.push(b), rest),
{
    if let Ok((t, e)) = rest {
        assert(read + (seq![b] + t) =~= read.push(b) + t);
    }
}

/// The bytes of a string from within its quotes, and where it ends.
pub(crate) fn scan_string(s: &[u8], from: usize) -> (r: Result<(Vec<u8>, usize), CodecError>)
    requires
        from <= s@.len(),
    ensures
        match (r, string_rest(s@, from as int)) {
            (Ok((v, e)), Ok((t, x))) => v@ == t && e == x && from < e <= s@.len(),
            (Err(e), Err(v)) => e@ == v,
            _ => false,
        },
{
    let mut out: Vec<u8> = Vec::new();
    let mut p: usize = from;
    let total: usize = s.len();
    proof {
        lemma_string_rest(s@, from as int);
        if let Ok((t, e)) = string_rest(s@, from as int) {
            assert(seq![] + t =~= t);
        }
    }
    while p < total
        invariant
            from <= p <= total == s@.len(),
            string_rest(s@, from as int) == before(out@, string_rest(s@, p as int)),
            string_rest(s@, from as int) matches Ok((t, x)) ==> from < x <= s@.len(),
        decreases total - p,
    {
        let c = s[p];
        let ghost read = out@;
        if c == QUOTE {
            assert(out@ + Seq::<u8>::empty() =~= out@);
            return Ok((out, p + 1));
        }
        if c == BACKSLASH {
            if total - p < 2 {
                return Err(syntax_error("unterminated escape", p + 1));
            }
            match unescape(s[p + 1]) {
                Some(b) => {
                    proof {
                        lemma_before(read, b, string_rest(s@, p + 2));
                    }
                    out.push(b);
                    p = p + 2;
                },
                None => {
                    if s[p + 1] != LOWER_X {
                        return Err(syntax_error("unknown escape", p + 2));
                    }
                    if total - p < 4 {
                        return Err(syntax_error("bad \\x escape", p + 2));
                    }
                    match unhex_pair(s[p + 2], s[p + 3]) {
                        Some(b) => {
                            proof {
                                lemma_before(read, b, string_rest(s@, p + 4));
                            }
                            out.push(b);
                            p = p + 4;
                        },
                        None => {
                            return Err(syntax_error("bad \\x escape", p + 2));
                        },
                    }
                },
            }
        } else if c < 0x20 || c == 0x7f {
            return Err(syntax_error("control character in string", p + 1));
        } else {
            proof {
                lemma_before(read, c, string_rest(s@, p + 1));
            }
            out.push(c);
            p = p + 1;
        }
    }
    Err(syntax_error("unterminated string", p))
}

fn keyword(w: &[u8]) -> (r: bool)
    ensures
        r == is_keyword(w@),
{
    bytes_eq(w, "and".as_bytes()) || bytes_eq(w, "break".as_bytes()) || bytes_eq(
        w,
        "do".as_bytes(),
    ) || bytes_eq(w, "else".as_bytes()) || bytes_eq(w, "elseif".as_bytes()) || bytes_eq(
        w,
        "end".as_bytes(),
    ) || bytes_eq(w, "false".as_bytes()) || bytes_eq(w, "for".as_bytes()) || bytes_eq(
        w,
        "function".as_bytes(),
    ) || bytes_eq(w, "goto".as_bytes()) || bytes_eq(w, "if".as_bytes()) || bytes_eq(
        w,
        "in".as_bytes(),
    ) || bytes_eq(w, "local".as_bytes()) || bytes_eq(w, "nil".as_bytes()) || bytes_eq(
        w,
        "not".as_bytes(),
    ) || bytes_eq(w, "or".as_bytes()) || bytes_eq(w, "repeat".as_bytes()) || bytes_eq(
        w,
        "return".as_bytes(),
    ) || bytes_eq(w, "then".as_bytes()) || bytes_eq(w, "true".as_bytes()) || bytes_eq(
        w,
        "until".as_bytes(),
    ) || bytes_eq(w, "while".as_bytes())
}

/// Whether a string key is written bare.
pub(crate) fn names(w: &[u8]) -> (r: bool)
    ensures
        r == is_name(w@),
{
    if w.len() == 0 || digit(w[0]) {
        return false;
    }
    let e = run_end(w, 0, Class::Word);
    proof {
        lemma_span(w@, 0, Class::Word);
        if forall|i: int| 0 <= i < w@.len() ==> of_class(Class::Word, #[trigger] w@[i]) {
            lemma_span_is(w@, 0, Class::Word, w@.len() as int);
        }
    }
    e == w.len() && !keyword(w)
}

// ----- the floats of a text ---------------------------------------------------

/// The float literals of a text from a place on, in the order in which
/// they stand. A text that breaks off in a number or a string has those
/// before it.
pub open spec fn literals(s: Seq<u8>, p: int) -> Seq<Seq<u8>>
    decreases s.len() - p,
{
    if p < 0 || p >= s.len() {
        seq![]
    } else if s[p] == QUOTE {
        match string_rest(s, p + 1) {
            Ok((_, e)) => if p < e <= s.len() {
                literals(s, e)
            } else {
                seq![]
            },
            Err(_) => seq![],
        }
    } else if s[p] == MINUS || is_digit(s[p]) {
        match number_end(s, p) {
            Ok((e, float)) => if p < e <= s.len() {
                if float {
                    seq![s.subrange(p, e)] + literals(s, e)
                } else {
                    literals(s, e)
                }
            } else {
                seq![]
            },
            Err(_) => seq![],
        }
    } else if of_class(Class::Word, s[p]) {
        if p < span(s, p, Class::Word) <= s.len() {
            literals(s, span(s, p, Class::Word))
        } else {
            seq![]
        }
    } else {
        literals(s, p + 1)
    }
}

pub open spec fn byte_views(v: Seq<Vec<u8>>) -> Seq<Seq<u8>> {
    Seq::new(v.len(), |i: int| v[i]@)
}

/// The float literals of a text, in the order in which [`decode_bytes`]
/// asks for their values.
///
/// [`decode_bytes`]: super::reading::decode_bytes
pub fn float_literals(s: &[u8]) -> (v: Vec<Vec<u8>>)
    ensures
        byte_views(v@) == literals(s@, 0),
{
    let mut out: Vec<Vec<u8>> = Vec::new();
    let mut p: usize = 0;
    let total: usize = s.len();
    assert(byte_views(out@) + literals(s@, 0) =~= literals(s@, 0));
    while p < total
        invariant
            p <= total == s@.len(),
            byte_views(out@) + literals(s@, p as int) =~= literals(s@, 0),
        decreases total - p,
    {
        let c = s[p];
        if c == QUOTE {
            match scan_string(s, p + 1) {
                Ok((_, e)) => {
                    p = e;
                },
                Err(_) => {
                    assert(byte_views(out@) + Seq::<Seq<u8>>::empty() =~= byte_views(out@));
                    return out;
                },
            }
        } else if c == MINUS || digit(c) {
            match scan_number(s, p) {
                Ok((e, float)) => {
                    if float {
                        let ghost before = byte_views(out@);
                        out.push(slice_to_vec(slice_subrange(s, p, e)));
                        assert(byte_views(out@) =~= before.push(
                            s@.subrange(p as int, e as int),
                        ));
                        assert(before + (seq![s@.subrange(p as int, e as int)] + literals(
                            s@,
                            e as int,
                        )) =~= byte_views(out@) + literals(s@, e as int));
                    }
                    p = e;
                },
                Err(_) => {
                    assert(byte_views(out@) + Seq::<Seq<u8>>::empty() =~= byte_views(out@));
                    return out;
                },
            }
        } else if in_class(Class::Word, c) {
            proof {
                lemma_span(s@, p as int, Class::Word);
            }
            p = run_end(s, p, Class::Word);
        } else {
            p = p + 1;
        }
    }
    assert(byte_views(out@) + Seq::<Seq<u8>>::empty() =~= byte_views(out@));
    out
}

} // verus!
