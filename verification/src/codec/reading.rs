//! The bounded parser of the text form.

use vstd::prelude::*;
use vstd::slice::*;
use vstd::string::*;
use vstd::utf8::*;
use super::base64::{base64_decode, decoded, malformed};
use super::lexis::{
    byte_at, digit, is_digit, is_letter, is_name, lemma_span, lemma_string_rest, letter, names,
    next_is, number_end, run_end, scan_number, scan_string, span, string_rest, syntax,
    syntax_error, Class, BACKSLASH, CLOSE_BRACE, CLOSE_BRACKET, COMMA, EQUALS, MINUS, OPEN_BRACE,
    OPEN_BRACKET, QUOTE,
};
use super::number::{check_float, finite, float_refusal, Float};
use super::value::{
    has_key, inserted, key_node, key_of, sorted, Key, KeyView, Node, Table, Value,
};
use super::writing::{blob_word, false_word, left, lemma_words, nil_word, true_word};
use super::{ascii_string, no_budget_spent, too_long, Budget, CodecError, ErrorView, MAX_ENCODED};
use crate::text::{bytes_eq, dec, push_dec};

verus! {

/// Where the parser stands: the next byte, the floats it has asked for,
/// and what it has spent.
pub struct State {
    pub pos: int,
    pub floats: int,
    pub budget: Budget,
}

/// The value of a run of decimal digits.
pub open spec fn digits_value(s: Seq<u8>) -> int
    decreases s.len(),
{
    if s.len() == 0 {
        0
    } else {
        digits_value(s.drop_last()) * 10 + (s.last() - 48)
    }
}

/// The value of an integer literal.
pub open spec fn literal_value(s: Seq<u8>) -> int {
    if byte_at(s, 0, MINUS) {
        -digits_value(s.skip(1))
    } else {
        digits_value(s)
    }
}

/// ASCII bytes as characters.
pub open spec fn as_chars(s: Seq<u8>) -> Seq<char> {
    Seq::new(s.len(), |i: int| s[i] as char)
}

pub open spec fn bad_float(literal: Seq<u8>) -> ErrorView {
    ErrorView { code: "codec_number"@, message: "bad float "@ + as_chars(literal) }
}

pub open spec fn wide_integer(literal: Seq<u8>) -> ErrorView {
    ErrorView {
        code: "codec_number"@,
        message: "integer "@ + as_chars(literal) + " does not fit 64 bits"@,
    }
}

/// A number. The values of float literals are given, in the order in
/// which they are asked for.
pub open spec fn number_at(s: Seq<u8>, reads: Seq<Float>, st: State) -> Result<
    (Node, State),
    ErrorView,
> {
    match number_end(s, st.pos) {
        Err(e) => Err(e),
        Ok((e, float)) => {
            let literal = s.subrange(st.pos, e);
            if float {
                if 0 <= st.floats < reads.len() {
                    let f = reads[st.floats];
                    if finite(f.bits) {
                        Ok((Node::Float(f), State { pos: e, floats: st.floats + 1, ..st }))
                    } else {
                        Err(float_refusal(f.bits))
                    }
                } else {
                    Err(bad_float(literal))
                }
            } else if i64::MIN <= literal_value(literal) <= i64::MAX {
                Ok((Node::Int(literal_value(literal) as i64), State { pos: e, ..st }))
            } else {
                Err(wide_integer(literal))
            }
        },
    }
}

/// A value that was read, charged to the budget.
pub open spec fn charged(n: Node, st: State, payload: int) -> Result<(Node, State), ErrorView> {
    match st.budget.with_value(payload) {
        Err(e) => Err(e),
        Ok(b) => Ok((n, State { budget: b, ..st })),
    }
}

/// A blob behind its word.
pub open spec fn blob_at(s: Seq<u8>, st: State) -> Result<(Node, State), ErrorView> {
    if !byte_at(s, st.pos, QUOTE) {
        Err(syntax("expected '\"' after blob"@, st.pos))
    } else {
        match string_rest(s, st.pos + 1) {
            Err(e) => Err(e),
            Ok((t, e)) => if t.contains(BACKSLASH) {
                Err(syntax("escapes are not allowed in base64"@, e))
            } else {
                match decoded(t) {
                    None => Err(ErrorView { code: "codec_syntax"@, message: malformed() }),
                    Some(b) => charged(Node::Blob(b), State { pos: e, ..st }, b.len() as int),
                }
            },
        }
    }
}

/// A value that begins with a letter.
pub open spec fn word_at(s: Seq<u8>, st: State) -> Result<(Node, State), ErrorView> {
    let e = span(s, st.pos, Class::Word);
    let w = s.subrange(st.pos, e);
    let next = State { pos: e, ..st };
    if w == nil_word() {
        charged(Node::Nil, next, 0)
    } else if w == true_word() {
        charged(Node::Bool(true), next, 0)
    } else if w == false_word() {
        charged(Node::Bool(false), next, 0)
    } else if w == blob_word() {
        blob_at(s, next)
    } else {
        Err(syntax("unknown word"@, e))
    }
}

/// A value that is no table.
pub open spec fn scalar_at(s: Seq<u8>, reads: Seq<Float>, st: State) -> Result<
    (Node, State),
    ErrorView,
> {
    if st.pos < 0 || st.pos >= s.len() {
        Err(syntax("unexpected end of input"@, st.pos))
    } else if s[st.pos] == QUOTE {
        match string_rest(s, st.pos + 1) {
            Err(e) => Err(e),
            Ok((t, e)) => charged(Node::Str(t), State { pos: e, ..st }, t.len() as int),
        }
    } else if s[st.pos] == MINUS || is_digit(s[st.pos]) {
        match number_at(s, reads, st) {
            Err(e) => Err(e),
            Ok((n, next)) => charged(n, next, 0),
        }
    } else if is_letter(s[st.pos]) {
        word_at(s, st)
    } else {
        Err(syntax("unexpected character"@, st.pos))
    }
}

/// What a parser that does not move on would say; it always moves on.
pub open spec fn stuck() -> ErrorView {
    ErrorView { code: ""@, message: ""@ }
}

/// Whether a place is behind another one, within the text.
pub open spec fn ahead(s: Seq<u8>, from: int, to: int) -> bool {
    from < to <= s.len()
}

/// A value.
pub open spec fn value_at(s: Seq<u8>, reads: Seq<Float>, st: State) -> Result<
    (Node, State),
    ErrorView,
>
    decreases s.len() - st.pos, 1nat,
{
    if byte_at(s, st.pos, OPEN_BRACE) {
        match st.budget.with_table() {
            Err(e) => Err(e),
            Ok(b) => match b.with_value(0) {
                Err(e) => Err(e),
                Ok(c) => match entries_at(
                    s,
                    reads,
                    State { pos: st.pos + 1, budget: c, ..st },
                    seq![],
                ) {
                    Err(e) => Err(e),
                    Ok((t, next)) => Ok((Node::Table(t), next)),
                },
            },
        }
    } else {
        scalar_at(s, reads, st)
    }
}

/// A key in brackets or a bare one.
pub open spec fn key_at(s: Seq<u8>, reads: Seq<Float>, st: State) -> Result<
    (KeyView, State),
    ErrorView,
>
    decreases s.len() - st.pos, 2nat,
{
    if byte_at(s, st.pos, OPEN_BRACKET) {
        let p = span(s, st.pos + 1, Class::Blank);
        if !(st.pos < p <= s.len()) {
            Err(stuck())
        } else {
            match value_at(s, reads, State { pos: p, ..st }) {
                Err(e) => Err(e),
                Ok((n, next)) => {
                    let q = span(s, next.pos, Class::Blank);
                    if !byte_at(s, q, CLOSE_BRACKET) {
                        Err(syntax("expected ']'"@, q))
                    } else {
                        match key_of(n) {
                            Err(e) => Err(e),
                            Ok(k) => Ok((k, State { pos: q + 1, ..next })),
                        }
                    }
                },
            }
        }
    } else {
        let e = span(s, st.pos, Class::Word);
        let w = s.subrange(st.pos, e);
        if e == st.pos {
            Err(syntax("expected a key"@, e))
        } else if !is_name(w) {
            Err(syntax("bare key is not a name"@, st.pos))
        } else {
            match st.budget.with_value(w.len() as int) {
                Err(e) => Err(e),
                Ok(b) => Ok((KeyView::Str(w), State { pos: e, budget: b, ..st })),
            }
        }
    }
}

pub open spec fn duplicate(at: int) -> ErrorView {
    ErrorView { code: "codec_key"@, message: "duplicate key at byte "@ + dec(at as nat) }
}

/// The value behind a key, with its equals sign.
pub open spec fn pair_value(s: Seq<u8>, reads: Seq<Float>, from: int, st: State) -> Result<
    (Node, State),
    ErrorView,
>
    decreases s.len() - from, 3nat,
{
    let p = span(s, st.pos, Class::Blank);
    if !byte_at(s, p, EQUALS) {
        Err(syntax("expected '='"@, p))
    } else {
        let q = span(s, p + 1, Class::Blank);
        if !ahead(s, from, q) {
            Err(stuck())
        } else {
            match value_at(s, reads, State { pos: q, ..st }) {
                Err(e) => Err(e),
                Ok((n, next)) => if n is Nil {
                    Err(syntax("nil is not a table value"@, next.pos))
                } else {
                    match next.budget.with_entry() {
                        Err(e) => Err(e),
                        Ok(b) => Ok((n, State { budget: b, ..next })),
                    }
                },
            }
        }
    }
}

/// Behind an entry: where the next one begins, or the closing brace.
pub open spec fn entry_end(s: Seq<u8>, pos: int) -> Result<int, ErrorView> {
    let p = span(s, pos, Class::Blank);
    if byte_at(s, p, COMMA) {
        Ok(p + 1)
    } else if byte_at(s, p, CLOSE_BRACE) {
        Ok(p)
    } else {
        Err(syntax("expected ',' or '}'"@, p))
    }
}

/// The entries of a table up to its closing brace, behind those that
/// were read.
pub open spec fn entries_at(
    s: Seq<u8>,
    reads: Seq<Float>,
    st: State,
    read: Seq<(KeyView, Node)>,
) -> Result<(Seq<(KeyView, Node)>, State), ErrorView>
    decreases s.len() - st.pos, 4nat,
{
    let p = span(s, st.pos, Class::Blank);
    if p >= s.len() {
        Err(syntax("unterminated table"@, p))
    } else if byte_at(s, p, CLOSE_BRACE) {
        Ok((read, State { pos: p + 1, budget: left(st.budget), ..st }))
    } else if p < st.pos {
        Err(stuck())
    } else {
        match key_at(s, reads, State { pos: p, ..st }) {
            Err(e) => Err(e),
            Ok((k, keyed)) => match pair_value(s, reads, st.pos, keyed) {
                Err(e) => Err(e),
                Ok((n, valued)) => if has_key(read, k) {
                    Err(duplicate(valued.pos))
                } else {
                    match entry_end(s, valued.pos) {
                        Err(e) => Err(e),
                        Ok(q) => if !ahead(s, st.pos, q) {
                            Err(stuck())
                        } else {
                            entries_at(s, reads, State { pos: q, ..valued }, inserted(read, k, n))
                        },
                    }
                },
            },
        }
    }
}

/// What a text stands for, or what is wrong with it.
pub open spec fn reading(s: Seq<u8>, reads: Seq<Float>) -> Result<Node, ErrorView> {
    if s.len() > MAX_ENCODED {
        Err(too_long())
    } else {
        let p = span(s, 0, Class::Blank);
        match value_at(s, reads, State { pos: p, floats: 0, budget: no_budget_spent() }) {
            Err(e) => Err(e),
            Ok((n, st)) => {
                let q = span(s, st.pos, Class::Blank);
                if q != s.len() {
                    Err(syntax("trailing characters after the value"@, q))
                } else {
                    Ok(n)
                }
            },
        }
    }
}

// ----- the parser moves on ---------------------------------------------------------

/// A state that can be reached by parsing from another one.
pub open spec fn later(s: Seq<u8>, reads: Seq<Float>, a: State, b: State) -> bool {
    &&& a.pos < b.pos <= s.len()
    &&& a.floats <= b.floats
    &&& (a.floats <= reads.len() ==> b.floats <= reads.len())
    &&& b.budget.depth == a.budget.depth
    &&& (a.budget.wf() ==> b.budget.wf())
}

proof fn lemma_scalar_moves(s: Seq<u8>, reads: Seq<Float>, st: State)
    requires
        0 <= st.pos,
    ensures
        scalar_at(s, reads, st) matches Ok((n, next)) ==> later(s, reads, st, next),
{
    if st.pos < s.len() {
        lemma_string_rest(s, st.pos + 1);
        lemma_number_end(s, st.pos);
        lemma_span(s, st.pos, Class::Word);
        lemma_string_rest(s, span(s, st.pos, Class::Word) + 1);
    }
}

pub proof fn lemma_number_end(s: Seq<u8>, p: int)
    requires
        0 <= p < s.len(),
    ensures
        number_end(s, p) matches Ok((e, _)) ==> p < e <= s.len(),
{
    let a = if byte_at(s, p, MINUS) {
        p + 1
    } else {
        p
    };
    lemma_span(s, a, Class::Digit);
    let b = span(s, a, Class::Digit);
    lemma_span(s, b + 1, Class::Digit);
    let c = if byte_at(s, b, super::lexis::POINT) {
        span(s, b + 1, Class::Digit)
    } else {
        b
    };
    lemma_span(s, c + 1, Class::Digit);
    lemma_span(s, c + 2, Class::Digit);
}

proof fn lemma_value_moves(s: Seq<u8>, reads: Seq<Float>, st: State)
    requires
        0 <= st.pos,
    ensures
        value_at(s, reads, st) matches Ok((n, next)) ==> later(s, reads, st, next),
    decreases s.len() - st.pos, 1nat,
{
    if byte_at(s, st.pos, OPEN_BRACE) {
        if let Ok(b) = st.budget.with_table() {
            if let Ok(c) = b.with_value(0) {
                let from = State { pos: st.pos + 1, budget: c, ..st };
                lemma_entries_move(s, reads, from, seq![]);
            }
        }
    } else {
        lemma_scalar_moves(s, reads, st);
    }
}

proof fn lemma_key_moves(s: Seq<u8>, reads: Seq<Float>, st: State)
    requires
        0 <= st.pos <= s.len(),
    ensures
        key_at(s, reads, st) matches Ok((k, next)) ==> later(s, reads, st, next)
            && key_of(key_node(k)) is Ok,
    decreases s.len() - st.pos, 2nat,
{
    lemma_span(s, st.pos, Class::Word);
    if byte_at(s, st.pos, OPEN_BRACKET) {
        lemma_span(s, st.pos + 1, Class::Blank);
        let p = span(s, st.pos + 1, Class::Blank);
        let from = State { pos: p, ..st };
        lemma_value_moves(s, reads, from);
        if let Ok((n, next)) = value_at(s, reads, from) {
            lemma_span(s, next.pos, Class::Blank);
        }
    }
}

proof fn lemma_pair_moves(s: Seq<u8>, reads: Seq<Float>, from: int, st: State)
    requires
        0 <= from < st.pos <= s.len(),
    ensures
        pair_value(s, reads, from, st) matches Ok((n, next)) ==> later(s, reads, st, next)
            && n !is Nil,
        pair_value(s, reads, from, st) == pair_value(s, reads, st.pos - 1, st),
    decreases s.len() - from, 3nat,
{
    lemma_span(s, st.pos, Class::Blank);
    let p = span(s, st.pos, Class::Blank);
    if byte_at(s, p, EQUALS) {
        lemma_span(s, p + 1, Class::Blank);
        let q = span(s, p + 1, Class::Blank);
        lemma_value_moves(s, reads, State { pos: q, ..st });
    }
}

proof fn lemma_entry_end(s: Seq<u8>, pos: int)
    requires
        0 <= pos,
    ensures
        entry_end(s, pos) matches Ok(q) ==> pos <= q <= s.len(),
{
    lemma_span(s, pos, Class::Blank);
}

proof fn lemma_entries_move(
    s: Seq<u8>,
    reads: Seq<Float>,
    st: State,
    read: Seq<(KeyView, Node)>,
)
    requires
        0 <= st.pos,
        st.budget.depth > 0,
    ensures
        entries_at(s, reads, st, read) matches Ok((t, next)) ==> {
            &&& st.pos < next.pos <= s.len()
            &&& st.floats <= next.floats
            &&& (st.floats <= reads.len() ==> next.floats <= reads.len())
            &&& next.budget.depth == st.budget.depth - 1
            &&& (st.budget.wf() ==> next.budget.wf())
        },
    decreases s.len() - st.pos, 4nat,
{
    lemma_span(s, st.pos, Class::Blank);
    let p = span(s, st.pos, Class::Blank);
    if p < s.len() && !byte_at(s, p, CLOSE_BRACE) {
        let from = State { pos: p, ..st };
        lemma_key_moves(s, reads, from);
        if let Ok((k, keyed)) = key_at(s, reads, from) {
            lemma_pair_moves(s, reads, st.pos, keyed);
            if let Ok((n, valued)) = pair_value(s, reads, st.pos, keyed) {
                lemma_entry_end(s, valued.pos);
                if let Ok(q) = entry_end(s, valued.pos) {
                    lemma_entries_move(
                        s,
                        reads,
                        State { pos: q, ..valued },
                        inserted(read, k, n),
                    );
                }
            }
        }
    }
}

// ----- parsing ------------------------------------------------------------------------

proof fn lemma_digits_step(s: Seq<u8>, i: int)
    requires
        0 <= i < s.len(),
        is_digit(s[i]),
    ensures
        digits_value(s.take(i + 1)) == digits_value(s.take(i)) * 10 + (s[i] - 48),
{
    assert(s.take(i + 1).drop_last() =~= s.take(i));
}

/// The value of a run of digits, if it is at most 2^63.
fn scan_digits(s: &[u8]) -> (r: Option<u64>)
    requires
        forall|i: int| 0 <= i < s@.len() ==> is_digit(#[trigger] s@[i]),
    ensures
        match r {
            Some(v) => v == digits_value(s@) && v <= 0x8000_0000_0000_0000,
            None => digits_value(s@) > 0x8000_0000_0000_0000,
        },
{
    let mut v: u128 = 0;
    let mut over = false;
    let mut i: usize = 0;
    while i < s.len()
        invariant
            i <= s@.len(),
            forall|k: int| 0 <= k < s@.len() ==> is_digit(#[trigger] s@[k]),
            over ==> digits_value(s@.take(i as int)) > 0x8000_0000_0000_0000,
            !over ==> v == digits_value(s@.take(i as int)) && v <= 0x8000_0000_0000_0000,
        decreases s.len() - i,
    {
        proof {
            lemma_digits_step(s@, i as int);
        }
        if !over {
            v = v * 10 + (s[i] - 48) as u128;
            if v > 0x8000_0000_0000_0000 {
                over = true;
            }
        }
        i += 1;
    }
    assert(s@.take(i as int) =~= s@);
    if over {
        None
    } else {
        Some(v as u64)
    }
}

proof fn lemma_literal(s: Seq<u8>, p: int)
    requires
        0 <= p < s.len(),
        number_end(s, p) is Ok,
        !number_end(s, p)->Ok_0.1,
    ensures
        ({
            let e = number_end(s, p)->Ok_0.0;
            let a = if byte_at(s, p, MINUS) {
                p + 1
            } else {
                p
            };
            &&& p < e <= s.len()
            &&& a < e
            &&& forall|i: int| a <= i < e ==> is_digit(#[trigger] s[i])
        }),
{
    let a = if byte_at(s, p, MINUS) {
        p + 1
    } else {
        p
    };
    lemma_span(s, a, Class::Digit);
    lemma_number_end(s, p);
    let e = number_end(s, p)->Ok_0.0;
    assert(e == span(s, a, Class::Digit));
    assert forall|i: int| a <= i < e implies is_digit(#[trigger] s[i]) by {
        assert(super::lexis::of_class(Class::Digit, s[i]));
    }
}

/// A literal behind a text.
fn append_literal(m: &mut String, literal: &[u8])
    requires
        super::writing::ascii(literal@),
    ensures
        final(m)@ == old(m)@ + as_chars(literal@),
{
    let s = ascii_string(literal);
    m.append(s.as_str());
    assert(s@ =~= as_chars(literal@));
}

/// The bytes of a number are ASCII.
proof fn lemma_number_ascii(s: Seq<u8>, p: int)
    requires
        0 <= p < s.len(),
        number_end(s, p) is Ok,
    ensures
        super::writing::ascii(s.subrange(p, number_end(s, p)->Ok_0.0)),
{
    lemma_number_end(s, p);
    let a = if byte_at(s, p, MINUS) {
        p + 1
    } else {
        p
    };
    lemma_span(s, a, Class::Digit);
    let b = span(s, a, Class::Digit);
    lemma_span(s, b + 1, Class::Digit);
    let c = if byte_at(s, b, super::lexis::POINT) {
        span(s, b + 1, Class::Digit)
    } else {
        b
    };
    let d = if byte_at(s, c + 1, super::lexis::PLUS) || byte_at(s, c + 1, MINUS) {
        c + 2
    } else {
        c + 1
    };
    lemma_span(s, d, Class::Digit);
    let e = number_end(s, p)->Ok_0.0;
    let t = s.subrange(p, e);
    assert forall|i: int| 0 <= i < t.len() implies #[trigger] t[i] < 128 by {
        let k = p + i;
        assert(t[i] == s[k]);
        if a <= k < b || b + 1 <= k < c || d <= k {
            assert(super::lexis::of_class(Class::Digit, s[k]));
        }
    }
}

struct Parser<'a> {
    src: &'a [u8],
    reads: &'a [Float],
    pos: usize,
    floats: usize,
    budget: Budget,
}

impl<'a> View for Parser<'a> {
    type V = State;

    closed spec fn view(&self) -> State {
        State { pos: self.pos as int, floats: self.floats as int, budget: self.budget }
    }
}

impl<'a> Parser<'a> {
    spec fn wf(&self) -> bool {
        self.pos <= self.src@.len() <= MAX_ENCODED && self.floats <= self.reads@.len()
            && self.budget.wf()
    }

    /// The same text and the same floats.
    spec fn same(&self, other: &Parser<'a>) -> bool {
        self.src == other.src && self.reads == other.reads
    }

    fn skip_ws(&mut self)
        requires
            old(self).wf(),
        ensures
            final(self).wf(),
            final(self).same(old(self)),
            final(self)@ == (State {
                pos: span(old(self).src@, old(self)@.pos, Class::Blank),
                ..old(self)@
            }),
    {
        self.pos = run_end(self.src, self.pos, Class::Blank);
    }

    fn number(&mut self) -> (r: Result<Value, CodecError>)
        requires
            old(self).wf(),
            old(self).pos < old(self).src@.len(),
        ensures
            final(self).wf(),
            final(self).same(old(self)),
            match (r, number_at(old(self).src@, old(self).reads@, old(self)@)) {
                (Ok(v), Ok((n, st))) => v@ == n && final(self)@ == st,
                (Err(e), Err(v)) => e@ == v,
                _ => false,
            },
    {
        let start: usize = self.pos;
        let (e, float) = match scan_number(self.src, self.pos) {
            Ok(x) => x,
            Err(e) => return Err(e),
        };
        let literal = slice_subrange(self.src, start, e);
        proof {
            lemma_number_ascii(self.src@, start as int);
        }
        if float {
            if self.floats >= self.reads.len() {
                let mut m = "bad float ".to_owned();
                append_literal(&mut m, literal);
                return Err(CodecError { code: CodecError::NUMBER, message: m });
            }
            let f = self.reads[self.floats];
            if let Err(e) = check_float(&f) {
                return Err(e);
            }
            self.pos = e;
            self.floats = self.floats + 1;
            return Ok(Value::Float(f));
        }
        proof {
            lemma_literal(self.src@, start as int);
        }
        let minus = next_is(self.src, start, MINUS);
        let digits = slice_subrange(self.src, if minus { start + 1 } else { start }, e);
        assert(literal@.skip(1) =~= self.src@.subrange(start + 1, e as int));
        let value: Option<i64> = match scan_digits(digits) {
            None => None,
            Some(v) => {
                if minus {
                    Some((-(v as i128)) as i64)
                } else if v <= i64::MAX as u64 {
                    Some(v as i64)
                } else {
                    None
                }
            },
        };
        match value {
            Some(i) => {
                self.pos = e;
                Ok(Value::Int(i))
            },
            None => {
                let mut m = "integer ".to_owned();
                append_literal(&mut m, literal);
                m.append(" does not fit 64 bits");
                Err(CodecError { code: CodecError::NUMBER, message: m })
            },
        }
    }

    /// The blob behind its word.
    fn blob(&mut self) -> (r: Result<Value, CodecError>)
        requires
            old(self).wf(),
        ensures
            final(self).same(old(self)),
            match (r, blob_at(old(self).src@, old(self)@)) {
                (Ok(v), Ok((n, st))) => v@ == n && final(self)@ == st && final(self).wf(),
                (Err(e), Err(v)) => e@ == v,
                _ => false,
            },
    {
        if !next_is(self.src, self.pos, QUOTE) {
            return Err(syntax_error("expected '\"' after blob", self.pos));
        }
        let (text, e) = match scan_string(self.src, self.pos + 1) {
            Ok(x) => x,
            Err(e) => return Err(e),
        };
        self.pos = e;
        let mut i: usize = 0;
        while i < text.len()
            invariant
                i <= text@.len(),
                forall|k: int| 0 <= k < i ==> text@[k] != BACKSLASH,
                self.pos == e,
                string_rest(old(self).src@, old(self)@.pos + 1) matches Ok((t, x)) && t == text@
                    && x == e,
                byte_at(old(self).src@, old(self)@.pos, QUOTE),
                self.same(old(self)),
            decreases text.len() - i,
        {
            if text[i] == BACKSLASH {
                assert(text@.contains(BACKSLASH));
                return Err(syntax_error("escapes are not allowed in base64", self.pos));
            }
            i += 1;
        }
        assert(!text@.contains(BACKSLASH));
        match base64_decode(text.as_slice()) {
            Err(e) => Err(e),
            Ok(bytes) => {
                match self.budget.value(bytes.len()) {
                    Err(e) => Err(e),
                    Ok(_) => Ok(Value::Blob(bytes)),
                }
            },
        }
    }

    fn word(&mut self) -> (r: Result<Value, CodecError>)
        requires
            old(self).wf(),
            old(self).pos < old(self).src@.len(),
        ensures
            final(self).same(old(self)),
            match (r, word_at(old(self).src@, old(self)@)) {
                (Ok(v), Ok((n, st))) => v@ == n && final(self)@ == st && final(self).wf(),
                (Err(e), Err(v)) => e@ == v,
                _ => false,
            },
    {
        let start: usize = self.pos;
        self.pos = run_end(self.src, start, Class::Word);
        let w = slice_subrange(self.src, start, self.pos);
        proof {
            lemma_words();
        }
        let value = if bytes_eq(w, "nil".as_bytes()) {
            Value::Nil
        } else if bytes_eq(w, "true".as_bytes()) {
            Value::Bool(true)
        } else if bytes_eq(w, "false".as_bytes()) {
            Value::Bool(false)
        } else if bytes_eq(w, "blob".as_bytes()) {
            return self.blob();
        } else {
            return Err(syntax_error("unknown word", self.pos));
        };
        match self.budget.value(0) {
            Err(e) => Err(e),
            Ok(_) => Ok(value),
        }
    }

    fn scalar(&mut self) -> (r: Result<Value, CodecError>)
        requires
            old(self).wf(),
        ensures
            final(self).same(old(self)),
            match (r, scalar_at(old(self).src@, old(self).reads@, old(self)@)) {
                (Ok(v), Ok((n, st))) => v@ == n && final(self)@ == st && final(self).wf(),
                (Err(e), Err(v)) => e@ == v,
                _ => false,
            },
    {
        if self.pos >= self.src.len() {
            return Err(syntax_error("unexpected end of input", self.pos));
        }
        let c = self.src[self.pos];
        if c == QUOTE {
            match scan_string(self.src, self.pos + 1) {
                Err(e) => Err(e),
                Ok((text, e)) => {
                    self.pos = e;
                    match self.budget.value(text.len()) {
                        Err(e) => Err(e),
                        Ok(_) => Ok(Value::Str(text)),
                    }
                },
            }
        } else if c == MINUS || digit(c) {
            match self.number() {
                Err(e) => Err(e),
                Ok(v) => match self.budget.value(0) {
                    Err(e) => Err(e),
                    Ok(_) => Ok(v),
                },
            }
        } else if letter(c) {
            self.word()
        } else {
            Err(syntax_error("unexpected character", self.pos))
        }
    }

    fn value(&mut self) -> (r: Result<Value, CodecError>)
        requires
            old(self).wf(),
        ensures
            final(self).same(old(self)),
            match (r, value_at(old(self).src@, old(self).reads@, old(self)@)) {
                (Ok(v), Ok((n, st))) => v@ == n && final(self)@ == st && final(self).wf(),
                (Err(e), Err(v)) => e@ == v,
                _ => false,
            },
        decreases old(self).src@.len() - old(self).pos, 1nat,
    {
        if next_is(self.src, self.pos, OPEN_BRACE) {
            self.pos = self.pos + 1;
            if let Err(e) = self.budget.enter() {
                return Err(e);
            }
            if let Err(e) = self.budget.value(0) {
                return Err(e);
            }
            match self.table() {
                Ok(t) => Ok(Value::Table(t)),
                Err(e) => Err(e),
            }
        } else {
            self.scalar()
        }
    }

    fn key(&mut self) -> (r: Result<Key, CodecError>)
        requires
            old(self).wf(),
        ensures
            final(self).same(old(self)),
            match (r, key_at(old(self).src@, old(self).reads@, old(self)@)) {
                (Ok(v), Ok((n, st))) => v@ == n && final(self)@ == st && final(self).wf(),
                (Err(e), Err(v)) => e@ == v,
                _ => false,
            },
        decreases old(self).src@.len() - old(self).pos, 2nat,
    {
        if next_is(self.src, self.pos, OPEN_BRACKET) {
            self.pos = self.pos + 1;
            proof {
                lemma_span(self.src@, self@.pos, Class::Blank);
            }
            self.skip_ws();
            let v = match self.value() {
                Ok(v) => v,
                Err(e) => return Err(e),
            };
            self.skip_ws();
            if !next_is(self.src, self.pos, CLOSE_BRACKET) {
                return Err(syntax_error("expected ']'", self.pos));
            }
            self.pos = self.pos + 1;
            return Key::from_value(v);
        }
        let start: usize = self.pos;
        let e = run_end(self.src, start, Class::Word);
        if e == start {
            return Err(syntax_error("expected a key", e));
        }
        let w = slice_subrange(self.src, start, e);
        if !names(w) {
            return Err(syntax_error("bare key is not a name", start));
        }
        self.pos = e;
        match self.budget.value(w.len()) {
            Err(e) => Err(e),
            Ok(_) => Ok(Key::Str(slice_to_vec(w))),
        }
    }

    /// The value of an entry, with the equals sign before it.
    fn pair(&mut self, Ghost(from): Ghost<int>) -> (r: Result<Value, CodecError>)
        requires
            old(self).wf(),
            0 <= from < old(self).pos,
        ensures
            final(self).same(old(self)),
            match (r, pair_value(old(self).src@, old(self).reads@, from, old(self)@)) {
                (Ok(v), Ok((n, st))) => v@ == n && final(self)@ == st && final(self).wf(),
                (Err(e), Err(v)) => e@ == v,
                _ => false,
            },
        decreases old(self).src@.len() - from, 3nat,
    {
        self.skip_ws();
        if !next_is(self.src, self.pos, EQUALS) {
            return Err(syntax_error("expected '='", self.pos));
        }
        proof {
            lemma_span(old(self).src@, old(self)@.pos, Class::Blank);
        }
        self.pos = self.pos + 1;
        proof {
            lemma_span(self.src@, self@.pos, Class::Blank);
        }
        self.skip_ws();
        let v = match self.value() {
            Ok(v) => v,
            Err(e) => return Err(e),
        };
        if let Value::Nil = v {
            return Err(syntax_error("nil is not a table value", self.pos));
        }
        match self.budget.entry() {
            Err(e) => Err(e),
            Ok(_) => Ok(v),
        }
    }

    fn table(&mut self) -> (r: Result<Table, CodecError>)
        requires
            old(self).wf(),
            old(self).budget.depth > 0,
        ensures
            final(self).same(old(self)),
            match (r, entries_at(old(self).src@, old(self).reads@, old(self)@, seq![])) {
                (Ok(v), Ok((n, st))) => v@ == n && sorted(v@) && final(self)@ == st
                    && final(self).wf(),
                (Err(e), Err(v)) => e@ == v,
                _ => false,
            },
        decreases old(self).src@.len() - old(self).pos, 5nat,
    {
        let mut table = Table::new();
        let ghost s = self.src@;
        let ghost reads = self.reads@;
        let ghost whole = entries_at(s, reads, self@, seq![]);
        loop
            invariant
                self.wf(),
                self.same(old(self)),
                s == self.src@,
                reads == self.reads@,
                old(self).pos <= self.pos,
                self.budget.depth > 0,
                sorted(table@),
                whole == entries_at(old(self).src@, old(self).reads@, old(self)@, seq![]),
                whole == entries_at(s, reads, self@, table@),
            decreases self.src@.len() - self.pos,
        {
            let ghost head = self@;
            proof {
                lemma_span(s, head.pos, Class::Blank);
            }
            self.skip_ws();
            if self.pos >= self.src.len() {
                return Err(syntax_error("unterminated table", self.pos));
            }
            if next_is(self.src, self.pos, CLOSE_BRACE) {
                self.pos = self.pos + 1;
                self.budget.leave();
                return Ok(table);
            }
            proof {
                lemma_key_moves(s, reads, self@);
            }
            let key = match self.key() {
                Ok(k) => k,
                Err(e) => return Err(e),
            };
            let ghost keyed = self@;
            proof {
                lemma_pair_moves(s, reads, head.pos, keyed);
            }
            let value = match self.pair(Ghost(head.pos)) {
                Ok(v) => v,
                Err(e) => return Err(e),
            };
            let ghost valued = self@;
            proof {
                lemma_entry_end(s, valued.pos);
            }
            match table.insert(key, value) {
                Ok(Some(_)) => {
                    let mut m = "duplicate key at byte ".to_owned();
                    push_dec(&mut m, self.pos as u64);
                    return Err(CodecError { code: CodecError::KEY, message: m });
                },
                Ok(None) => {},
                Err(e) => {
                    assert(false);
                    return Err(e);
                },
            }
            self.skip_ws();
            if next_is(self.src, self.pos, COMMA) {
                self.pos = self.pos + 1;
            } else if !next_is(self.src, self.pos, CLOSE_BRACE) {
                return Err(syntax_error("expected ',' or '}'", self.pos));
            }
        }
    }
}

/// Parse raw bytes in the canonical grammar, which is what a save slot
/// holds, within the limits. `reads` holds the value of each of the text's
/// float literals, in order.
pub fn decode_bytes(src: &[u8], reads: &[Float]) -> (r: Result<Value, CodecError>)
    ensures
        match (r, reading(src@, reads@)) {
            (Ok(v), Ok(n)) => v@ == n,
            (Err(e), Err(v)) => e@ == v,
            _ => false,
        },
{
    if src.len() > MAX_ENCODED {
        return Err(CodecError::encoded());
    }
    let mut p = Parser { src, reads, pos: 0, floats: 0, budget: Budget::default() };
    p.skip_ws();
    let value = match p.value() {
        Ok(v) => v,
        Err(e) => return Err(e),
    };
    p.skip_ws();
    if p.pos != p.src.len() {
        return Err(syntax_error("trailing characters after the value", p.pos));
    }
    Ok(value)
}

/// Parse text in the canonical grammar.
pub fn decode(text: &str, reads: &[Float]) -> (r: Result<Value, CodecError>)
    ensures
        match (r, reading(encode_utf8(text@), reads@)) {
            (Ok(v), Ok(n)) => v@ == n,
            (Err(e), Err(v)) => e@ == v,
            _ => false,
        },
{
    decode_bytes(text.as_bytes(), reads)
}

} // verus!
