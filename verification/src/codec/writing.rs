//! The canonical text of a value.

use vstd::prelude::*;
use vstd::string::*;
use vstd::utf8::*;
use super::base64::{encoded, lemma_encoded_ascii, push_base64};
use super::lexis::{is_name, names, of_class, Class, CLOSE_BRACE, CLOSE_BRACKET, COMMA};
use super::lexis::{BACKSLASH, EQUALS, LOWER_E, LOWER_N, LOWER_T, LOWER_X, MINUS, NEWLINE};
use super::lexis::{OPEN_BRACE, OPEN_BRACKET, POINT, QUOTE, SPACE, TAB, ZERO};
use super::number::{check_float, finite, float_refusal, negative, Float};
use super::value::{
    entry_nodes, lemma_nodes_of, nil_refusal, node_of, Key, KeyView, Node, Value,
};
use super::{ascii_string, no_budget_spent, too_long, Budget, CodecError, ErrorView};
use super::{MAX_DEPTH, MAX_ENCODED, MAX_ENTRIES};

verus! {

// ----- the text of a value, without limits -----------------------------------

/// A number in decimal.
pub open spec fn decimal(n: nat) -> Seq<u8>
    decreases n,
{
    if n < 10 {
        seq![(48 + n) as u8]
    } else {
        decimal(n / 10).push((48 + n % 10) as u8)
    }
}

pub open spec fn integer_text(i: int) -> Seq<u8> {
    if i < 0 {
        seq![MINUS] + decimal((-i) as nat)
    } else {
        decimal(i as nat)
    }
}

pub open spec fn zeros(n: int) -> Seq<u8> {
    Seq::new(
        (if n > 0 {
            n
        } else {
            0
        }) as nat,
        |i: int| ZERO,
    )
}

/// A decimal with the point behind its first digit and a power of ten:
/// positional for exponents -5 to 16 and scientific otherwise; always a
/// point or an `e`.
pub open spec fn layout(digits: Seq<u8>, exp: int) -> Seq<u8> {
    if -5 <= exp < 17 {
        if exp >= 0 {
            if digits.len() > exp + 1 {
                digits.take(exp + 1) + seq![POINT] + digits.skip(exp + 1)
            } else {
                digits + zeros(exp + 1 - digits.len()) + seq![POINT, ZERO]
            }
        } else {
            seq![ZERO, POINT] + zeros(-exp - 1) + digits
        }
    } else if digits.len() > 1 {
        digits.take(1) + seq![POINT] + digits.skip(1) + seq![LOWER_E] + integer_text(exp)
    } else {
        digits + seq![LOWER_E] + integer_text(exp)
    }
}

pub open spec fn float_text(f: Float) -> Seq<u8> {
    if negative(f.bits) {
        seq![MINUS] + layout(decimal(f.digits as nat), f.exp as int)
    } else {
        layout(decimal(f.digits as nat), f.exp as int)
    }
}

/// A lower-case hexadecimal digit.
pub open spec fn hex_digit(d: int) -> u8 {
    if d < 10 {
        (48 + d) as u8
    } else {
        (87 + d) as u8
    }
}

/// One byte inside a string.
pub open spec fn escaped(b: u8) -> Seq<u8> {
    if b == NEWLINE {
        seq![BACKSLASH, LOWER_N]
    } else if b == TAB {
        seq![BACKSLASH, LOWER_T]
    } else if b == BACKSLASH || b == QUOTE {
        seq![BACKSLASH, b]
    } else if 0x20 <= b <= 0x7e {
        seq![b]
    } else {
        seq![BACKSLASH, LOWER_X, hex_digit(b as int / 16), hex_digit(b as int % 16)]
    }
}

/// The rest of a string, with its closing quote.
pub open spec fn string_tail(s: Seq<u8>) -> Seq<u8>
    decreases s.len(),
{
    if s.len() == 0 {
        seq![QUOTE]
    } else {
        escaped(s[0]) + string_tail(s.skip(1))
    }
}

pub open spec fn string_text(s: Seq<u8>) -> Seq<u8> {
    seq![QUOTE] + string_tail(s)
}

pub open spec fn nil_word() -> Seq<u8> {
    seq![0x6eu8, 0x69, 0x6c]
}

pub open spec fn true_word() -> Seq<u8> {
    seq![0x74u8, 0x72, 0x75, 0x65]
}

pub open spec fn false_word() -> Seq<u8> {
    seq![0x66u8, 0x61, 0x6c, 0x73, 0x65]
}

pub open spec fn blob_word() -> Seq<u8> {
    seq![0x62u8, 0x6c, 0x6f, 0x62]
}

pub open spec fn bool_text(b: bool) -> Seq<u8> {
    if b {
        true_word()
    } else {
        false_word()
    }
}

/// A key: bare where it is a name, in brackets otherwise.
pub open spec fn key_text(k: KeyView) -> Seq<u8> {
    match k {
        KeyView::Bool(b) => seq![OPEN_BRACKET] + bool_text(b) + seq![CLOSE_BRACKET],
        KeyView::Int(i) => seq![OPEN_BRACKET] + integer_text(i as int) + seq![CLOSE_BRACKET],
        KeyView::Float(f) => seq![OPEN_BRACKET] + float_text(f) + seq![CLOSE_BRACKET],
        KeyView::Str(s) => if is_name(s) {
            s
        } else {
            seq![OPEN_BRACKET] + string_text(s) + seq![CLOSE_BRACKET]
        },
    }
}

/// The canonical text of a value.
pub open spec fn text_of(n: Node) -> Seq<u8>
    decreases n, 0nat,
{
    match n {
        Node::Nil => nil_word(),
        Node::Bool(b) => bool_text(b),
        Node::Int(i) => integer_text(i as int),
        Node::Float(f) => float_text(f),
        Node::Str(s) => string_text(s),
        Node::Blob(b) => blob_word() + seq![QUOTE] + encoded(b) + seq![QUOTE],
        Node::Table(t) => if t.len() == 0 {
            seq![OPEN_BRACE, CLOSE_BRACE]
        } else {
            seq![OPEN_BRACE, SPACE] + entries_text(t, 0)
        },
    }
}

/// The entries from `i` on, with the closing brace.
pub open spec fn entries_text(t: Seq<(KeyView, Node)>, i: nat) -> Seq<u8>
    decreases t, t.len() - i,
{
    if i >= t.len() {
        seq![]
    } else {
        let entry = t[i as int];
        key_text(entry.0) + seq![SPACE, EQUALS, SPACE] + text_of(entry.1) + (if i + 1 == t.len() {
            seq![SPACE, CLOSE_BRACE]
        } else {
            seq![COMMA, SPACE] + entries_text(t, (i + 1) as nat)
        })
    }
}

// ----- the text within the limits ---------------------------------------------

/// A text, unless it is too long.
pub open spec fn limited(out: Seq<u8>) -> Result<Seq<u8>, ErrorView> {
    if out.len() > MAX_ENCODED {
        Err(too_long())
    } else {
        Ok(out)
    }
}

/// A key behind what is written, or why it cannot be written.
pub open spec fn with_key(out: Seq<u8>, k: KeyView) -> Result<Seq<u8>, ErrorView> {
    match k {
        KeyView::Str(s) if is_name(s) => Ok(out + s),
        KeyView::Float(f) if !finite(f.bits) => Err(float_refusal(f.bits)),
        _ => match limited((out + key_text(k)).drop_last()) {
            Ok(o) => Ok(out + key_text(k)),
            Err(e) => Err(e),
        },
    }
}

/// A value behind what is written, or the first thing that cannot be
/// written.
pub open spec fn with_value(out: Seq<u8>, n: Node, b: Budget) -> Result<
    (Seq<u8>, Budget),
    ErrorView,
>
    decreases n, 0nat,
{
    match n {
        Node::Float(f) if !finite(f.bits) => Err(float_refusal(f.bits)),
        Node::Table(t) => match b.with_table() {
            Err(e) => Err(e),
            Ok(c) => if t.len() == 0 {
                match limited(out + text_of(n)) {
                    Err(e) => Err(e),
                    Ok(o) => Ok((o, left(c))),
                }
            } else {
                with_entries(out + seq![OPEN_BRACE, SPACE], t, 0, c)
            },
        },
        _ => match limited(out + text_of(n)) {
            Err(e) => Err(e),
            Ok(o) => Ok((o, b)),
        },
    }
}

/// A budget one table further out.
pub open spec fn left(b: Budget) -> Budget {
    Budget { depth: (b.depth - 1) as usize, ..b }
}

/// The entries from `i` on behind what is written, up to the closing
/// brace.
pub open spec fn with_entries(
    out: Seq<u8>,
    t: Seq<(KeyView, Node)>,
    i: nat,
    b: Budget,
) -> Result<(Seq<u8>, Budget), ErrorView>
    decreases t, t.len() - i,
{
    if i >= t.len() {
        match limited(out + seq![SPACE, CLOSE_BRACE]) {
            Err(e) => Err(e),
            Ok(o) => Ok((o, left(b))),
        }
    } else {
        let entry = t[i as int];
        match b.with_entry() {
            Err(e) => Err(e),
            Ok(c) => match with_key(
                if i > 0 {
                    out + seq![COMMA, SPACE]
                } else {
                    out
                },
                entry.0,
            ) {
                Err(e) => Err(e),
                Ok(o) => if entry.1 is Nil {
                    Err(nil_refusal())
                } else {
                    match with_value(o + seq![SPACE, EQUALS, SPACE], entry.1, c) {
                        Err(e) => Err(e),
                        Ok((p, d)) => with_entries(p, t, (i + 1) as nat, d),
                    }
                },
            },
        }
    }
}

/// The encoding of a value, or why it has none.
pub open spec fn encoding(n: Node) -> Result<Seq<u8>, ErrorView> {
    match with_value(seq![], n, no_budget_spent()) {
        Err(e) => Err(e),
        Ok((o, _)) => Ok(o),
    }
}

// ----- writing ------------------------------------------------------------------

pub(crate) fn push_all(out: &mut Vec<u8>, bytes: &[u8])
    ensures
        final(out)@ == old(out)@ + bytes@,
{
    let mut i: usize = 0;
    while i < bytes.len()
        invariant
            i <= bytes@.len(),
            out@ == old(out)@ + bytes@.take(i as int),
        decreases bytes.len() - i,
    {
        out.push(bytes[i]);
        i += 1;
        assert(out@ =~= old(out)@ + bytes@.take(i as int));
    }
    assert(bytes@.take(i as int) =~= bytes@);
}

pub(crate) fn push_decimal(out: &mut Vec<u8>, n: u64)
    ensures
        final(out)@ == old(out)@ + decimal(n as nat),
    decreases n,
{
    if n >= 10 {
        push_decimal(out, n / 10);
    }
    out.push((48 + n % 10) as u8);
    assert(out@ =~= old(out)@ + decimal(n as nat));
}

fn push_integer(out: &mut Vec<u8>, i: i64)
    ensures
        final(out)@ == old(out)@ + integer_text(i as int),
{
    if i < 0 {
        out.push(MINUS);
        let m: i128 = -(i as i128);
        push_decimal(out, m as u64);
        assert(out@ =~= old(out)@ + integer_text(i as int));
    } else {
        push_decimal(out, i as u64);
    }
}

fn push_zeros(out: &mut Vec<u8>, n: i32)
    ensures
        final(out)@ == old(out)@ + zeros(n as int),
{
    let mut i: i32 = 0;
    assert(old(out)@ + zeros(0) =~= old(out)@);
    while i < n
        invariant
            0 <= i,
            n > 0 ==> i <= n,
            n <= 0 ==> i == 0,
            out@ == old(out)@ + zeros(i as int),
        decreases n - i,
    {
        out.push(ZERO);
        i += 1;
        assert(out@ =~= old(out)@ + zeros(i as int));
    }
    assert(zeros(i as int) =~= zeros(n as int));
}

/// Shortest round-trip digits, positional for exponents -5 to 16 and
/// scientific otherwise; always a `.` or an `e`.
#[verifier::rlimit(40)]
pub fn write_float(out: &mut Vec<u8>, f: &Float)
    ensures
        final(out)@ == old(out)@ + float_text(*f),
{
    let mut digits: Vec<u8> = Vec::new();
    push_decimal(&mut digits, f.digits);
    assert(digits@ =~= decimal(f.digits as nat));
    let total: usize = digits.len();
    proof {
        lemma_decimal(f.digits as nat);
    }
    if f.bits >= 0x8000_0000_0000_0000 {
        out.push(MINUS);
    }
    let ghost start = out@;
    let exp: i32 = f.exp;
    if -5 <= exp && exp < 17 {
        if exp >= 0 {
            let split: usize = exp as usize + 1;
            if total > split {
                push_all(out, vstd::slice::slice_subrange(digits.as_slice(), 0, split));
                out.push(POINT);
                push_all(out, vstd::slice::slice_subrange(digits.as_slice(), split, total));
                assert(digits@.subrange(0, split as int) =~= digits@.take(split as int));
                assert(digits@.subrange(split as int, total as int) =~= digits@.skip(split as int));
                assert(out@ =~= start + layout(digits@, exp as int));
            } else {
                push_all(out, digits.as_slice());
                push_zeros(out, split as i32 - total as i32);
                out.push(POINT);
                out.push(ZERO);
                assert(out@ =~= start + layout(digits@, exp as int));
            }
        } else {
            out.push(ZERO);
            out.push(POINT);
            push_zeros(out, -exp - 1);
            push_all(out, digits.as_slice());
            assert(out@ =~= start + layout(digits@, exp as int));
        }
    } else {
        push_all(out, vstd::slice::slice_subrange(digits.as_slice(), 0, 1));
        assert(digits@.subrange(0, 1) =~= digits@.take(1));
        if total > 1 {
            out.push(POINT);
            push_all(out, vstd::slice::slice_subrange(digits.as_slice(), 1, total));
            assert(digits@.subrange(1, total as int) =~= digits@.skip(1));
        } else {
            assert(digits@.take(1) =~= digits@);
        }
        out.push(LOWER_E);
        push_integer(out, exp as i64);
        assert(out@ =~= start + layout(digits@, exp as int));
    }
    assert(out@ =~= old(out)@ + float_text(*f));
}

/// A decimal is a run of digits.
pub proof fn lemma_decimal(n: nat)
    ensures
        decimal(n).len() > 0,
        n <= u64::MAX ==> decimal(n).len() <= 20,
        forall|i: int| 0 <= i < decimal(n).len() ==> of_class(Class::Digit, #[trigger] decimal(n)[i]),
{
    lemma_decimal_within(n, 20);
    if n <= u64::MAX {
        assert(n < vstd::arithmetic::power::pow(10, 20)) by {
            reveal(vstd::arithmetic::power::pow);
            lemma_ten();
        }
    }
}

proof fn lemma_ten()
    ensures
        vstd::arithmetic::power::pow(10, 20) == 100_000_000_000_000_000_000,
{
    reveal(vstd::arithmetic::power::pow);
    reveal_with_fuel(vstd::arithmetic::power::pow, 11);
    assert(vstd::arithmetic::power::pow(10, 10) == 10_000_000_000);
    vstd::arithmetic::power::lemma_pow_adds(10, 10, 10);
}

proof fn lemma_decimal_within(n: nat, d: nat)
    requires
        d > 0,
    ensures
        decimal(n).len() > 0,
        n < vstd::arithmetic::power::pow(10, d) ==> decimal(n).len() <= d,
        forall|i: int| 0 <= i < decimal(n).len() ==> of_class(Class::Digit, #[trigger] decimal(n)[i]),
    decreases n,
{
    if n >= 10 {
        let e = (d - 1) as nat;
        if d > 1 {
            lemma_decimal_within(n / 10, e);
            vstd::arithmetic::power::lemma_pow_adds(10, 1, e);
            vstd::arithmetic::power::lemma_pow1(10);
            let p = vstd::arithmetic::power::pow(10, e);
            assert(n < 10 * p ==> n / 10 < p);
        } else {
            lemma_decimal_within(n / 10, 1);
            vstd::arithmetic::power::lemma_pow1(10);
        }
    } else {
        vstd::arithmetic::power::lemma_pow_positive(10, d);
    }
}

fn hex_letter(d: u8) -> (b: u8)
    requires
        d < 16,
    ensures
        b == hex_digit(d as int),
{
    if d < 10 {
        48 + d
    } else {
        87 + d
    }
}

fn push_string(out: &mut Vec<u8>, s: &[u8])
    ensures
        final(out)@ == old(out)@ + string_text(s@),
{
    out.push(QUOTE);
    let mut i: usize = 0;
    assert(s@.skip(0) =~= s@);
    assert(out@ + string_tail(s@.skip(0)) =~= old(out)@ + string_text(s@));
    while i < s.len()
        invariant
            i <= s@.len(),
            out@ + string_tail(s@.skip(i as int)) =~= old(out)@ + string_text(s@),
        decreases s.len() - i,
    {
        let b = s[i];
        let ghost start = out@;
        if b == NEWLINE {
            out.push(BACKSLASH);
            out.push(LOWER_N);
        } else if b == TAB {
            out.push(BACKSLASH);
            out.push(LOWER_T);
        } else if b == BACKSLASH || b == QUOTE {
            out.push(BACKSLASH);
            out.push(b);
        } else if 0x20 <= b && b <= 0x7e {
            out.push(b);
        } else {
            out.push(BACKSLASH);
            out.push(LOWER_X);
            out.push(hex_letter(b / 16));
            out.push(hex_letter(b % 16));
        }
        assert(out@ =~= start + escaped(b));
        assert(s@.skip(i as int).skip(1) =~= s@.skip(i + 1));
        assert(start + (escaped(b) + string_tail(s@.skip(i + 1))) =~= out@ + string_tail(
            s@.skip(i + 1),
        ));
        i += 1;
    }
    assert(s@.skip(i as int) =~= seq![]);
    out.push(QUOTE);
}

pub(crate) proof fn lemma_words()
    ensures
        encode_utf8("nil"@) == nil_word(),
        encode_utf8("true"@) == true_word(),
        encode_utf8("false"@) == false_word(),
        encode_utf8("blob"@) == blob_word(),
{
    reveal_strlit("nil");
    reveal_strlit("true");
    reveal_strlit("false");
    reveal_strlit("blob");
    is_ascii_chars_encode_utf8("nil"@);
    is_ascii_chars_encode_utf8("true"@);
    is_ascii_chars_encode_utf8("false"@);
    is_ascii_chars_encode_utf8("blob"@);
    assert(encode_utf8("nil"@) =~= nil_word());
    assert(encode_utf8("true"@) =~= true_word());
    assert(encode_utf8("false"@) =~= false_word());
    assert(encode_utf8("blob"@) =~= blob_word());
}

fn push_bool(out: &mut Vec<u8>, b: bool)
    ensures
        final(out)@ == old(out)@ + bool_text(b),
{
    proof {
        lemma_words();
    }
    if b {
        push_all(out, "true".as_bytes());
    } else {
        push_all(out, "false".as_bytes());
    }
}

/// The error of a text that is too long.
fn check_length(out: &Vec<u8>) -> (r: Result<(), CodecError>)
    ensures
        match (r, limited(out@)) {
            (Ok(_), Ok(o)) => o == out@,
            (Err(e), Err(v)) => e@ == v,
            _ => false,
        },
{
    if out.len() > MAX_ENCODED {
        return Err(CodecError::encoded());
    }
    Ok(())
}

fn write_key(out: &mut Vec<u8>, key: &Key) -> (r: Result<(), CodecError>)
    ensures
        match (r, with_key(old(out)@, key@)) {
            (Ok(_), Ok(o)) => final(out)@ == o,
            (Err(e), Err(v)) => e@ == v,
            _ => false,
        },
{
    if let Key::Str(s) = key {
        if names(s.as_slice()) {
            push_all(out, s.as_slice());
            return Ok(());
        }
    }
    out.push(OPEN_BRACKET);
    match key {
        Key::Bool(b) => {
            push_bool(out, *b);
        },
        Key::Int(i) => {
            push_integer(out, *i);
        },
        Key::Float(f) => {
            if let Err(e) = check_float(f) {
                return Err(e);
            }
            write_float(out, f);
        },
        Key::Str(s) => {
            push_string(out, s.as_slice());
        },
    }
    assert(out@ =~= (old(out)@ + key_text(key@)).drop_last());
    if let Err(e) = check_length(out) {
        return Err(e);
    }
    out.push(CLOSE_BRACKET);
    assert(out@ =~= old(out)@ + key_text(key@));
    Ok(())
}

#[verifier::spinoff_prover]
#[verifier::rlimit(50)]
fn write_value(out: &mut Vec<u8>, value: &Value, budget: &mut Budget) -> (r: Result<
    (),
    CodecError,
>)
    requires
        old(budget).wf(),
    ensures
        match (r, with_value(old(out)@, value@, *old(budget))) {
            (Ok(_), Ok((o, b))) => final(out)@ == o && *final(budget) == b && b.wf(),
            (Err(e), Err(v)) => e@ == v,
            _ => false,
        },
    decreases value,
{
    match value {
        Value::Nil => {
            proof {
                lemma_words();
            }
            push_all(out, "nil".as_bytes());
        },
        Value::Bool(b) => {
            push_bool(out, *b);
        },
        Value::Int(i) => {
            push_integer(out, *i);
        },
        Value::Float(f) => {
            if let Err(e) = check_float(f) {
                return Err(e);
            }
            write_float(out, f);
        },
        Value::Str(s) => {
            push_string(out, s.as_slice());
        },
        Value::Blob(b) => {
            proof {
                lemma_words();
            }
            push_all(out, "blob".as_bytes());
            out.push(QUOTE);
            push_base64(out, b.as_slice());
            out.push(QUOTE);
        },
        Value::Table(t) => {
            let entries = &t.entries;
            let ghost nodes = entry_nodes(entries@);
            proof {
                lemma_nodes_of(entries@, entries@.len());
            }
            if let Err(e) = budget.enter() {
                return Err(e);
            }
            if entries.len() == 0 {
                out.push(OPEN_BRACE);
                out.push(CLOSE_BRACE);
                assert(out@ =~= old(out)@ + text_of(value@));
                budget.leave();
            } else {
                let ghost whole = with_value(old(out)@, value@, *old(budget));
                out.push(OPEN_BRACE);
                out.push(SPACE);
                assert(out@ =~= old(out)@ + seq![OPEN_BRACE, SPACE]);
                let mut i: usize = 0;
                while i < entries.len()
                    invariant
                        i <= entries@.len(),
                        value is Table,
                        *entries == value->Table_0.entries,
                        nodes == entry_nodes(entries@),
                        nodes.len() == entries@.len(),
                        forall|j: int|
                            0 <= j < nodes.len() ==> #[trigger] nodes[j] == (
                                entries@[j].0@,
                                node_of(entries@[j].1),
                            ),
                        budget.wf(),
                        budget.depth > 0,
                        whole == with_value(old(out)@, value@, *old(budget)),
                        whole == with_entries(out@, nodes, i as nat, *budget),
                    decreases entries.len() - i,
                {
                    assert(nodes[i as int] == (
                        entries@[i as int].0@,
                        node_of(entries@[i as int].1),
                    ));
                    if let Err(e) = budget.entry() {
                        return Err(e);
                    }
                    let ghost start = out@;
                    if i > 0 {
                        out.push(COMMA);
                        out.push(SPACE);
                        assert(out@ =~= start + seq![COMMA, SPACE]);
                    }
                    if let Err(e) = write_key(out, &entries[i].0) {
                        return Err(e);
                    }
                    let ghost keyed = out@;
                    out.push(SPACE);
                    out.push(EQUALS);
                    out.push(SPACE);
                    assert(out@ =~= keyed + seq![SPACE, EQUALS, SPACE]);
                    if let Value::Nil = &entries[i].1 {
                        return Err(
                            CodecError::new(CodecError::UNSUPPORTED, "nil is not a table value"),
                        );
                    }
                    proof {
                        lemma_depth_kept(out@, entries@[i as int].1@, *budget);
                    }
                    if let Err(e) = write_value(out, &entries[i].1, budget) {
                        return Err(e);
                    }
                    i += 1;
                }
                let ghost start = out@;
                out.push(SPACE);
                out.push(CLOSE_BRACE);
                assert(out@ =~= start + seq![SPACE, CLOSE_BRACE]);
                budget.leave();
                return match check_length(out) {
                    Ok(_) => Ok(()),
                    Err(e) => Err(e),
                };
            }
        },
    }
    assert(out@ =~= old(out)@ + text_of(value@));
    check_length(out)
}

/// A value that is written leaves the depth as it was.
proof fn lemma_depth_kept(out: Seq<u8>, n: Node, b: Budget)
    ensures
        with_value(out, n, b) matches Ok((_, c)) ==> c.depth == b.depth,
    decreases n, 0nat,
{
    if let Node::Table(t) = n {
        if let Ok(c) = b.with_table() {
            if t.len() > 0 {
                lemma_depth_entries(out + seq![OPEN_BRACE, SPACE], t, 0, c);
            }
        }
    }
}

proof fn lemma_depth_entries(out: Seq<u8>, t: Seq<(KeyView, Node)>, i: nat, b: Budget)
    requires
        b.depth > 0,
    ensures
        with_entries(out, t, i, b) matches Ok((_, c)) ==> c.depth == b.depth - 1,
    decreases t, t.len() - i,
{
    if i < t.len() {
        let entry = t[i as int];
        let o = if i > 0 {
            out + seq![COMMA, SPACE]
        } else {
            out
        };
        if let Ok(c) = b.with_entry() {
            if let Ok(k) = with_key(o, entry.0) {
                let from = k + seq![SPACE, EQUALS, SPACE];
                lemma_depth_kept(from, entry.1, c);
                if let Ok((p, d)) = with_value(from, entry.1, c) {
                    lemma_depth_entries(p, t, (i + 1) as nat, d);
                }
            }
        }
    }
}

// ----- what is written ------------------------------------------------------------

/// How many entries the tables of a value have, all together.
pub open spec fn count_of(n: Node) -> int
    decreases n, 0nat,
{
    match n {
        Node::Table(t) => count_from(t, 0),
        _ => 0,
    }
}

pub open spec fn count_from(t: Seq<(KeyView, Node)>, i: nat) -> int
    decreases t, t.len() - i,
{
    if i >= t.len() {
        0
    } else {
        1 + count_of(t[i as int].1) + count_from(t, (i + 1) as nat)
    }
}

/// How deep the tables of a value are nested.
pub open spec fn depth_of(n: Node) -> int
    decreases n, 0nat,
{
    match n {
        Node::Table(t) => 1 + depth_from(t, 0),
        _ => 0,
    }
}

pub open spec fn depth_from(t: Seq<(KeyView, Node)>, i: nat) -> int
    decreases t, t.len() - i,
{
    if i >= t.len() {
        0
    } else {
        let a = depth_of(t[i as int].1);
        let b = depth_from(t, (i + 1) as nat);
        if a > b {
            a
        } else {
            b
        }
    }
}

/// Whether every float of a value is finite and no table value is nil.
pub open spec fn plain(n: Node) -> bool
    decreases n, 0nat,
{
    match n {
        Node::Float(f) => finite(f.bits),
        Node::Table(t) => plain_from(t, 0),
        _ => true,
    }
}

pub open spec fn plain_from(t: Seq<(KeyView, Node)>, i: nat) -> bool
    decreases t, t.len() - i,
{
    i >= t.len() || {
        &&& t[i as int].0 matches KeyView::Float(f) ==> finite(f.bits)
        &&& t[i as int].1 !is Nil
        &&& plain(t[i as int].1)
        &&& plain_from(t, (i + 1) as nat)
    }
}

/// A budget with some entries more.
pub open spec fn counted(b: Budget, n: int) -> Budget {
    Budget { entries: (b.entries + n) as usize, ..b }
}

pub proof fn lemma_counts(n: Node)
    ensures
        count_of(n) >= 0,
        depth_of(n) >= 0,
    decreases n, 0nat,
{
    if let Node::Table(t) = n {
        lemma_counts_from(t, 0);
    }
}

pub proof fn lemma_counts_from(t: Seq<(KeyView, Node)>, i: nat)
    ensures
        count_from(t, i) >= 0,
        depth_from(t, i) >= 0,
    decreases t, t.len() - i,
{
    if i < t.len() {
        lemma_counts(t[i as int].1);
        lemma_counts_from(t, (i + 1) as nat);
    }
}

/// What is written of a value is its text, and the value was within the
/// limits.
pub proof fn lemma_written(out: Seq<u8>, n: Node, b: Budget)
    requires
        b.wf(),
    ensures
        with_value(out, n, b) matches Ok((o, c)) ==> {
            &&& o == out + text_of(n)
            &&& o.len() <= MAX_ENCODED
            &&& b.entries + count_of(n) <= MAX_ENTRIES
            &&& b.depth + depth_of(n) <= MAX_DEPTH
            &&& c == counted(b, count_of(n))
            &&& plain(n)
        },
    decreases n, 0nat,
{
    lemma_counts(n);
    if let Node::Table(t) = n {
        if let Ok(c) = b.with_table() {
            let start = out + seq![OPEN_BRACE, SPACE];
            lemma_written_from(start, t, 0, c);
            if t.len() > 0 {
                assert(start + entries_text(t, 0) =~= out + text_of(n));
            }
        }
    }
}

#[verifier::spinoff_prover]
#[verifier::rlimit(60)]
proof fn lemma_written_from(out: Seq<u8>, t: Seq<(KeyView, Node)>, i: nat, b: Budget)
    requires
        b.wf(),
        b.depth > 0,
    ensures
        with_entries(out, t, i, b) matches Ok((o, c)) ==> {
            &&& o == out + (if i >= t.len() {
                seq![SPACE, CLOSE_BRACE]
            } else if i > 0 {
                seq![COMMA, SPACE] + entries_text(t, i)
            } else {
                entries_text(t, i)
            })
            &&& o.len() <= MAX_ENCODED
            &&& b.entries + count_from(t, i) <= MAX_ENTRIES
            &&& b.depth + depth_from(t, i) <= MAX_DEPTH
            &&& c == left(counted(b, count_from(t, i)))
            &&& plain_from(t, i)
        },
    decreases t, t.len() - i,
{
    lemma_counts_from(t, i);
    if i < t.len() {
        let entry = t[i as int];
        let o = if i > 0 {
            out + seq![COMMA, SPACE]
        } else {
            out
        };
        lemma_counts(entry.1);
        lemma_counts_from(t, (i + 1) as nat);
        if let Ok(c) = b.with_entry() {
            if let Ok(k) = with_key(o, entry.0) {
                assert(k =~= o + key_text(entry.0));
                let from = k + seq![SPACE, EQUALS, SPACE];
                lemma_written(from, entry.1, c);
                if let Ok((p, d)) = with_value(from, entry.1, c) {
                    lemma_written_from(p, t, (i + 1) as nat, d);
                    if let Ok((q, f)) = with_entries(p, t, (i + 1) as nat, d) {
                        assert(q =~= o + entries_text(t, i));
                        if i > 0 {
                            assert(q =~= out + (seq![COMMA, SPACE] + entries_text(t, i)));
                        }
                    }
                }
            }
        }
    }
}

pub open spec fn ascii(s: Seq<u8>) -> bool {
    forall|i: int| 0 <= i < s.len() ==> #[trigger] s[i] < 128
}

proof fn lemma_ascii_integer(i: int)
    ensures
        ascii(integer_text(i)),
{
    let m = (if i < 0 {
        -i
    } else {
        i
    }) as nat;
    lemma_decimal(m);
    assert(ascii(decimal(m))) by {
        assert forall|k: int| 0 <= k < decimal(m).len() implies #[trigger] decimal(m)[k] < 128 by {
            assert(of_class(Class::Digit, decimal(m)[k]));
        }
    }
}

proof fn lemma_ascii_float(f: Float)
    ensures
        ascii(float_text(f)),
{
    let d = decimal(f.digits as nat);
    lemma_ascii_integer(f.digits as int);
    lemma_ascii_integer(f.exp as int);
    assert(ascii(d));
    let e = f.exp as int;
    assert(ascii(zeros(e + 1 - d.len())));
    assert(ascii(zeros(-e - 1)));
    assert(ascii(layout(d, e)));
}

proof fn lemma_ascii_string(s: Seq<u8>)
    ensures
        ascii(string_tail(s)),
    decreases s.len(),
{
    if s.len() > 0 {
        lemma_ascii_string(s.skip(1));
        assert(ascii(escaped(s[0])));
    }
}

proof fn lemma_ascii_key(k: KeyView)
    ensures
        ascii(key_text(k)),
{
    match k {
        KeyView::Bool(b) => {},
        KeyView::Int(i) => {
            lemma_ascii_integer(i as int);
        },
        KeyView::Float(f) => {
            lemma_ascii_float(f);
        },
        KeyView::Str(s) => {
            lemma_ascii_string(s);
            if is_name(s) {
                assert forall|i: int| 0 <= i < s.len() implies #[trigger] s[i] < 128 by {
                    assert(of_class(Class::Word, s[i]));
                }
            }
        },
    }
}

/// The text form is ASCII.
pub proof fn law_the_text_is_ascii(n: Node)
    ensures
        ascii(text_of(n)),
    decreases n, 0nat,
{
    match n {
        Node::Nil => {},
        Node::Bool(b) => {},
        Node::Int(i) => {
            lemma_ascii_integer(i as int);
        },
        Node::Float(f) => {
            lemma_ascii_float(f);
        },
        Node::Str(s) => {
            lemma_ascii_string(s);
        },
        Node::Blob(b) => {
            lemma_encoded_ascii(b);
        },
        Node::Table(t) => {
            lemma_ascii_entries(t, 0);
        },
    }
}

proof fn lemma_ascii_entries(t: Seq<(KeyView, Node)>, i: nat)
    ensures
        ascii(entries_text(t, i)),
    decreases t, t.len() - i,
{
    if i < t.len() {
        lemma_ascii_key(t[i as int].0);
        law_the_text_is_ascii(t[i as int].1);
        lemma_ascii_entries(t, (i + 1) as nat);
    }
}

/// Encode a value canonically. A float that is not finite and a table
/// deeper or larger than the limits are errors.
pub fn encode(value: &Value) -> (r: Result<String, CodecError>)
    ensures
        match (r, encoding(value@)) {
            (Ok(s), Ok(o)) => encode_utf8(s@) == o && o == text_of(value@),
            (Err(e), Err(v)) => e@ == v,
            _ => false,
        },
{
    let mut out: Vec<u8> = Vec::new();
    let mut budget = Budget::default();
    proof {
        lemma_written(seq![], value@, no_budget_spent());
        law_the_text_is_ascii(value@);
    }
    match write_value(&mut out, value, &mut budget) {
        Ok(_) => {
            assert(out@ =~= text_of(value@));
            Ok(ascii_string(out.as_slice()))
        },
        Err(e) => Err(e),
    }
}

} // verus!
