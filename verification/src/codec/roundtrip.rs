//! Reading gives back what writing wrote.

use vstd::prelude::*;
use super::base64::{decoded, encoded, law_base64_reads_back, lemma_encoded_ascii};
use super::lexis::{
    byte_at, escape, exponent_end, fraction_end, hex_pair, is_digit, is_name, lemma_span_is,
    number_end, of_class, span, string_rest, Class, BACKSLASH, CLOSE_BRACE, CLOSE_BRACKET, COMMA,
    EQUALS, LOWER_E, MINUS, OPEN_BRACE, OPEN_BRACKET, POINT, QUOTE, SPACE, ZERO,
};
use super::number::{negative, Float, Order};
use super::reading::{
    digits_value, entries_at, entry_end, key_at, literal_value, pair_value, reading, value_at,
    State,
};
use super::value::{
    inserted, key_node, key_of, key_order, lemma_place, sorted, KeyView, Node,
};
use super::writing::{
    blob_word, count_from, count_of, decimal, depth_from, depth_of, encoding, entries_text, escaped,
    false_word, float_text, hex_digit, integer_text, key_text, left, lemma_counts,
    lemma_counts_from, lemma_decimal, lemma_written, nil_word, plain, plain_from, string_tail,
    text_of, true_word, zeros,
};
use super::{no_budget_spent, Budget, ErrorView, MAX_DECODED, MAX_DEPTH, MAX_ENTRIES, VALUE_COST};
use crate::wire::{at, lemma_at_split, lemma_whole};

verus! {

/// What a key counts for once it is read.
pub open spec fn key_cost(k: KeyView) -> int {
    match k {
        KeyView::Str(s) => VALUE_COST + s.len(),
        _ => VALUE_COST as int,
    }
}

/// What a value counts for once it is read: sixteen bytes each and the
/// bytes of strings and blobs.
pub open spec fn cost_of(n: Node) -> int
    decreases n, 0nat,
{
    match n {
        Node::Str(s) => VALUE_COST + s.len(),
        Node::Blob(s) => VALUE_COST + s.len(),
        Node::Table(t) => VALUE_COST + cost_from(t, 0),
        _ => VALUE_COST as int,
    }
}

pub open spec fn cost_from(t: Seq<(KeyView, Node)>, i: nat) -> int
    decreases t, t.len() - i,
{
    if i >= t.len() {
        0
    } else {
        key_cost(t[i as int].0) + cost_of(t[i as int].1) + cost_from(t, (i + 1) as nat)
    }
}

pub open spec fn key_floats(k: KeyView) -> Seq<Float> {
    match k {
        KeyView::Float(f) => seq![f],
        _ => seq![],
    }
}

/// The floats of a value in the order of its text.
pub open spec fn floats_of(n: Node) -> Seq<Float>
    decreases n, 0nat,
{
    match n {
        Node::Float(f) => seq![f],
        Node::Table(t) => floats_from(t, 0),
        _ => seq![],
    }
}

pub open spec fn floats_from(t: Seq<(KeyView, Node)>, i: nat) -> Seq<Float>
    decreases t, t.len() - i,
{
    if i >= t.len() {
        seq![]
    } else {
        key_floats(t[i as int].0) + floats_of(t[i as int].1) + floats_from(t, (i + 1) as nat)
    }
}

/// A value as the codec builds it: tables in the order of their keys, and
/// only keys that values can make.
pub open spec fn canonical(n: Node) -> bool
    decreases n, 0nat,
{
    match n {
        Node::Table(t) => sorted(t) && canonical_from(t, 0),
        _ => true,
    }
}

pub open spec fn canonical_from(t: Seq<(KeyView, Node)>, i: nat) -> bool
    decreases t, t.len() - i,
{
    i >= t.len() || {
        &&& key_of(key_node(t[i as int].0)) == Ok::<KeyView, ErrorView>(t[i as int].0)
        &&& canonical(t[i as int].1)
        &&& canonical_from(t, (i + 1) as nat)
    }
}

// ----- tokens ---------------------------------------------------------------------

/// A byte that ends any token.
pub open spec fn stop(b: u8) -> bool {
    b == SPACE || b == COMMA || b == CLOSE_BRACKET || b == CLOSE_BRACE
}

pub open spec fn ends(s: Seq<u8>, p: int) -> bool {
    p == s.len() || (p < s.len() && stop(s[p]))
}

proof fn lemma_at_index(s: Seq<u8>, p: int, t: Seq<u8>)
    requires
        at(s, p, t),
    ensures
        0 <= p,
        p + t.len() <= s.len(),
        s.subrange(p, p + t.len()) == t,
        forall|i: int| 0 <= i < t.len() ==> s[p + i] == #[trigger] t[i],
        forall|i: int| p <= i < p + t.len() ==> #[trigger] s[i] == t[i - p],
{
    reveal(at);
    assert forall|i: int| 0 <= i < t.len() implies s[p + i] == #[trigger] t[i] by {
        assert(s.subrange(p, p + t.len())[i] == s[p + i]);
    }
    assert forall|i: int| p <= i < p + t.len() implies #[trigger] s[i] == t[i - p] by {
        assert(s.subrange(p, p + t.len())[i - p] == s[i]);
    }
}

/// A run of one class that stands in a text.
proof fn lemma_run(s: Seq<u8>, p: int, t: Seq<u8>, c: Class)
    requires
        at(s, p, t),
        forall|i: int| 0 <= i < t.len() ==> of_class(c, #[trigger] t[i]),
        p + t.len() < s.len() ==> !of_class(c, s[p + t.len()]),
    ensures
        span(s, p, c) == p + t.len(),
{
    lemma_at_index(s, p, t);
    lemma_span_is(s, p, c, p + t.len());
}

proof fn lemma_decimal_value(n: nat)
    ensures
        digits_value(decimal(n)) == n,
    decreases n,
{
    if n >= 10 {
        lemma_decimal_value(n / 10);
        assert(decimal(n).drop_last() =~= decimal(n / 10));
    } else {
        assert(decimal(n).drop_last() =~= seq![]);
        assert(digits_value(seq![]) == 0);
    }
}

/// A number as it is written.
spec fn shape(neg: bool, a: Seq<u8>, b: Option<Seq<u8>>, c: Option<(bool, Seq<u8>)>) -> Seq<u8> {
    sign(neg) + a + fraction_text(b) + exponent_text(c)
}

spec fn sign(neg: bool) -> Seq<u8> {
    if neg {
        seq![MINUS]
    } else {
        seq![]
    }
}

spec fn fraction_text(b: Option<Seq<u8>>) -> Seq<u8> {
    match b {
        Some(d) => seq![POINT] + d,
        None => seq![],
    }
}

spec fn exponent_text(c: Option<(bool, Seq<u8>)>) -> Seq<u8> {
    match c {
        Some((neg, d)) => seq![LOWER_E] + sign(neg) + d,
        None => seq![],
    }
}

spec fn run_of_digits(s: Seq<u8>) -> bool {
    s.len() > 0 && forall|i: int| 0 <= i < s.len() ==> of_class(Class::Digit, #[trigger] s[i])
}

proof fn lemma_exponent(s: Seq<u8>, p: int, c: Option<(bool, Seq<u8>)>)
    requires
        at(s, p, exponent_text(c)),
        c matches Some((_, d)) ==> run_of_digits(d),
        ends(s, p + exponent_text(c).len()),
    ensures
        exponent_end(s, p) == Ok::<(int, bool), ErrorView>((p + exponent_text(c).len(), c is Some)),
{
    lemma_at_index(s, p, exponent_text(c));
    if let Some((n, d)) = c {
        assert(s[p] == exponent_text(c)[0]);
        assert(exponent_text(c) =~= (seq![LOWER_E] + sign(n)) + d);
        lemma_at_split(s, p, seq![LOWER_E] + sign(n), d);
        let pd = p + 1 + sign(n).len();
        lemma_at_index(s, pd, d);
        assert(s[pd] == d[0]);
        assert(of_class(Class::Digit, d[0]));
        if n {
            assert(s[p + 1] == exponent_text(c)[1]);
        }
        lemma_run(s, pd, d, Class::Digit);
    }
}

proof fn lemma_fraction(s: Seq<u8>, p: int, b: Option<Seq<u8>>)
    requires
        at(s, p, fraction_text(b)),
        b matches Some(d) ==> run_of_digits(d),
        p + fraction_text(b).len() < s.len() ==> !is_digit(s[p + fraction_text(b).len()])
            && s[p + fraction_text(b).len()] != POINT,
    ensures
        fraction_end(s, p) == Ok::<(int, bool), ErrorView>((p + fraction_text(b).len(), b is Some)),
{
    lemma_at_index(s, p, fraction_text(b));
    if let Some(d) = b {
        assert(s[p] == fraction_text(b)[0]);
        lemma_at_split(s, p, seq![POINT], d);
        lemma_run(s, p + 1, d, Class::Digit);
    }
}

proof fn lemma_shape(
    s: Seq<u8>,
    p: int,
    neg: bool,
    a: Seq<u8>,
    b: Option<Seq<u8>>,
    c: Option<(bool, Seq<u8>)>,
)
    requires
        at(s, p, shape(neg, a, b, c)),
        run_of_digits(a),
        b matches Some(d) ==> run_of_digits(d),
        c matches Some((_, d)) ==> run_of_digits(d),
        ends(s, p + shape(neg, a, b, c).len()),
    ensures
        number_end(s, p) == Ok::<(int, bool), ErrorView>(
            (p + shape(neg, a, b, c).len(), b is Some || c is Some),
        ),
        s[p] == MINUS || is_digit(s[p]),
        byte_at(s, p, MINUS) == neg,
{
    lemma_at_split(s, p, sign(neg) + a + fraction_text(b), exponent_text(c));
    lemma_at_split(s, p, sign(neg) + a, fraction_text(b));
    lemma_at_split(s, p, sign(neg), a);
    let pa = p + sign(neg).len();
    let pb = pa + a.len();
    let pc = pb + fraction_text(b).len();
    lemma_exponent(s, pc, c);
    assert(pc < s.len() ==> !is_digit(s[pc]) && s[pc] != POINT) by {
        lemma_at_index(s, pc, exponent_text(c));
        if c is Some {
            assert(s[pc] == exponent_text(c)[0]);
        }
    }
    lemma_fraction(s, pb, b);
    assert(pb < s.len() ==> !is_digit(s[pb])) by {
        lemma_at_index(s, pb, fraction_text(b));
        if b is Some {
            assert(s[pb] == fraction_text(b)[0]);
        }
    }
    lemma_run(s, pa, a, Class::Digit);
    assert(is_digit(s[pa])) by {
        lemma_at_index(s, pa, a);
        assert(s[pa] == a[0]);
        assert(of_class(Class::Digit, a[0]));
    }
    if neg {
        lemma_at_index(s, p, sign(neg));
        assert(s[p] == sign(neg)[0]);
    }
}

proof fn lemma_digits_of(n: nat)
    ensures
        run_of_digits(decimal(n)),
{
    lemma_decimal(n);
}

proof fn lemma_integer(s: Seq<u8>, p: int, i: int)
    requires
        at(s, p, integer_text(i)),
        ends(s, p + integer_text(i).len()),
    ensures
        number_end(s, p) == Ok::<(int, bool), ErrorView>((p + integer_text(i).len(), false)),
        literal_value(integer_text(i)) == i,
        s[p] == MINUS || is_digit(s[p]),
{
    let neg = i < 0;
    let m = (if neg {
        -i
    } else {
        i
    }) as nat;
    lemma_digits_of(m);
    lemma_decimal_value(m);
    assert(shape(neg, decimal(m), None, None) =~= integer_text(i));
    lemma_shape(s, p, neg, decimal(m), None, None);
    if neg {
        assert(integer_text(i).skip(1) =~= decimal(m));
    } else {
        assert(of_class(Class::Digit, decimal(m)[0]));
    }
}

proof fn lemma_float(s: Seq<u8>, p: int, f: Float)
    requires
        at(s, p, float_text(f)),
        ends(s, p + float_text(f).len()),
    ensures
        number_end(s, p) == Ok::<(int, bool), ErrorView>((p + float_text(f).len(), true)),
        s[p] == MINUS || is_digit(s[p]),
{
    let neg = negative(f.bits);
    let d = decimal(f.digits as nat);
    let e = f.exp as int;
    lemma_digits_of(f.digits as nat);
    if -5 <= e < 17 {
        if e >= 0 {
            if d.len() > e + 1 {
                let a = d.take(e + 1);
                let b = d.skip(e + 1);
                assert(run_of_digits(a));
                assert(run_of_digits(b));
                assert(shape(neg, a, Some(b), None) =~= float_text(f));
                lemma_shape(s, p, neg, a, Some(b), None);
            } else {
                let a = d + zeros(e + 1 - d.len());
                let b = seq![ZERO];
                assert(run_of_digits(a));
                assert(run_of_digits(b));
                assert(shape(neg, a, Some(b), None) =~= float_text(f));
                lemma_shape(s, p, neg, a, Some(b), None);
            }
        } else {
            let a = seq![ZERO];
            let b = zeros(-e - 1) + d;
            assert(run_of_digits(a));
            assert(run_of_digits(b));
            assert(shape(neg, a, Some(b), None) =~= float_text(f));
            lemma_shape(s, p, neg, a, Some(b), None);
        }
    } else {
        let m = (if e < 0 {
            -e
        } else {
            e
        }) as nat;
        lemma_digits_of(m);
        let c = Some((e < 0, decimal(m)));
        if d.len() > 1 {
            let a = d.take(1);
            let b = d.skip(1);
            assert(run_of_digits(a));
            assert(run_of_digits(b));
            assert(shape(neg, a, Some(b), c) =~= float_text(f));
            lemma_shape(s, p, neg, a, Some(b), c);
        } else {
            assert(shape(neg, d, None, c) =~= float_text(f));
            lemma_shape(s, p, neg, d, None, c);
        }
    }
}

proof fn lemma_hex(b: u8)
    ensures
        hex_pair(hex_digit(b as int / 16), hex_digit(b as int % 16)) == Some(b),
{
}

proof fn lemma_string(s: Seq<u8>, p: int, t: Seq<u8>)
    requires
        at(s, p, string_tail(t)),
    ensures
        string_rest(s, p) == Ok::<(Seq<u8>, int), ErrorView>((t, p + string_tail(t).len())),
    decreases t.len(),
{
    lemma_at_index(s, p, string_tail(t));
    if t.len() == 0 {
        assert(s[p] == string_tail(t)[0]);
        assert(t =~= seq![]);
    } else {
        let b = t[0];
        let e = escaped(b);
        lemma_at_split(s, p, e, string_tail(t.skip(1)));
        lemma_string(s, p + e.len(), t.skip(1));
        lemma_at_index(s, p, e);
        lemma_hex(b);
        assert(seq![b] + t.skip(1) =~= t);
        assert(s[p] == e[0]);
        if e.len() > 1 {
            assert(s[p + 1] == e[1]);
        }
        if e.len() == 4 {
            assert(s[p + 2] == e[2]);
            assert(s[p + 3] == e[3]);
            assert(escape(s[p + 1]) is None);
        }
    }
}

/// A text that needs no escapes.
proof fn lemma_plain_tail(t: Seq<u8>)
    requires
        forall|i: int| 0 <= i < t.len() ==> 43 <= #[trigger] t[i] <= 122 && t[i] != 92,
    ensures
        string_tail(t) == t + seq![QUOTE],
    decreases t.len(),
{
    if t.len() > 0 {
        let r = t.skip(1);
        assert forall|i: int| 0 <= i < r.len() implies 43 <= #[trigger] r[i] <= 122 && r[i] != 92 by {
            assert(r[i] == t[i + 1]);
        }
        lemma_plain_tail(r);
        assert(43 <= t[0] <= 122 && t[0] != 92);
        assert(escaped(t[0]) =~= seq![t[0]]);
        assert(string_tail(t) =~= t + seq![QUOTE]);
    } else {
        assert(string_tail(t) =~= t + seq![QUOTE]);
    }
}

// ----- values ---------------------------------------------------------------------

/// The floats of a value are the next ones that are given.
pub open spec fn next_floats(reads: Seq<Float>, k: int, f: Seq<Float>) -> bool {
    0 <= k && k + f.len() <= reads.len() && forall|i: int|
        0 <= i < f.len() ==> reads[k + i] == #[trigger] f[i]
}

/// A state once a value was read.
pub open spec fn after(st: State, len: int, floats: int, entries: int, cost: int) -> State {
    State {
        pos: st.pos + len,
        floats: st.floats + floats,
        budget: Budget {
            entries: (st.budget.entries + entries) as usize,
            decoded: (st.budget.decoded + cost) as usize,
            ..st.budget
        },
    }
}

/// Whether what a value counts for still fits.
pub open spec fn fits(b: Budget, depth: int, entries: int, cost: int) -> bool {
    &&& b.wf()
    &&& b.depth + depth <= MAX_DEPTH
    &&& b.entries + entries <= MAX_ENTRIES
    &&& b.decoded + cost <= MAX_DECODED
}

proof fn lemma_first(n: Node)
    ensures
        text_of(n).len() > 0,
        !of_class(Class::Blank, text_of(n)[0]),
        n is Table <==> text_of(n)[0] == OPEN_BRACE,
{
    match n {
        Node::Int(i) => {
            lemma_integer_first(i as int);
        },
        Node::Float(f) => {
            lemma_float_first(f);
        },
        _ => {},
    }
}

proof fn lemma_integer_first(i: int)
    ensures
        integer_text(i).len() > 0,
        integer_text(i)[0] == MINUS || is_digit(integer_text(i)[0]),
{
    let t = integer_text(i);
    lemma_decimal((-i) as nat);
    lemma_decimal(i as nat);
    if i < 0 {
        assert(t[0] == MINUS);
    } else {
        assert(of_class(Class::Digit, decimal(i as nat)[0]));
    }
}

proof fn lemma_float_first(f: Float)
    ensures
        float_text(f).len() > 0,
        float_text(f)[0] == MINUS || is_digit(float_text(f)[0]),
{
    let t = float_text(f);
    let d = decimal(f.digits as nat);
    lemma_decimal(f.digits as nat);
    assert(of_class(Class::Digit, d[0]));
    if negative(f.bits) {
        assert(t[0] == MINUS);
    } else {
        let e = f.exp as int;
        if -5 <= e < 0 {
            assert(t[0] == ZERO);
        } else {
            assert(t[0] == d[0]);
        }
    }
}

/// A scalar's text stands in a text, and what it counts for fits.
spec fn ready(s: Seq<u8>, reads: Seq<Float>, st: State, n: Node) -> bool {
    &&& at(s, st.pos, text_of(n))
    &&& ends(s, st.pos + text_of(n).len())
    &&& plain(n)
    &&& fits(st.budget, 0, 0, cost_of(n))
    &&& next_floats(reads, st.floats, floats_of(n))
}

/// What reading a scalar gives.
spec fn scalar_back(st: State, n: Node) -> Result<(Node, State), ErrorView> {
    Ok(
        (
            n,
            after(st, text_of(n).len() as int, floats_of(n).len() as int, 0, cost_of(n)),
        ),
    )
}

proof fn lemma_word_reads(s: Seq<u8>, reads: Seq<Float>, st: State, n: Node)
    requires
        n is Nil || n is Bool,
        ready(s, reads, st, n),
    ensures
        value_at(s, reads, st) == scalar_back(st, n),
{
    let t = text_of(n);
    lemma_at_index(s, st.pos, t);
    assert(s[st.pos] == t[0]);
    lemma_run(s, st.pos, t, Class::Word);
    assert(true_word()[0] != false_word()[0]);
    assert(true_word().len() != nil_word().len());
    assert(false_word().len() != nil_word().len());
}

proof fn lemma_number_reads(s: Seq<u8>, reads: Seq<Float>, st: State, n: Node)
    requires
        n is Int || n is Float,
        ready(s, reads, st, n),
    ensures
        value_at(s, reads, st) == scalar_back(st, n),
{
    lemma_at_index(s, st.pos, text_of(n));
    lemma_first(n);
    match n {
        Node::Int(i) => {
            lemma_integer(s, st.pos, i as int);
        },
        Node::Float(f) => {
            lemma_float(s, st.pos, f);
            assert(reads[st.floats + 0] == floats_of(n)[0]);
        },
        _ => {},
    }
}

proof fn lemma_str_reads(s: Seq<u8>, reads: Seq<Float>, st: State, x: Seq<u8>)
    requires
        ready(s, reads, st, Node::Str(x)),
    ensures
        value_at(s, reads, st) == scalar_back(st, Node::Str(x)),
{
    let t = text_of(Node::Str(x));
    lemma_at_index(s, st.pos, t);
    assert(s[st.pos] == t[0]);
    lemma_at_split(s, st.pos, seq![QUOTE], string_tail(x));
    lemma_string(s, st.pos + 1, x);
}

proof fn lemma_blob_reads(s: Seq<u8>, reads: Seq<Float>, st: State, b: Seq<u8>)
    requires
        ready(s, reads, st, Node::Blob(b)),
    ensures
        value_at(s, reads, st) == scalar_back(st, Node::Blob(b)),
{
    let p = st.pos;
    let t = text_of(Node::Blob(b));
    lemma_at_index(s, p, t);
    assert(s[p] == t[0]);
    lemma_encoded_ascii(b);
    lemma_plain_tail(encoded(b));
    law_base64_reads_back(b);
    assert(t =~= (blob_word() + seq![QUOTE]) + string_tail(encoded(b)));
    lemma_at_split(s, p, blob_word() + seq![QUOTE], string_tail(encoded(b)));
    lemma_at_split(s, p, blob_word(), seq![QUOTE]);
    assert(s[p + 4] == QUOTE) by {
        lemma_at_index(s, p + 4, seq![QUOTE]);
        assert(s[p + 4] == seq![QUOTE][0]);
    }
    lemma_run(s, p, blob_word(), Class::Word);
    assert(s.subrange(p, p + 4) == blob_word()) by {
        lemma_at_index(s, p, blob_word());
    }
    assert(blob_word()[0] != true_word()[0]);
    assert(blob_word().len() != nil_word().len());
    assert(blob_word().len() != false_word().len());
    lemma_string(s, p + 5, encoded(b));
    assert(!encoded(b).contains(BACKSLASH));
}

/// A value that is no table reads back.
proof fn lemma_scalar_reads(s: Seq<u8>, reads: Seq<Float>, st: State, n: Node)
    requires
        !(n is Table),
        ready(s, reads, st, n),
    ensures
        value_at(s, reads, st) == scalar_back(st, n),
{
    match n {
        Node::Str(x) => {
            lemma_str_reads(s, reads, st, x);
        },
        Node::Blob(b) => {
            lemma_blob_reads(s, reads, st, b);
        },
        Node::Nil => {
            lemma_word_reads(s, reads, st, n);
        },
        Node::Bool(_) => {
            lemma_word_reads(s, reads, st, n);
        },
        _ => {
            lemma_number_reads(s, reads, st, n);
        },
    }
}

/// A key reads back.
#[verifier::rlimit(80)]
#[verifier::spinoff_prover]
proof fn lemma_key_reads(s: Seq<u8>, reads: Seq<Float>, st: State, k: KeyView)
    requires
        at(s, st.pos, key_text(k)),
        byte_at(s, st.pos + key_text(k).len(), SPACE),
        k matches KeyView::Float(f) ==> super::number::finite(f.bits),
        key_of(key_node(k)) == Ok::<KeyView, ErrorView>(k),
        fits(st.budget, 0, 0, key_cost(k)),
        next_floats(reads, st.floats, key_floats(k)),
    ensures
        key_at(s, reads, st) == Ok::<(KeyView, State), ErrorView>(
            (
                k,
                after(
                    st,
                    key_text(k).len() as int,
                    key_floats(k).len() as int,
                    0,
                    key_cost(k),
                ),
            ),
        ),
        key_text(k).len() > 0,
        !of_class(Class::Blank, key_text(k)[0]),
        key_text(k)[0] != CLOSE_BRACE,
{
    let p = st.pos;
    let t = key_text(k);
    lemma_at_index(s, p, t);
    let bare = match k {
        KeyView::Str(w) => is_name(w),
        _ => false,
    };
    if bare {
        let w = k->Str_0;
        assert(of_class(Class::Word, w[0]));
        assert(s[p] == w[0]);
        lemma_run(s, p, w, Class::Word);
        assert(floats_of(key_node(k)) =~= key_floats(k));
    } else {
        let n = key_node(k);
        let inner = text_of(n);
        assert(t =~= seq![OPEN_BRACKET] + inner + seq![CLOSE_BRACKET]);
        lemma_at_split(s, p, seq![OPEN_BRACKET] + inner, seq![CLOSE_BRACKET]);
        lemma_at_split(s, p, seq![OPEN_BRACKET], inner);
        let q = p + 1 + inner.len();
        lemma_at_index(s, q, seq![CLOSE_BRACKET]);
        assert(s[q] == seq![CLOSE_BRACKET][0]);
        lemma_at_index(s, p + 1, inner);
        lemma_first(n);
        assert(s[p] == t[0]);
        assert(s[p + 1] == inner[0]);
        lemma_span_is(s, p + 1, Class::Blank, p + 1);
        lemma_scalar_reads(s, reads, State { pos: p + 1, ..st }, n);
        lemma_span_is(s, q, Class::Blank, q);
    }
}

pub(crate) proof fn lemma_costs(n: Node)
    ensures
        cost_of(n) >= 0,
    decreases n, 0nat,
{
    if let Node::Table(t) = n {
        lemma_costs_from(t, 0);
    }
}

pub(crate) proof fn lemma_costs_from(t: Seq<(KeyView, Node)>, i: nat)
    ensures
        cost_from(t, i) >= 0,
    decreases t, t.len() - i,
{
    if i < t.len() {
        lemma_costs(t[i as int].1);
        lemma_costs_from(t, (i + 1) as nat);
    }
}

/// Entries that come in order are appended.
pub(crate) proof fn lemma_in_order(t: Seq<(KeyView, Node)>, i: int)
    requires
        sorted(t),
        0 <= i < t.len(),
    ensures
        !super::value::has_key(t.take(i), t[i].0),
        inserted(t.take(i), t[i].0, t[i].1) == t.take(i + 1),
{
    let k = t[i].0;
    let r = t.take(i);
    assert forall|j: int| 0 <= j < i implies key_order((#[trigger] r[j]).0, k) == Order::Less by {
        assert(r[j] == t[j]);
    }
    lemma_place(r, k, i);
    assert(r.insert(i, (k, t[i].1)) =~= t.take(i + 1));
}

proof fn lemma_floats_split(reads: Seq<Float>, k: int, a: Seq<Float>, b: Seq<Float>)
    requires
        next_floats(reads, k, a + b),
    ensures
        next_floats(reads, k, a),
        next_floats(reads, k + a.len(), b),
{
    assert forall|i: int| 0 <= i < a.len() implies reads[k + i] == #[trigger] a[i] by {
        assert((a + b)[i] == a[i]);
    }
    assert forall|i: int| 0 <= i < b.len() implies reads[k + a.len() + i] == #[trigger] b[i] by {
        assert((a + b)[a.len() + i] == b[i]);
        assert(reads[k + (a.len() + i)] == (a + b)[a.len() + i]);
    }
}

/// A value reads back.
proof fn lemma_value_reads(s: Seq<u8>, reads: Seq<Float>, st: State, n: Node)
    requires
        at(s, st.pos, text_of(n)),
        ends(s, st.pos + text_of(n).len()),
        plain(n),
        canonical(n),
        fits(st.budget, depth_of(n), count_of(n), cost_of(n)),
        next_floats(reads, st.floats, floats_of(n)),
    ensures
        value_at(s, reads, st) == Ok::<(Node, State), ErrorView>(
            (
                n,
                after(
                    st,
                    text_of(n).len() as int,
                    floats_of(n).len() as int,
                    count_of(n),
                    cost_of(n),
                ),
            ),
        ),
    decreases n, 0nat,
{
    if let Node::Table(t) = n {
        let p = st.pos;
        let text = text_of(n);
        lemma_counts_from(t, 0);
        lemma_costs_from(t, 0);
        lemma_at_index(s, p, text);
        assert(s[p] == text[0]);
        assert(s[p + 1] == text[1]);
        let b = Budget {
            depth: (st.budget.depth + 1) as usize,
            decoded: (st.budget.decoded + VALUE_COST) as usize,
            ..st.budget
        };
        let from = State { pos: p + 1, budget: b, ..st };
        if t.len() == 0 {
            lemma_span_is(s, p + 1, Class::Blank, p + 1);
            assert(t =~= seq![]);
            assert(floats_of(n) =~= seq![]);
        } else {
            assert(text =~= seq![OPEN_BRACE] + (seq![SPACE] + entries_text(t, 0)));
            lemma_at_split(s, p, seq![OPEN_BRACE], seq![SPACE] + entries_text(t, 0));
            assert(t.take(0) =~= seq![]);
            lemma_entries_read(s, reads, from, t, 0);
        }
    } else {
        lemma_scalar_reads(s, reads, st, n);
    }
}

/// What stands behind an entry.
spec fn entry_tail(t: Seq<(KeyView, Node)>, i: nat) -> Seq<u8> {
    if i + 1 == t.len() {
        seq![SPACE, CLOSE_BRACE]
    } else {
        seq![COMMA, SPACE] + entries_text(t, (i + 1) as nat)
    }
}

/// Where the parts of an entry stand.
proof fn lemma_entry_parts(s: Seq<u8>, from: int, t: Seq<(KeyView, Node)>, i: nat)
    requires
        i < t.len(),
        at(s, from, seq![SPACE] + entries_text(t, i)),
    ensures
        ({
            let p = from + 1;
            let pm = p + key_text(t[i as int].0).len();
            let pv = pm + 3;
            let pt = pv + text_of(t[i as int].1).len();
            &&& 0 <= from
            &&& pt + 1 < s.len()
            &&& at(s, p, key_text(t[i as int].0))
            &&& byte_at(s, from, SPACE)
            &&& byte_at(s, pm, SPACE)
            &&& byte_at(s, pm + 1, EQUALS)
            &&& byte_at(s, pm + 2, SPACE)
            &&& at(s, pv, text_of(t[i as int].1))
            &&& stop(s[pt])
            &&& entries_text(t, i).len() == pt - p + entry_tail(t, i).len()
            &&& if i + 1 == t.len() {
                byte_at(s, pt, SPACE) && byte_at(s, pt + 1, CLOSE_BRACE)
            } else {
                byte_at(s, pt, COMMA) && at(
                    s,
                    pt + 1,
                    seq![SPACE] + entries_text(t, (i + 1) as nat),
                )
            }
        }),
{
    let p = from + 1;
    let kt = key_text(t[i as int].0);
    let vt = text_of(t[i as int].1);
    let tail = entry_tail(t, i);
    let mid = seq![SPACE, EQUALS, SPACE];
    assert(entries_text(t, i) =~= kt + (mid + (vt + tail)));
    lemma_at_split(s, from, seq![SPACE], entries_text(t, i));
    lemma_at_index(s, from, seq![SPACE]);
    assert(s[from] == seq![SPACE][0]);
    lemma_at_split(s, p, kt, mid + (vt + tail));
    let pm = p + kt.len();
    lemma_at_split(s, pm, mid, vt + tail);
    lemma_at_index(s, pm, mid);
    assert(s[pm] == mid[0] && s[pm + 1] == mid[1] && s[pm + 2] == mid[2]);
    let pv = pm + 3;
    lemma_at_split(s, pv, vt, tail);
    let pt = pv + vt.len();
    lemma_at_index(s, pt, tail);
    assert(s[pt] == tail[0] && s[pt + 1] == tail[1]);
    if i + 1 < t.len() {
        assert(tail =~= seq![COMMA] + (seq![SPACE] + entries_text(t, (i + 1) as nat)));
        lemma_at_split(s, pt, seq![COMMA], seq![SPACE] + entries_text(t, (i + 1) as nat));
    }
}

/// The value behind a key, once its parts are known.
proof fn lemma_pair_step(
    s: Seq<u8>,
    reads: Seq<Float>,
    from: int,
    keyed: State,
    pv: int,
    v: Node,
    read: State,
)
    requires
        0 <= from < keyed.pos,
        byte_at(s, keyed.pos, SPACE),
        byte_at(s, keyed.pos + 1, EQUALS),
        byte_at(s, keyed.pos + 2, SPACE),
        pv == keyed.pos + 3,
        pv < s.len(),
        !of_class(Class::Blank, s[pv]),
        value_at(s, reads, State { pos: pv, ..keyed }) == Ok::<(Node, State), ErrorView>((v, read)),
        v !is Nil,
        read.budget.entries < MAX_ENTRIES,
    ensures
        pair_value(s, reads, from, keyed) == Ok::<(Node, State), ErrorView>(
            (
                v,
                State {
                    budget: Budget { entries: (read.budget.entries + 1) as usize, ..read.budget },
                    ..read
                },
            ),
        ),
{
    lemma_span_is(s, keyed.pos, Class::Blank, keyed.pos + 1);
    lemma_span_is(s, keyed.pos + 2, Class::Blank, pv);
}

/// One turn of the table's loop, once its parts are known.
proof fn lemma_entry_step(
    s: Seq<u8>,
    reads: Seq<Float>,
    st: State,
    have: Seq<(KeyView, Node)>,
    k: KeyView,
    v: Node,
    keyed: State,
    valued: State,
    q: int,
)
    requires
        0 <= st.pos,
        byte_at(s, st.pos, SPACE),
        st.pos + 1 < s.len(),
        !of_class(Class::Blank, s[st.pos + 1]),
        s[st.pos + 1] != CLOSE_BRACE,
        key_at(s, reads, State { pos: st.pos + 1, ..st }) == Ok::<(KeyView, State), ErrorView>(
            (k, keyed),
        ),
        pair_value(s, reads, st.pos, keyed) == Ok::<(Node, State), ErrorView>((v, valued)),
        !super::value::has_key(have, k),
        entry_end(s, valued.pos) == Ok::<int, ErrorView>(q),
        st.pos < q <= s.len(),
    ensures
        entries_at(s, reads, st, have) == entries_at(
            s,
            reads,
            State { pos: q, ..valued },
            inserted(have, k, v),
        ),
{
    lemma_span_is(s, st.pos, Class::Blank, st.pos + 1);
}

/// The closing brace of a table's loop.
proof fn lemma_table_end(s: Seq<u8>, reads: Seq<Float>, st: State, have: Seq<(KeyView, Node)>)
    requires
        byte_at(s, st.pos, CLOSE_BRACE),
    ensures
        entries_at(s, reads, st, have) == Ok::<(Seq<(KeyView, Node)>, State), ErrorView>(
            (have, State { pos: st.pos + 1, budget: left(st.budget), ..st }),
        ),
{
    lemma_span_is(s, st.pos, Class::Blank, st.pos);
}

/// The entries from `i` on read back.
#[verifier::rlimit(60)]
#[verifier::spinoff_prover]
proof fn lemma_entries_read(
    s: Seq<u8>,
    reads: Seq<Float>,
    st: State,
    t: Seq<(KeyView, Node)>,
    i: nat,
)
    requires
        i < t.len(),
        at(s, st.pos, seq![SPACE] + entries_text(t, i)),
        plain_from(t, i),
        sorted(t),
        canonical_from(t, i),
        st.budget.depth > 0,
        fits(st.budget, depth_from(t, i), count_from(t, i), cost_from(t, i)),
        next_floats(reads, st.floats, floats_from(t, i)),
    ensures
        entries_at(s, reads, st, t.take(i as int)) == Ok::<
            (Seq<(KeyView, Node)>, State),
            ErrorView,
        >(
            (
                t,
                State {
                    budget: left(
                        after(
                            st,
                            1 + entries_text(t, i).len() as int,
                            floats_from(t, i).len() as int,
                            count_from(t, i),
                            cost_from(t, i),
                        ).budget,
                    ),
                    ..after(
                        st,
                        1 + entries_text(t, i).len() as int,
                        floats_from(t, i).len() as int,
                        count_from(t, i),
                        cost_from(t, i),
                    )
                },
            ),
        ),
    decreases t, t.len() - i,
{
    let k = t[i as int].0;
    let v = t[i as int].1;
    let p = st.pos + 1;
    let kt = key_text(k);
    let vt = text_of(v);
    let pm = p + kt.len();
    let pv = pm + 3;
    let pt = pv + vt.len();
    lemma_entry_parts(s, st.pos, t, i);
    lemma_counts(v);
    lemma_counts_from(t, (i + 1) as nat);
    lemma_costs(v);
    lemma_costs_from(t, (i + 1) as nat);
    // The floats.
    let fk = key_floats(k);
    let fv = floats_of(v);
    let fr = floats_from(t, (i + 1) as nat);
    assert(floats_from(t, i) =~= fk + (fv + fr));
    lemma_floats_split(reads, st.floats, fk, fv + fr);
    lemma_floats_split(reads, st.floats + fk.len(), fv, fr);
    // The key.
    let from = State { pos: p, ..st };
    lemma_key_reads(s, reads, from, k);
    assert(s[p] == kt[0]) by {
        lemma_at_index(s, p, kt);
    }
    let keyed = after(from, kt.len() as int, fk.len() as int, 0, key_cost(k));
    assert(keyed.pos == pm);
    // The value.
    assert(!of_class(Class::Blank, s[pv])) by {
        lemma_first(v);
        lemma_at_index(s, pv, vt);
        assert(s[pv] == vt[0]);
    }
    let at_value = State { pos: pv, ..keyed };
    lemma_value_reads(s, reads, at_value, v);
    let read = after(at_value, vt.len() as int, fv.len() as int, count_of(v), cost_of(v));
    let valued = State {
        budget: Budget { entries: (read.budget.entries + 1) as usize, ..read.budget },
        ..read
    };
    lemma_pair_step(s, reads, st.pos, keyed, pv, v, read);
    lemma_in_order(t, i as int);
    assert(entry_end(s, pt) == Ok::<int, ErrorView>(pt + 1)) by {
        if i + 1 == t.len() {
            lemma_span_is(s, pt, Class::Blank, pt + 1);
        } else {
            lemma_span_is(s, pt, Class::Blank, pt);
        }
    }
    let next = State { pos: pt + 1, ..valued };
    lemma_entry_step(s, reads, st, t.take(i as int), k, v, keyed, valued, pt + 1);
    if i + 1 == t.len() {
        assert(t.take(i as int + 1) =~= t);
        assert(fr =~= seq![]);
        lemma_table_end(s, reads, next, t);
    } else {
        lemma_entries_read(s, reads, next, t, (i + 1) as nat);
    }
}

/// What [`encode`] writes of a value, [`decode`] reads back as the same
/// value, given the values of its floats: for every value in canonical
/// form that has an encoding and whose decoded size is within the limit.
///
/// [`encode`]: super::writing::encode
/// [`decode`]: super::reading::decode
pub proof fn law_the_text_reads_back(n: Node)
    requires
        canonical(n),
        encoding(n) is Ok,
        cost_of(n) <= MAX_DECODED,
    ensures
        encoding(n)->Ok_0 == text_of(n),
        reading(text_of(n), floats_of(n)) == Ok::<Node, ErrorView>(n),
{
    let s = text_of(n);
    lemma_written(seq![], n, no_budget_spent());
    assert(Seq::<u8>::empty() + s =~= s);
    lemma_first(n);
    lemma_whole(s);
    lemma_span_is(s, 0, Class::Blank, 0);
    lemma_counts(n);
    let st = State { pos: 0, floats: 0, budget: no_budget_spent() };
    lemma_value_reads(s, floats_of(n), st, n);
    lemma_span_is(s, s.len() as int, Class::Blank, s.len() as int);
}

/// The encoding is one of its kind: two values in canonical form with the
/// same text and the same floats are the same value.
pub proof fn law_the_text_is_unique(a: Node, b: Node)
    requires
        canonical(a),
        canonical(b),
        encoding(a) is Ok,
        encoding(b) is Ok,
        cost_of(a) <= MAX_DECODED,
        cost_of(b) <= MAX_DECODED,
        text_of(a) == text_of(b),
        floats_of(a) == floats_of(b),
    ensures
        a == b,
{
    law_the_text_reads_back(a);
    law_the_text_reads_back(b);
}

} // verus!
