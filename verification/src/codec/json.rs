//! The JSON form: plain JSON where it carries the type, `$`-tagged objects
//! where it would not.

use vstd::prelude::*;
use vstd::slice::*;
use vstd::string::*;
use vstd::utf8::*;
use super::base64::{base64_decode, decoded, encoded, malformed};
use super::number::{check_float, finite, float_refusal, Float};
use super::value::{
    entry_nodes, has_key, inserted, key_of, lemma_nodes_of, node_of, sorted, Key, KeyView, Node,
    Table, Value,
};
use super::writing::left;
use super::{base64_encode, no_budget_spent, Budget, CodecError, ErrorView};
use crate::text::{dec, push_dec, quote, quoted, str_eq, string_from_utf8};

verus! {

/// A JSON document. An object holds its members in the order of their
/// names.
#[derive(Debug, PartialEq, Eq)]
pub enum Json {
    Null,
    Bool(bool),
    Int(i64),
    /// An integer of the upper half of 64 bits.
    Unsigned(u64),
    Float(Float),
    Text(String),
    Array(Vec<Json>),
    Object(Vec<(String, Json)>),
}

/// A JSON document as a tree of plain values.
pub enum JsonView {
    Null,
    Bool(bool),
    Int(i64),
    Unsigned(u64),
    Float(Float),
    Text(Seq<char>),
    Array(Seq<JsonView>),
    Object(Seq<(Seq<char>, JsonView)>),
}

pub open spec fn json_view(j: Json) -> JsonView
    decreases j, 0nat,
{
    match j {
        Json::Null => JsonView::Null,
        Json::Bool(b) => JsonView::Bool(b),
        Json::Int(i) => JsonView::Int(i),
        Json::Unsigned(u) => JsonView::Unsigned(u),
        Json::Float(f) => JsonView::Float(f),
        Json::Text(s) => JsonView::Text(s@),
        Json::Array(a) => JsonView::Array(array_view(a@, a@.len())),
        Json::Object(m) => JsonView::Object(object_view(m@, m@.len())),
    }
}

/// The first `n` elements.
pub open spec fn array_view(a: Seq<Json>, n: nat) -> Seq<JsonView>
    decreases a, n,
{
    if n == 0 || n > a.len() {
        seq![]
    } else {
        array_view(a, (n - 1) as nat).push(json_view(a[n - 1]))
    }
}

/// The first `n` members.
pub open spec fn object_view(m: Seq<(String, Json)>, n: nat) -> Seq<(Seq<char>, JsonView)>
    decreases m, n,
{
    if n == 0 || n > m.len() {
        seq![]
    } else {
        object_view(m, (n - 1) as nat).push((m[n - 1].0@, json_view(m[n - 1].1)))
    }
}

proof fn lemma_array_view(a: Seq<Json>, n: nat)
    requires
        n <= a.len(),
    ensures
        array_view(a, n).len() == n,
        forall|i: int| 0 <= i < n ==> #[trigger] array_view(a, n)[i] == json_view(a[i]),
    decreases n,
{
    if n > 0 {
        lemma_array_view(a, (n - 1) as nat);
    }
}

proof fn lemma_object_view(m: Seq<(String, Json)>, n: nat)
    requires
        n <= m.len(),
    ensures
        object_view(m, n).len() == n,
        forall|i: int|
            0 <= i < n ==> #[trigger] object_view(m, n)[i] == (m[i].0@, json_view(m[i].1)),
    decreases n,
{
    if n > 0 {
        lemma_object_view(m, (n - 1) as nat);
    }
}

impl View for Json {
    type V = JsonView;

    open spec fn view(&self) -> JsonView {
        json_view(*self)
    }
}

// ----- to JSON ----------------------------------------------------------------------

pub open spec fn tag(name: Seq<char>, payload: JsonView) -> JsonView {
    JsonView::Object(seq![(name, payload)])
}

/// Bytes in base64, as characters.
pub open spec fn base64_chars(b: Seq<u8>) -> Seq<char> {
    decode_utf8(encoded(b))
}

pub open spec fn string_json(s: Seq<u8>) -> JsonView {
    if valid_utf8(s) {
        JsonView::Text(decode_utf8(s))
    } else {
        tag("$bytes"@, JsonView::Text(base64_chars(s)))
    }
}

/// A key as a value.
pub open spec fn key_json(k: KeyView) -> JsonView {
    match k {
        KeyView::Bool(b) => JsonView::Bool(b),
        KeyView::Int(i) => JsonView::Int(i),
        KeyView::Float(f) => JsonView::Float(f),
        KeyView::Str(s) => string_json(s),
    }
}

/// Whether a key can name a member: text that does not begin with `$`.
pub open spec fn member_key(k: KeyView) -> bool {
    match k {
        KeyView::Str(s) => valid_utf8(s) && !(decode_utf8(s).len() > 0 && decode_utf8(s)[0] == '$'),
        _ => false,
    }
}

pub open spec fn plain_table(t: Seq<(KeyView, Node)>) -> bool {
    forall|i: int| 0 <= i < t.len() ==> member_key((#[trigger] t[i]).0)
}

/// The JSON form of a value, or what in it has none.
pub open spec fn json_of(n: Node, b: Budget) -> Result<(JsonView, Budget), ErrorView>
    decreases n, 0nat,
{
    match n {
        Node::Nil => Ok((JsonView::Null, b)),
        Node::Bool(x) => Ok((JsonView::Bool(x), b)),
        Node::Int(i) => Ok((JsonView::Int(i), b)),
        Node::Float(f) => if finite(f.bits) {
            Ok((JsonView::Float(f), b))
        } else {
            Err(float_refusal(f.bits))
        },
        Node::Str(s) => Ok((string_json(s), b)),
        Node::Blob(s) => Ok((tag("$blob"@, JsonView::Text(base64_chars(s))), b)),
        Node::Table(t) => match b.with_table() {
            Err(e) => Err(e),
            Ok(c) => if plain_table(t) {
                match members_of(t, 0, c, seq![]) {
                    Err(e) => Err(e),
                    Ok((m, d)) => Ok((JsonView::Object(m), left(d))),
                }
            } else {
                match pairs_of(t, 0, c, seq![]) {
                    Err(e) => Err(e),
                    Ok((a, d)) => Ok((tag("$table"@, JsonView::Array(a)), left(d))),
                }
            },
        },
    }
}

/// The entries from `i` on as members, behind those that are there.
pub open spec fn members_of(
    t: Seq<(KeyView, Node)>,
    i: nat,
    b: Budget,
    have: Seq<(Seq<char>, JsonView)>,
) -> Result<(Seq<(Seq<char>, JsonView)>, Budget), ErrorView>
    decreases t, t.len() - i,
{
    if i >= t.len() {
        Ok((have, b))
    } else {
        match b.with_entry() {
            Err(e) => Err(e),
            Ok(c) => match json_of(t[i as int].1, c) {
                Err(e) => Err(e),
                Ok((j, d)) => members_of(
                    t,
                    (i + 1) as nat,
                    d,
                    have.push((decode_utf8(t[i as int].0->Str_0), j)),
                ),
            },
        }
    }
}

/// The entries from `i` on as pairs, behind those that are there.
pub open spec fn pairs_of(
    t: Seq<(KeyView, Node)>,
    i: nat,
    b: Budget,
    have: Seq<JsonView>,
) -> Result<(Seq<JsonView>, Budget), ErrorView>
    decreases t, t.len() - i,
{
    if i >= t.len() {
        Ok((have, b))
    } else {
        match b.with_entry() {
            Err(e) => Err(e),
            Ok(c) => match t[i as int].0 {
                KeyView::Float(f) if !finite(f.bits) => Err(float_refusal(f.bits)),
                _ => match json_of(t[i as int].1, c) {
                    Err(e) => Err(e),
                    Ok((j, d)) => pairs_of(
                        t,
                        (i + 1) as nat,
                        d,
                        have.push(JsonView::Array(seq![key_json(t[i as int].0), j])),
                    ),
                },
            },
        }
    }
}

fn tagged(name: &str, payload: Json) -> (j: Json)
    ensures
        j@ == tag(name@, payload@),
{
    let mut m: Vec<(String, Json)> = Vec::new();
    m.push((name.to_owned(), payload));
    proof {
        lemma_object_view(m@, 1);
        assert(object_view(m@, 1) =~= seq![(name@, payload@)]);
    }
    Json::Object(m)
}

fn base64_json(bytes: &[u8]) -> (j: Json)
    ensures
        j@ == JsonView::Text(base64_chars(bytes@)),
{
    let s = base64_encode(bytes);
    proof {
        encode_utf8_decode_utf8(s@);
    }
    Json::Text(s)
}

/// The text that some bytes are, if they are UTF-8.
fn utf8_text(s: &Vec<u8>) -> (r: Option<String>)
    ensures
        match r {
            Some(t) => valid_utf8(s@) && t@ == decode_utf8(s@),
            None => !valid_utf8(s@),
        },
{
    let r = string_from_utf8(slice_to_vec(s.as_slice()));
    proof {
        if r is Some {
            encode_utf8_decode_utf8(r->0@);
        }
    }
    r
}

fn json_string(s: &Vec<u8>) -> (j: Json)
    ensures
        j@ == string_json(s@),
{
    match utf8_text(s) {
        Some(text) => Json::Text(text),
        None => tagged("$bytes", base64_json(s.as_slice())),
    }
}

fn names_member(key: &Key) -> (r: Option<String>)
    ensures
        match r {
            Some(s) => member_key(key@) && s@ == decode_utf8(key@->Str_0),
            None => !member_key(key@),
        },
{
    match key {
        Key::Str(s) => match utf8_text(s) {
            Some(text) => {
                let cs = crate::text::chars_of(text.as_str());
                if cs.len() > 0 && cs[0] == '$' {
                    None
                } else {
                    Some(text)
                }
            },
            None => None,
        },
        _ => None,
    }
}

fn all_members(entries: &Vec<(Key, Value)>) -> (r: bool)
    ensures
        r == plain_table(entry_nodes(entries@)),
{
    let mut i: usize = 0;
    proof {
        lemma_nodes_of(entries@, entries@.len());
    }
    let ghost t = entry_nodes(entries@);
    while i < entries.len()
        invariant
            i <= entries@.len(),
            t == entry_nodes(entries@),
            t.len() == entries@.len(),
            forall|j: int| 0 <= j < t.len() ==> (#[trigger] t[j]).0 == entries@[j].0@,
            forall|j: int| 0 <= j < i ==> member_key((#[trigger] t[j]).0),
        decreases entries.len() - i,
    {
        assert(t[i as int].0 == entries@[i as int].0@);
        if names_member(&entries[i].0).is_none() {
            return false;
        }
        i += 1;
    }
    true
}

fn key_value(key: &Key) -> (r: Result<Json, CodecError>)
    ensures
        match r {
            Ok(j) => j@ == key_json(key@) && !(key@ matches KeyView::Float(f) && !finite(f.bits)),
            Err(e) => key@ matches KeyView::Float(f) && !finite(f.bits) && e@ == float_refusal(
                f.bits,
            ),
        },
{
    match key {
        Key::Bool(b) => Ok(Json::Bool(*b)),
        Key::Int(i) => Ok(Json::Int(*i)),
        Key::Float(f) => match check_float(f) {
            Ok(_) => Ok(Json::Float(*f)),
            Err(e) => Err(e),
        },
        Key::Str(s) => Ok(json_string(s)),
    }
}

/// A value that was turned leaves the depth as it was.
proof fn lemma_json_depth(n: Node, b: Budget)
    ensures
        json_of(n, b) matches Ok((_, c)) ==> c.depth == b.depth && (b.wf() ==> c.wf()),
    decreases n, 0nat,
{
    if let Node::Table(t) = n {
        if let Ok(c) = b.with_table() {
            lemma_members_depth(t, 0, c, seq![]);
            lemma_pairs_depth(t, 0, c, seq![]);
        }
    }
}

proof fn lemma_members_depth(
    t: Seq<(KeyView, Node)>,
    i: nat,
    b: Budget,
    have: Seq<(Seq<char>, JsonView)>,
)
    ensures
        members_of(t, i, b, have) matches Ok((_, c)) ==> c.depth == b.depth && (b.wf() ==> c.wf()),
    decreases t, t.len() - i,
{
    if i < t.len() {
        if let Ok(c) = b.with_entry() {
            lemma_json_depth(t[i as int].1, c);
            if let Ok((j, d)) = json_of(t[i as int].1, c) {
                lemma_members_depth(
                    t,
                    (i + 1) as nat,
                    d,
                    have.push((decode_utf8(t[i as int].0->Str_0), j)),
                );
            }
        }
    }
}

proof fn lemma_pairs_depth(t: Seq<(KeyView, Node)>, i: nat, b: Budget, have: Seq<JsonView>)
    ensures
        pairs_of(t, i, b, have) matches Ok((_, c)) ==> c.depth == b.depth && (b.wf() ==> c.wf()),
    decreases t, t.len() - i,
{
    if i < t.len() {
        if let Ok(c) = b.with_entry() {
            lemma_json_depth(t[i as int].1, c);
            if let Ok((j, d)) = json_of(t[i as int].1, c) {
                lemma_pairs_depth(
                    t,
                    (i + 1) as nat,
                    d,
                    have.push(JsonView::Array(seq![key_json(t[i as int].0), j])),
                );
            }
        }
    }
}

#[verifier::spinoff_prover]
#[verifier::rlimit(50)]
fn write_json(value: &Value, budget: &mut Budget) -> (r: Result<Json, CodecError>)
    requires
        old(budget).wf(),
    ensures
        match (r, json_of(value@, *old(budget))) {
            (Ok(j), Ok((v, b))) => j@ == v && *final(budget) == b && b.wf(),
            (Err(e), Err(v)) => e@ == v,
            _ => false,
        },
    decreases value,
{
    match value {
        Value::Nil => Ok(Json::Null),
        Value::Bool(b) => Ok(Json::Bool(*b)),
        Value::Int(i) => Ok(Json::Int(*i)),
        Value::Float(f) => match check_float(f) {
            Ok(_) => Ok(Json::Float(*f)),
            Err(e) => Err(e),
        },
        Value::Str(s) => Ok(json_string(s)),
        Value::Blob(b) => Ok(tagged("$blob", base64_json(b.as_slice()))),
        Value::Table(t) => {
            let entries = &t.entries;
            let ghost nodes = entry_nodes(entries@);
            let ghost whole = json_of(value@, *old(budget));
            proof {
                lemma_nodes_of(entries@, entries@.len());
                lemma_json_depth(value@, *old(budget));
            }
            if let Err(e) = budget.enter() {
                return Err(e);
            }
            let plain = all_members(entries);
            if plain {
                let mut members: Vec<(String, Json)> = Vec::new();
                let ghost all = members_of(nodes, 0, *budget, seq![]);
                assert(object_view(members@, 0) =~= seq![]);
                let mut i: usize = 0;
                while i < entries.len()
                    invariant
                        i <= entries@.len(),
                        value is Table,
                        *entries == value->Table_0.entries,
                        nodes == entry_nodes(entries@),
                        nodes.len() == entries@.len(),
                        forall|j: int|
                            0 <= j < nodes.len() ==> #[trigger] nodes[j] == (
                                entries@[j].0@,
                                node_of(entries@[j].1),
                            ),
                        plain_table(nodes),
                        budget.wf(),
                        budget.depth > 0,
                        whole == json_of(value@, *old(budget)),
                        whole is Err <==> all is Err,
                        whole is Err ==> whole->Err_0 == all->Err_0,
                        all == members_of(
                            nodes,
                            i as nat,
                            *budget,
                            object_view(members@, members@.len()),
                        ),
                    decreases entries.len() - i,
                {
                    assert(nodes[i as int] == (
                        entries@[i as int].0@,
                        node_of(entries@[i as int].1),
                    ));
                    if let Err(e) = budget.entry() {
                        return Err(e);
                    }
                    let name = match names_member(&entries[i].0) {
                        Some(s) => s,
                        None => {
                            assert(false);
                            String::new()
                        },
                    };
                    proof {
                        lemma_json_depth(entries@[i as int].1@, *budget);
                    }
                    let j = match write_json(&entries[i].1, budget) {
                        Ok(j) => j,
                        Err(e) => return Err(e),
                    };
                    let ghost before = members@;
                    members.push((name, j));
                    proof {
                        lemma_object_view(before, before.len());
                        lemma_object_view(members@, members@.len());
                        assert(object_view(members@, members@.len()) =~= object_view(
                            before,
                            before.len(),
                        ).push((name@, j@)));
                    }
                    i += 1;
                }
                budget.leave();
                Ok(Json::Object(members))
            } else {
                let mut pairs: Vec<Json> = Vec::new();
                let ghost all = pairs_of(nodes, 0, *budget, seq![]);
                assert(array_view(pairs@, 0) =~= seq![]);
                let mut i: usize = 0;
                while i < entries.len()
                    invariant
                        i <= entries@.len(),
                        value is Table,
                        *entries == value->Table_0.entries,
                        nodes == entry_nodes(entries@),
                        nodes.len() == entries@.len(),
                        forall|j: int|
                            0 <= j < nodes.len() ==> #[trigger] nodes[j] == (
                                entries@[j].0@,
                                node_of(entries@[j].1),
                            ),
                        budget.wf(),
                        budget.depth > 0,
                        whole == json_of(value@, *old(budget)),
                        whole is Err <==> all is Err,
                        whole is Err ==> whole->Err_0 == all->Err_0,
                        all == pairs_of(
                            nodes,
                            i as nat,
                            *budget,
                            array_view(pairs@, pairs@.len()),
                        ),
                    decreases entries.len() - i,
                {
                    assert(nodes[i as int] == (
                        entries@[i as int].0@,
                        node_of(entries@[i as int].1),
                    ));
                    if let Err(e) = budget.entry() {
                        return Err(e);
                    }
                    let k = match key_value(&entries[i].0) {
                        Ok(j) => j,
                        Err(e) => return Err(e),
                    };
                    proof {
                        lemma_json_depth(entries@[i as int].1@, *budget);
                    }
                    let j = match write_json(&entries[i].1, budget) {
                        Ok(j) => j,
                        Err(e) => return Err(e),
                    };
                    let mut pair: Vec<Json> = Vec::new();
                    pair.push(k);
                    pair.push(j);
                    let ghost before = pairs@;
                    let ghost both = JsonView::Array(seq![k@, j@]);
                    proof {
                        lemma_array_view(pair@, 2);
                        assert(array_view(pair@, 2) =~= seq![k@, j@]);
                    }
                    pairs.push(Json::Array(pair));
                    proof {
                        lemma_array_view(before, before.len());
                        lemma_array_view(pairs@, pairs@.len());
                        assert(array_view(pairs@, pairs@.len()) =~= array_view(
                            before,
                            before.len(),
                        ).push(both));
                    }
                    i += 1;
                }
                budget.leave();
                Ok(tagged("$table", Json::Array(pairs)))
            }
        },
    }
}

/// The JSON form of a value.
pub open spec fn to_json_view(n: Node) -> Result<JsonView, ErrorView> {
    match json_of(n, no_budget_spent()) {
        Ok((j, _)) => Ok(j),
        Err(e) => Err(e),
    }
}

pub fn to_json(value: &Value) -> (r: Result<Json, CodecError>)
    ensures
        match (r, to_json_view(value@)) {
            (Ok(j), Ok(v)) => j@ == v,
            (Err(e), Err(v)) => e@ == v,
            _ => false,
        },
{
    let mut budget = Budget::default();
    write_json(value, &mut budget)
}

// ----- from JSON ------------------------------------------------------------------------

pub open spec fn json_syntax(message: Seq<char>) -> ErrorView {
    ErrorView { code: "codec_syntax"@, message }
}

/// A value that was read, charged to the budget.
pub open spec fn paid(n: Node, b: Budget, payload: int) -> Result<(Node, Budget), ErrorView> {
    match b.with_value(payload) {
        Err(e) => Err(e),
        Ok(c) => Ok((n, c)),
    }
}

/// The bytes of a base64 payload.
pub open spec fn payload_bytes(j: JsonView, name: Seq<char>) -> Result<Seq<u8>, ErrorView> {
    match j {
        JsonView::Text(s) => match decoded(encode_utf8(s)) {
            Some(b) => Ok(b),
            None => Err(json_syntax(malformed())),
        },
        _ => Err(json_syntax(name + " must hold a base64 string"@)),
    }
}

pub open spec fn wide_number(u: u64) -> ErrorView {
    ErrorView {
        code: "codec_number"@,
        message: "integer "@ + dec(u as nat) + " does not fit 64 bits"@,
    }
}

pub open spec fn bare_array() -> ErrorView {
    json_syntax("a bare JSON array has no table form; use {\"$table\": [[k, v], ...]}"@)
}

pub open spec fn null_member(name: Seq<char>) -> ErrorView {
    ErrorView {
        code: "codec_unsupported"@,
        message: "null is not a table value (key "@ + quoted(name) + ")"@,
    }
}

pub open spec fn null_pair() -> ErrorView {
    ErrorView { code: "codec_unsupported"@, message: "null is not a table value"@ }
}

pub open spec fn duplicate_pair() -> ErrorView {
    ErrorView { code: "codec_key"@, message: "duplicate key in $table"@ }
}

pub open spec fn no_pairs() -> ErrorView {
    json_syntax("$table must hold an array of [key, value] pairs"@)
}

pub open spec fn no_pair() -> ErrorView {
    json_syntax("$table entries must be [key, value] arrays"@)
}

pub open spec fn odd_pair() -> ErrorView {
    json_syntax("$table entries must have exactly a key and a value"@)
}

/// The value that a JSON document stands for, or what is wrong with it.
pub open spec fn value_of(j: JsonView, b: Budget) -> Result<(Node, Budget), ErrorView>
    decreases j, 0nat,
{
    match j {
        JsonView::Null => paid(Node::Nil, b, 0),
        JsonView::Bool(x) => paid(Node::Bool(x), b, 0),
        JsonView::Int(i) => paid(Node::Int(i), b, 0),
        JsonView::Unsigned(u) => match b.with_value(0) {
            Err(e) => Err(e),
            Ok(c) => if u <= i64::MAX {
                Ok((Node::Int(u as i64), c))
            } else {
                Err(wide_number(u))
            },
        },
        JsonView::Float(f) => match b.with_value(0) {
            Err(e) => Err(e),
            Ok(c) => if finite(f.bits) {
                Ok((Node::Float(f), c))
            } else {
                Err(float_refusal(f.bits))
            },
        },
        JsonView::Text(s) => paid(
            Node::Str(encode_utf8(s)),
            b,
            encode_utf8(s).len() as int,
        ),
        JsonView::Array(_) => Err(bare_array()),
        JsonView::Object(m) => if m.len() == 1 && m[0].0 == "$bytes"@ {
            match payload_bytes(m[0].1, "$bytes"@) {
                Err(e) => Err(e),
                Ok(x) => paid(Node::Str(x), b, x.len() as int),
            }
        } else if m.len() == 1 && m[0].0 == "$blob"@ {
            match payload_bytes(m[0].1, "$blob"@) {
                Err(e) => Err(e),
                Ok(x) => paid(Node::Blob(x), b, x.len() as int),
            }
        } else if m.len() == 1 && m[0].0 == "$table"@ {
            table_pairs(m[0].1, b)
        } else {
            match b.with_table() {
                Err(e) => Err(e),
                Ok(c) => match c.with_value(0) {
                    Err(e) => Err(e),
                    Ok(d) => members_in(m, 0, d, seq![]),
                },
            }
        },
    }
}

/// The table of an object's members from `i` on, behind those that were
/// read.
pub open spec fn members_in(
    m: Seq<(Seq<char>, JsonView)>,
    i: nat,
    b: Budget,
    read: Seq<(KeyView, Node)>,
) -> Result<(Node, Budget), ErrorView>
    decreases m, m.len() - i,
{
    if i >= m.len() {
        Ok((Node::Table(read), left(b)))
    } else {
        let name = m[i as int].0;
        match b.with_entry() {
            Err(e) => Err(e),
            Ok(c) => match c.with_value(encode_utf8(name).len() as int) {
                Err(e) => Err(e),
                Ok(d) => match value_of(m[i as int].1, d) {
                    Err(e) => Err(e),
                    Ok((n, f)) => if n is Nil {
                        Err(null_member(name))
                    } else {
                        members_in(
                            m,
                            (i + 1) as nat,
                            f,
                            inserted(read, KeyView::Str(encode_utf8(name)), n),
                        )
                    },
                },
            },
        }
    }
}

/// The table of an array of pairs.
pub open spec fn table_pairs(j: JsonView, b: Budget) -> Result<(Node, Budget), ErrorView>
    decreases j, 1nat,
{
    match j {
        JsonView::Array(a) => match b.with_table() {
            Err(e) => Err(e),
            Ok(c) => match c.with_value(0) {
                Err(e) => Err(e),
                Ok(d) => pairs_in(a, 0, d, seq![]),
            },
        },
        _ => Err(no_pairs()),
    }
}

/// The table of the pairs from `i` on, behind those that were read.
pub open spec fn pairs_in(
    a: Seq<JsonView>,
    i: nat,
    b: Budget,
    read: Seq<(KeyView, Node)>,
) -> Result<(Node, Budget), ErrorView>
    decreases a, a.len() - i,
{
    if i >= a.len() {
        Ok((Node::Table(read), left(b)))
    } else {
        match a[i as int] {
            JsonView::Array(kv) => if kv.len() != 2 {
                Err(odd_pair())
            } else {
                match b.with_entry() {
                    Err(e) => Err(e),
                    Ok(c) => match value_of(kv[0], c) {
                        Err(e) => Err(e),
                        Ok((k, d)) => match key_of(k) {
                            Err(e) => Err(e),
                            Ok(key) => match value_of(kv[1], d) {
                                Err(e) => Err(e),
                                Ok((n, f)) => if n is Nil {
                                    Err(null_pair())
                                } else if has_key(read, key) {
                                    Err(duplicate_pair())
                                } else {
                                    pairs_in(a, (i + 1) as nat, f, inserted(read, key, n))
                                },
                            },
                        },
                    },
                }
            },
            _ => Err(no_pair()),
        }
    }
}

/// A value that was read leaves the depth as it was.
proof fn lemma_value_depth(j: JsonView, b: Budget)
    ensures
        value_of(j, b) matches Ok((_, c)) ==> c.depth == b.depth && (b.wf() ==> c.wf()),
    decreases j, 0nat,
{
    if let JsonView::Object(m) = j {
        if m.len() == 1 {
            lemma_table_depth(m[0].1, b);
        }
        if let Ok(c) = b.with_table() {
            if let Ok(d) = c.with_value(0) {
                lemma_members_in_depth(m, 0, d, seq![]);
            }
        }
    }
}

proof fn lemma_members_in_depth(
    m: Seq<(Seq<char>, JsonView)>,
    i: nat,
    b: Budget,
    read: Seq<(KeyView, Node)>,
)
    requires
        b.depth > 0,
    ensures
        members_in(m, i, b, read) matches Ok((_, c)) ==> c.depth == b.depth - 1 && (b.wf()
            ==> c.wf()),
    decreases m, m.len() - i,
{
    if i < m.len() {
        let name = m[i as int].0;
        if let Ok(c) = b.with_entry() {
            if let Ok(d) = c.with_value(encode_utf8(name).len() as int) {
                lemma_value_depth(m[i as int].1, d);
                if let Ok((n, f)) = value_of(m[i as int].1, d) {
                    lemma_members_in_depth(
                        m,
                        (i + 1) as nat,
                        f,
                        inserted(read, KeyView::Str(encode_utf8(name)), n),
                    );
                }
            }
        }
    }
}

proof fn lemma_table_depth(j: JsonView, b: Budget)
    ensures
        table_pairs(j, b) matches Ok((_, c)) ==> c.depth == b.depth && (b.wf() ==> c.wf()),
    decreases j, 1nat,
{
    if let JsonView::Array(a) = j {
        if let Ok(c) = b.with_table() {
            if let Ok(d) = c.with_value(0) {
                lemma_pairs_in_depth(a, 0, d, seq![]);
            }
        }
    }
}

proof fn lemma_pairs_in_depth(
    a: Seq<JsonView>,
    i: nat,
    b: Budget,
    read: Seq<(KeyView, Node)>,
)
    requires
        b.depth > 0,
    ensures
        pairs_in(a, i, b, read) matches Ok((_, c)) ==> c.depth == b.depth - 1 && (b.wf()
            ==> c.wf()),
    decreases a, a.len() - i,
{
    if i < a.len() {
        if let JsonView::Array(kv) = a[i as int] {
            if kv.len() == 2 {
                if let Ok(c) = b.with_entry() {
                    lemma_value_depth(kv[0], c);
                    if let Ok((k, d)) = value_of(kv[0], c) {
                        lemma_value_depth(kv[1], d);
                        if let Ok(key) = key_of(k) {
                            if let Ok((n, f)) = value_of(kv[1], d) {
                                lemma_pairs_in_depth(
                                    a,
                                    (i + 1) as nat,
                                    f,
                                    inserted(read, key, n),
                                );
                            }
                        }
                    }
                }
            }
        }
    }
}

fn base64_field(payload: &Json, name: &str) -> (r: Result<Vec<u8>, CodecError>)
    ensures
        match (r, payload_bytes(payload@, name@)) {
            (Ok(v), Ok(b)) => v@ == b,
            (Err(e), Err(v)) => e@ == v,
            _ => false,
        },
{
    match payload {
        Json::Text(s) => base64_decode(s.as_str().as_bytes()),
        _ => {
            let mut m = name.to_owned();
            m.append(" must hold a base64 string");
            Err(CodecError { code: CodecError::SYNTAX, message: m })
        },
    }
}

#[verifier::spinoff_prover]
#[verifier::rlimit(50)]
fn read_json(json: &Json, budget: &mut Budget) -> (r: Result<Value, CodecError>)
    requires
        old(budget).wf(),
    ensures
        match (r, value_of(json@, *old(budget))) {
            (Ok(v), Ok((n, b))) => v@ == n && *final(budget) == b && b.wf(),
            (Err(e), Err(v)) => e@ == v,
            _ => false,
        },
    decreases json, 0nat,
{
    match json {
        Json::Array(_) => Err(
            CodecError::new(
                CodecError::SYNTAX,
                "a bare JSON array has no table form; use {\"$table\": [[k, v], ...]}",
            ),
        ),
        Json::Object(map) => {
            proof {
                lemma_object_view(map@, map@.len());
                lemma_value_depth(json@, *old(budget));
            }
            let ghost m = object_view(map@, map@.len());
            if map.len() == 1 {
                let name = map[0].0.as_str();
                assert(m[0] == (map@[0].0@, json_view(map@[0].1)));
                if str_eq(name, "$bytes") {
                    return match base64_field(&map[0].1, "$bytes") {
                        Err(e) => Err(e),
                        Ok(b) => match budget.value(b.len()) {
                            Err(e) => Err(e),
                            Ok(_) => Ok(Value::Str(b)),
                        },
                    };
                }
                if str_eq(name, "$blob") {
                    return match base64_field(&map[0].1, "$blob") {
                        Err(e) => Err(e),
                        Ok(b) => match budget.value(b.len()) {
                            Err(e) => Err(e),
                            Ok(_) => Ok(Value::Blob(b)),
                        },
                    };
                }
                if str_eq(name, "$table") {
                    return read_pairs(&map[0].1, budget);
                }
            }
            if let Err(e) = budget.enter() {
                return Err(e);
            }
            if let Err(e) = budget.value(0) {
                return Err(e);
            }
            let mut table = Table::new();
            let mut i: usize = 0;
            let ghost whole = value_of(json@, *old(budget));
            while i < map.len()
                invariant
                    i <= map@.len(),
                    json is Object,
                    *map == json->Object_0,
                    m == object_view(map@, map@.len()),
                    m.len() == map@.len(),
                    forall|j: int|
                        0 <= j < m.len() ==> #[trigger] m[j] == (map@[j].0@, json_view(map@[j].1)),
                    budget.wf(),
                    budget.depth > 0,
                    sorted(table@),
                    whole == value_of(json@, *old(budget)),
                    whole == members_in(m, i as nat, *budget, table@),
                decreases map.len() - i,
            {
                assert(m[i as int] == (map@[i as int].0@, json_view(map@[i as int].1)));
                if let Err(e) = budget.entry() {
                    return Err(e);
                }
                let name = map[i].0.as_str();
                let bytes = name.as_bytes();
                if let Err(e) = budget.value(bytes.len()) {
                    return Err(e);
                }
                proof {
                    lemma_value_depth(map@[i as int].1@, *budget);
                }
                let value = match read_json(&map[i].1, budget) {
                    Ok(v) => v,
                    Err(e) => return Err(e),
                };
                if let Value::Nil = value {
                    let mut s = "null is not a table value (key ".to_owned();
                    let q = quote(name);
                    s.append(q.as_str());
                    s.append(")");
                    return Err(CodecError { code: CodecError::UNSUPPORTED, message: s });
                }
                match table.insert(Key::Str(slice_to_vec(bytes)), value) {
                    Ok(_) => {},
                    Err(e) => {
                        assert(false);
                        return Err(e);
                    },
                }
                i += 1;
            }
            budget.leave();
            Ok(Value::Table(table))
        },
        Json::Text(s) => {
            let bytes = s.as_str().as_bytes();
            match budget.value(bytes.len()) {
                Err(e) => Err(e),
                Ok(_) => Ok(Value::Str(slice_to_vec(bytes))),
            }
        },
        scalar => {
            if let Err(e) = budget.value(0) {
                return Err(e);
            }
            match scalar {
                Json::Bool(b) => Ok(Value::Bool(*b)),
                Json::Int(i) => Ok(Value::Int(*i)),
                Json::Unsigned(u) => {
                    if *u <= i64::MAX as u64 {
                        Ok(Value::Int(*u as i64))
                    } else {
                        let mut m = "integer ".to_owned();
                        push_dec(&mut m, *u);
                        m.append(" does not fit 64 bits");
                        Err(CodecError { code: CodecError::NUMBER, message: m })
                    }
                },
                Json::Float(f) => match check_float(f) {
                    Ok(_) => Ok(Value::Float(*f)),
                    Err(e) => Err(e),
                },
                _ => Ok(Value::Nil),
            }
        },
    }
}

#[verifier::spinoff_prover]
#[verifier::rlimit(50)]
fn read_pairs(payload: &Json, budget: &mut Budget) -> (r: Result<Value, CodecError>)
    requires
        old(budget).wf(),
    ensures
        match (r, table_pairs(payload@, *old(budget))) {
            (Ok(v), Ok((n, b))) => v@ == n && *final(budget) == b && b.wf(),
            (Err(e), Err(v)) => e@ == v,
            _ => false,
        },
    decreases payload, 1nat,
{
    let pairs = match payload {
        Json::Array(a) => a,
        _ => {
            return Err(
                CodecError::new(
                    CodecError::SYNTAX,
                    "$table must hold an array of [key, value] pairs",
                ),
            );
        },
    };
    proof {
        lemma_array_view(pairs@, pairs@.len());
        lemma_table_depth(payload@, *old(budget));
    }
    let ghost a = array_view(pairs@, pairs@.len());
    if let Err(e) = budget.enter() {
        return Err(e);
    }
    if let Err(e) = budget.value(0) {
        return Err(e);
    }
    let mut table = Table::new();
    let mut i: usize = 0;
    let ghost whole = table_pairs(payload@, *old(budget));
    while i < pairs.len()
        invariant
            i <= pairs@.len(),
            payload is Array,
            *pairs == payload->Array_0,
            a == array_view(pairs@, pairs@.len()),
            a.len() == pairs@.len(),
            forall|j: int| 0 <= j < a.len() ==> #[trigger] a[j] == json_view(pairs@[j]),
            budget.wf(),
            budget.depth > 0,
            sorted(table@),
            whole == table_pairs(payload@, *old(budget)),
            whole == pairs_in(a, i as nat, *budget, table@),
        decreases pairs.len() - i,
    {
        assert(a[i as int] == json_view(pairs@[i as int]));
        let kv = match &pairs[i] {
            Json::Array(kv) => kv,
            _ => {
                return Err(
                    CodecError::new(
                        CodecError::SYNTAX,
                        "$table entries must be [key, value] arrays",
                    ),
                );
            },
        };
        proof {
            lemma_array_view(kv@, kv@.len());
        }
        if kv.len() != 2 {
            return Err(
                CodecError::new(
                    CodecError::SYNTAX,
                    "$table entries must have exactly a key and a value",
                ),
            );
        }
        let ghost w = array_view(kv@, kv@.len());
        assert(w[0] == json_view(kv@[0]) && w[1] == json_view(kv@[1]));
        if let Err(e) = budget.entry() {
            return Err(e);
        }
        proof {
            lemma_value_depth(kv@[0]@, *budget);
        }
        let k = match read_json(&kv[0], budget) {
            Ok(v) => v,
            Err(e) => return Err(e),
        };
        let key = match Key::from_value(k) {
            Ok(k) => k,
            Err(e) => return Err(e),
        };
        proof {
            lemma_value_depth(kv@[1]@, *budget);
        }
        let value = match read_json(&kv[1], budget) {
            Ok(v) => v,
            Err(e) => return Err(e),
        };
        if let Value::Nil = value {
            return Err(CodecError::new(CodecError::UNSUPPORTED, "null is not a table value"));
        }
        match table.insert(key, value) {
            Ok(Some(_)) => {
                return Err(CodecError::new(CodecError::KEY, "duplicate key in $table"));
            },
            Ok(None) => {},
            Err(e) => {
                assert(false);
                return Err(e);
            },
        }
        i += 1;
    }
    budget.leave();
    Ok(Value::Table(table))
}

/// The value of a JSON document.
pub open spec fn from_json_view(j: JsonView) -> Result<Node, ErrorView> {
    match value_of(j, no_budget_spent()) {
        Ok((n, _)) => Ok(n),
        Err(e) => Err(e),
    }
}

pub fn from_json(json: &Json) -> (r: Result<Value, CodecError>)
    ensures
        match (r, from_json_view(json@)) {
            (Ok(v), Ok(n)) => v@ == n,
            (Err(e), Err(v)) => e@ == v,
            _ => false,
        },
{
    let mut budget = Budget::default();
    read_json(json, &mut budget)
}

} // verus!
