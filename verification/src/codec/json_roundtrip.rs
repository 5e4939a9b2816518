//! What the JSON form carries.

use vstd::prelude::*;
use vstd::string::*;
use vstd::utf8::*;
use super::base64::{encoded, law_base64_reads_back, lemma_encoded_ascii};
use super::json::{
    from_json_view, json_of, key_json, member_key, members_in, members_of, pairs_in, pairs_of,
    plain_table, string_json, to_json_view, value_of, JsonView,
};
use super::roundtrip::{
    canonical, canonical_from, cost_from, cost_of, fits, key_cost, lemma_costs, lemma_costs_from,
    lemma_in_order,
};
use super::value::{key_node, sorted, KeyView, Node};
use super::writing::{
    count_from, count_of, depth_from, depth_of, left, lemma_counts, lemma_counts_from,
};
use super::{no_budget_spent, Budget, ErrorView, MAX_DECODED, MAX_DEPTH, MAX_ENTRIES, VALUE_COST};

verus! {

/// A budget once a value was read.
pub open spec fn spent(b: Budget, entries: int, cost: int) -> Budget {
    Budget {
        entries: (b.entries + entries) as usize,
        decoded: (b.decoded + cost) as usize,
        ..b
    }
}

proof fn lemma_base64_text(b: Seq<u8>)
    ensures
        encode_utf8(decode_utf8(encoded(b))) == encoded(b),
{
    lemma_encoded_ascii(b);
    let e = encoded(b);
    let cs = Seq::new(e.len(), |i: int| e[i] as char);
    assert(is_ascii_chars(cs)) by {
        assert forall|k: int| 0 <= k < cs.len() implies '\0' <= #[trigger] cs[k] <= '\u{7f}' by {
            assert(e[k] <= 122);
        }
    }
    is_ascii_chars_encode_utf8(cs);
    assert(encode_utf8(cs) =~= e);
    encode_utf8_valid_utf8(cs);
    decode_utf8_encode_utf8(e);
}

proof fn lemma_tags()
    ensures
        "$bytes"@.len() > 0 && "$bytes"@[0] == '$',
        "$blob"@.len() > 0 && "$blob"@[0] == '$',
        "$table"@.len() > 0 && "$table"@[0] == '$',
        "$bytes"@ != "$blob"@,
        "$bytes"@ != "$table"@,
        "$blob"@ != "$table"@,
{
    reveal_strlit("$bytes");
    reveal_strlit("$blob");
    reveal_strlit("$table");
    assert("$bytes"@[2] == 'y');
    assert("$blob"@[2] == 'l');
    assert("$table"@[2] == 'a');
}

proof fn lemma_string_back(s: Seq<u8>, b: Budget)
    requires
        b.decoded + VALUE_COST + s.len() <= MAX_DECODED,
    ensures
        value_of(string_json(s), b) == Ok::<(Node, Budget), ErrorView>(
            (Node::Str(s), spent(b, 0, VALUE_COST + s.len())),
        ),
{
    lemma_tags();
    if valid_utf8(s) {
        decode_utf8_encode_utf8(s);
    } else {
        lemma_base64_text(s);
        law_base64_reads_back(s);
    }
}

proof fn lemma_key_back(k: KeyView, b: Budget)
    requires
        k matches KeyView::Float(f) ==> super::number::finite(f.bits),
        b.decoded + key_cost(k) <= MAX_DECODED,
    ensures
        value_of(key_json(k), b) == Ok::<(Node, Budget), ErrorView>(
            (key_node(k), spent(b, 0, key_cost(k))),
        ),
{
    if let KeyView::Str(s) = k {
        lemma_string_back(s, b);
    }
}

/// What has a JSON form is within the limits.
proof fn lemma_json_within(n: Node, b: Budget)
    requires
        b.wf(),
    ensures
        json_of(n, b) matches Ok((j, c)) ==> {
            &&& b.entries + count_of(n) <= MAX_ENTRIES
            &&& b.depth + depth_of(n) <= MAX_DEPTH
            &&& c == spent(b, count_of(n), 0)
        },
    decreases n, 0nat,
{
    lemma_counts(n);
    if let Node::Table(t) = n {
        if let Ok(c) = b.with_table() {
            lemma_counts_from(t, 0);
            lemma_members_within(t, 0, c, seq![]);
            lemma_pairs_within(t, 0, c, seq![]);
        }
    }
}

proof fn lemma_members_within(
    t: Seq<(KeyView, Node)>,
    i: nat,
    b: Budget,
    have: Seq<(Seq<char>, JsonView)>,
)
    requires
        b.wf(),
    ensures
        members_of(t, i, b, have) matches Ok((m, c)) ==> {
            &&& b.entries + count_from(t, i) <= MAX_ENTRIES
            &&& b.depth + depth_from(t, i) <= MAX_DEPTH
            &&& c == spent(b, count_from(t, i), 0)
            &&& m.len() == have.len() + (if i < t.len() {
                t.len() - i
            } else {
                0
            })
            &&& m.take(have.len() as int) == have
        },
    decreases t, t.len() - i,
{
    lemma_counts_from(t, i);
    if i < t.len() {
        let v = t[i as int].1;
        lemma_counts(v);
        lemma_counts_from(t, (i + 1) as nat);
        if let Ok(c) = b.with_entry() {
            lemma_json_within(v, c);
            if let Ok((j, d)) = json_of(v, c) {
                let more = have.push((decode_utf8(t[i as int].0->Str_0), j));
                lemma_members_within(t, (i + 1) as nat, d, more);
                if let Ok((m, f)) = members_of(t, (i + 1) as nat, d, more) {
                    assert(m.take(have.len() as int) =~= m.take(more.len() as int).take(
                        have.len() as int,
                    ));
                    assert(more.take(have.len() as int) =~= have);
                }
            }
        }
    } else {
        assert(have.take(have.len() as int) =~= have);
    }
}

proof fn lemma_pairs_within(t: Seq<(KeyView, Node)>, i: nat, b: Budget, have: Seq<JsonView>)
    requires
        b.wf(),
    ensures
        pairs_of(t, i, b, have) matches Ok((m, c)) ==> {
            &&& b.entries + count_from(t, i) <= MAX_ENTRIES
            &&& b.depth + depth_from(t, i) <= MAX_DEPTH
            &&& c == spent(b, count_from(t, i), 0)
            &&& m.len() == have.len() + (if i < t.len() {
                t.len() - i
            } else {
                0
            })
            &&& m.take(have.len() as int) == have
        },
    decreases t, t.len() - i,
{
    lemma_counts_from(t, i);
    if i < t.len() {
        let v = t[i as int].1;
        lemma_counts(v);
        lemma_counts_from(t, (i + 1) as nat);
        if let Ok(c) = b.with_entry() {
            lemma_json_within(v, c);
            if let Ok((j, d)) = json_of(v, c) {
                let more = have.push(JsonView::Array(seq![key_json(t[i as int].0), j]));
                lemma_pairs_within(t, (i + 1) as nat, d, more);
                if let Ok((m, f)) = pairs_of(t, (i + 1) as nat, d, more) {
                    assert(m.take(have.len() as int) =~= m.take(more.len() as int).take(
                        have.len() as int,
                    ));
                    assert(more.take(have.len() as int) =~= have);
                }
            }
        }
    } else {
        assert(have.take(have.len() as int) =~= have);
    }
}

/// A value reads back from its JSON form.
proof fn lemma_json_back(n: Node, a: Budget, b: Budget)
    requires
        canonical(n),
        a.wf(),
        json_of(n, a) is Ok,
        n is Nil || no_nil(n),
        fits(b, depth_of(n), count_of(n), cost_of(n)),
    ensures
        value_of(json_of(n, a)->Ok_0.0, b) == Ok::<(Node, Budget), ErrorView>(
            (n, spent(b, count_of(n), cost_of(n))),
        ),
    decreases n, 0nat,
{
    lemma_tags();
    match n {
        Node::Str(s) => {
            lemma_string_back(s, b);
        },
        Node::Blob(s) => {
            lemma_base64_text(s);
            law_base64_reads_back(s);
        },
        Node::Table(t) => {
            lemma_counts_from(t, 0);
            lemma_costs_from(t, 0);
            let c = a.with_table()->Ok_0;
            let d = Budget {
                depth: (b.depth + 1) as usize,
                decoded: (b.decoded + VALUE_COST) as usize,
                ..b
            };
            assert(t.take(0) =~= seq![]);
            if plain_table(t) {
                lemma_members_within(t, 0, c, seq![]);
                lemma_members_back(t, 0, c, seq![], d);
                let m = members_of(t, 0, c, seq![])->Ok_0.0;
                if m.len() == 1 {
                    lemma_first_member(t, c);
                }
            } else {
                lemma_pairs_within(t, 0, c, seq![]);
                lemma_pairs_back(t, 0, c, seq![], d);
            }
        },
        _ => {},
    }
}

/// No table value is nil.
pub open spec fn no_nil(n: Node) -> bool
    decreases n, 0nat,
{
    match n {
        Node::Table(t) => no_nil_from(t, 0),
        _ => true,
    }
}

pub open spec fn no_nil_from(t: Seq<(KeyView, Node)>, i: nat) -> bool
    decreases t, t.len() - i,
{
    i >= t.len() || (t[i as int].1 !is Nil && no_nil(t[i as int].1) && no_nil_from(
        t,
        (i + 1) as nat,
    ))
}

proof fn lemma_first_member(t: Seq<(KeyView, Node)>, b: Budget)
    requires
        t.len() == 1,
        plain_table(t),
        b.wf(),
        members_of(t, 0, b, seq![]) is Ok,
    ensures
        ({
            let m = members_of(t, 0, b, seq![])->Ok_0.0;
            m.len() == 1 && !(m[0].0.len() > 0 && m[0].0[0] == '$')
        }),
{
    let c = b.with_entry()->Ok_0;
    lemma_json_within(t[0].1, c);
    let (j, d) = json_of(t[0].1, c)->Ok_0;
    let have = Seq::<(Seq<char>, JsonView)>::empty();
    let more = have.push((decode_utf8(t[0].0->Str_0), j));
    assert(member_key(t[0].0));
    assert(members_of(t, 1, d, more) == Ok::<(Seq<(Seq<char>, JsonView)>, Budget), ErrorView>(
        (more, d),
    ));
}

proof fn lemma_members_back(
    t: Seq<(KeyView, Node)>,
    i: nat,
    a: Budget,
    have: Seq<(Seq<char>, JsonView)>,
    b: Budget,
)
    requires
        i <= t.len(),
        have.len() == i,
        a.wf(),
        members_of(t, i, a, have) is Ok,
        plain_table(t),
        sorted(t),
        canonical_from(t, i),
        no_nil_from(t, i),
        b.depth > 0,
        fits(b, depth_from(t, i), count_from(t, i), cost_from(t, i)),
    ensures
        members_in(members_of(t, i, a, have)->Ok_0.0, i, b, t.take(i as int)) == Ok::<
            (Node, Budget),
            ErrorView,
        >((Node::Table(t), left(spent(b, count_from(t, i), cost_from(t, i))))),
    decreases t, t.len() - i,
{
    lemma_members_within(t, i, a, have);
    if i < t.len() {
        let v = t[i as int].1;
        let s = t[i as int].0->Str_0;
        assert(member_key(t[i as int].0));
        decode_utf8_encode_utf8(s);
        let name = decode_utf8(s);
        lemma_counts(v);
        lemma_counts_from(t, (i + 1) as nat);
        lemma_costs(v);
        lemma_costs_from(t, (i + 1) as nat);
        let c = a.with_entry()->Ok_0;
        lemma_json_within(v, c);
        let (j, d) = json_of(v, c)->Ok_0;
        let more = have.push((name, j));
        lemma_members_within(t, (i + 1) as nat, d, more);
        let m = members_of(t, i, a, have)->Ok_0.0;
        assert(m[i as int] == m.take(more.len() as int)[i as int]);
        assert(m[i as int] == (name, j));
        let b1 = b.with_entry()->Ok_0;
        let b2 = b1.with_value(s.len() as int)->Ok_0;
        lemma_json_back(v, c, b2);
        lemma_in_order(t, i as int);
        let b3 = spent(b2, count_of(v), cost_of(v));
        lemma_members_back(t, (i + 1) as nat, d, more, b3);
    } else {
        assert(t.take(i as int) =~= t);
    }
}

#[verifier::spinoff_prover]
#[verifier::rlimit(80)]
proof fn lemma_pairs_back(
    t: Seq<(KeyView, Node)>,
    i: nat,
    a: Budget,
    have: Seq<JsonView>,
    b: Budget,
)
    requires
        i <= t.len(),
        have.len() == i,
        a.wf(),
        pairs_of(t, i, a, have) is Ok,
        sorted(t),
        canonical_from(t, i),
        no_nil_from(t, i),
        b.depth > 0,
        fits(b, depth_from(t, i), count_from(t, i), cost_from(t, i)),
    ensures
        pairs_in(pairs_of(t, i, a, have)->Ok_0.0, i, b, t.take(i as int)) == Ok::<
            (Node, Budget),
            ErrorView,
        >((Node::Table(t), left(spent(b, count_from(t, i), cost_from(t, i))))),
    decreases t, t.len() - i,
{
    lemma_pairs_within(t, i, a, have);
    if i < t.len() {
        let k = t[i as int].0;
        let v = t[i as int].1;
        lemma_counts(v);
        lemma_counts_from(t, (i + 1) as nat);
        lemma_costs(v);
        lemma_costs_from(t, (i + 1) as nat);
        let c = a.with_entry()->Ok_0;
        lemma_json_within(v, c);
        let (j, d) = json_of(v, c)->Ok_0;
        let pair = JsonView::Array(seq![key_json(k), j]);
        let more = have.push(pair);
        lemma_pairs_within(t, (i + 1) as nat, d, more);
        let m = pairs_of(t, i, a, have)->Ok_0.0;
        assert(m[i as int] == m.take(more.len() as int)[i as int]);
        assert(m[i as int] == pair);
        let b1 = b.with_entry()->Ok_0;
        lemma_key_back(k, b1);
        let b2 = spent(b1, 0, key_cost(k));
        lemma_json_back(v, c, b2);
        lemma_in_order(t, i as int);
        let b3 = spent(b2, count_of(v), cost_of(v));
        lemma_pairs_back(t, (i + 1) as nat, d, more, b3);
    } else {
        assert(t.take(i as int) =~= t);
    }
}

/// The JSON form carries every value: what [`to_json`] gives, [`from_json`]
/// turns back into the same value, for every value in canonical form that
/// has a JSON form, holds no nil in a table, and whose decoded size is
/// within the limit.
///
/// [`to_json`]: super::json::to_json
/// [`from_json`]: super::json::from_json
pub proof fn law_json_reads_back(n: Node)
    requires
        canonical(n),
        no_nil(n),
        to_json_view(n) is Ok,
        cost_of(n) <= MAX_DECODED,
    ensures
        from_json_view(to_json_view(n)->Ok_0) == Ok::<Node, ErrorView>(n),
{
    let b = no_budget_spent();
    lemma_json_within(n, b);
    lemma_counts(n);
    lemma_json_back(n, b, b);
}

} // verus!
