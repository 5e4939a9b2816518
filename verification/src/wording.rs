//! How command lines, environment blocks and the tables of the reference
//! are worded.

use vstd::prelude::*;
use crate::apidoc::{
    joined, row_of, rows_upto, table_upto, with_sentence, Binding, GroupKind, Sig,
};
use crate::sandbox::{escaped, quoted_arg, slashes, units, wide_of};

verus! {

// ----- command lines --------------------------------------------------------------------------

/// Whether a text has no backslash and no quote.
pub open spec fn is_simple(a: Seq<char>) -> bool {
    forall|i: int| 0 <= i < a.len() ==> #[trigger] a[i] != '\\' && a[i] != '"'
}

proof fn lemma_simple(a: Seq<char>, b: Seq<char>)
    requires
        is_simple(a),
    ensures
        escaped(a + b, 0) == a + escaped(b, 0),
    decreases a.len(),
{
    if a.len() == 0 {
        assert(a + b =~= b);
        assert(a + escaped(b, 0) =~= escaped(b, 0));
    } else {
        let s = a + b;
        let rest = a.skip(1);
        assert(s[0] == a[0]);
        assert(s.skip(1) =~= rest + b);
        assert forall|i: int| 0 <= i < rest.len() implies #[trigger] rest[i] != '\\' && rest[i]
            != '"' by {
            assert(rest[i] == a[i + 1]);
        }
        lemma_simple(rest, b);
        assert(slashes(0) + seq![a[0]] + (rest + escaped(b, 0)) =~= a + escaped(b, 0));
    }
}

/// An argument without blanks and quotes stands as it is. One with a blank
/// stands between quotes, and a quote inside them behind a backslash.
pub proof fn law_arguments_are_quoted_where_they_must_be(a: Seq<char>, b: Seq<char>)
    requires
        is_simple(a),
        is_simple(b),
    ensures
        a.len() > 0 && (forall|i: int|
            0 <= i < a.len() ==> #[trigger] a[i] != ' ' && a[i] != '\t') ==> quoted_arg(a) == a,
        quoted_arg(a + seq![' '] + b) == seq!['"'] + (a + seq![' '] + b) + seq!['"'],
        quoted_arg(a + seq!['"'] + b) == seq!['"'] + (a + seq!['\\', '"'] + b) + seq!['"'],
        quoted_arg(seq![]) == seq!['"', '"'],
{
    let none = Seq::<char>::empty();
    assert(escaped(none, 0) =~= none);
    lemma_simple(b, none);
    assert(b + none =~= b);
    let s = a + seq![' '] + b;
    assert(s[a.len() as int] == ' ');
    assert(is_simple(seq![' ']));
    lemma_simple(a, seq![' '] + b);
    lemma_simple(seq![' '], b);
    assert(s =~= a + (seq![' '] + b));
    assert(escaped(s, 0) =~= s);
    let q = a + seq!['"'] + b;
    let tail = seq!['"'] + b;
    assert(q[a.len() as int] == '"');
    lemma_simple(a, tail);
    assert(q =~= a + tail);
    assert(tail[0] == '"');
    assert(tail.skip(1) =~= b);
    assert(slashes(1) =~= seq!['\\']);
    assert(escaped(tail, 0) =~= seq!['\\', '"'] + b);
    assert(escaped(q, 0) =~= a + seq!['\\', '"'] + b);
    assert(quoted_arg(none) =~= seq!['"', '"']);
}

/// A text in UTF-16 goes character by character: one unit each, or two that
/// together spell what is beyond the first 65536.
pub proof fn law_wide_texts_go_character_by_character(s: Seq<char>, c: char)
    ensures
        wide_of(seq![]) == Seq::<u16>::empty(),
        wide_of(s.push(c)) == wide_of(s) + units(c),
        (c as u32) < 0x1_0000 ==> units(c) == seq![c as u16],
        (c as u32) >= 0x1_0000 ==> ({
            let u = units(c);
            &&& u.len() == 2
            &&& 0xd800 <= u[0] < 0xdc00 && 0xdc00 <= u[1] < 0xe000
            &&& 0x1_0000 + (u[0] - 0xd800) * 0x400 + (u[1] - 0xdc00) == c as u32
        }),
{
    assert(s.push(c).drop_last() =~= s);
    let v = c as u32 - 0x1_0000;
    if v >= 0 {
        vstd::arithmetic::div_mod::lemma_fundamental_div_mod(v, 0x400);
    }
}

// ----- the reference --------------------------------------------------------------------------

/// A signature has its row in one table: that of its own group, or of its
/// binding's where it has none.
pub proof fn law_a_signature_stands_in_its_group(b: Binding, s: Sig, group: usize, kind: GroupKind)
    ensures
        row_of(b, s, group, kind).len() > 0 <==> group == (match s.group {
            Some(g) => g,
            None => b.group,
        }),
{
    reveal_strlit("| `");
}

/// Rows stand in the order of the bindings, and within one in that of its
/// signatures.
pub proof fn law_rows_stand_in_order(
    inv: Seq<Binding>,
    b: Binding,
    n: int,
    group: usize,
    kind: GroupKind,
)
    requires
        0 <= n < inv.len(),
        0 <= n < b.sigs@.len(),
    ensures
        table_upto(inv, 0, group, kind) == Seq::<char>::empty(),
        rows_upto(b, 0, group, kind) == Seq::<char>::empty(),
        table_upto(inv, n + 1, group, kind) == table_upto(inv, n, group, kind) + rows_upto(
            inv[n],
            inv[n].sigs@.len() as int,
            group,
            kind,
        ),
        rows_upto(b, n + 1, group, kind) == rows_upto(b, n, group, kind) + row_of(
            b,
            b.sigs@[n],
            group,
            kind,
        ),
{
}

/// Sentences stand behind each other with a blank between them, and one
/// that is empty adds nothing.
pub proof fn law_sentences_stand_behind_each_other(a: Seq<char>, b: Seq<char>)
    ensures
        with_sentence(a, seq![]) == a,
        with_sentence(seq![], b) == b,
        a.len() > 0 && b.len() > 0 ==> with_sentence(a, b) == a + seq![' '] + b,
{
    reveal_strlit(" ");
    assert(" "@ =~= seq![' ']);
    if b.len() == 0 {
        assert(b =~= seq![]);
    }
}

/// Texts are joined with the separator between each two and none at the
/// ends.
pub proof fn law_separators_stand_between(v: Seq<Seq<char>>, x: Seq<char>, between: Seq<char>)
    ensures
        joined(seq![], between) == Seq::<char>::empty(),
        joined(seq![x], between) == x,
        v.len() > 0 ==> joined(v.push(x), between) == joined(v, between) + between + x,
{
    assert(v.push(x).drop_last() =~= v);
}

} // verus!
