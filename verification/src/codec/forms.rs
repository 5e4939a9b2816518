//! How values look as text: words, numbers, strings, tables and blobs,
//! spelled out.

use vstd::prelude::*;
use vstd::arithmetic::div_mod::*;
use vstd::arithmetic::power2::*;
use vstd::utf8::*;
use super::base64::{encoded, letter, quad};
use super::json::{
    json_of, key_json, member_key, members_of, pairs_of, plain_table, JsonView,
};
use super::number::{finite, float_key, integer_value, scaled};
use super::value::{KeyView, Node};
use super::writing::{
    blob_word, bool_text, decimal, entries_text, escaped, integer_text, key_text, layout,
    string_tail, text_of, zeros,
};
use super::{Budget, ErrorView};
use crate::text::{dec, dec_int};

verus! {

/// The bytes of a text of ASCII characters.
pub open spec fn ascii_bytes(s: Seq<char>) -> Seq<u8> {
    Seq::new(s.len(), |i: int| s[i] as u8)
}

/// The words are `nil`, `true` and `false`.
pub proof fn law_words_are_spelled_out()
    ensures
        text_of(Node::Nil) == ascii_bytes("nil"@),
        text_of(Node::Bool(true)) == ascii_bytes("true"@),
        text_of(Node::Bool(false)) == ascii_bytes("false"@),
{
    reveal_strlit("nil");
    reveal_strlit("true");
    reveal_strlit("false");
    assert(text_of(Node::Nil) =~= ascii_bytes("nil"@));
    assert(bool_text(true) =~= ascii_bytes("true"@));
    assert(bool_text(false) =~= ascii_bytes("false"@));
}

proof fn lemma_decimal(n: nat)
    ensures
        decimal(n) == ascii_bytes(dec(n)),
    decreases n,
{
    if n >= 10 {
        lemma_decimal(n / 10);
    }
    assert(decimal(n) =~= ascii_bytes(dec(n)));
}

/// An integer is written in decimal, with a minus sign where it is
/// negative.
pub proof fn law_integers_are_decimal(i: i64)
    ensures
        text_of(Node::Int(i)) == ascii_bytes(dec_int(i as int)),
{
    if i < 0 {
        lemma_decimal((-i) as nat);
        assert(integer_text(i as int) =~= ascii_bytes(dec_int(i as int)));
    } else {
        lemma_decimal(i as nat);
    }
}

/// A number is laid out with a point: behind as many digits as its power of
/// ten says, filled up with zeros, where that is small, and behind its
/// first digit with the power after an `e` where it is not.
pub proof fn law_the_point_stands_where_the_power_says(d: Seq<u8>, exp: int, i: int)
    requires
        d.len() >= 1,
    ensures
        0 <= exp < 17 ==> ({
            let t = layout(d, exp);
            &&& t[exp + 1] == '.' as u8
            &&& 0 <= i <= exp ==> t[i] == (if i < d.len() {
                d[i]
            } else {
                '0' as u8
            })
            &&& exp + 1 < d.len() ==> t.skip(exp + 2) == d.skip(exp + 1)
            &&& exp + 1 >= d.len() ==> t.skip(exp + 2) == seq!['0' as u8]
        }),
        -5 <= exp < 0 ==> ({
            let t = layout(d, exp);
            &&& t.take(2) == seq!['0' as u8, '.' as u8]
            &&& 2 <= i < 1 - exp ==> t[i] == '0' as u8
            &&& t.skip(1 - exp) == d
        }),
        exp < -5 || exp >= 17 ==> layout(d, exp) == d.take(1) + (if d.len() > 1 {
            seq!['.' as u8] + d.skip(1)
        } else {
            seq![]
        }) + seq!['e' as u8] + integer_text(exp),
{
    let t = layout(d, exp);
    if 0 <= exp < 17 {
        if d.len() > exp + 1 {
            assert(t.skip(exp + 2) =~= d.skip(exp + 1));
        } else {
            let z = zeros(exp + 1 - d.len());
            assert(z.len() == exp + 1 - d.len());
            assert(t.skip(exp + 2) =~= seq!['0' as u8]);
        }
    } else if -5 <= exp < 0 {
        let z = zeros(-exp - 1);
        assert(z.len() == -exp - 1);
        assert(t.take(2) =~= seq!['0' as u8, '.' as u8]);
        assert(t.skip(1 - exp) =~= d);
    } else {
        assert(t =~= d.take(1) + (if d.len() > 1 {
            seq!['.' as u8] + d.skip(1)
        } else {
            seq![]
        }) + seq!['e' as u8] + integer_text(exp));
    }
}

/// Whether a byte stands for itself in a string.
pub open spec fn is_plain(b: u8) -> bool {
    ' ' as u8 <= b <= '~' as u8 && b != '"' as u8 && b != '\\' as u8
}

proof fn lemma_plain_tail(s: Seq<u8>)
    requires
        forall|i: int| 0 <= i < s.len() ==> is_plain(#[trigger] s[i]),
    ensures
        string_tail(s) == s + seq!['"' as u8],
    decreases s.len(),
{
    if s.len() > 0 {
        assert(is_plain(s[0]));
        let rest = s.skip(1);
        assert forall|i: int| 0 <= i < rest.len() implies is_plain(#[trigger] rest[i]) by {
            assert(rest[i] == s[i + 1]);
        }
        lemma_plain_tail(rest);
        assert(escaped(s[0]) + (rest + seq!['"' as u8]) =~= s + seq!['"' as u8]);
    } else {
        assert(string_tail(s) =~= s + seq!['"' as u8]);
    }
}

/// A string of plain characters stands between quotes as it is.
pub proof fn law_plain_strings_stand_between_quotes(s: Seq<u8>)
    requires
        forall|i: int| 0 <= i < s.len() ==> is_plain(#[trigger] s[i]),
    ensures
        text_of(Node::Str(s)) == seq!['"' as u8] + s + seq!['"' as u8],
{
    lemma_plain_tail(s);
    assert(seq!['"' as u8] + (s + seq!['"' as u8]) =~= seq!['"' as u8] + s + seq!['"' as u8]);
}

/// The hexadecimal digits in their order.
pub open spec fn hex_digits() -> Seq<char> {
    seq!['0', '1', '2', '3', '4', '5', '6', '7', '8', '9', 'a', 'b', 'c', 'd', 'e', 'f']
}

/// A line feed, a tab, a quote and a backslash have escapes of their own;
/// every other byte that is not plain is escaped by its two hexadecimal
/// digits.
pub proof fn law_other_bytes_are_escaped(b: u8)
    ensures
        is_plain(b) ==> escaped(b) == seq![b],
        b == 0x0a ==> escaped(b) == seq!['\\' as u8, 'n' as u8],
        b == 0x09 ==> escaped(b) == seq!['\\' as u8, 't' as u8],
        b == '"' as u8 || b == '\\' as u8 ==> escaped(b) == seq!['\\' as u8, b],
        !(is_plain(b) || b == 0x0a || b == 0x09 || b == '"' as u8 || b == '\\' as u8) ==> escaped(b)
            == seq![
            '\\' as u8,
            'x' as u8,
            hex_digits()[b as int / 16] as u8,
            hex_digits()[b as int % 16] as u8,
        ],
{
}

/// A table stands in braces, its entries in order with commas between them,
/// each a key, an equals sign and a value.
pub proof fn law_a_table_is_its_entries(k: KeyView, v: Node, l: KeyView, w: Node)
    ensures
        text_of(Node::Table(seq![])) == seq!['{' as u8, '}' as u8],
        text_of(Node::Table(seq![(k, v)])) == ascii_bytes(seq!['{', ' ']) + (key_text(k)
            + ascii_bytes(seq![' ', '=', ' ']) + text_of(v) + ascii_bytes(seq![' ', '}'])),
        text_of(Node::Table(seq![(k, v), (l, w)])) == ascii_bytes(seq!['{', ' ']) + (key_text(k)
            + ascii_bytes(seq![' ', '=', ' ']) + text_of(v) + (ascii_bytes(seq![',', ' ']) + (
        key_text(l) + ascii_bytes(seq![' ', '=', ' ']) + text_of(w) + ascii_bytes(
            seq![' ', '}'],
        )))),
{
    reveal_with_fuel(entries_text, 3);
    reveal_with_fuel(text_of, 3);
    assert(ascii_bytes(seq!['{', ' ']) =~= seq!['{' as u8, ' ' as u8]);
    assert(ascii_bytes(seq![' ', '}']) =~= seq![' ' as u8, '}' as u8]);
    assert(ascii_bytes(seq![',', ' ']) =~= seq![',' as u8, ' ' as u8]);
    assert(ascii_bytes(seq![' ', '=', ' ']) =~= seq![' ' as u8, '=' as u8, ' ' as u8]);
    let one = seq![(k, v)];
    assert(one.len() == 1 && one[0] == (k, v));
    assert(text_of(Node::Table(one)) == seq!['{' as u8, ' ' as u8] + entries_text(one, 0));
    let two = seq![(k, v), (l, w)];
    assert(two.len() == 2 && two[0] == (k, v) && two[1] == (l, w));
    assert(text_of(Node::Table(two)) == seq!['{' as u8, ' ' as u8] + entries_text(two, 0));
    assert(entries_text(two, 1) == key_text(l) + seq![' ' as u8, '=' as u8, ' ' as u8] + text_of(w)
        + seq![' ' as u8, '}' as u8]);
}

/// Six bits are a letter of the standard alphabet: the capitals, the small
/// letters, the digits, a plus and a slash.
pub proof fn law_six_bits_are_a_letter(n: int)
    requires
        0 <= n < 64,
    ensures
        n < 26 ==> letter(n) == 'A' as int + n,
        26 <= n < 52 ==> letter(n) == 'a' as int + n - 26,
        52 <= n < 62 ==> letter(n) == '0' as int + n - 52,
        n == 62 ==> letter(n) == '+' as int,
        n == 63 ==> letter(n) == '/' as int,
{
    reveal(letter);
}

proof fn lemma_sixes(x: u8, y: u8, z: u8)
    ensures
        ({
            let n = 0x1_0000 * x + 0x100 * y + z;
            &&& n / 0x4_0000 == x as int / 4
            &&& n / 0x1000 % 0x40 == x as int % 4 * 16 + y as int / 16
            &&& n / 0x40 % 0x40 == y as int % 16 * 4 + z as int / 64
            &&& n % 0x40 == z as int % 64
        }),
{
    let n = 0x1_0000 * x + 0x100 * y + z;
    let a = x as int / 4;
    let b = x as int % 4;
    let c = y as int / 16;
    let d = y as int % 16;
    let e = z as int / 64;
    let f = z as int % 64;
    assert(n == 0x4_0000 * a + 0x1_0000 * b + 0x1000 * c + 0x100 * d + 0x40 * e + f);
    lemma_fundamental_div_mod_converse(
        n,
        0x4_0000,
        a,
        0x1_0000 * b + 0x1000 * c + 0x100 * d + 0x40 * e + f,
    );
    lemma_fundamental_div_mod_converse(
        n,
        0x1000,
        0x40 * a + (16 * b + c),
        0x100 * d + 0x40 * e + f,
    );
    lemma_fundamental_div_mod_converse(0x40 * a + (16 * b + c), 0x40, a, 16 * b + c);
    let g = 0x40 * a + (16 * b + c);
    lemma_fundamental_div_mod_converse(n, 0x40, 0x40 * g + (4 * d + e), f);
    lemma_fundamental_div_mod_converse(0x40 * g + (4 * d + e), 0x40, g, 4 * d + e);
}

/// Three bytes are four letters, six bits each, the highest first; two
/// bytes are three letters and a pad, one byte is two and two.
pub proof fn law_three_bytes_are_four_letters(b: Seq<u8>)
    requires
        1 <= b.len() <= 3,
    ensures
        ({
            let b1 = if b.len() > 1 {
                b[1] as int
            } else {
                0
            };
            let b2 = if b.len() > 2 {
                b[2] as int
            } else {
                0
            };
            let n = 0x1_0000 * b[0] + 0x100 * b1 + b2;
            let q = encoded(b);
            &&& q.len() == 4
            &&& q[0] == letter(n / 0x4_0000)
            &&& q[1] == letter(n / 0x1000 % 0x40)
            &&& q[2] == (if b.len() > 1 {
                letter(n / 0x40 % 0x40)
            } else {
                '=' as u8
            })
            &&& q[3] == (if b.len() > 2 {
                letter(n % 0x40)
            } else {
                '=' as u8
            })
        }),
{
    assert(encoded(b) == quad(b));
    lemma_sixes(
        b[0],
        if b.len() > 1 {
            b[1]
        } else {
            0
        },
        if b.len() > 2 {
            b[2]
        } else {
            0
        },
    );
}

/// Longer runs go three bytes at a time.
pub proof fn law_base64_goes_by_threes(a: Seq<u8>, b: Seq<u8>)
    requires
        a.len() == 3,
        b.len() > 0,
    ensures
        encoded(a + b) == encoded(a) + encoded(b),
{
    assert((a + b).take(3) =~= a);
    assert((a + b).skip(3) =~= b);
}

/// A blob is the word and its base64 between quotes.
pub proof fn law_a_blob_is_its_base64(b: Seq<u8>)
    ensures
        text_of(Node::Blob(b)) == ascii_bytes("blob"@) + seq!['"' as u8] + encoded(b) + seq![
            '"' as u8,
        ],
{
    reveal_strlit("blob");
    assert(blob_word() =~= ascii_bytes("blob"@));
}

// ----- JSON -----------------------------------------------------------------------------------

/// A text is a text, and bytes that are none stand in base64 under
/// `$bytes`, a blob's under `$blob`; the other values without parts stand
/// for themselves.
pub proof fn law_json_keeps_the_kind(i: i64, x: bool, s: Seq<u8>, b: Budget)
    ensures
        json_of(Node::Nil, b) == Ok::<(JsonView, Budget), ErrorView>((JsonView::Null, b)),
        json_of(Node::Bool(x), b) == Ok::<(JsonView, Budget), ErrorView>((JsonView::Bool(x), b)),
        json_of(Node::Int(i), b) == Ok::<(JsonView, Budget), ErrorView>((JsonView::Int(i), b)),
        json_of(Node::Str(s), b) == Ok::<(JsonView, Budget), ErrorView>(
            (
                if valid_utf8(s) {
                    JsonView::Text(decode_utf8(s))
                } else {
                    JsonView::Object(seq![("$bytes"@, JsonView::Text(decode_utf8(encoded(s))))])
                },
                b,
            ),
        ),
        json_of(Node::Blob(s), b) == Ok::<(JsonView, Budget), ErrorView>(
            (JsonView::Object(seq![("$blob"@, JsonView::Text(decode_utf8(encoded(s))))]), b),
        ),
{
}

proof fn lemma_members(
    t: Seq<(KeyView, Node)>,
    i: nat,
    b: Budget,
    have: Seq<(Seq<char>, JsonView)>,
    k: int,
)
    requires
        have.len() == i,
        i <= t.len(),
        members_of(t, i, b, have) is Ok,
    ensures
        ({
            let m = members_of(t, i, b, have)->Ok_0.0;
            &&& m.len() == t.len()
            &&& 0 <= k < i ==> m[k] == have[k]
            &&& i <= k < t.len() ==> m[k].0 == decode_utf8(t[k].0->Str_0)
        }),
    decreases t.len() - i,
{
    if i < t.len() {
        let c = b.with_entry()->Ok_0;
        let r = json_of(t[i as int].1, c)->Ok_0;
        lemma_members(
            t,
            (i + 1) as nat,
            r.1,
            have.push((decode_utf8(t[i as int].0->Str_0), r.0)),
            k,
        );
    }
}

proof fn lemma_pairs(t: Seq<(KeyView, Node)>, i: nat, b: Budget, have: Seq<JsonView>, k: int)
    requires
        have.len() == i,
        i <= t.len(),
        pairs_of(t, i, b, have) is Ok,
    ensures
        ({
            let a = pairs_of(t, i, b, have)->Ok_0.0;
            &&& a.len() == t.len()
            &&& 0 <= k < i ==> a[k] == have[k]
            &&& i <= k < t.len() ==> (a[k] matches JsonView::Array(p) && p.len() == 2 && p[0]
                == key_json(t[k].0))
        }),
    decreases t.len() - i,
{
    if i < t.len() {
        let c = b.with_entry()->Ok_0;
        let r = json_of(t[i as int].1, c)->Ok_0;
        let pair = JsonView::Array(seq![key_json(t[i as int].0), r.0]);
        lemma_pairs(t, (i + 1) as nat, r.1, have.push(pair), k);
    }
}

/// A table whose keys are texts that do not begin with `$` is an object of
/// as many members under those keys, in order; any other is its pairs of
/// key and value under `$table`.
pub proof fn law_a_table_is_an_object_or_pairs(t: Seq<(KeyView, Node)>, b: Budget, k: int)
    requires
        json_of(Node::Table(t), b) is Ok,
        0 <= k < t.len(),
    ensures
        ({
            let j = json_of(Node::Table(t), b)->Ok_0.0;
            if forall|i: int| 0 <= i < t.len() ==> member_key((#[trigger] t[i]).0) {
                j matches JsonView::Object(m) && m.len() == t.len() && m[k].0 == decode_utf8(
                    t[k].0->Str_0,
                )
            } else {
                j matches JsonView::Object(m) && m.len() == 1 && m[0].0 == "$table"@ && (
                m[0].1 matches JsonView::Array(a) && a.len() == t.len() && (
                a[k] matches JsonView::Array(p) && p.len() == 2 && p[0] == key_json(t[k].0)))
            }
        }),
{
    let c = b.with_table()->Ok_0;
    if plain_table(t) {
        lemma_members(t, 0, c, seq![], k);
    } else {
        lemma_pairs(t, 0, c, seq![], k);
    }
}

// ----- floats ---------------------------------------------------------------------------------

/// A float stands for an integer exactly if its value is that integer's,
/// and then it is no key; one that is not finite is none either.
pub proof fn law_a_whole_float_is_no_key(bits: u64, n: int)
    ensures
        i64::MIN <= n <= i64::MAX ==> (integer_value(bits) == Some(n) <==> scaled(bits) == n * pow2(
            1074,
        )),
        float_key(bits) is None <==> finite(bits) && integer_value(bits) is None,
        integer_value(bits) matches Some(m) ==> i64::MIN <= m <= i64::MAX,
{
    let s = scaled(bits);
    let p = pow2(1074) as int;
    lemma_pow2_pos(1074);
    lemma_fundamental_div_mod(s, p);
    let q = s / p;
    assert(p * q == q * p) by (nonlinear_arith);
    if s == n * p {
        lemma_fundamental_div_mod_converse(s, p, n, 0);
    }
}

/// A float's value is its significand doubled as often as its exponent
/// says, and its sign: one step of the exponent doubles it, the fraction
/// counts from the leading bit that it stands behind, and the sign bit
/// negates it.
pub proof fn law_an_exponent_doubles(bits: u64)
    requires
        bits < 0x8000_0000_0000_0000,
        1 <= bits as int / 0x10_0000_0000_0000 <= 2045,
    ensures
        scaled((bits + 0x10_0000_0000_0000) as u64) == 2 * scaled(bits),
        scaled((bits + 0x8000_0000_0000_0000) as u64) == -scaled(bits),
        bits as int / 0x10_0000_0000_0000 == 1 ==> scaled(bits) == bits as int,
        scaled(0) == 0,
        finite(bits),
{
    let e = bits as int / 0x10_0000_0000_0000;
    let f = bits as int % 0x10_0000_0000_0000;
    let up = (bits + 0x10_0000_0000_0000) as u64;
    let neg = (bits + 0x8000_0000_0000_0000) as u64;
    lemma_fundamental_div_mod_converse(up as int, 0x10_0000_0000_0000, e + 1, f);
    lemma_fundamental_div_mod_converse(neg as int, 0x10_0000_0000_0000, e + 2048, f);
    lemma_small_mod(e as nat, 2048);
    lemma_small_mod((e + 1) as nat, 2048);
    lemma_fundamental_div_mod_converse(e + 2048, 2048, 1, e);
    lemma_pow2_unfold(e as nat);
    lemma2_to64();
    let m = f + 0x10_0000_0000_0000;
    let p = pow2((e - 1) as nat) as int;
    assert(m * (2 * p) == 2 * (m * p)) by (nonlinear_arith);
    assert(0 * pow2(0) == 0);
    if e == 1 {
        assert(p == 1);
        assert(m * p == m) by (nonlinear_arith)
            requires
                p == 1,
        ;
        assert(bits as int == m);
    }
}

} // verus!
