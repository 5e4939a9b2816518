//! What the helpers for text do, said of whole texts: numbers, lines, words
//! and parts.

use vstd::prelude::*;
use crate::save::{fnv, FNV_START};
use crate::text::{
    dec, dec_int, hex, hex_digit, is_space, lemma_dec_reads, lemma_find, lemma_find_space, lines,
    parse_signed, parse_unsigned, split, trim, trim_end, trim_start, words,
};

verus! {

proof fn lemma_dec_starts(n: nat)
    ensures
        dec(n).len() > 0,
        '0' <= dec(n)[0] <= '9',
        n > 0 ==> dec(n)[0] != '0',
    decreases n,
{
    if n >= 10 {
        lemma_dec_starts(n / 10);
    }
}

/// A number that is written out reads back, with a sign or without, up to
/// the largest that is accepted and no further; it has no leading zero.
pub proof fn law_a_number_reads_back(n: nat, i: int, max: nat)
    ensures
        parse_unsigned(dec(n), max) == (if n <= max {
            Some(n)
        } else {
            None
        }),
        -max - 1 <= i <= max ==> parse_signed(dec_int(i), max) == Some(i),
        n > 0 ==> dec(n)[0] != '0',
{
    lemma_dec_starts(n);
    lemma_dec_reads(n, n);
    if -max - 1 <= i < 0 {
        let m = (-i) as nat;
        lemma_dec_reads(m, m);
        lemma_dec_starts(m);
        assert(dec_int(i).skip(1) =~= dec(m));
        assert(dec_int(i)[0] == '-');
    } else if 0 <= i <= max {
        lemma_dec_reads(i as nat, max);
        lemma_dec_starts(i as nat);
    }
}

/// A hash is spelled by its lower-case hexadecimal digits, the most
/// significant first.
pub proof fn law_hexadecimal_is_by_sixteens(n: nat, width: nat)
    ensures
        hex(n, width).len() == width,
        hex(n, width + 1) == hex(n / 16, width).push(
            seq!['0', '1', '2', '3', '4', '5', '6', '7', '8', '9', 'a', 'b', 'c', 'd', 'e', 'f'][(n
                % 16) as int],
        ),
    decreases width,
{
    if width > 0 {
        law_hexadecimal_is_by_sixteens(n / 16, (width - 1) as nat);
    }
    let d = n % 16;
    assert(hex_digit(d) == seq![
        '0',
        '1',
        '2',
        '3',
        '4',
        '5',
        '6',
        '7',
        '8',
        '9',
        'a',
        'b',
        'c',
        'd',
        'e',
        'f',
    ][d as int]);
}

/// The hash takes the bytes in turn, from the first: each is mixed in
/// before the product.
pub proof fn law_the_hash_takes_byte_after_byte(h: u64, b: Seq<u8>, c: u8)
    ensures
        fnv(h, seq![]) == h,
        fnv(h, b.push(c)) == (fnv(h, b) ^ c as u64) * 0x100_0000_01b3
            % 0x1_0000_0000_0000_0000,
        FNV_START == 0xcbf2_9ce4_8422_2325,
    decreases b.len(),
{
    if b.len() > 0 {
        let g = ((h ^ b[0] as u64) * 0x100_0000_01b3 % 0x1_0000_0000_0000_0000) as u64;
        law_the_hash_takes_byte_after_byte(g, b.skip(1), c);
        assert(b.push(c).skip(1) =~= b.skip(1).push(c));
        assert(b.push(c)[0] == b[0]);
    } else {
        assert(b =~= seq![]);
        let one = b.push(c);
        assert(one[0] == c);
        assert(one.skip(1) =~= seq![]);
        reveal_with_fuel(fnv, 2);
    }
}

/// Trimming takes the white space at both ends and nothing else: what it
/// takes in front and behind is white space, and what is left neither
/// starts nor ends with any.
pub proof fn law_trimming_takes_white_space(s: Seq<char>, i: int)
    ensures
        ({
            let t = trim_start(s);
            let k = s.len() - t.len();
            &&& t.len() <= s.len() && t == s.skip(k)
            &&& 0 <= i < k ==> is_space(s[i])
            &&& t.len() > 0 ==> !is_space(t[0])
        }),
        ({
            let t = trim_end(s);
            &&& t.len() <= s.len() && t == s.take(t.len() as int)
            &&& t.len() <= i < s.len() ==> is_space(s[i])
            &&& t.len() > 0 ==> !is_space(t.last())
        }),
        trim(s) == trim_end(trim_start(s)),
    decreases s.len(),
{
    if s.len() > 0 {
        if is_space(s[0]) {
            law_trimming_takes_white_space(s.skip(1), i - 1);
            let t = trim_start(s);
            assert(t =~= s.skip(s.len() - t.len()));
        } else {
            assert(s.skip(0) =~= s);
        }
        if is_space(s.last()) {
            law_trimming_takes_white_space(s.drop_last(), i);
            let t = trim_end(s);
            assert(t =~= s.take(t.len() as int));
        } else {
            assert(s.take(s.len() as int) =~= s);
        }
    } else {
        assert(s.skip(0) =~= s);
        assert(s.take(0) =~= s);
    }
}

/// White space is the blank, the tab, the line ends and the other blanks of
/// Unicode; a letter or a digit is none.
pub proof fn law_letters_are_no_white_space(c: char)
    ensures
        c == ' ' || c == '\t' || c == '\n' || c == '\r' ==> is_space(c),
        '!' <= c <= '~' ==> !is_space(c),
{
}

/// Words are what stands between white space: white space in front of a
/// text adds none, and a run without any that white space or the end
/// follows is the first of them.
pub proof fn law_words_stand_between_white_space(w: Seq<char>, c: char, rest: Seq<char>)
    requires
        is_space(c),
        forall|i: int| 0 <= i < w.len() ==> !is_space(#[trigger] w[i]),
    ensures
        words(seq![]) == Seq::<Seq<char>>::empty(),
        words(seq![c] + rest) == words(rest),
        w.len() > 0 ==> words(w) == seq![w],
        w.len() > 0 ==> words(w + seq![c] + rest) == seq![w] + words(rest),
{
    let a = seq![c] + rest;
    assert(trim_start(seq![]) == Seq::<char>::empty());
    assert(a.skip(1) =~= rest);
    assert(trim_start(a) == trim_start(rest));
    if w.len() > 0 {
        assert(!is_space(w[0]));
        lemma_find_space(w, w.len() as int);
        assert(w.take(w.len() as int) =~= w);
        assert(w.skip(w.len() as int) =~= seq![]);
        assert(words(seq![]) == Seq::<Seq<char>>::empty());
        assert(words(w) == seq![w] + words(seq![]));
        assert(words(w) =~= seq![w]);
        let b = w + seq![c] + rest;
        assert(b[0] == w[0]);
        assert(b[w.len() as int] == c);
        assert forall|i: int| 0 <= i < w.len() implies !is_space(#[trigger] b[i]) by {
            assert(b[i] == w[i]);
        }
        lemma_find_space(b, w.len() as int);
        assert(b.take(w.len() as int) =~= w);
        assert(b.skip(w.len() as int) =~= a);
    }
}

/// Parts are what stands between the separators: a run without the
/// separator is a part, and a separator ends one.
pub proof fn law_parts_stand_between_separators(a: Seq<char>, c: char, rest: Seq<char>)
    requires
        forall|i: int| 0 <= i < a.len() ==> #[trigger] a[i] != c,
    ensures
        split(a, c) == seq![a],
        split(a + seq![c] + rest, c) == seq![a] + split(rest, c),
{
    lemma_find(a, c, a.len() as int);
    let b = a + seq![c] + rest;
    assert(b[a.len() as int] == c);
    assert forall|i: int| 0 <= i < a.len() implies #[trigger] b[i] != c by {
        assert(b[i] == a[i]);
    }
    lemma_find(b, c, a.len() as int);
    assert(b.take(a.len() as int) =~= a);
    assert(b.skip(a.len() as int + 1) =~= rest);
}

/// Lines are what line feeds end: a run without one is a line, with or
/// without a carriage return before its line feed, and a line feed at the
/// end of a text starts no line.
pub proof fn law_lines_are_ended_by_line_feeds(a: Seq<char>, rest: Seq<char>)
    requires
        forall|i: int| 0 <= i < a.len() ==> #[trigger] a[i] != '\n',
        a.len() > 0 ==> a.last() != '\r',
    ensures
        lines(seq![]) == Seq::<Seq<char>>::empty(),
        a.len() > 0 ==> lines(a) == seq![a],
        lines(a + seq!['\n'] + rest) == seq![a] + lines(rest),
        lines(a + seq!['\r', '\n'] + rest) == seq![a] + lines(rest),
{
    lemma_find(a, '\n', a.len() as int);
    let b = a + seq!['\n'] + rest;
    assert(b[a.len() as int] == '\n');
    assert forall|i: int| 0 <= i < a.len() implies #[trigger] b[i] != '\n' by {
        assert(b[i] == a[i]);
    }
    lemma_find(b, '\n', a.len() as int);
    assert(b.take(a.len() as int) =~= a);
    assert(b.skip(a.len() as int + 1) =~= rest);
    let d = a + seq!['\r', '\n'] + rest;
    let n = a.len() as int + 1;
    assert(d[n] == '\n');
    assert forall|i: int| 0 <= i < n implies #[trigger] d[i] != '\n' by {
        if i < a.len() {
            assert(d[i] == a[i]);
        } else {
            assert(d[i] == '\r');
        }
    }
    lemma_find(d, '\n', n);
    assert(d.take(n).drop_last() =~= a);
    assert(d.take(n).last() == '\r');
    assert(d.skip(n + 1) =~= rest);
}

} // verus!
