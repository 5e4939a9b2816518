//! Text as sequences of characters: how the library's specifications
//! speak of strings, and the executable helpers that meet them.

use vstd::prelude::*;
use vstd::string::*;
use vstd::utf8::*;

verus! {

broadcast use vstd::string::group_string_axioms;

/// `String::push` appends one character.
pub assume_specification[ String::push ](s: &mut String, c: char)
    ensures
        final(s)@ == old(s)@.push(c),
;

/// `String::from_utf8` accepts exactly the byte sequences that are valid
/// UTF-8 and hands back the string that they encode.
#[verifier::external_body]
pub(crate) fn string_from_utf8(bytes: Vec<u8>) -> (r: Option<String>)
    ensures
        r is Some <==> valid_utf8(bytes@),
        r matches Some(s) ==> encode_utf8(s@) == bytes@,
{
    String::from_utf8(bytes).ok()
}

/// The text that `{:?}` gives for a string.
pub uninterp spec fn quoted(s: Seq<char>) -> Seq<char>;

/// `format!` with `{:?}`: the string in double quotes, escaped as
/// `str::escape_debug` escapes it. The escaping table is not stated.
#[verifier::external_body]
pub(crate) fn quote(s: &str) -> (r: String)
    ensures
        r@ == quoted(s@),
{
    format!("{:?}", s)
}

/// The character of one decimal digit.
pub open spec fn digit(d: nat) -> char {
    (48 + d) as char
}

/// `n` in decimal, without leading zeros.
pub open spec fn dec(n: nat) -> Seq<char>
    decreases n,
{
    if n < 10 {
        seq![digit(n)]
    } else {
        dec(n / 10).push(digit(n % 10))
    }
}

/// `i` in decimal, with a minus sign when negative.
pub open spec fn dec_int(i: int) -> Seq<char> {
    if i < 0 {
        seq!['-'] + dec((-i) as nat)
    } else {
        dec(i as nat)
    }
}

/// The character of one lower-case hexadecimal digit.
pub open spec fn hex_digit(d: nat) -> char {
    if d < 10 {
        (48 + d) as char
    } else {
        (87 + d) as char
    }
}

/// The low `width` hexadecimal digits of `n`, most significant first.
pub open spec fn hex(n: nat, width: nat) -> Seq<char>
    decreases width,
{
    if width == 0 {
        seq![]
    } else {
        hex(n / 16, (width - 1) as nat).push(hex_digit(n % 16))
    }
}

/// The characters of each of a list of strings.
pub open spec fn texts(v: Seq<String>) -> Seq<Seq<char>> {
    v.map_values(|s: String| s@)
}

pub fn digit_char(d: u8) -> (c: char)
    requires
        d < 10,
    ensures
        c == digit(d as nat),
{
    (48u8 + d) as char
}

pub fn push_dec(out: &mut String, n: u64)
    ensures
        final(out)@ == old(out)@ + dec(n as nat),
    decreases n,
{
    if n >= 10 {
        push_dec(out, n / 10);
    }
    out.push(digit_char((n % 10) as u8));
    assert(out@ =~= old(out)@ + dec(n as nat));
}

pub fn push_dec_int(out: &mut String, i: i64)
    ensures
        final(out)@ == old(out)@ + dec_int(i as int),
{
    if i < 0 {
        out.push('-');
        let m: i128 = -(i as i128);
        push_dec(out, m as u64);
        assert(out@ =~= old(out)@ + dec_int(i as int));
    } else {
        push_dec(out, i as u64);
    }
}

pub fn push_hex(out: &mut String, n: u64, width: usize)
    ensures
        final(out)@ == old(out)@ + hex(n as nat, width as nat),
    decreases width,
{
    if width > 0 {
        push_hex(out, n / 16, width - 1);
        let d: u8 = (n % 16) as u8;
        let c = if d < 10 { (48u8 + d) as char } else { (87u8 + d) as char };
        out.push(c);
    }
    assert(out@ =~= old(out)@ + hex(n as nat, width as nat));
}

/// The characters of `s`.
pub fn chars_of(s: &str) -> (v: Vec<char>)
    ensures
        v@ == s@,
{
    let mut v: Vec<char> = Vec::new();
    for c in it: s.chars()
        invariant
            v@ =~= s@.take(it.index() as int),
            it.seq() == s@,
    {
        v.push(c);
    }
    v
}

/// The string that a slice of characters spells.
pub fn string_of(cs: &[char]) -> (s: String)
    ensures
        s@ == cs@,
{
    let mut s = String::new();
    let mut i: usize = 0;
    while i < cs.len()
        invariant
            i <= cs.len(),
            s@ =~= cs@.take(i as int),
        decreases cs.len() - i,
    {
        s.push(cs[i]);
        i += 1;
    }
    s
}

/// Whether two byte slices hold the same bytes.
pub fn bytes_eq(a: &[u8], b: &[u8]) -> (r: bool)
    ensures
        r == (a@ == b@),
{
    if a.len() != b.len() {
        return false;
    }
    let mut i: usize = 0;
    while i < a.len()
        invariant
            i <= a.len(),
            a.len() == b.len(),
            forall|j: int| 0 <= j < i ==> a@[j] == b@[j],
        decreases a.len() - i,
    {
        if a[i] != b[i] {
            return false;
        }
        i += 1;
    }
    assert(a@ =~= b@);
    true
}

/// Two strings with the same UTF-8 bytes are the same string.
pub proof fn lemma_utf8_injective(a: Seq<char>, b: Seq<char>)
    requires
        encode_utf8(a) == encode_utf8(b),
    ensures
        a == b,
{
    encode_utf8_decode_utf8(a);
    encode_utf8_decode_utf8(b);
}

/// Whether two strings are the same.
pub fn str_eq(a: &str, b: &str) -> (r: bool)
    ensures
        r == (a@ == b@),
{
    let r = bytes_eq(a.as_bytes(), b.as_bytes());
    proof {
        if r {
            lemma_utf8_injective(a@, b@);
        }
    }
    r
}

/// Whether a text is not behind another in the order of the characters,
/// which is also the order of the bytes.
pub open spec fn text_le(a: Seq<char>, b: Seq<char>) -> bool
    decreases a.len(),
{
    if a.len() == 0 {
        true
    } else if b.len() == 0 {
        false
    } else if a[0] != b[0] {
        a[0] < b[0]
    } else {
        text_le(a.skip(1), b.skip(1))
    }
}

pub proof fn lemma_text_le_total(a: Seq<char>, b: Seq<char>)
    ensures
        text_le(a, b) || text_le(b, a),
        text_le(a, b) && text_le(b, a) ==> a == b,
    decreases a.len(),
{
    if a.len() > 0 && b.len() > 0 && a[0] == b[0] {
        lemma_text_le_total(a.skip(1), b.skip(1));
        if a.skip(1) == b.skip(1) {
            assert(a =~= seq![a[0]] + a.skip(1));
            assert(b =~= seq![b[0]] + b.skip(1));
        }
    } else if a.len() == 0 && b.len() == 0 {
        assert(a =~= b);
    }
}

pub proof fn lemma_text_le_trans(a: Seq<char>, b: Seq<char>, c: Seq<char>)
    requires
        text_le(a, b),
        text_le(b, c),
    ensures
        text_le(a, c),
    decreases a.len(),
{
    if a.len() > 0 && b.len() > 0 && c.len() > 0 && a[0] == b[0] && b[0] == c[0] {
        lemma_text_le_trans(a.skip(1), b.skip(1), c.skip(1));
    }
}

pub fn str_le(a: &str, b: &str) -> (r: bool)
    ensures
        r == text_le(a@, b@),
{
    let x = chars_of(a);
    let y = chars_of(b);
    let mut i: usize = 0;
    assert(x@.skip(0) =~= x@ && y@.skip(0) =~= y@);
    while i < x.len() && i < y.len()
        invariant
            i <= x@.len(),
            i <= y@.len(),
            x@ == a@,
            y@ == b@,
            text_le(x@, y@) == text_le(x@.skip(i as int), y@.skip(i as int)),
        decreases x.len() - i,
    {
        proof {
            assert(x@.skip(i as int).skip(1) =~= x@.skip(i + 1));
            assert(y@.skip(i as int).skip(1) =~= y@.skip(i + 1));
        }
        if x[i] != y[i] {
            return x[i] < y[i];
        }
        i += 1;
    }
    i >= x.len()
}

/// The characters that `char::is_whitespace` accepts: Unicode's
/// `White_Space`.
pub open spec fn is_space(c: char) -> bool {
    let u = c as u32;
    ||| 9 <= u <= 13
    ||| u == 0x20
    ||| u == 0x85
    ||| u == 0xa0
    ||| u == 0x1680
    ||| 0x2000 <= u <= 0x200a
    ||| u == 0x2028
    ||| u == 0x2029
    ||| u == 0x202f
    ||| u == 0x205f
    ||| u == 0x3000
}

pub fn whitespace(c: char) -> (r: bool)
    ensures
        r == is_space(c),
{
    let u: u32 = c as u32;
    (9 <= u && u <= 13) || u == 0x20 || u == 0x85 || u == 0xa0 || u == 0x1680 || (0x2000 <= u && u
        <= 0x200a) || u == 0x2028 || u == 0x2029 || u == 0x202f || u == 0x205f || u == 0x3000
}

/// The place of the first `c` in `s`, or its length.
pub open spec fn find(s: Seq<char>, c: char) -> int
    decreases s.len(),
{
    if s.len() == 0 || s[0] == c {
        0
    } else {
        1 + find(s.skip(1), c)
    }
}

pub proof fn lemma_find(s: Seq<char>, c: char, n: int)
    requires
        0 <= n <= s.len(),
        forall|j: int| 0 <= j < n ==> s[j] != c,
        n < s.len() ==> s[n] == c,
    ensures
        find(s, c) == n,
    decreases n,
{
    if n > 0 {
        assert(s.skip(1) =~= s.subrange(1, s.len() as int));
        lemma_find(s.skip(1), c, n - 1);
    }
}

/// What is left of a line when one carriage return at its end goes.
pub open spec fn strip_cr(s: Seq<char>) -> Seq<char> {
    if s.len() > 0 && s.last() == '\r' {
        s.drop_last()
    } else {
        s
    }
}

/// The lines of a text: what stands between line feeds, each without a
/// carriage return before its line feed; a last line feed is optional.
pub open spec fn lines(s: Seq<char>) -> Seq<Seq<char>>
    decreases s.len(),
    via lines_decreases
{
    if s.len() == 0 {
        seq![]
    } else {
        let n = find(s, '\n');
        if n >= s.len() || n < 0 {
            seq![s]
        } else {
            seq![strip_cr(s.take(n))] + lines(s.skip(n + 1))
        }
    }
}

#[via_fn]
proof fn lines_decreases(s: Seq<char>) {
}

/// The characters of each of a list of character vectors.
pub open spec fn views(v: Seq<Vec<char>>) -> Seq<Seq<char>> {
    v.map_values(|x: Vec<char>| x@)
}

/// A copy of a part of a slice.
pub fn copy_chars(cs: &[char], from: usize, to: usize) -> (v: Vec<char>)
    requires
        from <= to <= cs@.len(),
    ensures
        v@ == cs@.subrange(from as int, to as int),
{
    let mut v: Vec<char> = Vec::new();
    let mut i: usize = from;
    while i < to
        invariant
            from <= i <= to <= cs@.len(),
            v@ =~= cs@.subrange(from as int, i as int),
        decreases to - i,
    {
        v.push(cs[i]);
        i += 1;
    }
    v
}

/// The lines of a text.
pub fn lines_of(cs: &[char]) -> (v: Vec<Vec<char>>)
    ensures
        views(v@) == lines(cs@),
{
    let mut out: Vec<Vec<char>> = Vec::new();
    let mut pos: usize = 0;
    assert(cs@.skip(0) =~= cs@);
    assert(views(out@) + lines(cs@.skip(0)) =~= lines(cs@));
    while pos < cs.len()
        invariant
            pos <= cs.len(),
            views(out@) + lines(cs@.skip(pos as int)) == lines(cs@),
        decreases cs.len() - pos,
    {
        let ghost rest = cs@.skip(pos as int);
        let mut end: usize = pos;
        while end < cs.len() && cs[end] != '\n'
            invariant
                pos <= end <= cs.len(),
                rest == cs@.skip(pos as int),
                forall|j: int| 0 <= j < end - pos ==> rest[j] != '\n',
            decreases cs.len() - end,
        {
            assert(rest[end - pos] == cs@[end as int]);
            end += 1;
        }
        proof {
            if end < cs.len() {
                assert(rest[end - pos] == cs@[end as int]);
            }
            lemma_find(rest, '\n', end - pos);
        }
        let ghost before = out@;
        if end < cs.len() {
            let stop: usize = if end > pos && cs[end - 1] == '\r' { end - 1 } else { end };
            let line = copy_chars(cs, pos, stop);
            proof {
                let taken = rest.take(end - pos);
                assert(taken =~= cs@.subrange(pos as int, end as int));
                assert(end > pos ==> taken.last() == cs@[end - 1]);
                assert(strip_cr(taken) =~= line@);
                assert(rest.skip(end - pos + 1) =~= cs@.skip(end + 1));
            }
            out.push(line);
            assert(views(out@) =~= views(before).push(line@));
            pos = end + 1;
            assert(views(out@) + lines(cs@.skip(pos as int)) =~= views(before) + lines(rest));
        } else {
            let line = copy_chars(cs, pos, end);
            assert(line@ =~= rest);
            out.push(line);
            assert(views(out@) =~= views(before).push(line@));
            pos = end;
            assert(cs@.skip(pos as int) =~= Seq::<char>::empty());
            assert(views(out@) + lines(cs@.skip(pos as int)) =~= views(before) + lines(rest));
        }
    }
    assert(cs@.skip(pos as int) =~= Seq::<char>::empty());
    assert(views(out@) + lines(cs@.skip(pos as int)) =~= views(out@));
    out
}

/// A text without the white space at its start.
pub open spec fn trim_start(s: Seq<char>) -> Seq<char>
    decreases s.len(),
{
    if s.len() > 0 && is_space(s[0]) {
        trim_start(s.skip(1))
    } else {
        s
    }
}

/// A text without the white space at its end.
pub open spec fn trim_end(s: Seq<char>) -> Seq<char>
    decreases s.len(),
{
    if s.len() > 0 && is_space(s.last()) {
        trim_end(s.drop_last())
    } else {
        s
    }
}

/// A text without the white space around it.
pub open spec fn trim(s: Seq<char>) -> Seq<char> {
    trim_end(trim_start(s))
}

/// The place of the first white space in `s`, or its length.
pub open spec fn find_space(s: Seq<char>) -> int
    decreases s.len(),
{
    if s.len() == 0 || is_space(s[0]) {
        0
    } else {
        1 + find_space(s.skip(1))
    }
}

pub proof fn lemma_find_space(s: Seq<char>, n: int)
    requires
        0 <= n <= s.len(),
        forall|j: int| 0 <= j < n ==> !is_space(s[j]),
        n < s.len() ==> is_space(s[n]),
    ensures
        find_space(s) == n,
    decreases n,
{
    if n > 0 {
        lemma_find_space(s.skip(1), n - 1);
    }
}

pub proof fn lemma_find_bounds(s: Seq<char>, c: char)
    ensures
        0 <= find(s, c) <= s.len(),
        find(s, c) < s.len() ==> s[find(s, c)] == c,
        forall|j: int| 0 <= j < find(s, c) ==> s[j] != c,
    decreases s.len(),
{
    if s.len() == 0 || s[0] == c {
    } else {
        let t = s.skip(1);
        lemma_find_bounds(t, c);
        assert forall|j: int| 0 <= j < find(s, c) implies s[j] != c by {
            if j > 0 {
                assert(t[j - 1] == s[j]);
            }
        }
    }
}

pub proof fn lemma_find_space_bounds(s: Seq<char>)
    ensures
        0 <= find_space(s) <= s.len(),
        s.len() > 0 && !is_space(s[0]) ==> find_space(s) > 0,
    decreases s.len(),
{
    if s.len() == 0 || is_space(s[0]) {
    } else {
        lemma_find_space_bounds(s.skip(1));
    }
}

pub proof fn lemma_trim_start_len(s: Seq<char>)
    ensures
        trim_start(s).len() <= s.len(),
        trim_start(s).len() > 0 ==> !is_space(trim_start(s)[0]),
    decreases s.len(),
{
    if s.len() > 0 && is_space(s[0]) {
        lemma_trim_start_len(s.skip(1));
    }
}

/// The words of a text: what stands between white space.
pub open spec fn words(s: Seq<char>) -> Seq<Seq<char>>
    decreases s.len(),
    via words_decreases
{
    let t = trim_start(s);
    if t.len() == 0 {
        seq![]
    } else {
        seq![t.take(find_space(t))] + words(t.skip(find_space(t)))
    }
}

#[via_fn]
proof fn words_decreases(s: Seq<char>) {
    lemma_trim_start_len(s);
    lemma_find_space_bounds(trim_start(s));
}

/// The parts of a text between occurrences of `c`: at least one.
pub open spec fn split(s: Seq<char>, c: char) -> Seq<Seq<char>>
    decreases s.len(),
    via split_decreases
{
    let n = find(s, c);
    if n >= s.len() {
        seq![s]
    } else {
        seq![s.take(n)] + split(s.skip(n + 1), c)
    }
}

#[via_fn]
proof fn split_decreases(s: Seq<char>, c: char) {
    lemma_find_bounds(s, c);
}

/// The place of the first `c` in a slice, or its length.
pub fn find_char(cs: &[char], c: char) -> (n: usize)
    ensures
        n == find(cs@, c),
        n <= cs@.len(),
{
    let mut i: usize = 0;
    while i < cs.len() && cs[i] != c
        invariant
            i <= cs.len(),
            forall|j: int| 0 <= j < i ==> cs@[j] != c,
        decreases cs.len() - i,
    {
        i += 1;
    }
    proof {
        lemma_find(cs@, c, i as int);
    }
    i
}

/// The place of the first white space in a slice, or its length.
pub fn find_whitespace(cs: &[char]) -> (n: usize)
    ensures
        n == find_space(cs@),
        n <= cs@.len(),
{
    let mut i: usize = 0;
    while i < cs.len() && !whitespace(cs[i])
        invariant
            i <= cs.len(),
            forall|j: int| 0 <= j < i ==> !is_space(cs@[j]),
        decreases cs.len() - i,
    {
        i += 1;
    }
    proof {
        lemma_find_space(cs@, i as int);
    }
    i
}

/// A slice without the white space at its start.
pub fn trim_start_of<'a>(cs: &'a [char]) -> (r: &'a [char])
    ensures
        r@ == trim_start(cs@),
{
    let mut i: usize = 0;
    assert(cs@.skip(0) =~= cs@);
    while i < cs.len() && whitespace(cs[i])
        invariant
            i <= cs.len(),
            trim_start(cs@.skip(i as int)) == trim_start(cs@),
        decreases cs.len() - i,
    {
        assert(cs@.skip(i as int).skip(1) =~= cs@.skip(i + 1));
        i += 1;
    }
    assert(cs@.skip(i as int) =~= cs@.subrange(i as int, cs@.len() as int));
    vstd::slice::slice_subrange(cs, i, cs.len())
}

/// A slice without the white space around it.
pub fn trim_of<'a>(cs: &'a [char]) -> (r: &'a [char])
    ensures
        r@ == trim(cs@),
{
    let t = trim_start_of(cs);
    let mut n: usize = t.len();
    assert(t@.take(n as int) =~= t@);
    while n > 0 && whitespace(t[n - 1])
        invariant
            n <= t.len(),
            trim_end(t@.take(n as int)) == trim_end(t@),
        decreases n,
    {
        assert(t@.take(n as int).drop_last() =~= t@.take(n - 1));
        n -= 1;
    }
    assert(t@.take(n as int) =~= t@.subrange(0, n as int));
    vstd::slice::slice_subrange(t, 0, n)
}

/// The words of a slice.
pub fn words_of(cs: &[char]) -> (v: Vec<Vec<char>>)
    ensures
        views(v@) == words(cs@),
{
    let mut out: Vec<Vec<char>> = Vec::new();
    let mut rest = cs;
    assert(views(out@) + words(rest@) =~= words(cs@));
    loop
        invariant
            views(out@) + words(rest@) == words(cs@),
        decreases rest@.len(),
    {
        let t = trim_start_of(rest);
        proof {
            lemma_trim_start_len(rest@);
            lemma_find_space_bounds(t@);
        }
        if t.len() == 0 {
            assert(views(out@) + words(rest@) =~= views(out@));
            return out;
        }
        let n = find_whitespace(t);
        let word = copy_chars(t, 0, n);
        let ghost before = out@;
        assert(word@ =~= t@.take(n as int));
        out.push(word);
        assert(views(out@) =~= views(before).push(word@));
        assert(t@.skip(n as int) =~= t@.subrange(n as int, t@.len() as int));
        assert(views(out@) + words(t@.skip(n as int)) =~= views(before) + words(rest@));
        rest = vstd::slice::slice_subrange(t, n, t.len());
    }
}

/// The parts of a slice between occurrences of `c`.
pub fn split_of(cs: &[char], c: char) -> (v: Vec<Vec<char>>)
    ensures
        views(v@) == split(cs@, c),
{
    let mut out: Vec<Vec<char>> = Vec::new();
    let mut rest = cs;
    assert(views(out@) + split(rest@, c) =~= split(cs@, c));
    loop
        invariant
            views(out@) + split(rest@, c) == split(cs@, c),
        decreases rest@.len(),
    {
        let n = find_char(rest, c);
        let part = copy_chars(rest, 0, n);
        let ghost before = out@;
        assert(part@ =~= rest@.take(n as int));
        out.push(part);
        assert(views(out@) =~= views(before).push(part@));
        if n >= rest.len() {
            assert(part@ =~= rest@);
            assert(views(out@) =~= views(before) + split(rest@, c));
            return out;
        }
        assert(rest@.skip(n + 1) =~= rest@.subrange(n + 1, rest@.len() as int));
        assert(views(out@) + split(rest@.skip(n + 1), c) =~= views(before) + split(rest@, c));
        rest = vstd::slice::slice_subrange(rest, n + 1, rest.len());
    }
}

/// Whether a slice of characters spells a string.
pub fn spells(cs: &[char], s: &str) -> (r: bool)
    ensures
        r == (cs@ == s@),
{
    let v = chars_of(s);
    if v.len() != cs.len() {
        return false;
    }
    let mut i: usize = 0;
    while i < cs.len()
        invariant
            i <= cs.len(),
            cs@.len() == v@.len(),
            v@ == s@,
            forall|j: int| 0 <= j < i ==> cs@[j] == v@[j],
        decreases cs.len() - i,
    {
        if cs[i] != v[i] {
            assert(cs@[i as int] != v@[i as int]);
            return false;
        }
        i += 1;
    }
    assert(cs@ =~= v@);
    true
}

/// Whether a slice of characters starts with a string.
pub fn starts_with(cs: &[char], s: &str) -> (r: bool)
    ensures
        r == s@.is_prefix_of(cs@),
{
    let v = chars_of(s);
    if v.len() > cs.len() {
        return false;
    }
    let head = vstd::slice::slice_subrange(cs, 0, v.len());
    let r = spells(head, s);
    assert(head@ =~= cs@.subrange(0, s@.len() as int));
    r
}

/// Whether a character is a decimal digit.
pub open spec fn is_digit(c: char) -> bool {
    '0' <= c <= '9'
}

/// Whether a text is made of decimal digits.
pub open spec fn all_digits(s: Seq<char>) -> bool {
    forall|i: int| 0 <= i < s.len() ==> is_digit(#[trigger] s[i])
}

/// The number that decimal digits spell.
pub open spec fn digits_value(s: Seq<char>) -> nat
    decreases s.len(),
{
    if s.len() == 0 {
        0
    } else {
        10 * digits_value(s.drop_last()) + (s.last() as u32 - 48) as nat
    }
}

/// A text without one leading plus sign.
pub open spec fn unplus(s: Seq<char>) -> Seq<char> {
    if s.len() > 0 && s[0] == '+' {
        s.skip(1)
    } else {
        s
    }
}

/// What `str::parse` gives for an unsigned integer of at most `max`: an
/// optional plus sign and decimal digits.
pub open spec fn parse_unsigned(s: Seq<char>, max: nat) -> Option<nat> {
    let d = unplus(s);
    if d.len() > 0 && all_digits(d) && digits_value(d) <= max {
        Some(digits_value(d))
    } else {
        None
    }
}

/// The decimal form of a number reads back as the number.
pub proof fn lemma_dec_reads(n: nat, max: nat)
    requires
        n <= max,
    ensures
        parse_unsigned(dec(n), max) == Some(n),
        all_digits(dec(n)),
        dec(n).len() > 0,
{
    lemma_dec_digits(n);
    let d = dec(n);
    assert(is_digit(d[0]));
    assert(unplus(d) == d);
}

proof fn lemma_dec_digits(n: nat)
    ensures
        dec(n).len() > 0,
        all_digits(dec(n)),
        digits_value(dec(n)) == n,
    decreases n,
{
    let d = dec(n);
    if n < 10 {
        assert(d.drop_last() =~= seq![]);
        assert(digits_value(seq![]) == 0);
    } else {
        lemma_dec_digits(n / 10);
        assert(d.drop_last() =~= dec(n / 10));
        assert forall|i: int| 0 <= i < d.len() implies is_digit(#[trigger] d[i]) by {
            if i < d.len() - 1 {
                assert(d[i] == dec(n / 10)[i]);
            }
        }
    }
}

/// A text whose first line is known.
pub proof fn lemma_first_line(l: Seq<char>, rest: Seq<char>)
    requires
        forall|i: int| 0 <= i < l.len() ==> #[trigger] l[i] != '\n' && l[i] != '\r',
    ensures
        lines(l + seq!['\n'] + rest) == seq![l] + lines(rest),
{
    let s = l + seq!['\n'] + rest;
    lemma_find(s, '\n', l.len() as int);
    assert(s.take(l.len() as int) =~= l);
    assert(s.skip(l.len() as int + 1) =~= rest);
}

/// The first line of a text, whatever stands in it.
pub proof fn lemma_first_line_cr(l: Seq<char>, rest: Seq<char>)
    requires
        forall|i: int| 0 <= i < l.len() ==> #[trigger] l[i] != '\n',
    ensures
        lines(l + seq!['\n'] + rest) == seq![strip_cr(l)] + lines(rest),
{
    let s = l + seq!['\n'] + rest;
    lemma_find(s, '\n', l.len() as int);
    assert(s.take(l.len() as int) =~= l);
    assert(s.skip(l.len() as int + 1) =~= rest);
}

/// No line has a line feed in it.
pub proof fn lemma_lines_whole(s: Seq<char>, i: int)
    requires
        0 <= i < lines(s).len(),
    ensures
        forall|j: int| 0 <= j < lines(s)[i].len() ==> #[trigger] lines(s)[i][j] != '\n',
    decreases s.len(),
{
    let n = find(s, '\n');
    lemma_find_bounds(s, '\n');
    if n < s.len() && i > 0 {
        lemma_lines_whole(s.skip(n + 1), i - 1);
        assert(lines(s)[i] == lines(s.skip(n + 1))[i - 1]);
    } else if n < s.len() {
        assert(lines(s)[0] == strip_cr(s.take(n)));
    }
}

/// Text without white space at its ends is trimmed to itself.
pub proof fn lemma_trimmed(s: Seq<char>)
    requires
        s.len() > 0,
        !is_space(s[0]),
        !is_space(s.last()),
    ensures
        trim(s) == s,
        trim(s.push(' ')) == s,
        trim(seq![' '] + s) == s,
{
    let a = s.push(' ');
    assert(trim_start(a) == a);
    assert(a.drop_last() =~= s);
    let b = seq![' '] + s;
    assert(b.skip(1) =~= s);
}

/// What `str::parse` gives for a signed integer from `-max - 1` to `max`:
/// an optional sign and decimal digits.
pub open spec fn parse_signed(s: Seq<char>, max: nat) -> Option<int> {
    if s.len() > 0 && s[0] == '-' {
        let d = s.skip(1);
        if d.len() > 0 && all_digits(d) && digits_value(d) <= max + 1 {
            Some(-digits_value(d))
        } else {
            None
        }
    } else {
        match parse_unsigned(s, max) {
            Some(n) => Some(n as int),
            None => None,
        }
    }
}

/// The value of a slice of decimal digits, when it is not empty, holds
/// nothing else and the value is at most `max`.
fn digits_of(cs: &[char], max: u64) -> (r: Option<u64>)
    ensures
        match r {
            Some(n) => cs@.len() > 0 && all_digits(cs@) && digits_value(cs@) <= max && n
                == digits_value(cs@),
            None => !(cs@.len() > 0 && all_digits(cs@) && digits_value(cs@) <= max),
        },
{
    if cs.len() == 0 {
        return None;
    }
    let mut n: u64 = 0;
    let mut over = false;
    let mut i: usize = 0;
    assert(cs@.take(0) =~= seq![]);
    while i < cs.len()
        invariant
            i <= cs.len(),
            all_digits(cs@.take(i as int)),
            over <==> digits_value(cs@.take(i as int)) > max,
            !over ==> n == digits_value(cs@.take(i as int)),
        decreases cs.len() - i,
    {
        let c = cs[i];
        if c < '0' || c > '9' {
            assert(!is_digit(cs@[i as int]));
            return None;
        }
        let ghost t = cs@.take(i + 1);
        assert(t.drop_last() =~= cs@.take(i as int));
        let d: u64 = c as u64 - 48;
        if !over {
            if d > max || n > max / 10 || n * 10 > max - d {
                over = true;
            } else {
                n = n * 10 + d;
            }
        }
        i += 1;
    }
    assert(cs@.take(i as int) =~= cs@);
    if over {
        None
    } else {
        Some(n)
    }
}

/// Parse an unsigned integer of at most `max`.
pub fn parse_unsigned_of(cs: &[char], max: u64) -> (r: Option<u64>)
    ensures
        match (r, parse_unsigned(cs@, max as nat)) {
            (Some(n), Some(m)) => n == m,
            (None, None) => true,
            _ => false,
        },
{
    if cs.len() > 0 && cs[0] == '+' {
        let d = vstd::slice::slice_subrange(cs, 1, cs.len());
        assert(d@ =~= cs@.skip(1));
        digits_of(d, max)
    } else {
        digits_of(cs, max)
    }
}

/// Parse a signed integer from `-max - 1` to `max`.
pub fn parse_signed_of(cs: &[char], max: u32) -> (r: Option<i64>)
    ensures
        match (r, parse_signed(cs@, max as nat)) {
            (Some(n), Some(m)) => n == m,
            (None, None) => true,
            _ => false,
        },
{
    if cs.len() > 0 && cs[0] == '-' {
        let d = vstd::slice::slice_subrange(cs, 1, cs.len());
        assert(d@ =~= cs@.skip(1));
        match digits_of(d, max as u64 + 1) {
            Some(n) => Some(-(n as i64)),
            None => None,
        }
    } else {
        match parse_unsigned_of(cs, max as u64) {
            Some(n) => Some(n as i64),
            None => None,
        }
    }
}

/// Only the empty text has no bytes.
pub proof fn lemma_no_bytes(t: Seq<char>)
    ensures
        encode_utf8(t).len() == 0 <==> t.len() == 0,
{
    if t.len() > 0 {
        encode_utf8_decode_utf8(t);
        if encode_utf8(t).len() == 0 {
            assert(encode_utf8(t) =~= encode_utf8(seq![]));
            lemma_utf8_injective(t, seq![]);
        }
    } else {
        assert(t =~= seq![]);
    }
}

/// A text without the white space at its end.
pub fn trim_end_of<'a>(cs: &'a [char]) -> (r: &'a [char])
    ensures
        r@ == trim_end(cs@),
{
    let mut n: usize = cs.len();
    assert(cs@.take(n as int) =~= cs@);
    while n > 0 && whitespace(cs[n - 1])
        invariant
            n <= cs@.len(),
            trim_end(cs@) == trim_end(cs@.take(n as int)),
        decreases n,
    {
        assert(cs@.take(n as int).drop_last() =~= cs@.take(n - 1));
        n -= 1;
    }
    proof {
        let t = cs@.take(n as int);
        if n > 0 {
            assert(t.last() == cs@[n - 1]);
        }
        assert(trim_end(t) == t);
    }
    vstd::slice::slice_subrange(cs, 0, n)
}

/// Whether a text occurs in another.
pub open spec fn holds_text(s: Seq<char>, t: Seq<char>) -> bool {
    exists|i: int| 0 <= i <= s.len() - t.len() && #[trigger] s.subrange(i, i + t.len()) == t
}

pub fn contains_chars(s: &[char], t: &[char]) -> (r: bool)
    ensures
        r == holds_text(s@, t@),
{
    if t.len() > s.len() {
        return false;
    }
    let last: usize = s.len() - t.len();
    let mut i: usize = 0;
    while i <= last
        invariant
            i <= last + 1,
            s@.len() <= usize::MAX,
            last == s@.len() - t@.len(),
            t@.len() <= s@.len(),
            forall|k: int| 0 <= k < i ==> #[trigger] s@.subrange(k, k + t@.len()) != t@,
        decreases last + 1 - i,
    {
        let mut n: usize = 0;
        while n < t.len() && s[i + n] == t[n]
            invariant
                i <= last,
                s@.len() <= usize::MAX,
                last == s@.len() - t@.len(),
                n <= t@.len() <= s@.len(),
                forall|k: int| 0 <= k < n ==> s@[i + k] == t@[k],
            decreases t.len() - n,
        {
            n += 1;
        }
        if n == t.len() {
            assert(s@.subrange(i as int, i + t@.len()) =~= t@);
            return true;
        }
        proof {
            let u = s@.subrange(i as int, i + t@.len());
            assert(u[n as int] == s@[i + n]);
        }
        if i == last {
            return false;
        }
        i += 1;
    }
    false
}

/// The bytes of a text are those of its parts.
pub proof fn lemma_encode_add(a: Seq<char>, b: Seq<char>)
    ensures
        encode_utf8(a + b) == encode_utf8(a) + encode_utf8(b),
    decreases a.len(),
{
    if a.len() == 0 {
        assert(a + b =~= b);
        assert(encode_utf8(a) =~= seq![]);
        assert(seq![] + encode_utf8(b) =~= encode_utf8(b));
    } else {
        let r = a.drop_first();
        assert((a + b).drop_first() =~= r + b);
        assert((a + b)[0] == a[0]);
        lemma_encode_add(r, b);
        assert(encode_utf8(a + b) =~= encode_utf8(a) + encode_utf8(b));
    }
}

} // verus!
