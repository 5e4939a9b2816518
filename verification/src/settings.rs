//! The shell's persistent settings, kept in `settings.kv` beside the save
//! root. One `key = value` per line; unknown keys are kept as they are and
//! a malformed line changes nothing. Nothing here is reachable from a cart.

use vstd::prelude::*;
use vstd::string::*;
use crate::shell::Settings;
use crate::text::{
    chars_of, copy_chars, dec, find, find_char, is_digit, is_space, lemma_dec_reads, lemma_find,
    lemma_find_bounds, lemma_first_line, lemma_first_line_cr, lemma_lines_whole, lemma_trimmed,
    lines, lines_of, parse_unsigned, parse_unsigned_of, push_dec, spells, string_of, strip_cr, trim,
    trim_of, views,
};

verus! {

pub const FILE: &'static str = "settings.kv";

/// Largest file read.
pub const MAX_BYTES: u64 = 64 * 1024;

/// Settings with one key's value read over them. A value that the key does
/// not take changes nothing.
pub open spec fn with_pair(s: Settings, k: Seq<char>, v: Seq<char>) -> Settings {
    if k == "scale"@ {
        match parse_unsigned(v, u32::MAX as nat) {
            Some(n) if 1 <= n <= 4 => Settings { scale: n as u32, ..s },
            _ => s,
        }
    } else if k == "volume"@ {
        match parse_unsigned(v, u32::MAX as nat) {
            Some(n) if n <= 100 => Settings { volume: n as u32, ..s },
            _ => s,
        }
    } else if k == "net"@ {
        if v == "on"@ || v == "true"@ {
            Settings { net: true, ..s }
        } else if v == "off"@ || v == "false"@ {
            Settings { net: false, ..s }
        } else {
            s
        }
    } else {
        s
    }
}

/// Settings with one line read over them: what stands before the first
/// `=` is the key, what stands behind it the value.
pub open spec fn with_line(s: Settings, line: Seq<char>) -> Settings {
    let at = find(line, '=');
    if at >= line.len() {
        s
    } else {
        with_pair(s, trim(line.take(at)), trim(line.skip(at + 1)))
    }
}

/// Settings with the lines from `i` on read over them.
pub open spec fn with_lines(s: Settings, l: Seq<Seq<char>>, i: int) -> Settings
    decreases l.len() - i,
{
    if i >= l.len() {
        s
    } else {
        with_lines(with_line(s, l[i]), l, i + 1)
    }
}

/// Whether settings are ones that the shell can have made.
pub open spec fn in_range(s: Settings) -> bool {
    1 <= s.scale <= 4 && s.volume <= 100
}

/// The text form of settings.
pub open spec fn rendered(s: Settings) -> Seq<char> {
    "scale = "@ + dec(s.scale as nat) + "\nvolume = "@ + dec(s.volume as nat) + "\nnet = "@ + (
    if s.net {
        "on"@
    } else {
        "off"@
    }) + "\n"@
}

fn set_pair(s: Settings, k: &[char], v: &[char]) -> (r: Settings)
    ensures
        r == with_pair(s, k@, v@),
{
    if spells(k, "scale") {
        if let Some(n) = parse_unsigned_of(v, u32::MAX as u64) {
            if 1 <= n && n <= 4 {
                return Settings { scale: n as u32, ..s };
            }
        }
    } else if spells(k, "volume") {
        if let Some(n) = parse_unsigned_of(v, u32::MAX as u64) {
            if n <= 100 {
                return Settings { volume: n as u32, ..s };
            }
        }
    } else if spells(k, "net") {
        if spells(v, "on") || spells(v, "true") {
            return Settings { net: true, ..s };
        }
        if spells(v, "off") || spells(v, "false") {
            return Settings { net: false, ..s };
        }
    }
    s
}

/// Parse the text form; unparsable lines are skipped.
pub fn parse(text: &str, defaults: Settings) -> (s: Settings)
    ensures
        s == with_lines(defaults, lines(text@), 0),
        in_range(defaults) ==> in_range(s),
{
    let chars = chars_of(text);
    let list = lines_of(chars.as_slice());
    let ghost all = lines(text@);
    let mut s = defaults;
    let mut i: usize = 0;
    while i < list.len()
        invariant
            i <= list@.len(),
            views(list@) == all,
            with_lines(defaults, all, 0) == with_lines(s, all, i as int),
            in_range(defaults) ==> in_range(s),
        decreases list.len() - i,
    {
        assert(all[i as int] == list@[i as int]@);
        let line = &list[i];
        let at = find_char(line.as_slice(), '=');
        if at < line.len() {
            let k = copy_chars(line.as_slice(), 0, at);
            let v = copy_chars(line.as_slice(), at + 1, line.len());
            assert(k@ =~= line@.take(at as int));
            assert(v@ =~= line@.skip(at + 1));
            s = set_pair(s, trim_of(k.as_slice()), trim_of(v.as_slice()));
        }
        i += 1;
    }
    s
}

pub fn render(s: &Settings) -> (r: String)
    ensures
        r@ == rendered(*s),
{
    let mut r = "scale = ".to_owned();
    push_dec(&mut r, s.scale as u64);
    r.append("\nvolume = ");
    push_dec(&mut r, s.volume as u64);
    r.append("\nnet = ");
    r.append(if s.net { "on" } else { "off" });
    r.append("\n");
    r
}

/// Whether a line has a key that is not a setting.
pub open spec fn is_unknown(line: Seq<char>) -> bool {
    let at = find(line, '=');
    let k = trim(line.take(at));
    at < line.len() && k != "scale"@ && k != "volume"@ && k != "net"@
}

/// The lines with unknown keys.
pub open spec fn unknown_lines(l: Seq<Seq<char>>) -> Seq<Seq<char>>
    decreases l.len(),
{
    if l.len() == 0 {
        seq![]
    } else if is_unknown(l[0]) {
        seq![l[0]] + unknown_lines(l.skip(1))
    } else {
        unknown_lines(l.skip(1))
    }
}

/// Lines as a text.
pub open spec fn joined(l: Seq<Seq<char>>) -> Seq<char>
    decreases l.len(),
{
    if l.len() == 0 {
        seq![]
    } else {
        l[0] + seq!['\n'] + joined(l.skip(1))
    }
}

/// The text of a file in place of an old one: the settings, and the lines
/// of the old one whose keys are unknown.
pub open spec fn rewritten_of(old_text: Seq<char>, s: Settings) -> Seq<char> {
    rendered(s) + joined(unknown_lines(lines(old_text)))
}

/// The text form of settings in place of an old file's: lines with unknown
/// keys are kept.
pub fn rewritten(old_text: &str, s: &Settings) -> (r: String)
    ensures
        r@ == rewritten_of(old_text@, *s),
{
    let chars = chars_of(old_text);
    let list = lines_of(chars.as_slice());
    let ghost all = lines(old_text@);
    let mut r = render(s);
    let mut i: usize = 0;
    assert(all.skip(0) =~= all);
    while i < list.len()
        invariant
            i <= list@.len(),
            views(list@) == all,
            all == lines(old_text@),
            r@ + joined(unknown_lines(all.skip(i as int))) == rewritten_of(old_text@, *s),
        decreases list.len() - i,
    {
        let line = &list[i];
        let ghost rest = all.skip(i as int);
        proof {
            assert(rest[0] == line@);
            assert(rest.skip(1) =~= all.skip(i + 1));
        }
        let at = find_char(line.as_slice(), '=');
        if at < line.len() {
            let k = copy_chars(line.as_slice(), 0, at);
            assert(k@ =~= line@.take(at as int));
            let key = trim_of(k.as_slice());
            if !spells(key, "scale") && !spells(key, "volume") && !spells(key, "net") {
                let ghost before = r@;
                let ghost tail = unknown_lines(rest.skip(1));
                let text = string_of(line.as_slice());
                r.append(text.as_str());
                r.append("\n");
                proof {
                    reveal_strlit("\n");
                    let v = unknown_lines(rest);
                    assert(v.skip(1) =~= tail);
                    assert("\n"@ =~= seq!['\n']);
                    assert(before + joined(v) =~= r@ + joined(tail));
                }
            }
        }
        i += 1;
    }
    assert(all.skip(i as int) =~= seq![]);
    assert(r@ + seq![] =~= r@);
    r
}

/// The settings of a file over `defaults`: the defaults where there is no
/// file, it is too large or it cannot be read. `text` is what the host
/// read.
pub fn loaded(size: Option<u64>, text: Option<&str>, defaults: Settings) -> (s: Settings)
    ensures
        s == (match (size, text) {
            (Some(n), Some(t)) if n <= MAX_BYTES => with_lines(defaults, lines(t@), 0),
            _ => defaults,
        }),
{
    match (size, text) {
        (Some(n), Some(t)) => if n <= MAX_BYTES {
            parse(t, defaults)
        } else {
            defaults
        },
        _ => defaults,
    }
}

/// Whether a text can stand as a key or a value.
spec fn plain(t: Seq<char>) -> bool {
    &&& t.len() > 0
    &&& forall|i: int|
        0 <= i < t.len() ==> !is_space(#[trigger] t[i]) && t[i] != '=' && t[i] != '\n' && t[i]
            != '\r'
}

/// A line of a key and its value.
spec fn pair_line(k: Seq<char>, v: Seq<char>) -> Seq<char> {
    k + seq![' ', '=', ' '] + v
}

proof fn lemma_pair_line(s: Settings, k: Seq<char>, v: Seq<char>)
    requires
        plain(k),
        plain(v),
    ensures
        with_line(s, pair_line(k, v)) == with_pair(s, k, v),
        forall|i: int|
            0 <= i < pair_line(k, v).len() ==> #[trigger] pair_line(k, v)[i] != '\n' && pair_line(
                k,
                v,
            )[i] != '\r',
{
    let line = pair_line(k, v);
    let n = k.len() as int + 1;
    assert forall|j: int| 0 <= j < n implies line[j] != '=' by {
        if j < k.len() {
            assert(line[j] == k[j]);
        }
    }
    lemma_find(line, '=', n);
    assert(line.take(n) =~= k.push(' '));
    assert(line.skip(n + 1) =~= seq![' '] + v);
    lemma_trimmed(k);
    lemma_trimmed(v);
    assert forall|i: int| 0 <= i < line.len() implies #[trigger] line[i] != '\n' && line[i]
        != '\r' by {
        if i < k.len() {
            assert(line[i] == k[i]);
        } else if i >= k.len() + 3 {
            assert(line[i] == v[i - k.len() - 3]);
        }
    }
}

proof fn lemma_dec_plain(n: nat)
    ensures
        plain(dec(n)),
        parse_unsigned(dec(n), n) == Some(n),
        n <= u32::MAX ==> parse_unsigned(dec(n), u32::MAX as nat) == Some(n),
{
    lemma_dec_reads(n, n);
    if n <= u32::MAX {
        lemma_dec_reads(n, u32::MAX as nat);
    }
    let d = dec(n);
    assert forall|i: int| 0 <= i < d.len() implies !is_space(#[trigger] d[i]) && d[i] != '=' && d[i]
        != '\n' && d[i] != '\r' by {
        assert(is_digit(d[i]));
    }
}

/// The three lines of settings.
spec fn setting_lines(s: Settings) -> Seq<Seq<char>> {
    seq![
        pair_line("scale"@, dec(s.scale as nat)),
        pair_line("volume"@, dec(s.volume as nat)),
        pair_line(
            "net"@,
            if s.net {
                "on"@
            } else {
                "off"@
            },
        ),
    ]
}

/// What is written of settings, before any other text, is read as three
/// lines that give them back.
proof fn lemma_rendered(s: Settings, defaults: Settings, rest: Seq<char>)
    requires
        in_range(s),
    ensures
        lines(rendered(s) + rest) == setting_lines(s) + lines(rest),
        with_line(with_line(with_line(defaults, setting_lines(s)[0]), setting_lines(s)[1]), setting_lines(s)[2]) == s,
{
    reveal_strlit("scale");
    reveal_strlit("volume");
    reveal_strlit("net");
    reveal_strlit("on");
    reveal_strlit("off");
    reveal_strlit("true");
    reveal_strlit("false");
    reveal_strlit("scale = ");
    reveal_strlit("\nvolume = ");
    reveal_strlit("\nnet = ");
    reveal_strlit("\n");
    let word = if s.net {
        "on"@
    } else {
        "off"@
    };
    let a = pair_line("scale"@, dec(s.scale as nat));
    let b = pair_line("volume"@, dec(s.volume as nat));
    let c = pair_line("net"@, word);
    lemma_dec_plain(s.scale as nat);
    lemma_dec_plain(s.volume as nat);
    assert(plain("scale"@));
    assert(plain("volume"@));
    assert(plain("net"@));
    assert(plain(word));
    let end = c + seq!['\n'] + rest;
    let mid = b + seq!['\n'] + end;
    assert(rendered(s) + rest =~= a + seq!['\n'] + mid);
    let s1 = Settings { scale: s.scale, ..defaults };
    let s2 = Settings { volume: s.volume, ..s1 };
    lemma_pair_line(defaults, "scale"@, dec(s.scale as nat));
    lemma_pair_line(s1, "volume"@, dec(s.volume as nat));
    lemma_pair_line(s2, "net"@, word);
    lemma_first_line(c, rest);
    lemma_first_line(b, end);
    lemma_first_line(a, mid);
    assert(lines(rendered(s) + rest) =~= seq![a, b, c] + lines(rest));
    assert("scale"@.len() == 5 && "volume"@.len() == 6 && "net"@.len() == 3);
    assert("on"@[1] == 'n' && "off"@[1] == 'f');
    assert("off"@.len() == 3 && "true"@.len() == 4 && "on"@.len() == 2);
}

/// Lines with unknown keys change nothing.
proof fn lemma_unknown_skipped(s: Settings, l: Seq<Seq<char>>, i: int)
    requires
        0 <= i <= l.len(),
        forall|k: int| i <= k < l.len() ==> is_unknown(#[trigger] l[k]),
    ensures
        with_lines(s, l, i) == s,
    decreases l.len() - i,
{
    if i < l.len() {
        assert(is_unknown(l[i]));
        lemma_find_bounds(l[i], '=');
        lemma_unknown_skipped(s, l, i + 1);
    }
}

/// The settings that were written are read back, whatever they are read
/// over.
pub proof fn law_settings_read_back(s: Settings, defaults: Settings)
    requires
        in_range(s),
    ensures
        with_lines(defaults, lines(rendered(s)), 0) == s,
{
    lemma_rendered(s, defaults, seq![]);
    assert(rendered(s) + seq![] =~= rendered(s));
    assert(lines(seq![]) =~= seq![]);
    let l = lines(rendered(s));
    assert(l =~= setting_lines(s));
    assert(l.take(3) =~= setting_lines(s));
    lemma_three(s, defaults, l);
}

proof fn lemma_three(s: Settings, defaults: Settings, l: Seq<Seq<char>>)
    requires
        in_range(s),
        l.len() >= 3,
        l.take(3) == setting_lines(s),
        forall|k: int| 3 <= k < l.len() ==> is_unknown(#[trigger] l[k]),
    ensures
        with_lines(defaults, l, 0) == s,
{
    lemma_rendered(s, defaults, seq![]);
    assert(l[0] == l.take(3)[0] && l[1] == l.take(3)[1] && l[2] == l.take(3)[2]);
    let s1 = with_line(defaults, l[0]);
    let s2 = with_line(s1, l[1]);
    lemma_unknown_skipped(s, l, 3);
    assert(with_lines(s2, l, 2) == s);
    assert(with_lines(s1, l, 1) == s);
}

/// An unknown line stays unknown without its carriage return.
proof fn lemma_strip_unknown(l: Seq<char>)
    requires
        is_unknown(l),
    ensures
        is_unknown(strip_cr(l)),
{
    lemma_find_bounds(l, '=');
    let n = find(l, '=');
    let t = strip_cr(l);
    assert(l[n] == '=');
    assert(n < t.len());
    lemma_find(t, '=', n);
    assert(t.take(n) =~= l.take(n));
}

proof fn lemma_joined_lines(l: Seq<Seq<char>>)
    requires
        forall|i: int, j: int|
            0 <= i < l.len() && 0 <= j < l[i].len() ==> #[trigger] l[i][j] != '\n',
        forall|i: int| 0 <= i < l.len() ==> is_unknown(#[trigger] l[i]),
    ensures
        lines(joined(l)) == l.map_values(|t: Seq<char>| strip_cr(t)),
        forall|i: int| 0 <= i < lines(joined(l)).len() ==> is_unknown(#[trigger] lines(joined(l))[i]),
    decreases l.len(),
{
    if l.len() == 0 {
        assert(lines(joined(l)) =~= l.map_values(|t: Seq<char>| strip_cr(t)));
    } else {
        let r = l.skip(1);
        assert forall|i: int, j: int|
            0 <= i < r.len() && 0 <= j < r[i].len() implies #[trigger] r[i][j] != '\n' by {
            assert(l[i + 1][j] != '\n');
        }
        assert forall|i: int| 0 <= i < r.len() implies is_unknown(#[trigger] r[i]) by {
            assert(is_unknown(l[i + 1]));
        }
        lemma_joined_lines(r);
        assert forall|j: int| 0 <= j < l[0].len() implies #[trigger] l[0][j] != '\n' by {}
        lemma_first_line_cr(l[0], joined(r));
        assert(is_unknown(l[0]));
        lemma_strip_unknown(l[0]);
        assert(lines(joined(l)) =~= l.map_values(|t: Seq<char>| strip_cr(t)));
        assert forall|i: int| 0 <= i < lines(joined(l)).len() implies is_unknown(
            #[trigger] lines(joined(l))[i],
        ) by {
            if i > 0 {
                assert(lines(joined(l))[i] == lines(joined(r))[i - 1]);
            }
        }
    }
}

proof fn lemma_unknown_lines(l: Seq<Seq<char>>, k: int)
    requires
        forall|i: int, j: int|
            0 <= i < l.len() && 0 <= j < l[i].len() ==> #[trigger] l[i][j] != '\n',
        0 <= k < unknown_lines(l).len(),
    ensures
        is_unknown(unknown_lines(l)[k]),
        forall|j: int| 0 <= j < unknown_lines(l)[k].len() ==> #[trigger] unknown_lines(l)[k][j] != '\n',
    decreases l.len(),
{
    let r = l.skip(1);
    assert forall|i: int, j: int| 0 <= i < r.len() && 0 <= j < r[i].len() implies #[trigger] r[i][j]
        != '\n' by {
        assert(l[i + 1][j] != '\n');
    }
    if is_unknown(l[0]) {
        if k > 0 {
            lemma_unknown_lines(r, k - 1);
            assert(unknown_lines(l)[k] == unknown_lines(r)[k - 1]);
        }
    } else {
        lemma_unknown_lines(r, k);
    }
}

/// Settings that are written over an old file are read back, and the lines
/// whose keys are unknown are kept as they are, in their order, but for a
/// carriage return before a line feed.
pub proof fn law_rewriting_keeps_unknown_keys(old_text: Seq<char>, s: Settings, defaults: Settings)
    requires
        in_range(s),
    ensures
        with_lines(defaults, lines(rewritten_of(old_text, s)), 0) == s,
        lines(rewritten_of(old_text, s)).len() >= 3,
        lines(rewritten_of(old_text, s)).skip(3) == unknown_lines(lines(old_text)).map_values(
            |t: Seq<char>| strip_cr(t),
        ),
{
    let l = lines(old_text);
    assert forall|i: int, j: int| 0 <= i < l.len() && 0 <= j < l[i].len() implies #[trigger] l[i][j]
        != '\n' by {
        lemma_lines_whole(old_text, i);
    }
    let u = unknown_lines(l);
    assert forall|i: int, j: int| 0 <= i < u.len() && 0 <= j < u[i].len() implies #[trigger] u[i][j]
        != '\n' by {
        lemma_unknown_lines(l, i);
    }
    assert forall|i: int| 0 <= i < u.len() implies is_unknown(#[trigger] u[i]) by {
        lemma_unknown_lines(l, i);
    }
    lemma_joined_lines(u);
    lemma_rendered(s, defaults, joined(u));
    let all = lines(rewritten_of(old_text, s));
    let kept = lines(joined(u));
    assert(all =~= setting_lines(s) + kept);
    assert(all.take(3) =~= setting_lines(s));
    assert(all.skip(3) =~= kept);
    assert forall|k: int| 3 <= k < all.len() implies is_unknown(#[trigger] all[k]) by {
        assert(all[k] == kept[k - 3]);
    }
    lemma_three(s, defaults, all);
}

} // verus!
