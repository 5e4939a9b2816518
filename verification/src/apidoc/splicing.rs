//! Putting the rendered sections into the document.

use vstd::prelude::*;
use vstd::string::*;
use crate::apidoc::{section_views, BEGIN, END};
use crate::text::{
    chars_of, copy_chars, find, lemma_find, lemma_find_bounds, lemma_first_line_cr,
    lemma_lines_whole, lines, lines_of,
    quote, quoted, spells, starts_with, str_eq, str_le, string_of, strip_cr, text_le, texts, trim_end,
    trim_end_of,
    views,
};

verus! {

/// Sections: keys and bodies.
pub type Bodies = Seq<(Seq<char>, Seq<char>)>;

/// The key of a line that opens a generated section.
pub open spec fn key_of(line: Seq<char>) -> Option<Seq<char>> {
    let t = trim_end(line);
    if !BEGIN@.is_prefix_of(t) {
        None
    } else {
        let rest = t.skip(BEGIN@.len() as int);
        let tail = " -->"@;
        if rest.len() >= tail.len() && rest.skip(rest.len() - tail.len()) == tail {
            Some(rest.take(rest.len() - tail.len()))
        } else {
            None
        }
    }
}

/// Whether a line closes a generated section.
pub open spec fn is_end(line: Seq<char>) -> bool {
    trim_end(line) == END@
}

/// How many lines stand before the one that closes a section, if one does
/// before another section opens.
pub open spec fn closing(l: Seq<Seq<char>>) -> Option<int>
    decreases l.len(),
{
    if l.len() == 0 {
        None
    } else if is_end(l[0]) {
        Some(0)
    } else if key_of(l[0]) is Some {
        None
    } else {
        match closing(l.skip(1)) {
            Some(n) => Some(n + 1),
            None => None,
        }
    }
}

/// The first body under a key.
pub open spec fn body_of(secs: Bodies, key: Seq<char>) -> Option<Seq<char>>
    decreases secs.len(),
{
    if secs.len() == 0 {
        None
    } else if secs[0].0 == key {
        Some(secs[0].1)
    } else {
        body_of(secs.skip(1), key)
    }
}

pub open spec fn named_problem(key: Seq<char>, what: Seq<char>) -> Seq<char> {
    "generated section "@ + quoted(key) + what
}

/// Lines with their generated sections replaced, behind a text: the text
/// and the keys seen, or what is wrong with a marker.
pub open spec fn spliced_on(
    l: Seq<Seq<char>>,
    secs: Bodies,
    seen: Seq<Seq<char>>,
    out: Seq<char>,
) -> Result<(Seq<char>, Seq<Seq<char>>), Seq<char>>
    decreases l.len(),
{
    if l.len() == 0 {
        Ok((out, seen))
    } else {
        let line = out + l[0] + "\n"@;
        match key_of(l[0]) {
            None => spliced_on(l.skip(1), secs, seen, line),
            Some(key) => match body_of(secs, key) {
                None => Err("unknown generated section "@ + quoted(key)),
                Some(body) => if seen.contains(key) {
                    Err(named_problem(key, " appears twice"@))
                } else {
                    match closing(l.skip(1)) {
                        None => Err(named_problem(key, " is not closed"@)),
                        Some(n) => if n < 0 || n + 2 > l.len() {
                            Err(seq![])
                        } else {
                            spliced_on(
                                l.skip(n + 2),
                                secs,
                                seen.push(key),
                                line + body + END@ + "\n"@,
                            )
                        },
                    }
                },
            },
        }
    }
}

/// The lesser of a key and one that may be missing.
pub open spec fn lesser(key: Seq<char>, other: Option<Seq<char>>) -> Seq<char> {
    match other {
        Some(k) => if text_le(key, k) {
            key
        } else {
            k
        },
        None => key,
    }
}

/// The least key of a section that was not seen.
pub open spec fn unseen(secs: Bodies, seen: Seq<Seq<char>>) -> Option<Seq<char>>
    decreases secs.len(),
{
    if secs.len() == 0 {
        None
    } else if !seen.contains(secs[0].0) {
        Some(lesser(secs[0].0, unseen(secs.skip(1), seen)))
    } else {
        unseen(secs.skip(1), seen)
    }
}

/// Which of two sections has the lesser key.
pub(crate) fn lesser_at(sections: &Vec<(String, String)>, k: usize, other: Option<usize>) -> (r:
    usize)
    requires
        k < sections@.len(),
        other matches Some(o) ==> o < sections@.len(),
    ensures
        r < sections@.len(),
        sections@[r as int].0@ == lesser(
            sections@[k as int].0@,
            match other {
                Some(o) => Some(sections@[o as int].0@),
                None => None,
            },
        ),
{
    match other {
        Some(o) => if str_le(sections[k].0.as_str(), sections[o].0.as_str()) {
            k
        } else {
            o
        },
        None => k,
    }
}

/// The document with every generated section replaced, or what is wrong
/// with its markers.
pub open spec fn spliced(doc: Seq<char>, secs: Bodies) -> Result<Seq<char>, Seq<char>> {
    match spliced_on(lines(doc), secs, seq![], seq![]) {
        Err(e) => Err(e),
        Ok((out, seen)) => match unseen(secs, seen) {
            Some(key) => Err("the document has no `"@ + BEGIN@ + key + " -->` section"@),
            None => Ok(
                if out.len() == 0 || (doc.len() > 0 && doc.last() == '\n') {
                    out
                } else {
                    out.drop_last()
                },
            ),
        },
    }
}

/// Whether a line opens a generated section, and its key.
pub fn begin_key(line: &Vec<char>) -> (r: Option<Vec<char>>)
    ensures
        match (r, key_of(line@)) {
            (Some(k), Some(v)) => k@ == v,
            (None, None) => true,
            _ => false,
        },
{
    let t = trim_end_of(line.as_slice());
    if !starts_with(t, BEGIN) {
        return None;
    }
    proof {
        reveal_strlit("<!-- generated: ");
        reveal_strlit(" -->");
    }
    let head: usize = 16;
    assert(BEGIN@.len() == 16);
    let n: usize = t.len();
    if n - head < 4 {
        return None;
    }
    let tail = copy_chars(t, n - 4, n);
    let ghost rest = t@.skip(16);
    assert(tail@ =~= rest.skip(rest.len() - 4));
    if !spells(tail.as_slice(), " -->") {
        return None;
    }
    let key = copy_chars(t, head, n - 4);
    assert(key@ =~= rest.take(rest.len() - 4));
    Some(key)
}

fn is_end_line(line: &Vec<char>) -> (r: bool)
    ensures
        r == is_end(line@),
{
    spells(trim_end_of(line.as_slice()), END)
}

/// The line that closes a section, from `from` on.
fn find_end(list: &Vec<Vec<char>>, from: usize) -> (r: Option<usize>)
    requires
        from <= list@.len(),
    ensures
        match (r, closing(views(list@).skip(from as int))) {
            (Some(i), Some(n)) => i == from + n && from <= i < list@.len(),
            (None, None) => true,
            _ => false,
        },
{
    let ghost l = views(list@);
    let ghost start = closing(l.skip(from as int));
    let mut i: usize = from;
    while i < list.len()
        invariant
            from <= i <= list@.len(),
            l == views(list@),
            start == closing(l.skip(from as int)),
            start == (match closing(l.skip(i as int)) {
                Some(n) => Some(n + (i - from)),
                None => None,
            }),
        decreases list.len() - i,
    {
        assert(l.skip(i as int)[0] == list@[i as int]@);
        assert(l.skip(i as int).skip(1) =~= l.skip(i + 1));
        if is_end_line(&list[i]) {
            return Some(i);
        }
        if begin_key(&list[i]).is_some() {
            return None;
        }
        i += 1;
    }
    None
}

fn find_body<'a>(sections: &'a Vec<(String, String)>, key: &[char]) -> (r: Option<&'a String>)
    ensures
        match (r, body_of(section_views(sections@), key@)) {
            (Some(b), Some(v)) => b@ == v,
            (None, None) => true,
            _ => false,
        },
{
    let ghost secs = section_views(sections@);
    let mut i: usize = 0;
    assert(secs.skip(0) =~= secs);
    while i < sections.len()
        invariant
            i <= sections@.len(),
            secs == section_views(sections@),
            body_of(secs, key@) == body_of(secs.skip(i as int), key@),
        decreases sections.len() - i,
    {
        let ghost t = secs.skip(i as int);
        assert(t[0] == (sections@[i as int].0@, sections@[i as int].1@));
        assert(t.skip(1) =~= secs.skip(i + 1));
        if spells(key, sections[i].0.as_str()) {
            return Some(&sections[i].1);
        }
        i += 1;
    }
    None
}

fn has_key(seen: &Vec<String>, key: &str) -> (r: bool)
    ensures
        r == texts(seen@).contains(key@),
{
    let ghost all = texts(seen@);
    let mut i: usize = 0;
    while i < seen.len()
        invariant
            i <= seen@.len(),
            all == texts(seen@),
            forall|k: int| 0 <= k < i ==> #[trigger] all[k] != key@,
        decreases seen.len() - i,
    {
        assert(all[i as int] == seen@[i as int]@);
        if str_eq(seen[i].as_str(), key) {
            return true;
        }
        i += 1;
    }
    false
}

fn problem(key: &str, what: &str) -> (e: String)
    ensures
        e@ == named_problem(key@, what@),
{
    let mut e = "generated section ".to_owned();
    let q = quote(key);
    e.append(q.as_str());
    e.append(what);
    e
}

/// `doc` with every generated section replaced by its rendering. Every key
/// in `sections` must have a marker in `doc` and every marker a key.
#[verifier::spinoff_prover]
#[verifier::rlimit(50)]
pub fn splice(doc: &str, sections: &Vec<(String, String)>) -> (r: Result<String, String>)
    ensures
        match (r, spliced(doc@, section_views(sections@))) {
            (Ok(t), Ok(v)) => t@ == v,
            (Err(e), Err(v)) => e@ == v,
            _ => false,
        },
{
    let chars = chars_of(doc);
    let list = lines_of(chars.as_slice());
    let ghost l = lines(doc@);
    let ghost secs = section_views(sections@);
    let ghost want = spliced_on(l, secs, seq![], seq![]);
    let mut out: Vec<char> = Vec::new();
    let mut seen: Vec<String> = Vec::new();
    let mut i: usize = 0;
    proof {
        assert(l.skip(0) =~= l);
        assert(texts(seen@) =~= seq![]);
        assert(out@ =~= seq![]);
    }
    while i < list.len()
        invariant
            i <= list@.len(),
            views(list@) == l,
            secs == section_views(sections@),
            l == lines(doc@),
            want == spliced_on(l, secs, seq![], seq![]),
            want == spliced_on(l.skip(i as int), secs, texts(seen@), out@),
        decreases list.len() - i,
    {
        let ghost rest = l.skip(i as int);
        proof {
            assert(rest[0] == list@[i as int]@);
            assert(rest.skip(1) =~= l.skip(i + 1));
            reveal_strlit("\n");
        }
        let ghost before = out@;
        push_chars(&mut out, list[i].as_slice());
        out.push('\n');
        assert(out@ =~= before + rest[0] + "\n"@);
        match begin_key(&list[i]) {
            None => {
                i += 1;
            },
            Some(k) => {
                let key = string_of(k.as_slice());
                let body = match find_body(sections, k.as_slice()) {
                    Some(b) => b,
                    None => {
                        let mut e = "unknown generated section ".to_owned();
                        let q = quote(key.as_str());
                        e.append(q.as_str());
                        return Err(e);
                    },
                };
                if has_key(&seen, key.as_str()) {
                    return Err(problem(key.as_str(), " appears twice"));
                }
                let end = match find_end(&list, i + 1) {
                    Some(n) => n,
                    None => return Err(problem(key.as_str(), " is not closed")),
                };
                let ghost n = end - (i + 1);
                assert(rest.skip(n + 2) =~= l.skip(end + 1));
                let ghost line = out@;
                let ghost keys = texts(seen@);
                let ghost k2 = key@;
                seen.push(key);
                assert(texts(seen@) =~= keys.push(k2));
                let text = chars_of(body.as_str());
                push_chars(&mut out, text.as_slice());
                let mark = chars_of(END);
                push_chars(&mut out, mark.as_slice());
                out.push('\n');
                assert(out@ =~= line + body@ + END@ + "\n"@);
                i = end + 1;
            },
        }
    }
    assert(l.skip(i as int) =~= seq![]);
    let mut k: usize = sections.len();
    let mut missing: Option<usize> = None;
    let ghost keys = texts(seen@);
    assert(secs.skip(k as int) =~= seq![]);
    while k > 0
        invariant
            k <= sections@.len(),
            missing matches Some(o) ==> o < sections@.len(),
            secs == section_views(sections@),
            keys == texts(seen@),
            l == lines(doc@),
            want == spliced_on(l, secs, seq![], seq![]),
            want == Ok::<(Seq<char>, Seq<Seq<char>>), Seq<char>>((out@, keys)),
            unseen(secs.skip(k as int), keys) == (match missing {
                Some(o) => Some(sections@[o as int].0@),
                None => None,
            }),
        decreases k,
    {
        k -= 1;
        let ghost t = secs.skip(k as int);
        assert(t[0] == (sections@[k as int].0@, sections@[k as int].1@));
        assert(t.skip(1) =~= secs.skip(k + 1));
        if !has_key(&seen, sections[k].0.as_str()) {
            missing = Some(lesser_at(sections, k, missing));
        }
    }
    assert(secs.skip(0) =~= secs);
    if let Some(o) = missing {
        let mut e = "the document has no `".to_owned();
        e.append(BEGIN);
        e.append(sections[o].0.as_str());
        e.append(" -->` section");
        return Err(e);
    }
    let ended = chars.len() > 0 && chars[chars.len() - 1] == '\n';
    if out.len() > 0 && !ended {
        let ghost full = out@;
        let _ = out.pop();
        assert(out@ =~= full.drop_last());
    }
    Ok(string_of(out.as_slice()))
}

fn push_chars(out: &mut Vec<char>, cs: &[char])
    ensures
        final(out)@ == old(out)@ + cs@,
{
    let mut i: usize = 0;
    assert(cs@.take(0) =~= seq![]);
    assert(out@ + seq![] =~= out@);
    while i < cs.len()
        invariant
            i <= cs@.len(),
            out@ == old(out)@ + cs@.take(i as int),
        decreases cs.len() - i,
    {
        out.push(cs[i]);
        assert(cs@.take(i + 1) =~= cs@.take(i as int).push(cs@[i as int]));
        assert(out@ =~= old(out)@ + cs@.take(i + 1));
        i += 1;
    }
    assert(cs@.take(i as int) =~= cs@);
}

// ----- splicing twice ---------------------------------------------------------------------

/// Whether a text has no line feed in it.
pub open spec fn one_line(t: Seq<char>) -> bool {
    forall|i: int| 0 <= i < t.len() ==> #[trigger] t[i] != '\n'
}

/// Whether a line reads back as it is before a line feed.
pub open spec fn keeps(t: Seq<char>) -> bool {
    one_line(t) && (t.len() == 0 || t.last() != '\r')
}

/// Whether some lines read back as they are: each before a line feed, but
/// for the last.
pub open spec fn keep_all(v: Seq<Seq<char>>) -> bool {
    &&& forall|i: int| 0 <= i < v.len() - 1 ==> keeps(#[trigger] v[i])
    &&& v.len() > 0 ==> one_line(v.last())
}

/// Whether a text is whole lines.
pub open spec fn whole(t: Seq<char>) -> bool {
    t.len() == 0 || t.last() == '\n'
}

/// Whether a body is whole lines, none of which is a marker.
pub open spec fn tidy(body: Seq<char>) -> bool {
    &&& whole(body)
    &&& forall|i: int|
        0 <= i < lines(body).len() ==> !is_end(#[trigger] lines(body)[i]) && key_of(lines(body)[i])
            is None
}

/// Whether no line of a text ends in two carriage returns before its line
/// feed. One goes with the line feed, another would be part of the line.
pub open spec fn single_returns(t: Seq<char>) -> bool {
    forall|i: int|
        0 <= i < t.len() - 2 ==> !(#[trigger] t[i] == '\r' && t[i + 1] == '\r' && t[i + 2] == '\n')
}

pub open spec fn all_tidy(secs: Bodies) -> bool {
    forall|i: int| 0 <= i < secs.len() ==> tidy((#[trigger] secs[i]).1)
}

/// The lines of whole lines with more behind them.
proof fn lemma_lines_add(a: Seq<char>, b: Seq<char>)
    requires
        whole(a),
    ensures
        lines(a + b) == lines(a) + lines(b),
    decreases a.len(),
{
    if a.len() == 0 {
        assert(a + b =~= b);
        assert(lines(a) + lines(b) =~= lines(b));
    } else {
        lemma_find_bounds(a, '\n');
        let n = find(a, '\n');
        assert(a[a.len() - 1] == '\n');
        let head = a.take(n);
        let rest = a.skip(n + 1);
        assert(whole(rest)) by {
            if rest.len() > 0 {
                assert(rest.last() == a.last());
            }
        }
        lemma_lines_add(rest, b);
        assert forall|i: int| 0 <= i < head.len() implies #[trigger] head[i] != '\n' by {
            assert(head[i] == a[i]);
        }
        assert(a =~= head + seq!['\n'] + rest);
        assert(a + b =~= head + seq!['\n'] + (rest + b));
        lemma_first_line_cr(head, rest);
        lemma_first_line_cr(head, rest + b);
        assert(lines(a + b) =~= lines(a) + lines(b));
    }
}

/// A line that is kept, with its line feed, is that line.
proof fn lemma_line_kept(t: Seq<char>)
    requires
        keeps(t),
    ensures
        lines(t.push('\n')) == seq![t],
{
    assert(t.push('\n') =~= t + seq!['\n'] + Seq::<char>::empty());
    lemma_first_line_cr(t, Seq::empty());
    assert(seq![t] + Seq::<Seq<char>>::empty() =~= seq![t]);
}

/// A line without a line feed is itself, whatever it ends in.
proof fn lemma_last_line(t: Seq<char>)
    requires
        one_line(t),
        t.len() > 0,
    ensures
        lines(t) == seq![t],
{
    lemma_find(t, '\n', t.len() as int);
}

/// The lines of a text read back as they are, where no line ends in two
/// carriage returns.
proof fn lemma_lines_kept(t: Seq<char>)
    requires
        single_returns(t),
    ensures
        keep_all(lines(t)),
        t.len() > 0 ==> lines(t).len() > 0,
        t.len() > 0 && whole(t) ==> keeps(lines(t).last()),
        !whole(t) ==> lines(t).last().len() > 0,
    decreases t.len(),
{
    if t.len() > 0 {
        lemma_find_bounds(t, '\n');
        let n = find(t, '\n');
        if n >= t.len() {
            assert(lines(t) =~= seq![t]);
            assert(one_line(t));
            assert(t.last() != '\n');
        } else {
            let head = t.take(n);
            let rest = t.skip(n + 1);
            assert(single_returns(rest)) by {
                assert forall|i: int| 0 <= i < rest.len() - 2 implies !(#[trigger] rest[i] == '\r'
                    && rest[i + 1] == '\r' && rest[i + 2] == '\n') by {
                    assert(rest[i] == t[i + n + 1]);
                    assert(rest[i + 1] == t[i + n + 2]);
                    assert(rest[i + 2] == t[i + n + 3]);
                }
            }
            lemma_lines_kept(rest);
            let first = strip_cr(head);
            assert(keeps(first)) by {
                assert forall|i: int| 0 <= i < first.len() implies #[trigger] first[i] != '\n' by {
                    assert(first[i] == t[i]);
                }
                if first.len() > 0 && first.last() == '\r' {
                    assert(head.last() == '\r');
                    assert(t[n - 2] == '\r' && t[n - 1] == '\r' && t[n] == '\n');
                }
            }
            let l = lines(t);
            assert(l == seq![first] + lines(rest));
            assert forall|i: int| 0 <= i < l.len() - 1 implies keeps(#[trigger] l[i]) by {
                if i > 0 {
                    assert(l[i] == lines(rest)[i - 1]);
                }
            }
            if rest.len() > 0 {
                assert(rest.last() == t.last());
                assert(l.last() == lines(rest).last());
            } else {
                assert(lines(rest) =~= seq![]);
                assert(l =~= seq![first]);
                assert(t[n] == '\n' && t.len() == n + 1);
            }
        }
    }
}

/// The lines of a document that a splice does not take out, with the marks
/// that close its sections.
pub open spec fn outside(l: Seq<Seq<char>>) -> Seq<Seq<char>>
    decreases l.len(),
{
    if l.len() == 0 {
        seq![]
    } else {
        match (key_of(l[0]), closing(l.skip(1))) {
            (Some(_), Some(n)) => if n < 0 || n + 2 > l.len() {
                seq![l[0]]
            } else {
                seq![l[0], END@] + outside(l.skip(n + 2))
            },
            _ => seq![l[0]] + outside(l.skip(1)),
        }
    }
}

/// Whether no line that stays ends in a carriage return of its own. One
/// goes with the line feed; where the document does not end in a line feed
/// its last line is free.
pub open spec fn settled(doc: Seq<char>) -> bool {
    let v = outside(lines(doc));
    forall|i: int|
        0 <= i < v.len() && (i < v.len() - 1 || whole(doc)) ==> (#[trigger] v[i]).len() == 0
            || v[i].last() != '\r'
}

/// What is outside the bodies of some lines is those lines and marks, and
/// ends as they do.
proof fn lemma_outside(l: Seq<Seq<char>>)
    requires
        forall|i: int| 0 <= i < l.len() ==> one_line(#[trigger] l[i]),
    ensures
        l.len() > 0 <==> outside(l).len() > 0,
        forall|i: int| 0 <= i < outside(l).len() ==> one_line(#[trigger] outside(l)[i]),
        l.len() > 0 && l.last().len() > 0 ==> outside(l).last().len() > 0,
        keep_all(l) ==> keep_all(outside(l)),
        l.len() > 0 && keep_all(l) && keeps(l.last()) ==> keeps(outside(l).last()),
    decreases l.len(),
{
    if l.len() > 0 {
        let v = outside(l);
        lemma_end_mark();
        let k = closing(l.skip(1));
        let cut = key_of(l[0]) is Some && k is Some;
        if cut && (k->0 < 0 || k->0 + 2 > l.len()) {
            lemma_closing_bounds(l.skip(1));
        } else {
            let m: int = if cut { k->0 + 2 } else { 1 };
            let front = if cut { seq![l[0], END@] } else { seq![l[0]] };
            let r = l.skip(m);
            assert forall|i: int| 0 <= i < r.len() implies one_line(#[trigger] r[i]) by {
                assert(r[i] == l[i + m]);
            }
            lemma_outside(r);
            assert(v == front + outside(r));
            assert(one_line(l[0]));
            assert forall|i: int| 0 <= i < v.len() implies one_line(#[trigger] v[i]) by {
                if i >= front.len() {
                    assert(v[i] == outside(r)[i - front.len()]);
                }
            }
            if r.len() > 0 {
                assert(r.last() == l.last());
                assert(v.last() == outside(r).last());
            } else {
                assert(outside(r) =~= seq![]);
                assert(v =~= front);
            }
            if keep_all(l) {
                lemma_skip_kept(l, m);
                assert(l.len() > 1 ==> keeps(l[0]));
                assert forall|i: int| 0 <= i < v.len() - 1 implies keeps(#[trigger] v[i]) by {
                    if i >= front.len() {
                        assert(v[i] == outside(r)[i - front.len()]);
                    }
                }
            }
        }
    }
}

proof fn lemma_closing_bounds(l: Seq<Seq<char>>)
    ensures
        closing(l) matches Some(n) ==> 0 <= n < l.len(),
    decreases l.len(),
{
    if l.len() > 0 {
        lemma_closing_bounds(l.skip(1));
    }
}

/// Where no line ends in two carriage returns, as where each stands singly
/// before a line feed, no line that stays keeps one.
pub proof fn law_single_returns_are_settled(doc: Seq<char>)
    requires
        single_returns(doc),
    ensures
        settled(doc),
{
    let l = lines(doc);
    lemma_lines_kept(doc);
    assert forall|i: int| 0 <= i < l.len() implies one_line(#[trigger] l[i]) by {
        lemma_lines_whole(doc, i);
    }
    lemma_outside(l);
    let v = outside(l);
    assert forall|i: int| 0 <= i < v.len() && (i < v.len() - 1 || whole(doc)) implies (
    #[trigger] v[i]).len() == 0 || v[i].last() != '\r' by {
        if i < v.len() - 1 {
            assert(keeps(v[i]));
        } else {
            assert(doc.len() > 0) by {
                if doc.len() == 0 {
                    assert(l =~= seq![]);
                }
            }
        }
    }
}

/// The lines that a splice leaves.
pub open spec fn left_lines(l: Seq<Seq<char>>, secs: Bodies) -> Seq<Seq<char>>
    decreases l.len(),
{
    if l.len() == 0 {
        seq![]
    } else {
        match key_of(l[0]) {
            None => seq![l[0]] + left_lines(l.skip(1), secs),
            Some(key) => match (body_of(secs, key), closing(l.skip(1))) {
                (Some(body), Some(n)) => if n < 0 || n + 2 > l.len() {
                    seq![]
                } else {
                    seq![l[0]] + lines(body) + seq![END@] + left_lines(l.skip(n + 2), secs)
                },
                _ => seq![],
            },
        }
    }
}

/// The text that a splice leaves.
pub open spec fn left_text(l: Seq<Seq<char>>, secs: Bodies) -> Seq<char>
    decreases l.len(),
{
    if l.len() == 0 {
        seq![]
    } else {
        match key_of(l[0]) {
            None => l[0].push('\n') + left_text(l.skip(1), secs),
            Some(key) => match (body_of(secs, key), closing(l.skip(1))) {
                (Some(body), Some(n)) => if n < 0 || n + 2 > l.len() {
                    seq![]
                } else {
                    l[0].push('\n') + body + END@.push('\n') + left_text(l.skip(n + 2), secs)
                },
                _ => seq![],
            },
        }
    }
}

/// What is left of lines reads back as their lines: with its last line
/// feed where the last line that stays is kept, and without it where that
/// is not empty.
pub open spec fn reads_back(l: Seq<Seq<char>>, v: Seq<Seq<char>>, t: Seq<char>) -> bool {
    &&& whole(t)
    &&& l.len() > 0 ==> t.len() > 0 && v.len() > 0
    &&& l.len() == 0 ==> t.len() == 0 && v.len() == 0
    &&& l.len() > 0 && keeps(l.last()) ==> lines(t) == v
    &&& l.len() > 0 && l.last().len() > 0 ==> lines(t.drop_last()) == v && t.drop_last().len() > 0
        && t.drop_last().last() != '\n'
}

proof fn lemma_body_tidy(secs: Bodies, key: Seq<char>)
    requires
        all_tidy(secs),
    ensures
        body_of(secs, key) matches Some(b) ==> tidy(b),
    decreases secs.len(),
{
    if secs.len() > 0 {
        let r = secs.skip(1);
        assert forall|i: int| 0 <= i < r.len() implies tidy((#[trigger] r[i]).1) by {
            assert(r[i] == secs[i + 1]);
        }
        lemma_body_tidy(r, key);
        assert(tidy(secs[0].1));
    }
}

proof fn lemma_skip_kept(l: Seq<Seq<char>>, n: int)
    requires
        keep_all(l),
        0 <= n <= l.len(),
    ensures
        keep_all(l.skip(n)),
        n < l.len() ==> l.skip(n).last() == l.last(),
{
    let r = l.skip(n);
    assert forall|i: int| 0 <= i < r.len() - 1 implies keeps(#[trigger] r[i]) by {
        assert(r[i] == l[i + n]);
    }
}

/// A section's lines close where its mark stands.
proof fn lemma_closes_at(body: Seq<Seq<char>>, rest: Seq<Seq<char>>)
    requires
        forall|i: int| 0 <= i < body.len() ==> !is_end(#[trigger] body[i]) && key_of(body[i]) is None,
        is_end(END@),
    ensures
        closing(body + seq![END@] + rest) == Some(body.len() as int),
    decreases body.len(),
{
    let l = body + seq![END@] + rest;
    if body.len() == 0 {
        assert(l[0] == END@);
    } else {
        let b = body.skip(1);
        assert(l.skip(1) =~= b + seq![END@] + rest);
        assert forall|i: int| 0 <= i < b.len() implies !is_end(#[trigger] b[i]) && key_of(b[i])
            is None by {
            assert(b[i] == body[i + 1]);
        }
        lemma_closes_at(b, rest);
        assert(l[0] == body[0]);
    }
}

proof fn lemma_end_mark()
    ensures
        is_end(END@),
        keeps(END@),
        END@.len() > 0,
{
    reveal_strlit("<!-- /generated -->");
    assert(END@.last() == '>');
    assert(trim_end(END@) == END@);
}

/// Whole lines put before what reads back.
proof fn lemma_put_before(
    front: Seq<char>,
    r: Seq<Seq<char>>,
    v: Seq<Seq<char>>,
    t: Seq<char>,
)
    requires
        whole(front),
        reads_back(r, v, t),
        r.len() > 0,
    ensures
        whole(front + t),
        (front + t).len() > 0,
        keeps(r.last()) ==> lines(front + t) == lines(front) + v,
        r.last().len() > 0 ==> lines((front + t).drop_last()) == lines(front) + v && (front
            + t).drop_last().len() > 0 && (front + t).drop_last().last() != '\n',
{
    assert((front + t).last() == t.last());
    lemma_lines_add(front, t);
    assert((front + t).drop_last() =~= front + t.drop_last());
    lemma_lines_add(front, t.drop_last());
    if r.last().len() > 0 {
        assert((front + t.drop_last()).last() == t.drop_last().last());
    }
}

/// The step of [`lemma_splice_again`] over a line that opens nothing.
proof fn lemma_line_again(l: Seq<Seq<char>>, secs: Bodies)
    requires
        l.len() > 0,
        keep_all(outside(l)),
        key_of(l[0]) is None,
        reads_back(outside(l.skip(1)), left_lines(l.skip(1), secs), left_text(l.skip(1), secs)),
    ensures
        reads_back(outside(l), left_lines(l, secs), left_text(l, secs)),
{
    let r = outside(l.skip(1));
    let o = outside(l);
    let v = left_lines(l.skip(1), secs);
    let t = left_text(l.skip(1), secs);
    let front = l[0].push('\n');
    assert(o == seq![l[0]] + r);
    assert(whole(front));
    if r.len() > 0 {
        assert(keeps(o[0]));
        lemma_line_kept(l[0]);
        lemma_put_before(front, r, v, t);
        assert(r.last() == o.last());
    } else {
        assert(o =~= seq![l[0]]);
        assert(v =~= seq![]);
        assert(t =~= seq![]);
        assert(seq![l[0]] + v =~= seq![l[0]]);
        assert(front + t =~= front);
        assert(front.drop_last() =~= l[0]);
        if keeps(l[0]) {
            lemma_line_kept(l[0]);
        }
        if l[0].len() > 0 {
            lemma_last_line(l[0]);
        }
    }
}

/// The step of [`lemma_splice_again`] over a section.
proof fn lemma_section_again(l: Seq<Seq<char>>, secs: Bodies, key: Seq<char>, n: int)
    requires
        l.len() > 0,
        keep_all(outside(l)),
        key_of(l[0]) == Some(key),
        body_of(secs, key) is Some,
        tidy(body_of(secs, key)->0),
        closing(l.skip(1)) == Some(n),
        0 <= n,
        n + 2 <= l.len(),
        reads_back(
            outside(l.skip(n + 2)),
            left_lines(l.skip(n + 2), secs),
            left_text(l.skip(n + 2), secs),
        ),
    ensures
        reads_back(outside(l), left_lines(l, secs), left_text(l, secs)),
        closing(left_lines(l, secs).skip(1)) == Some(lines(body_of(secs, key)->0).len() as int),
        left_lines(l, secs)[0] == l[0],
        left_lines(l, secs).skip(lines(body_of(secs, key)->0).len() as int + 2) == left_lines(
            l.skip(n + 2),
            secs,
        ),
{
    let body = body_of(secs, key)->0;
    let r = outside(l.skip(n + 2));
    let o = outside(l);
    let rest = left_lines(l.skip(n + 2), secs);
    let t = left_text(l.skip(n + 2), secs);
    let bl = lines(body);
    let v = left_lines(l, secs);
    let mark = END@.push('\n');
    lemma_end_mark();
    lemma_closes_at(bl, rest);
    assert(v == seq![l[0]] + bl + seq![END@] + rest);
    assert(v.skip(1) =~= bl + seq![END@] + rest);
    assert(v.skip(bl.len() as int + 2) =~= rest);
    assert(o == seq![l[0], END@] + r);
    assert(keeps(o[0]));
    lemma_line_kept(l[0]);
    lemma_line_kept(END@);
    let opened = l[0].push('\n') + body;
    assert(whole(l[0].push('\n')));
    lemma_lines_add(l[0].push('\n'), body);
    assert(whole(opened)) by {
        if body.len() > 0 {
            assert(opened.last() == body.last());
        } else {
            assert(opened =~= l[0].push('\n'));
        }
    }
    lemma_lines_add(opened, mark);
    let front = opened + mark;
    assert(front.last() == '\n');
    assert(lines(front) == seq![l[0]] + bl + seq![END@]);
    assert(left_text(l, secs) == front + t);
    if r.len() > 0 {
        lemma_put_before(front, r, rest, t);
        assert(r.last() == o.last());
    } else {
        assert(o =~= seq![l[0], END@]);
        assert(rest =~= seq![]);
        assert(t =~= seq![]);
        assert(front + t =~= front);
        assert(v =~= lines(front));
        assert(front.drop_last() =~= opened + END@);
        lemma_lines_add(opened, END@);
        lemma_last_line(END@);
        assert((opened + END@).last() == END@.last());
    }
}

/// What a splice leaves, and that splicing its lines leaves the same.
proof fn lemma_splice_again(
    l: Seq<Seq<char>>,
    secs: Bodies,
    seen: Seq<Seq<char>>,
    out: Seq<char>,
)
    requires
        all_tidy(secs),
        keep_all(outside(l)),
        spliced_on(l, secs, seen, out) is Ok,
    ensures
        reads_back(outside(l), left_lines(l, secs), left_text(l, secs)),
        spliced_on(l, secs, seen, out)->Ok_0.0 == out + left_text(l, secs),
        spliced_on(left_lines(l, secs), secs, seen, out) == spliced_on(l, secs, seen, out),
    decreases l.len(),
{
    reveal_strlit("\n");
    assert("\n"@ =~= seq!['\n']);
    let o = outside(l);
    if l.len() == 0 {
        assert(out + left_text(l, secs) =~= out);
        assert(left_lines(l, secs) =~= l);
    } else {
        let line = out + l[0] + "\n"@;
        let v = left_lines(l, secs);
        match key_of(l[0]) {
            None => {
                let r = l.skip(1);
                assert(o.skip(1) =~= outside(r));
                lemma_skip_kept(o, 1);
                lemma_splice_again(r, secs, seen, line);
                lemma_line_again(l, secs);
                assert(v.skip(1) =~= left_lines(r, secs));
                assert(v[0] == l[0]);
                assert(out + left_text(l, secs) =~= line + left_text(r, secs));
            },
            Some(key) => {
                let n = closing(l.skip(1))->0;
                let body = body_of(secs, key)->0;
                let r = l.skip(n + 2);
                let text = line + body + END@ + "\n"@;
                lemma_body_tidy(secs, key);
                assert(o.skip(2) =~= outside(r));
                lemma_skip_kept(o, 2);
                lemma_splice_again(r, secs, seen.push(key), text);
                lemma_section_again(l, secs, key, n);
                assert(out + left_text(l, secs) =~= text + left_text(r, secs));
                assert(v.len() >= lines(body).len() + 2);
            },
        }
    }
}

/// The last line of a text that does not end in a line feed is not empty.
proof fn lemma_open_end(t: Seq<char>)
    ensures
        t.len() > 0 ==> lines(t).len() > 0,
        !whole(t) ==> lines(t).last().len() > 0,
    decreases t.len(),
{
    if t.len() > 0 {
        lemma_find_bounds(t, '\n');
        let n = find(t, '\n');
        if n < t.len() {
            let rest = t.skip(n + 1);
            lemma_open_end(rest);
            if rest.len() > 0 {
                assert(rest.last() == t.last());
                assert(lines(t).last() == lines(rest).last());
            } else {
                assert(t.last() == t[n]);
            }
        }
    }
}

/// Splicing a document that was spliced gives the same document: what is
/// written is not stale. The sections are whole lines without markers, and
/// no line of the document that stays ends in a carriage return of its own.
pub proof fn law_splicing_is_idempotent(doc: Seq<char>, secs: Bodies)
    requires
        settled(doc),
        all_tidy(secs),
        spliced(doc, secs) is Ok,
    ensures
        spliced(spliced(doc, secs)->Ok_0, secs) == spliced(doc, secs),
{
    let l = lines(doc);
    let o = outside(l);
    assert forall|i: int| 0 <= i < l.len() implies one_line(#[trigger] l[i]) by {
        lemma_lines_whole(doc, i);
    }
    lemma_open_end(doc);
    lemma_outside(l);
    assert(keep_all(o)) by {
        assert forall|i: int| 0 <= i < o.len() - 1 implies keeps(#[trigger] o[i]) by {
            assert(one_line(o[i]));
        }
        if o.len() > 0 {
            assert(one_line(o[o.len() - 1]));
        }
    }
    if o.len() > 0 && whole(doc) {
        assert(one_line(o[o.len() - 1]));
        assert(keeps(o.last()));
    }
    lemma_splice_again(l, secs, seq![], seq![]);
    let t = left_text(l, secs);
    let out = spliced_on(l, secs, seq![], seq![])->Ok_0.0;
    assert(out =~= t);
    if doc.len() == 0 {
        assert(l =~= seq![]);
        assert(lines(t) =~= seq![]);
    }
}

} // verus!
