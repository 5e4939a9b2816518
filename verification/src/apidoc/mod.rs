//! The reference sections of an API document, rendered from binding
//! descriptors and spliced between HTML comment markers. The prose around
//! the markers is handwritten and untouched.
//!
//! A section starts with `<!-- generated: <key> -->` on its own line and
//! ends with `<!-- /generated -->`; `<key>` is a group's key. Rendering is
//! a pure function of the inventory, so a check can compare in memory and
//! a write produces the same bytes every time.

pub mod diffing;
pub mod splicing;

use vstd::prelude::*;
use vstd::string::*;
use vstd::utf8::*;
use crate::text::{
    chars_of, copy_chars, find, find_char, split, split_of, starts_with, string_of, views,
};

verus! {

/// Start of a generated section, followed by the key and ` -->`.
pub const BEGIN: &'static str = "<!-- generated: ";

/// End of a generated section.
pub const END: &'static str = "<!-- /generated -->";

/// Line width the bullets wrap at, in bytes.
pub const WIDTH: usize = 72;

/// What a group's table looks like: the standard library's entries return
/// what Lua's do, so theirs has no returns column.
#[derive(Debug, Clone, Copy, PartialEq, Eq, Structural)]
pub enum GroupKind {
    Calls,
    Methods,
    Library,
}

/// A section of the document.
#[derive(Debug)]
pub struct Group {
    pub key: String,
    pub kind: GroupKind,
}

/// One way to call a binding. A signature may stand in another group's
/// table, and have another price, than its binding.
#[derive(Debug)]
pub struct Sig {
    pub call: String,
    pub returns: String,
    pub group: Option<usize>,
    pub price: Option<String>,
}

/// A binding's descriptor. Groups are numbered.
#[derive(Debug)]
pub struct Binding {
    pub name: String,
    /// The name with its table.
    pub qualified: String,
    pub sigs: Vec<Sig>,
    pub group: usize,
    pub price: String,
    pub doc: String,
    /// Arguments and what they default to.
    pub defaults: Vec<(String, String)>,
    pub errors: Vec<String>,
}

// ----- tables and bullets -----------------------------------------------------------------

/// Texts with a text between each two.
pub open spec fn joined(v: Seq<Seq<char>>, between: Seq<char>) -> Seq<char>
    decreases v.len(),
{
    if v.len() == 0 {
        seq![]
    } else if v.len() == 1 {
        v[0]
    } else {
        joined(v.drop_last(), between) + between + v.last()
    }
}

pub open spec fn head_of(kind: GroupKind) -> Seq<char> {
    match kind {
        GroupKind::Calls => "| call | returns | cycles |\n|---|---|---|\n"@,
        GroupKind::Methods => "| method | returns | cycles |\n|---|---|---|\n"@,
        GroupKind::Library => "| call | cycles |\n|---|---|\n"@,
    }
}

/// The row of a signature, if it stands in a group's table.
pub open spec fn row_of(b: Binding, s: Sig, group: usize, kind: GroupKind) -> Seq<char> {
    let at = match s.group {
        Some(g) => g,
        None => b.group,
    };
    let cycles = match s.price {
        Some(p) => p@,
        None => b.price@,
    };
    if at != group {
        seq![]
    } else if kind is Library {
        "| `"@ + s.call@ + "` | "@ + cycles + " |\n"@
    } else {
        "| `"@ + s.call@ + "` | "@ + s.returns@ + " | "@ + cycles + " |\n"@
    }
}

/// The rows of a binding's first `n` signatures.
pub open spec fn rows_upto(b: Binding, n: int, group: usize, kind: GroupKind) -> Seq<char>
    decreases n,
{
    if n <= 0 {
        seq![]
    } else {
        rows_upto(b, n - 1, group, kind) + row_of(b, b.sigs@[n - 1], group, kind)
    }
}

/// The rows of the first `n` bindings.
pub open spec fn table_upto(inv: Seq<Binding>, n: int, group: usize, kind: GroupKind) -> Seq<char>
    decreases n,
{
    if n <= 0 {
        seq![]
    } else {
        table_upto(inv, n - 1, group, kind) + rows_upto(
            inv[n - 1],
            inv[n - 1].sigs@.len() as int,
            group,
            kind,
        )
    }
}

/// A binding's name as the bullets show it: a metamethod is shown by how
/// it is called.
pub open spec fn shown(b: Binding) -> Seq<char> {
    if "__"@.is_prefix_of(b.name@) && b.sigs@.len() > 0 {
        b.sigs@[0].call@.take(find(b.sigs@[0].call@, '('))
    } else {
        b.qualified@
    }
}

pub open spec fn default_text(p: (String, String)) -> Seq<char> {
    "`"@ + p.0@ + "` = "@ + p.1@
}

pub open spec fn code_text(s: String) -> Seq<char> {
    "`"@ + s@ + "`"@
}

/// A sentence behind a text.
pub open spec fn with_sentence(text: Seq<char>, sentence: Seq<char>) -> Seq<char> {
    if sentence.len() == 0 {
        text
    } else if text.len() == 0 {
        sentence
    } else {
        text + " "@ + sentence
    }
}

/// What a bullet says of a binding: its doc, its defaults, its errors.
pub open spec fn said_of(b: Binding) -> Seq<char> {
    let defaults = if b.defaults@.len() == 0 {
        seq![]
    } else {
        "Defaults: "@ + joined(b.defaults@.map_values(|p: (String, String)| default_text(p)), ", "@)
            + "."@
    };
    let errors = if b.errors@.len() == 0 {
        seq![]
    } else {
        "Errors: "@ + joined(b.errors@.map_values(|e: String| code_text(e)), ", "@) + "."@
    };
    with_sentence(with_sentence(b.doc@, defaults), errors)
}

/// The bullet of a binding in its own group.
pub open spec fn bullet_of(b: Binding, group: usize) -> Seq<char> {
    if b.group != group || said_of(b).len() == 0 {
        seq![]
    } else {
        wrapped("- `"@ + shown(b) + "`: "@ + said_of(b)) + "\n"@
    }
}

pub open spec fn bullets_upto(inv: Seq<Binding>, n: int, group: usize) -> Seq<char>
    decreases n,
{
    if n <= 0 {
        seq![]
    } else {
        bullets_upto(inv, n - 1, group) + bullet_of(inv[n - 1], group)
    }
}

/// The body of a section.
pub open spec fn section_of(inv: Seq<Binding>, group: usize, kind: GroupKind) -> Seq<char> {
    let bullets = bullets_upto(inv, inv.len() as int, group);
    head_of(kind) + table_upto(inv, inv.len() as int, group, kind) + (if bullets.len() == 0 {
        seq![]
    } else {
        "\n"@ + bullets
    })
}

/// Bytes of a text.
pub open spec fn bytes_in(t: Seq<char>) -> nat {
    encode_utf8(t).len()
}

/// Words from `i` on put behind a line that is being filled, behind a
/// text.
pub open spec fn wrapped_from(words: Seq<Seq<char>>, i: int, out: Seq<char>, line: Seq<char>) -> Seq<
    char,
>
    decreases words.len() - i,
{
    if i >= words.len() {
        out + line
    } else if line.len() == 0 {
        wrapped_from(words, i + 1, out, words[i])
    } else if bytes_in(line) + 1 + bytes_in(words[i]) > WIDTH {
        wrapped_from(words, i + 1, out + line + "\n"@, "  "@ + words[i])
    } else {
        wrapped_from(words, i + 1, out, line + " "@ + words[i])
    }
}

/// A bullet wrapped at [`WIDTH`], continuation lines indented.
pub open spec fn wrapped(text: Seq<char>) -> Seq<char> {
    wrapped_from(split(text, ' '), 0, seq![], seq![])
}

/// Word-wrap a bullet at [`WIDTH`], continuation lines indented.
pub fn wrap(text: &str) -> (r: String)
    ensures
        r@ == wrapped(text@),
{
    let chars = chars_of(text);
    let words = split_of(chars.as_slice(), ' ');
    let ghost all = split(text@, ' ');
    let mut out = String::new();
    let mut line = String::new();
    let mut i: usize = 0;
    assert(out@ =~= seq![] && line@ =~= seq![]);
    while i < words.len()
        invariant
            i <= words@.len(),
            views(words@) == all,
            wrapped(text@) == wrapped_from(all, i as int, out@, line@),
            all == split(text@, ' '),
        decreases words.len() - i,
    {
        assert(all[i as int] == words@[i as int]@);
        let word = string_of(words[i].as_slice());
        let n: usize = line.as_str().as_bytes().len();
        let w: usize = word.as_str().as_bytes().len();
        proof {
            crate::text::lemma_no_bytes(line@);
        }
        if n == 0 {
            line = word;
        } else if n > WIDTH || w > WIDTH || n + 1 + w > WIDTH {
            out.append(line.as_str());
            out.append("\n");
            line = "  ".to_owned();
            line.append(word.as_str());
        } else {
            line.append(" ");
            line.append(word.as_str());
        }
        i += 1;
    }
    out.append(line.as_str());
    out
}

fn display(b: &Binding) -> (r: String)
    ensures
        r@ == shown(*b),
{
    let name = chars_of(b.name.as_str());
    if starts_with(name.as_slice(), "__") && b.sigs.len() > 0 {
        let call = chars_of(b.sigs[0].call.as_str());
        let n = find_char(call.as_slice(), '(');
        let head = copy_chars(call.as_slice(), 0, n);
        assert(head@ =~= call@.take(n as int));
        string_of(head.as_slice())
    } else {
        b.qualified.clone()
    }
}

fn push_row(out: &mut String, b: &Binding, s: &Sig, group: usize, kind: GroupKind)
    ensures
        final(out)@ == old(out)@ + row_of(*b, *s, group, kind),
{
    let at: usize = match s.group {
        Some(g) => g,
        None => b.group,
    };
    if at != group {
        assert(out@ + seq![] =~= out@);
        return;
    }
    let ghost before = out@;
    out.append("| `");
    out.append(s.call.as_str());
    out.append("` | ");
    if kind != GroupKind::Library {
        out.append(s.returns.as_str());
        out.append(" | ");
    }
    match &s.price {
        Some(p) => out.append(p.as_str()),
        None => out.append(b.price.as_str()),
    }
    out.append(" |\n");
    assert(out@ =~= before + row_of(*b, *s, group, kind));
}

fn said(b: &Binding) -> (text: String)
    ensures
        text@ == said_of(*b),
{
    let mut text = b.doc.clone();
    let ghost start = text@;
    proof {
        crate::text::lemma_no_bytes(start);
    }
    let ghost defaults = if b.defaults@.len() == 0 {
        seq![]
    } else {
        "Defaults: "@ + joined(b.defaults@.map_values(|p: (String, String)| default_text(p)), ", "@)
            + "."@
    };
    if b.defaults.len() > 0 {
        let ghost list = b.defaults@.map_values(|p: (String, String)| default_text(p));
        if text.as_str().as_bytes().len() > 0 {
            text.append(" ");
        }
        text.append("Defaults: ");
        let ghost head = text@;
        let mut i: usize = 0;
        assert(list.take(0) =~= seq![]);
        assert(head + seq![] =~= head);
        while i < b.defaults.len()
            invariant
                i <= b.defaults@.len(),
                list == b.defaults@.map_values(|p: (String, String)| default_text(p)),
                text@ == head + joined(list.take(i as int), ", "@),
            decreases b.defaults.len() - i,
        {
            if i > 0 {
                text.append(", ");
            }
            text.append("`");
            text.append(b.defaults[i].0.as_str());
            text.append("` = ");
            text.append(b.defaults[i].1.as_str());
            proof {
                lemma_joined_step(list, i as int, ", "@);
                assert(list[i as int] == default_text(b.defaults@[i as int]));
                assert(text@ =~= head + joined(list.take(i + 1), ", "@));
            }
            i += 1;
        }
        assert(list.take(i as int) =~= list);
        text.append(".");
        proof {
            reveal_strlit("Defaults: ");
            assert(text@ =~= with_sentence(start, defaults));
        }
    }
    let ghost mid = text@;
    assert(mid == with_sentence(b.doc@, defaults));
    proof {
        crate::text::lemma_no_bytes(mid);
    }
    if b.errors.len() > 0 {
        let ghost list = b.errors@.map_values(|e: String| code_text(e));
        if text.as_str().as_bytes().len() > 0 {
            text.append(" ");
        }
        text.append("Errors: ");
        let ghost head = text@;
        let mut i: usize = 0;
        assert(list.take(0) =~= seq![]);
        assert(head + seq![] =~= head);
        while i < b.errors.len()
            invariant
                i <= b.errors@.len(),
                list == b.errors@.map_values(|e: String| code_text(e)),
                text@ == head + joined(list.take(i as int), ", "@),
            decreases b.errors.len() - i,
        {
            if i > 0 {
                text.append(", ");
            }
            text.append("`");
            text.append(b.errors[i].as_str());
            text.append("`");
            proof {
                lemma_joined_step(list, i as int, ", "@);
                assert(list[i as int] == code_text(b.errors@[i as int]));
                assert(text@ =~= head + joined(list.take(i + 1), ", "@));
            }
            i += 1;
        }
        assert(list.take(i as int) =~= list);
        text.append(".");
        proof {
            reveal_strlit("Errors: ");
            let errors = "Errors: "@ + joined(list, ", "@) + "."@;
            assert(text@ =~= with_sentence(mid, errors));
        }
    }
    text
}

pub proof fn lemma_joined_step(list: Seq<Seq<char>>, i: int, between: Seq<char>)
    requires
        0 <= i < list.len(),
    ensures
        joined(list.take(i + 1), between) == joined(list.take(i), between) + (if i > 0 {
            between
        } else {
            seq![]
        }) + list[i],
{
    let t = list.take(i + 1);
    assert(t.drop_last() =~= list.take(i));
    if i == 0 {
        assert(t =~= seq![list[0]]);
        assert(joined(list.take(0), between) =~= seq![]);
        assert(joined(t, between) =~= seq![] + seq![] + list[0]);
    }
}

/// The body of a group's section.
pub fn section(group: usize, kind: GroupKind, inventory: &Vec<Binding>) -> (out: String)
    ensures
        out@ == section_of(inventory@, group, kind),
{
    let mut out = String::new();
    match kind {
        GroupKind::Calls => out.append("| call | returns | cycles |\n|---|---|---|\n"),
        GroupKind::Methods => out.append("| method | returns | cycles |\n|---|---|---|\n"),
        GroupKind::Library => out.append("| call | cycles |\n|---|---|\n"),
    }
    let ghost head = head_of(kind);
    assert(out@ =~= head);
    let mut i: usize = 0;
    assert(head + seq![] =~= head);
    while i < inventory.len()
        invariant
            i <= inventory@.len(),
            out@ == head + table_upto(inventory@, i as int, group, kind),
        decreases inventory.len() - i,
    {
        let b = &inventory[i];
        let ghost before = out@;
        let mut k: usize = 0;
        assert(before + seq![] =~= before);
        while k < b.sigs.len()
            invariant
                k <= b.sigs@.len(),
                out@ == before + rows_upto(*b, k as int, group, kind),
            decreases b.sigs.len() - k,
        {
            push_row(&mut out, b, &b.sigs[k], group, kind);
            assert(out@ =~= before + rows_upto(*b, k + 1, group, kind));
            k += 1;
        }
        assert(out@ =~= head + table_upto(inventory@, i + 1, group, kind));
        i += 1;
    }
    let ghost table = out@;
    let mut bullets = String::new();
    let mut j: usize = 0;
    assert(bullets@ =~= seq![]);
    while j < inventory.len()
        invariant
            j <= inventory@.len(),
            bullets@ == bullets_upto(inventory@, j as int, group),
        decreases inventory.len() - j,
    {
        let b = &inventory[j];
        let ghost before = bullets@;
        assert(before + seq![] =~= before);
        if b.group == group {
            let text = said(b);
            proof {
                crate::text::lemma_no_bytes(text@);
            }
            if text.as_str().as_bytes().len() > 0 {
                let mut line = "- `".to_owned();
                let name = display(b);
                line.append(name.as_str());
                line.append("`: ");
                line.append(text.as_str());
                let folded = wrap(line.as_str());
                bullets.append(folded.as_str());
                bullets.append("\n");
                assert(bullets@ =~= before + bullet_of(*b, group));
            }
        }
        j += 1;
    }
    proof {
        crate::text::lemma_no_bytes(bullets@);
    }
    if bullets.as_str().as_bytes().len() > 0 {
        out.append("\n");
        out.append(bullets.as_str());
        assert(out@ =~= table + ("\n"@ + bullets@));
    } else {
        assert(out@ + seq![] =~= out@);
    }
    out
}

/// Sections by their keys.
pub open spec fn section_views(v: Seq<(String, String)>) -> Seq<(Seq<char>, Seq<char>)> {
    v.map_values(|p: (String, String)| (p.0@, p.1@))
}

/// Every section body, in the order of the groups.
pub fn sections(groups: &Vec<Group>, inventory: &Vec<Binding>) -> (v: Vec<(String, String)>)
    ensures
        section_views(v@) == Seq::new(
            groups@.len(),
            |i: int|
                (groups@[i].key@, section_of(inventory@, i as usize, groups@[i].kind)),
        ),
{
    let mut v: Vec<(String, String)> = Vec::new();
    let mut i: usize = 0;
    while i < groups.len()
        invariant
            i <= groups@.len(),
            section_views(v@) =~= Seq::new(
                i as nat,
                |k: int| (groups@[k].key@, section_of(inventory@, k as usize, groups@[k].kind)),
            ),
        decreases groups.len() - i,
    {
        let body = section(i, groups[i].kind, inventory);
        let ghost before = section_views(v@);
        let ghost text = body@;
        v.push((groups[i].key.clone(), body));
        proof {
            let now = section_views(v@);
            assert(now =~= before.push((groups@[i as int].key@, text)));
            assert(text == section_of(inventory@, (i as int) as usize, groups@[i as int].kind));
        }
        i += 1;
    }
    v
}

/// The lines of words from `i` on put behind a line that is being filled.
pub open spec fn folded(words: Seq<Seq<char>>, i: int, line: Seq<char>) -> Seq<Seq<char>>
    decreases words.len() - i,
{
    if i >= words.len() {
        seq![line]
    } else if line.len() == 0 {
        folded(words, i + 1, words[i])
    } else if bytes_in(line) + 1 + bytes_in(words[i]) > WIDTH {
        seq![line] + folded(words, i + 1, "  "@ + words[i])
    } else {
        folded(words, i + 1, line + " "@ + words[i])
    }
}

proof fn lemma_joined_first(v: Seq<Seq<char>>, between: Seq<char>)
    requires
        v.len() >= 2,
    ensures
        joined(v, between) == v[0] + between + joined(v.skip(1), between),
    decreases v.len(),
{
    let r = v.skip(1);
    if v.len() == 2 {
        assert(v.drop_last() =~= seq![v[0]]);
        assert(r =~= seq![v[1]]);
        assert(joined(v.drop_last(), between) == v[0]);
    } else {
        lemma_joined_first(v.drop_last(), between);
        assert(v.drop_last().skip(1) =~= r.drop_last());
        assert(joined(v, between) =~= v[0] + between + joined(r, between));
    }
}

/// Wrapping is folding, with line breaks between the lines.
proof fn lemma_wrapped_is_folded(words: Seq<Seq<char>>, i: int, out: Seq<char>, line: Seq<char>)
    ensures
        wrapped_from(words, i, out, line) == out + joined(folded(words, i, line), "\n"@),
        folded(words, i, line).len() > 0,
    decreases words.len() - i,
{
    if i < words.len() {
        if line.len() == 0 {
            lemma_wrapped_is_folded(words, i + 1, out, words[i]);
        } else if bytes_in(line) + 1 + bytes_in(words[i]) > WIDTH {
            lemma_wrapped_is_folded(words, i + 1, out + line + "\n"@, "  "@ + words[i]);
            let rest = folded(words, i + 1, "  "@ + words[i]);
            let v = seq![line] + rest;
            lemma_joined_first(v, "\n"@);
            assert(v.skip(1) =~= rest);
            assert(out + joined(v, "\n"@) =~= out + line + "\n"@ + joined(rest, "\n"@));
        } else {
            lemma_wrapped_is_folded(words, i + 1, out, line + " "@ + words[i]);
        }
    }
}

/// Whether lines are within [`WIDTH`].
pub open spec fn narrow(v: Seq<Seq<char>>) -> bool {
    forall|k: int| 0 <= k < v.len() ==> bytes_in(#[trigger] v[k]) <= WIDTH
}

/// No line of a bullet is wider than [`WIDTH`], where each of its words
/// fits a continuation line.
pub proof fn law_bullets_keep_the_width(words: Seq<Seq<char>>, i: int, line: Seq<char>)
    requires
        0 <= i,
        bytes_in(line) <= WIDTH,
        forall|k: int| 0 <= k < words.len() ==> bytes_in(#[trigger] words[k]) + 2 <= WIDTH,
    ensures
        narrow(folded(words, i, line)),
    decreases words.len() - i,
{
    if i < words.len() {
        let w = words[i];
        if line.len() == 0 {
            law_bullets_keep_the_width(words, i + 1, w);
        } else if bytes_in(line) + 1 + bytes_in(w) > WIDTH {
            reveal_strlit("  ");
            crate::text::lemma_encode_add("  "@, w);
            is_ascii_chars_encode_utf8("  "@);
            law_bullets_keep_the_width(words, i + 1, "  "@ + w);
            let rest = folded(words, i + 1, "  "@ + w);
            let v = folded(words, i, line);
            assert(v == seq![line] + rest);
            assert forall|k: int| 0 <= k < v.len() implies bytes_in(#[trigger] v[k]) <= WIDTH by {
                if k > 0 {
                    assert(v[k] == rest[k - 1]);
                }
            }
        } else {
            reveal_strlit(" ");
            crate::text::lemma_encode_add(line, " "@);
            crate::text::lemma_encode_add(line + " "@, w);
            is_ascii_chars_encode_utf8(" "@);
            law_bullets_keep_the_width(words, i + 1, line + " "@ + w);
        }
    }
}

/// A wrapped bullet is its folded lines.
pub proof fn law_a_bullet_is_its_lines(text: Seq<char>)
    ensures
        wrapped(text) == joined(folded(split(text, ' '), 0, seq![]), "\n"@),
{
    lemma_wrapped_is_folded(split(text, ' '), 0, seq![], seq![]);
    let j = joined(folded(split(text, ' '), 0, seq![]), "\n"@);
    assert(Seq::<char>::empty() + j =~= j);
}

} // verus!
