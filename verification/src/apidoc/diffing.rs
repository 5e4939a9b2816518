//! Comparing a document with what the descriptors say.

use vstd::prelude::*;
use vstd::string::*;
use crate::apidoc::splicing::{lesser, lesser_at, splice, spliced, Bodies};
use crate::apidoc::{joined, section_of, section_views, sections, Binding, Group};
use crate::text::{
    chars_of, contains_chars, holds_text, lines, lines_of, quote, quoted, str_eq, string_of, texts,
    views,
};

verus! {

/// The length of a longest common subsequence of the lines of `a` from `i`
/// on and those of `b` from `j` on.
pub open spec fn lcs(a: Seq<Seq<char>>, b: Seq<Seq<char>>, i: int, j: int) -> int
    decreases (a.len() - i) + (b.len() - j),
{
    if i < 0 || j < 0 || i >= a.len() || j >= b.len() {
        0
    } else if a[i] == b[j] {
        lcs(a, b, i + 1, j + 1) + 1
    } else if lcs(a, b, i + 1, j) >= lcs(a, b, i, j + 1) {
        lcs(a, b, i + 1, j)
    } else {
        lcs(a, b, i, j + 1)
    }
}

/// One line of a comparison.
pub enum Edit {
    Keep(Seq<char>),
    Drop(Seq<char>),
    Add(Seq<char>),
}

/// How `b` from `j` on is made of `a` from `i` on.
pub open spec fn edits(a: Seq<Seq<char>>, b: Seq<Seq<char>>, i: int, j: int) -> Seq<Edit>
    decreases (a.len() - i) + (b.len() - j),
{
    if i < 0 || j < 0 || i > a.len() || j > b.len() {
        seq![]
    } else if i < a.len() && j < b.len() {
        if a[i] == b[j] {
            seq![Edit::Keep(a[i])] + edits(a, b, i + 1, j + 1)
        } else if lcs(a, b, i + 1, j) >= lcs(a, b, i, j + 1) {
            seq![Edit::Drop(a[i])] + edits(a, b, i + 1, j)
        } else {
            seq![Edit::Add(b[j])] + edits(a, b, i, j + 1)
        }
    } else if i < a.len() {
        seq![Edit::Drop(a[i])] + edits(a, b, i + 1, j)
    } else if j < b.len() {
        seq![Edit::Add(b[j])] + edits(a, b, i, j + 1)
    } else {
        seq![]
    }
}

/// A comparison as text: what stays is left out.
pub open spec fn edit_text(e: Seq<Edit>) -> Seq<char>
    decreases e.len(),
{
    if e.len() == 0 {
        seq![]
    } else {
        (match e[0] {
            Edit::Keep(_) => seq![],
            Edit::Drop(l) => "-"@ + l + "\n"@,
            Edit::Add(l) => "+"@ + l + "\n"@,
        }) + edit_text(e.skip(1))
    }
}

pub open spec fn diff_text(old: Seq<char>, new: Seq<char>) -> Seq<char> {
    edit_text(edits(lines(old), lines(new), 0, 0))
}

/// Whether a table holds the lengths for the lines from `i` on: row
/// `n - k` and column `m - j`, the last line's first.
spec fn table_from(
    t: Seq<Vec<usize>>,
    a: Seq<Seq<char>>,
    b: Seq<Seq<char>>,
    i: int,
) -> bool {
    &&& t.len() == a.len() - i + 1
    &&& forall|k: int|
        0 <= k < t.len() ==> row_holds((#[trigger] t[k])@, a, b, a.len() - k, 0)
}

/// Whether a row holds the lengths for the lines of `b` from `j` on.
spec fn row_holds(
    row: Seq<usize>,
    a: Seq<Seq<char>>,
    b: Seq<Seq<char>>,
    i: int,
    j: int,
) -> bool {
    &&& row.len() == b.len() - j + 1
    &&& forall|k: int| 0 <= k < row.len() ==> #[trigger] row[k] == lcs(a, b, i, b.len() - k)
}

proof fn lemma_lcs_bound(a: Seq<Seq<char>>, b: Seq<Seq<char>>, i: int, j: int)
    requires
        0 <= i <= a.len(),
        0 <= j <= b.len(),
    ensures
        0 <= lcs(a, b, i, j) <= a.len() - i,
        lcs(a, b, i, j) <= b.len() - j,
    decreases (a.len() - i) + (b.len() - j),
{
    if i < a.len() && j < b.len() {
        lemma_lcs_bound(a, b, i + 1, j + 1);
        lemma_lcs_bound(a, b, i + 1, j);
        lemma_lcs_bound(a, b, i, j + 1);
    }
}

fn same(x: &Vec<char>, y: &Vec<char>) -> (r: bool)
    ensures
        r == (x@ == y@),
{
    if x.len() != y.len() {
        return false;
    }
    let mut i: usize = 0;
    while i < x.len()
        invariant
            i <= x@.len(),
            x@.len() == y@.len(),
            forall|k: int| 0 <= k < i ==> x@[k] == y@[k],
        decreases x.len() - i,
    {
        if x[i] != y[i] {
            return false;
        }
        i += 1;
    }
    assert(x@ =~= y@);
    true
}

/// The lengths for every pair of tails.
#[verifier::spinoff_prover]
#[verifier::rlimit(50)]
fn lengths(xs: &Vec<Vec<char>>, ys: &Vec<Vec<char>>) -> (t: Vec<Vec<usize>>)
    ensures
        table_from(t@, views(xs@), views(ys@), 0),
{
    let ghost a = views(xs@);
    let ghost b = views(ys@);
    let n: usize = xs.len();
    let m: usize = ys.len();
    let mut t: Vec<Vec<usize>> = Vec::new();
    let mut last: Vec<usize> = Vec::new();
    last.push(0);
    let mut k: usize = 0;
    while k < m
        invariant
            k <= m,
            m == b.len(),
            last@.len() == k + 1,
            forall|c: int| 0 <= c < last@.len() ==> #[trigger] last@[c] == 0,
        decreases m - k,
    {
        last.push(0);
        k += 1;
    }
    assert(row_holds(last@, a, b, a.len() as int, 0));
    t.push(last);
    let mut i: usize = n;
    while i > 0
        invariant
            i <= n,
            n == xs@.len(),
            m == ys@.len(),
            a == views(xs@),
            b == views(ys@),
            table_from(t@, a, b, i as int),
        decreases i,
    {
        let row_i: usize = i - 1;
        let below: usize = n - i;
        assert(row_holds(t@[below as int]@, a, b, i as int, 0));
        let mut row: Vec<usize> = Vec::new();
        row.push(0);
        let mut j: usize = m;
        assert(row_holds(row@, a, b, row_i as int, j as int));
        while j > 0
            invariant
                j <= m,
                m == ys@.len(),
                n == xs@.len(),
                row_i < n,
                below == n - row_i - 1,
                below < t@.len(),
                a == views(xs@),
                b == views(ys@),
                row_holds(t@[below as int]@, a, b, row_i + 1, 0),
                row_holds(row@, a, b, row_i as int, j as int),
            decreases j,
        {
            let col: usize = j - 1;
            proof {
                lemma_lcs_bound(a, b, row_i + 1, j as int);
                assert(a[row_i as int] == xs@[row_i as int]@);
                assert(b[col as int] == ys@[col as int]@);
            }
            let at: usize = m - j;
            let down: usize = t[below][at + 1];
            let right: usize = row[at];
            let corner: usize = t[below][at];
            assert(down == lcs(a, b, row_i + 1, col as int));
            assert(right == lcs(a, b, row_i as int, j as int));
            assert(corner == lcs(a, b, row_i + 1, j as int));
            let v: usize = if same(&xs[row_i], &ys[col]) {
                corner + 1
            } else if down >= right {
                down
            } else {
                right
            };
            row.push(v);
            j -= 1;
            assert(row_holds(row@, a, b, row_i as int, j as int));
        }
        let ghost old_t = t@;
        t.push(row);
        i -= 1;
        proof {
            assert forall|k: int| 0 <= k < t@.len() implies row_holds(
                (#[trigger] t@[k])@,
                a,
                b,
                a.len() - k,
                0,
            ) by {
                if k < old_t.len() {
                    assert(t@[k] == old_t[k]);
                }
            }
        }
    }
    t
}

fn push_line(out: &mut String, mark: &str, line: &Vec<char>)
    ensures
        final(out)@ == old(out)@ + (mark@ + line@ + "\n"@),
{
    let ghost before = out@;
    out.append(mark);
    let text = string_of(line.as_slice());
    out.append(text.as_str());
    out.append("\n");
    assert(out@ =~= before + (mark@ + line@ + "\n"@));
}

/// A minimal line diff (longest common subsequence), `-` for what the old
/// text has and `+` for what the new one has.
pub fn diff(old: &str, new: &str) -> (out: String)
    ensures
        out@ == diff_text(old@, new@),
{
    let old_chars = chars_of(old);
    let new_chars = chars_of(new);
    let xs = lines_of(old_chars.as_slice());
    let ys = lines_of(new_chars.as_slice());
    let ghost a = lines(old@);
    let ghost b = lines(new@);
    let t = lengths(&xs, &ys);
    let n: usize = xs.len();
    let m: usize = ys.len();
    let ghost all = edit_text(edits(a, b, 0, 0));
    let mut out = String::new();
    let mut i: usize = 0;
    let mut j: usize = 0;
    assert(out@ + all =~= all);
    while i < n || j < m
        invariant
            i <= n,
            j <= m,
            n == xs@.len(),
            m == ys@.len(),
            views(xs@) == a,
            views(ys@) == b,
            table_from(t@, a, b, 0),
            all == out@ + edit_text(edits(a, b, i as int, j as int)),
        decreases (n - i) + (m - j),
    {
        let ghost before = out@;
        let ghost rest = edits(a, b, i as int, j as int);
        assert(rest[0] == rest.first());
        if i < n && j < m {
            assert(a[i as int] == xs@[i as int]@);
            assert(b[j as int] == ys@[j as int]@);
            assert(row_holds(t@[n - i - 1]@, a, b, i + 1, 0));
            assert(row_holds(t@[n - i]@, a, b, i as int, 0));
            let down: usize = t[n - i - 1][m - j];
            let right: usize = t[n - i][m - j - 1];
            assert(down == lcs(a, b, i + 1, j as int));
            assert(right == lcs(a, b, i as int, j + 1));
            if same(&xs[i], &ys[j]) {
                i += 1;
                j += 1;
            } else if down >= right {
                push_line(&mut out, "-", &xs[i]);
                i += 1;
            } else {
                push_line(&mut out, "+", &ys[j]);
                j += 1;
            }
        } else if i < n {
            assert(a[i as int] == xs@[i as int]@);
            push_line(&mut out, "-", &xs[i]);
            i += 1;
        } else {
            assert(b[j as int] == ys@[j as int]@);
            push_line(&mut out, "+", &ys[j]);
            j += 1;
        }
        proof {
            assert(rest.skip(1) =~= edits(a, b, i as int, j as int));
            assert(before + edit_text(rest) =~= out@ + edit_text(rest.skip(1)));
        }
    }
    assert(edit_text(edits(a, b, i as int, j as int)) =~= seq![]);
    assert(out@ + seq![] =~= out@);
    out
}

/// The lines that a comparison has of the old text, and of the new one.
pub open spec fn olds(e: Seq<Edit>) -> Seq<Seq<char>>
    decreases e.len(),
{
    if e.len() == 0 {
        seq![]
    } else {
        (match e[0] {
            Edit::Keep(l) => seq![l],
            Edit::Drop(l) => seq![l],
            Edit::Add(_) => seq![],
        }) + olds(e.skip(1))
    }
}

pub open spec fn news(e: Seq<Edit>) -> Seq<Seq<char>>
    decreases e.len(),
{
    if e.len() == 0 {
        seq![]
    } else {
        (match e[0] {
            Edit::Keep(l) => seq![l],
            Edit::Drop(_) => seq![],
            Edit::Add(l) => seq![l],
        }) + news(e.skip(1))
    }
}

pub open spec fn keeps(e: Seq<Edit>) -> int
    decreases e.len(),
{
    if e.len() == 0 {
        0
    } else {
        keeps(e.skip(1)) + (if e[0] is Keep {
            1int
        } else {
            0
        })
    }
}

/// A comparison tells both texts: what it keeps and drops is the old one,
/// what it keeps and adds the new one; and it keeps a longest common
/// subsequence.
pub proof fn law_a_diff_tells_both(a: Seq<Seq<char>>, b: Seq<Seq<char>>, i: int, j: int)
    requires
        0 <= i <= a.len(),
        0 <= j <= b.len(),
    ensures
        olds(edits(a, b, i, j)) == a.skip(i),
        news(edits(a, b, i, j)) == b.skip(j),
        keeps(edits(a, b, i, j)) == lcs(a, b, i, j),
    decreases (a.len() - i) + (b.len() - j),
{
    let e = edits(a, b, i, j);
    if i < a.len() || j < b.len() {
        let r = e.skip(1);
        if i < a.len() && j < b.len() && a[i] == b[j] {
            law_a_diff_tells_both(a, b, i + 1, j + 1);
            assert(r =~= edits(a, b, i + 1, j + 1));
            assert(seq![a[i]] + a.skip(i + 1) =~= a.skip(i));
            assert(seq![b[j]] + b.skip(j + 1) =~= b.skip(j));
        } else if i < a.len() && (j >= b.len() || lcs(a, b, i + 1, j) >= lcs(a, b, i, j + 1)) {
            law_a_diff_tells_both(a, b, i + 1, j);
            assert(r =~= edits(a, b, i + 1, j));
            assert(seq![a[i]] + a.skip(i + 1) =~= a.skip(i));
            assert(seq![] + b.skip(j) =~= b.skip(j));
        } else {
            law_a_diff_tells_both(a, b, i, j + 1);
            assert(r =~= edits(a, b, i, j + 1));
            assert(seq![b[j]] + b.skip(j + 1) =~= b.skip(j));
            assert(seq![] + a.skip(i) =~= a.skip(i));
        }
    } else {
        assert(a.skip(i) =~= seq![]);
        assert(b.skip(j) =~= seq![]);
    }
}

/// Whether pairs of places are a common subsequence from `i` and `j` on.
pub open spec fn common(
    a: Seq<Seq<char>>,
    b: Seq<Seq<char>>,
    p: Seq<(int, int)>,
    i: int,
    j: int,
) -> bool {
    &&& forall|k: int|
        0 <= k < p.len() ==> i <= (#[trigger] p[k]).0 < a.len() && j <= p[k].1 < b.len()
            && a[p[k].0] == b[p[k].1]
    &&& forall|k: int, l: int|
        0 <= k < l < p.len() ==> (#[trigger] p[k]).0 < (#[trigger] p[l]).0 && p[k].1 < p[l].1
}

/// No common subsequence is longer: the diff is minimal.
pub proof fn law_a_diff_is_minimal(
    a: Seq<Seq<char>>,
    b: Seq<Seq<char>>,
    p: Seq<(int, int)>,
    i: int,
    j: int,
)
    requires
        0 <= i <= a.len(),
        0 <= j <= b.len(),
        common(a, b, p, i, j),
    ensures
        p.len() <= lcs(a, b, i, j),
    decreases (a.len() - i) + (b.len() - j),
{
    lemma_lcs_bound(a, b, i, j);
    if p.len() > 0 {
        assert(i <= p[0].0 < a.len());
        let r = p.skip(1);
        if a[i] == b[j] {
            assert(common(a, b, r, i + 1, j + 1)) by {
                assert forall|k: int| 0 <= k < r.len() implies i + 1 <= (#[trigger] r[k]).0
                    < a.len() && j + 1 <= r[k].1 < b.len() && a[r[k].0] == b[r[k].1] by {
                    assert(r[k] == p[k + 1]);
                    assert(p[0].0 < p[k + 1].0);
                }
                assert forall|k: int, l: int| 0 <= k < l < r.len() implies (#[trigger] r[k]).0 < (
                #[trigger] r[l]).0 && r[k].1 < r[l].1 by {
                    assert(r[k] == p[k + 1] && r[l] == p[l + 1]);
                }
            }
            law_a_diff_is_minimal(a, b, r, i + 1, j + 1);
        } else if p[0].0 > i {
            assert(common(a, b, p, i + 1, j)) by {
                assert forall|k: int| 0 <= k < p.len() implies i + 1 <= (#[trigger] p[k]).0
                    < a.len() && j <= p[k].1 < b.len() && a[p[k].0] == b[p[k].1] by {
                    if k > 0 {
                        assert(p[0].0 < p[k].0);
                    }
                }
            }
            law_a_diff_is_minimal(a, b, p, i + 1, j);
        } else {
            assert(common(a, b, p, i, j + 1)) by {
                assert forall|k: int| 0 <= k < p.len() implies i <= (#[trigger] p[k]).0 < a.len()
                    && j + 1 <= p[k].1 < b.len() && a[p[k].0] == b[p[k].1] by {
                    if k > 0 {
                        assert(p[0].1 < p[k].1);
                    }
                }
            }
            law_a_diff_is_minimal(a, b, p, i, j + 1);
        }
    }
}

/// Equal texts differ in nothing.
pub proof fn law_equal_texts_have_no_diff(a: Seq<Seq<char>>, i: int)
    requires
        0 <= i <= a.len(),
    ensures
        edit_text(edits(a, a, i, i)) == Seq::<char>::empty(),
    decreases a.len() - i,
{
    if i < a.len() {
        law_equal_texts_have_no_diff(a, i + 1);
        let e = edits(a, a, i, i);
        assert(e.skip(1) =~= edits(a, a, i + 1, i + 1));
        assert(edit_text(e) =~= seq![]);
    }
}

// ----- the document -----------------------------------------------------------------------

/// The sections of an inventory.
pub open spec fn bodies_of(groups: Seq<Group>, inv: Seq<Binding>) -> Bodies {
    Seq::new(
        groups.len(),
        |i: int| (groups[i].key@, section_of(inv, i as usize, groups[i].kind)),
    )
}

/// The least key of a section that holds a marker.
pub open spec fn marked(secs: Bodies, marker: Seq<char>) -> Option<Seq<char>>
    decreases secs.len(),
{
    if secs.len() == 0 {
        None
    } else if holds_text(secs[0].1, marker) {
        Some(lesser(secs[0].0, marked(secs.skip(1), marker)))
    } else {
        marked(secs.skip(1), marker)
    }
}

/// The document as the generator would write it, or why it cannot.
pub open spec fn rendered(
    doc: Seq<char>,
    groups: Seq<Group>,
    inv: Seq<Binding>,
    problems: Seq<Seq<char>>,
    marker: Seq<char>,
) -> Result<Seq<char>, Seq<char>> {
    let secs = bodies_of(groups, inv);
    if problems.len() > 0 {
        Err("descriptor problems:\n  "@ + joined(problems, "\n  "@))
    } else {
        match marked(secs, marker) {
            Some(key) => Err("section "@ + quoted(key) + " carries "@ + marker),
            None => spliced(doc, secs),
        }
    }
}

/// The document as the generator would write it, or why it cannot. An
/// inventory with problems, or one that shows what is internal, is
/// refused.
pub fn render(
    doc: &str,
    groups: &Vec<Group>,
    inventory: &Vec<Binding>,
    problems: &Vec<String>,
    marker: &str,
) -> (r: Result<String, String>)
    ensures
        match (r, rendered(doc@, groups@, inventory@, texts(problems@), marker@)) {
            (Ok(t), Ok(v)) => t@ == v,
            (Err(e), Err(v)) => e@ == v,
            _ => false,
        },
{
    if problems.len() > 0 {
        let mut e = "descriptor problems:\n  ".to_owned();
        let ghost head = e@;
        let ghost list = texts(problems@);
        let mut i: usize = 0;
        assert(list.take(0) =~= seq![]);
        assert(head + seq![] =~= head);
        while i < problems.len()
            invariant
                i <= problems@.len(),
                list == texts(problems@),
                e@ == head + joined(list.take(i as int), "\n  "@),
            decreases problems.len() - i,
        {
            if i > 0 {
                e.append("\n  ");
            }
            e.append(problems[i].as_str());
            proof {
                crate::apidoc::lemma_joined_step(list, i as int, "\n  "@);
                assert(list[i as int] == problems@[i as int]@);
                assert(e@ =~= head + joined(list.take(i + 1), "\n  "@));
            }
            i += 1;
        }
        assert(list.take(i as int) =~= list);
        return Err(e);
    }
    let secs = sections(groups, inventory);
    let ghost views_of = section_views(secs@);
    assert(views_of =~= bodies_of(groups@, inventory@));
    let mark = chars_of(marker);
    let mut k: usize = secs.len();
    let mut found: Option<usize> = None;
    assert(views_of.skip(k as int) =~= seq![]);
    while k > 0
        invariant
            k <= secs@.len(),
            found matches Some(o) ==> o < secs@.len(),
            views_of == section_views(secs@),
            mark@ == marker@,
            marked(views_of.skip(k as int), marker@) == (match found {
                Some(o) => Some(secs@[o as int].0@),
                None => None,
            }),
            views_of == bodies_of(groups@, inventory@),
            texts(problems@).len() == 0,
        decreases k,
    {
        k -= 1;
        let ghost t = views_of.skip(k as int);
        assert(t[0] == (secs@[k as int].0@, secs@[k as int].1@));
        assert(t.skip(1) =~= views_of.skip(k + 1));
        let body = chars_of(secs[k].1.as_str());
        if contains_chars(body.as_slice(), mark.as_slice()) {
            found = Some(lesser_at(&secs, k, found));
        }
    }
    assert(views_of.skip(0) =~= views_of);
    if let Some(o) = found {
        let mut e = "section ".to_owned();
        let q = quote(secs[o].0.as_str());
        e.append(q.as_str());
        e.append(" carries ");
        e.append(marker);
        return Err(e);
    }
    splice(doc, &secs)
}

/// `Ok` when `doc` already holds what [`render`] produces; otherwise a
/// line diff, `-` for what the document has and `+` for what the
/// descriptors say.
pub fn check(
    doc: &str,
    groups: &Vec<Group>,
    inventory: &Vec<Binding>,
    problems: &Vec<String>,
    marker: &str,
) -> (r: Result<(), String>)
    ensures
        match rendered(doc@, groups@, inventory@, texts(problems@), marker@) {
            Err(v) => r is Err && r->Err_0@ == v,
            Ok(v) => if v == doc@ {
                r is Ok
            } else {
                r is Err && r->Err_0@
                    == "the generated sections are stale; run `cargo run -p kuula-apidoc -- --write`\n"@
                    + diff_text(doc@, v)
            },
        },
{
    let fresh = match render(doc, groups, inventory, problems, marker) {
        Ok(t) => t,
        Err(e) => return Err(e),
    };
    if str_eq(fresh.as_str(), doc) {
        return Ok(());
    }
    let mut e = "the generated sections are stale; run `cargo run -p kuula-apidoc -- --write`\n".to_owned();
    let d = diff(doc, fresh.as_str());
    e.append(d.as_str());
    Err(e)
}

} // verus!
