//! What the error screen says and where: its lines, how a message is
//! wrapped, and the place of the panel.

use vstd::prelude::*;
use crate::blit::text_dabs;
use crate::error_screen::{
    columns_on, filled_from, line_dabs, message_lines, panel_height, panel_lines, panel_top,
    placed, placed_from, wrapped, Line, CHOICES_TEXT, MESSAGE_LINES,
};
use crate::fault::FaultView;
use crate::font::{GLYPH_HEIGHT, GLYPH_WIDTH};
use crate::text::{
    find_space, is_space, lemma_find_bounds, lemma_find_space_bounds, lemma_trim_start_len, lines,
    strip_cr, trim_start, words,
};
use crate::wire::clipped;

verus! {

// ----- wrapping -------------------------------------------------------------------------------

/// A text without its white space.
pub open spec fn letters(s: Seq<char>) -> Seq<char>
    decreases s.len(),
{
    if s.len() == 0 {
        seq![]
    } else if is_space(s.last()) {
        letters(s.drop_last())
    } else {
        letters(s.drop_last()).push(s.last())
    }
}

/// The letters of some texts, one behind the other.
pub open spec fn all_letters(v: Seq<Seq<char>>) -> Seq<char>
    decreases v.len(),
{
    if v.len() == 0 {
        seq![]
    } else {
        all_letters(v.drop_last()) + letters(v.last())
    }
}

proof fn lemma_letters_add(a: Seq<char>, b: Seq<char>)
    ensures
        letters(a + b) == letters(a) + letters(b),
    decreases b.len(),
{
    if b.len() == 0 {
        assert(a + b =~= a);
        assert(letters(a) + letters(b) =~= letters(a));
    } else {
        lemma_letters_add(a, b.drop_last());
        assert((a + b).drop_last() =~= a + b.drop_last());
        assert((a + b).last() == b.last());
        assert(letters(a + b) =~= letters(a) + letters(b));
    }
}

proof fn lemma_all_letters_add(a: Seq<Seq<char>>, b: Seq<Seq<char>>)
    ensures
        all_letters(a + b) == all_letters(a) + all_letters(b),
    decreases b.len(),
{
    if b.len() == 0 {
        assert(a + b =~= a);
        assert(all_letters(a) + all_letters(b) =~= all_letters(a));
    } else {
        lemma_all_letters_add(a, b.drop_last());
        assert((a + b).drop_last() =~= a + b.drop_last());
        assert((a + b).last() == b.last());
        assert(all_letters(a + b) =~= all_letters(a) + all_letters(b));
    }
}

proof fn lemma_one(s: Seq<char>)
    ensures
        all_letters(seq![s]) == letters(s),
{
    let v = seq![s];
    assert(v.drop_last() =~= Seq::<Seq<char>>::empty());
    assert(v.last() == s);
    reveal_with_fuel(all_letters, 2);
    assert(all_letters(v) =~= letters(s));
}

proof fn lemma_blank_letter(c: char)
    ensures
        letters(seq![c]) == (if is_space(c) {
            seq![]
        } else {
            seq![c]
        }),
{
    let s = seq![c];
    assert(s.drop_last() =~= Seq::<char>::empty());
    reveal_with_fuel(letters, 2);
    assert(letters(s) =~= (if is_space(c) {
        seq![]
    } else {
        seq![c]
    }));
}

proof fn lemma_push_letters(v: Seq<Seq<char>>, s: Seq<char>)
    ensures
        all_letters(v.push(s)) == all_letters(v) + letters(s),
{
    assert(v.push(s).drop_last() =~= v);
}

proof fn lemma_trim_letters(s: Seq<char>)
    ensures
        letters(trim_start(s)) == letters(s),
    decreases s.len(),
{
    if s.len() > 0 && is_space(s[0]) {
        lemma_trim_letters(s.skip(1));
        lemma_letters_add(seq![s[0]], s.skip(1));
        lemma_blank_letter(s[0]);
        assert(s =~= seq![s[0]] + s.skip(1));
        assert(letters(s) =~= letters(s.skip(1)));
    }
}

proof fn lemma_words_letters(s: Seq<char>)
    ensures
        all_letters(words(s)) == letters(s),
    decreases s.len(),
{
    let t = trim_start(s);
    lemma_trim_letters(s);
    lemma_trim_start_len(s);
    if t.len() > 0 {
        lemma_find_space_bounds(t);
        let n = find_space(t);
        lemma_words_letters(t.skip(n));
        lemma_all_letters_add(seq![t.take(n)], words(t.skip(n)));
        lemma_one(t.take(n));
        lemma_letters_add(t.take(n), t.skip(n));
        assert(t =~= t.take(n) + t.skip(n));
    }
}

proof fn lemma_lines_letters(s: Seq<char>)
    ensures
        all_letters(lines(s)) == letters(s),
    decreases s.len(),
{
    if s.len() > 0 {
        let n = crate::text::find(s, '\n');
        lemma_find_bounds(s, '\n');
        if n >= s.len() {
            lemma_one(s);
        } else {
            let a = s.take(n);
            let rest = s.skip(n + 1);
            lemma_lines_letters(rest);
            lemma_all_letters_add(seq![strip_cr(a)], lines(rest));
            lemma_one(strip_cr(a));
            if a.len() > 0 && a.last() == '\r' {
                assert(letters(a) == letters(a.drop_last()));
            }
            lemma_letters_add(a, seq!['\n']);
            lemma_blank_letter('\n');
            lemma_letters_add(a + seq!['\n'], rest);
            assert(s =~= a + seq!['\n'] + rest);
            assert(letters(a) + Seq::<char>::empty() =~= letters(a));
        }
    }
}

proof fn lemma_placed_letters(full: Seq<Seq<char>>, line: Seq<char>, word: Seq<char>, columns: int)
    requires
        columns > 0,
    ensures
        ({
            let r = placed(full, line, word, columns);
            all_letters(r.0) + letters(r.1) == all_letters(full) + letters(line) + letters(word)
        }),
    decreases word.len(), line.len(),
{
    let r = placed(full, line, word, columns);
    let want = all_letters(full) + letters(line) + letters(word);
    if word.len() == 0 {
        assert(all_letters(r.0) + letters(r.1) =~= want);
    } else if line.len() == 0 {
        if word.len() <= columns {
            assert(all_letters(r.0) + letters(r.1) =~= want);
        } else {
            let a = word.take(columns);
            let b = word.skip(columns);
            lemma_placed_letters(full.push(a), line, b, columns);
            lemma_push_letters(full, a);
            lemma_letters_add(a, b);
            assert(word =~= a + b);
            assert(all_letters(r.0) + letters(r.1) =~= want);
        }
    } else if line.len() + 1 + word.len() <= columns {
        lemma_letters_add(line, seq![' ']);
        lemma_blank_letter(' ');
        lemma_letters_add(line + seq![' '], word);
        assert(all_letters(r.0) + letters(r.1) =~= want);
    } else {
        lemma_placed_letters(full.push(line), Seq::empty(), word, columns);
        lemma_push_letters(full, line);
        assert(all_letters(r.0) + letters(r.1) =~= want);
    }
}

proof fn lemma_placed_from_letters(
    full: Seq<Seq<char>>,
    line: Seq<char>,
    ws: Seq<Seq<char>>,
    i: int,
    columns: int,
)
    requires
        columns > 0,
        0 <= i <= ws.len(),
    ensures
        ({
            let r = placed_from(full, line, ws, i, columns);
            all_letters(r.0) + letters(r.1) == all_letters(full) + letters(line) + all_letters(
                ws.skip(i),
            )
        }),
    decreases ws.len() - i,
{
    let r = placed_from(full, line, ws, i, columns);
    if i < ws.len() {
        let next = placed(full, line, ws[i], columns);
        lemma_placed_letters(full, line, ws[i], columns);
        lemma_placed_from_letters(next.0, next.1, ws, i + 1, columns);
        lemma_all_letters_add(seq![ws[i]], ws.skip(i + 1));
        lemma_one(ws[i]);
        assert(ws.skip(i) =~= seq![ws[i]] + ws.skip(i + 1));
        assert(all_letters(full) + letters(line) + (letters(ws[i]) + all_letters(ws.skip(i + 1)))
            =~= all_letters(full) + letters(line) + letters(ws[i]) + all_letters(ws.skip(i + 1)));
    } else {
        assert(ws.skip(i) =~= Seq::<Seq<char>>::empty());
        assert(all_letters(r.0) + letters(r.1) =~= all_letters(full) + letters(line) + all_letters(
            ws.skip(i),
        ));
    }
}

proof fn lemma_filled_letters(full: Seq<Seq<char>>, ps: Seq<Seq<char>>, i: int, columns: int)
    requires
        columns > 0,
        0 <= i <= ps.len(),
    ensures
        all_letters(filled_from(full, ps, i, columns)) == all_letters(full) + all_letters(
            ps.skip(i),
        ),
    decreases ps.len() - i,
{
    if i < ps.len() {
        let ws = words(ps[i]);
        let end = placed_from(full, Seq::empty(), ws, 0, columns);
        lemma_placed_from_letters(full, Seq::empty(), ws, 0, columns);
        lemma_words_letters(ps[i]);
        assert(ws.skip(0) =~= ws);
        lemma_push_letters(end.0, end.1);
        let more = if end.1.len() > 0 || ps[i].len() == 0 {
            end.0.push(end.1)
        } else {
            end.0
        };
        assert(all_letters(more) =~= all_letters(full) + letters(ps[i]));
        lemma_filled_letters(more, ps, i + 1, columns);
        lemma_all_letters_add(seq![ps[i]], ps.skip(i + 1));
        lemma_one(ps[i]);
        assert(ps.skip(i) =~= seq![ps[i]] + ps.skip(i + 1));
        assert(all_letters(full) + (letters(ps[i]) + all_letters(ps.skip(i + 1))) =~= all_letters(
            full,
        ) + letters(ps[i]) + all_letters(ps.skip(i + 1)));
    } else {
        assert(ps.skip(i) =~= Seq::<Seq<char>>::empty());
        assert(all_letters(full) + all_letters(ps.skip(i)) =~= all_letters(full));
    }
}

/// Wrapping moves line ends and blanks only: a text's letters stand in its
/// lines, all of them, in order and once.
pub proof fn law_wrapping_keeps_the_letters(text: Seq<char>, columns: int)
    requires
        columns > 0,
    ensures
        all_letters(wrapped(text, columns)) == letters(text),
{
    let ps = lines(text);
    lemma_filled_letters(Seq::empty(), ps, 0, columns);
    lemma_lines_letters(text);
    assert(ps.skip(0) =~= ps);
    assert(all_letters(Seq::<Seq<char>>::empty()) + letters(text) =~= letters(text));
    lemma_one(Seq::empty());
}

/// A word stays on its line, behind a blank, where there is room; it starts
/// the next line where there is none; and what is longer than a line is cut
/// at its end.
pub proof fn law_a_word_stays_where_it_fits(
    full: Seq<Seq<char>>,
    line: Seq<char>,
    word: Seq<char>,
    columns: int,
)
    requires
        columns > 0,
        word.len() > 0,
    ensures
        line.len() > 0 && line.len() + 1 + word.len() <= columns ==> placed(
            full,
            line,
            word,
            columns,
        ) == (full, line + seq![' '] + word),
        line.len() > 0 && line.len() + 1 + word.len() > columns && word.len() <= columns ==> placed(
            full,
            line,
            word,
            columns,
        ) == (full.push(line), word),
        line.len() == 0 && word.len() <= columns ==> placed(full, line, word, columns) == (
            full,
            word,
        ),
        line.len() == 0 && columns < word.len() <= 2 * columns ==> placed(
            full,
            line,
            word,
            columns,
        ) == (full.push(word.take(columns)), word.skip(columns)),
{
    reveal_with_fuel(placed, 3);
}

// ----- the panel ------------------------------------------------------------------------------

/// The panel tells the fault's code, where it was, what it says and the
/// choices, in this order, each in its colour.
pub proof fn law_the_panel_tells_the_fault(f: FaultView, columns: int, i: int)
    requires
        columns >= 8,
    ensures
        ({
            let v = panel_lines(f, columns);
            let m = message_lines(f.message, columns);
            &&& v.len() == m.len() + 4
            &&& v[0] == (f.code, 15u8)
            &&& v[1] == (f.location(), 6u8)
            &&& 0 <= i < m.len() ==> v[i + 2] == (m[i], 7u8)
            &&& v[m.len() as int + 2].0.len() == 0
            &&& v[m.len() as int + 3] == (CHOICES_TEXT@, 12u8)
        }),
{
}

/// Of a message the first four lines are told, and where there are more the
/// fourth ends in dots.
pub proof fn law_a_long_message_is_cut(text: Seq<char>, columns: int, i: int)
    requires
        columns >= 8,
    ensures
        ({
            let all = wrapped(text, columns);
            let m = message_lines(text, columns);
            &&& all.len() <= 4 ==> m == all
            &&& all.len() > 4 ==> m.len() == 4 && m[3] == clipped(all[3], (columns - 3) as nat)
                + "..."@
            &&& all.len() > 4 && 0 <= i < 3 ==> m[i] == all[i]
        }),
{
    assert(MESSAGE_LINES == 4);
}

/// A panel that the screen has room for stands in its middle, and one that
/// it has no room for is as high as the screen.
pub proof fn law_the_panel_stands_in_the_middle(h: int, count: int)
    requires
        0 <= h,
        0 <= count,
    ensures
        ({
            let top = panel_top(h, count);
            let high = panel_height(h, count);
            &&& count * GLYPH_HEIGHT + 16 <= h ==> high == count * GLYPH_HEIGHT + 16 && h - 1
                <= top + high + top <= h
            &&& count * GLYPH_HEIGHT + 16 > h ==> high == h
        }),
{
}

proof fn lemma_line_dabs(v: Seq<Line>, l: Line, i: int, y: int)
    requires
        0 <= i <= v.len(),
    ensures
        line_dabs(v.push(l), i, y) == line_dabs(v, i, y) + text_dabs(
            l.0,
            16,
            y + (v.len() - i) * GLYPH_HEIGHT,
            l.1,
        ),
    decreases v.len() - i,
{
    let u = v.push(l);
    let h = GLYPH_HEIGHT as int;
    if i < v.len() {
        lemma_line_dabs(v, l, i + 1, y + h);
        assert((y + h) + (v.len() - (i + 1)) * h == y + (v.len() - i) * h) by (nonlinear_arith);
        let a = text_dabs(v[i].0, 16, y, v[i].1);
        let b = line_dabs(v, i + 1, y + h);
        let c = text_dabs(l.0, 16, y + (v.len() - i) * h, l.1);
        assert(u[i] == v[i]);
        assert(line_dabs(u, i, y) == a + (b + c));
        assert(a + (b + c) =~= (a + b) + c);
    } else {
        assert(line_dabs(u, i + 1, y + h) == Seq::<crate::raster::Dab>::empty());
        assert(u[i] == l);
        assert((v.len() - i) * h == 0) by (nonlinear_arith)
            requires
                i == v.len(),
        ;
        assert(line_dabs(u, i, y) =~= line_dabs(v, i, y) + text_dabs(l.0, 16, y, l.1));
    }
}

/// The lines of the panel stand below each other, a glyph's height apart,
/// and start at one column.
pub proof fn law_the_lines_stand_below_each_other(v: Seq<Line>, l: Line, y: int)
    ensures
        line_dabs(v.push(l), 0, y) == line_dabs(v, 0, y) + text_dabs(
            l.0,
            16,
            y + v.len() * GLYPH_HEIGHT,
            l.1,
        ),
{
    lemma_line_dabs(v, l, 0, y);
}

/// A line of the panel has as many characters as fit between its margins,
/// and not one more; on a narrow screen it has eight.
pub proof fn law_a_line_fits_between_the_margins(w: int)
    ensures
        w >= 64 ==> 4 * columns_on(w) <= w - 32 < 4 * (columns_on(w) + 1),
        w < 64 ==> columns_on(w) == 8,
        GLYPH_WIDTH == 4,
{
}

} // verus!
