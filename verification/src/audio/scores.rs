//! What the text of a track means: its notes, marks and instruments, and the
//! order in which its rows are played.

use std::rc::Rc;
use vstd::prelude::*;
use super::tracker::{
    add_instrument, add_line, add_lines, add_row, cell_of, cells_from, finished, hex_value,
    instrument_of, marked, note_of, padded, with_adsr, with_arp, with_duty, with_slide, Cell,
    Cursor, Draft, Note, PatchView, Step, Track, GAIN_ONE, MAX_INSTRUMENTS,
};
use crate::spelling::{law_a_number_reads_back, law_parts_stand_between_separators};
use crate::text::{
    all_digits, dec, dec_int, find, find_space, is_digit, is_space, lemma_dec_reads, lemma_find,
    lemma_find_space, lemma_trimmed, split, trim,
};

verus! {

/// Whether a text of three characters is no note name.
proof fn lemma_no_rest(t: Seq<char>)
    requires
        t.len() == 3,
        t[0] != '-' && t[0] != '.' && t[0] != '=' && t[0] != 'o',
    ensures
        t != "---"@ && t != "..."@ && t != "==="@ && t != "off"@,
{
    reveal_strlit("---");
    reveal_strlit("...");
    reveal_strlit("===");
    reveal_strlit("off");
    assert("---"@[0] == '-');
    assert("..."@[0] == '.');
    assert("==="@[0] == '=');
    assert("off"@[0] == 'o');
}

/// How far above C a letter's note is, by the steps of the major scale.
pub open spec fn above_c(letter: char) -> int {
    if letter == 'C' {
        0
    } else if letter == 'D' {
        2
    } else if letter == 'E' {
        4
    } else if letter == 'F' {
        5
    } else if letter == 'G' {
        7
    } else if letter == 'A' {
        9
    } else {
        11
    }
}

/// A note counts semitones from the C of octave 0, twelve to an octave; a
/// sharp is one above its letter, and E and B have none.
pub proof fn law_notes_count_semitones(letter: char, octave: int)
    requires
        'A' <= letter <= 'G',
        0 <= octave <= 8,
    ensures
        note_of(seq![letter, '-', (48 + octave) as char]) == Some(
            Note::On((12 * octave + above_c(letter)) as u8),
        ),
        note_of(seq![letter, '#', (48 + octave) as char]) == (if letter == 'E' || letter == 'B' {
            None
        } else {
            Some(Note::On((12 * octave + above_c(letter) + 1) as u8))
        }),
{
    lemma_no_rest(seq![letter, '-', (48 + octave) as char]);
    lemma_no_rest(seq![letter, '#', (48 + octave) as char]);
}

/// A volume mark has sixteen steps, from silence to full.
pub proof fn law_a_volume_mark_has_sixteen_steps(c: Cell, h: char, d: nat)
    requires
        hex_value(h) == Some(d),
    ensures
        d <= 15,
        marked(c, seq!['v', h]) == Ok::<Cell, Seq<char>>(Cell { vol: Some((17 * d) as u8), ..c }),
        '0' <= h <= '9' ==> d == h as int - '0' as int,
        'a' <= h <= 'f' ==> d == h as int - 'a' as int + 10,
        'A' <= h <= 'F' ==> d == h as int - 'A' as int + 10,
{
}

/// An instrument mark is the instrument's number.
pub proof fn law_an_instrument_mark_is_its_number(c: Cell, n: nat)
    requires
        1 <= n <= 64,
    ensures
        marked(c, dec(n)) == Ok::<Cell, Seq<char>>(Cell { inst: Some(n as u8), ..c }),
{
    lemma_dec_reads(n, usize::MAX as nat);
    assert(is_digit(dec(n)[0]));
    assert(MAX_INSTRUMENTS == 64);
}

/// A duty is a percentage of the whole wave, and a slide is taken as it is
/// given; the rest of the patch stays.
pub proof fn law_a_duty_is_a_percentage(p: PatchView, pct: nat, n: int)
    requires
        pct <= 100,
        -32768 <= n <= 32767,
    ensures
        with_duty(p, dec(pct)) matches Ok(q) && 100 * q.duty <= 255 * pct < 100 * (q.duty + 1) && q
            == (PatchView { duty: q.duty, ..p }),
        with_slide(p, dec_int(n)) matches Ok(q) && q.slide == n && q == (PatchView {
            slide: q.slide,
            ..p
        }),
{
    lemma_dec_reads(pct, u32::MAX as nat);
    law_a_number_reads_back(0, n, 32767);
}

proof fn lemma_no_comma(s: Seq<char>)
    requires
        all_digits(s),
    ensures
        forall|i: int| 0 <= i < s.len() ==> #[trigger] s[i] != ',',
{
    assert forall|i: int| 0 <= i < s.len() implies #[trigger] s[i] != ',' by {
        assert(is_digit(s[i]));
    }
}

proof fn lemma_signed_no_comma(n: int)
    ensures
        forall|i: int| 0 <= i < dec_int(n).len() ==> #[trigger] dec_int(n)[i] != ',',
{
    let s = dec_int(n);
    if n < 0 {
        let m = (-n) as nat;
        lemma_dec_reads(m, m);
        lemma_no_comma(dec(m));
        assert forall|i: int| 0 <= i < s.len() implies #[trigger] s[i] != ',' by {
            if i > 0 {
                assert(s[i] == dec(m)[i - 1]);
            }
        }
    } else {
        lemma_dec_reads(n as nat, n as nat);
        lemma_no_comma(s);
    }
}

/// An envelope is its attack, its decay, its sustain as a percentage and
/// its release, in this order.
pub proof fn law_an_envelope_is_given_in_order(p: PatchView, a: nat, d: nat, s: nat, r: nat)
    requires
        a <= 255 && d <= 255 && s <= 100 && r <= 255,
    ensures
        with_adsr(p, dec(a) + seq![','] + (dec(d) + seq![','] + (dec(s) + seq![','] + dec(r))))
            matches Ok(q) && q.attack == a && q.decay == d && q.release == r && 100 * q.sustain
            <= 255 * s < 100 * (q.sustain + 1) && q == (PatchView {
            attack: q.attack,
            decay: q.decay,
            sustain: q.sustain,
            release: q.release,
            ..p
        }),
{
    lemma_dec_reads(a, 255);
    lemma_dec_reads(d, 255);
    lemma_dec_reads(s, u32::MAX as nat);
    lemma_dec_reads(r, 255);
    lemma_no_comma(dec(a));
    lemma_no_comma(dec(d));
    lemma_no_comma(dec(s));
    lemma_no_comma(dec(r));
    let two = dec(s) + seq![','] + dec(r);
    let three = dec(d) + seq![','] + two;
    law_parts_stand_between_separators(dec(r), ',', seq![]);
    law_parts_stand_between_separators(dec(s), ',', dec(r));
    law_parts_stand_between_separators(dec(d), ',', two);
    law_parts_stand_between_separators(dec(a), ',', three);
    let w = split(dec(a) + seq![','] + three, ',');
    assert(w =~= seq![dec(a), dec(d), dec(s), dec(r)]);
}

/// An arpeggio is its three offsets in order.
pub proof fn law_an_arpeggio_is_given_in_order(p: PatchView, a: int, b: int, c: int)
    requires
        -128 <= a <= 127 && -128 <= b <= 127 && -128 <= c <= 127,
    ensures
        with_arp(p, dec_int(a) + seq![','] + (dec_int(b) + seq![','] + dec_int(c))) matches Ok(q)
            && q.arp == seq![a as i8, b as i8, c as i8] && q == (PatchView { arp: q.arp, ..p }),
{
    law_a_number_reads_back(0, a, 127);
    law_a_number_reads_back(0, b, 127);
    law_a_number_reads_back(0, c, 127);
    lemma_signed_no_comma(a);
    lemma_signed_no_comma(b);
    lemma_signed_no_comma(c);
    let two = dec_int(b) + seq![','] + dec_int(c);
    law_parts_stand_between_separators(dec_int(c), ',', seq![]);
    law_parts_stand_between_separators(dec_int(b), ',', dec_int(c));
    law_parts_stand_between_separators(dec_int(a), ',', two);
    let w = split(dec_int(a) + seq![','] + two, ',');
    assert(w =~= seq![dec_int(a), dec_int(b), dec_int(c)]);
}

/// An instrument is kept under its number, counted from one; those before
/// it stay, and the places between stay open.
pub proof fn law_an_instrument_is_kept_under_its_number(d: Draft, rest: Seq<char>, i: int)
    requires
        instrument_of(rest) is Ok,
        add_instrument(d, rest) is Ok,
    ensures
        ({
            let n = instrument_of(rest)->Ok_0.0;
            let was = d.track.instruments;
            let now = add_instrument(d, rest)->Ok_0.track.instruments;
            &&& 1 <= n <= 64
            &&& now[n - 1] == Some(instrument_of(rest)->Ok_0.1)
            &&& 0 <= i < was.len() && i != n - 1 ==> now[i] == was[i]
            &&& n <= was.len() ==> now.len() == was.len() && was[n - 1] is None
            &&& n > was.len() ==> now.len() == n
            &&& was.len() <= i < n - 1 ==> now[i] is None
        }),
{
}

proof fn lemma_cells(parts: Seq<Seq<char>>, i: int, read: Seq<Cell>, k: int)
    requires
        0 <= i <= parts.len(),
        read.len() == i,
        cells_from(parts, i, read) is Ok,
    ensures
        ({
            let all = cells_from(parts, i, read)->Ok_0;
            &&& all.len() == parts.len()
            &&& 0 <= k < i ==> all[k] == read[k]
            &&& i <= k < parts.len() ==> cell_of(parts[k]) == Ok::<Cell, Seq<char>>(all[k])
        }),
    decreases parts.len() - i,
{
    if i < parts.len() {
        let c = cell_of(parts[i])->Ok_0;
        lemma_cells(parts, i + 1, read.push(c), k);
    }
}

/// A row is its cells from left to right, one for each part between bars,
/// and stands behind the rows before it.
pub proof fn law_a_row_is_its_cells(d: Draft, content: Seq<char>, k: int)
    requires
        add_row(d, content) is Ok,
    ensures
        ({
            let parts = split(content, '|');
            let rows = add_row(d, content)->Ok_0.track.rows;
            &&& rows.len() == d.track.rows.len() + 1
            &&& rows.drop_last() == d.track.rows
            &&& rows.last().len() == parts.len()
            &&& 0 <= k < parts.len() ==> cell_of(parts[k]) == Ok::<Cell, Seq<char>>(rows.last()[k])
            &&& add_row(d, content)->Ok_0.track.columns >= parts.len()
            &&& add_row(d, content)->Ok_0.track.columns >= d.track.columns
        }),
{
    let parts = split(content, '|');
    lemma_cells(parts, 0, seq![], k);
    let rows = add_row(d, content)->Ok_0.track.rows;
    assert(rows.drop_last() =~= d.track.rows);
}

/// A row that is too short is filled up with empty cells behind its own.
pub proof fn law_a_short_row_is_filled_up(row: Seq<Cell>, columns: nat, k: int)
    requires
        row.len() <= columns,
    ensures
        padded(row, columns).len() == columns,
        0 <= k < row.len() ==> padded(row, columns)[k] == row[k],
        row.len() <= k < columns ==> padded(row, columns)[k] == (Cell {
            note: Note::Empty,
            inst: None,
            vol: None,
        }),
{
}

/// A track starts with its first row and goes on row by row; behind its
/// last it goes on at the row it loops to, and ends where it loops to none.
pub proof fn law_rows_are_played_in_order(c: Cursor, track: Rc<Track>, base: usize, fade_in: u32)
    requires
        c.wf(),
        track@.wf(),
    ensures
        Cursor::started(track, base, fade_in).step() == Step::Row(0),
        Cursor::started(track, base, fade_in).base == base,
        c.step() matches Step::Row(r) ==> {
            &&& c.countdown == 0
            &&& c.ticked().row == r + 1
            &&& c.row < c.track@.rows.len() ==> r == c.row
            &&& c.row >= c.track@.rows.len() ==> c.track.loop_row == Some(r)
        },
        c.countdown == 0 && c.row >= c.track@.rows.len() && c.track.loop_row is None ==> c.step()
            == Step::End,
{
}

/// A fade in starts at silence and rises by one step a frame until it is
/// at unity, where it stays; without one the track is at unity at once.
pub proof fn law_a_fade_in_rises_to_unity(track: Rc<Track>, base: usize, frames: u32, c: Cursor)
    requires
        c.wf(),
        c.fade > 0,
    ensures
        Cursor::started(track, base, 0).gain == 256 && Cursor::started(track, base, 0).fade == 0,
        frames > 0 ==> Cursor::started(track, base, frames).gain == 0,
        1 <= frames <= 256 ==> ({
            let f = Cursor::started(track, base, frames).fade as int;
            f * frames <= 256 < (f + 1) * frames
        }),
        frames > 256 ==> Cursor::started(track, base, frames).fade == 1,
        c.gain + c.fade < 256 ==> c.faded().gain == c.gain + c.fade && c.faded().fade == c.fade,
        c.gain + c.fade >= 256 ==> c.faded().gain == 256 && c.faded().fade == 0,
        c.faded().row == c.row && c.faded().countdown == c.countdown,
{
    assert(GAIN_ONE == 256);
    if 1 <= frames <= 256 {
        let n = frames as int;
        vstd::arithmetic::div_mod::lemma_fundamental_div_mod(256, n);
        vstd::arithmetic::div_mod::lemma_mod_bound(256, n);
        let f = 256int / n;
        assert(f >= 1) by (nonlinear_arith)
            requires
                256 == n * f + 256int % n,
                0 <= 256int % n < n,
                1 <= n <= 256,
        ;
        assert(f * n == n * f && (f + 1) * n == f * n + n) by (nonlinear_arith);
    } else if frames > 256 {
        vstd::arithmetic::div_mod::lemma_basic_div(256, frames as int);
    }
}

// ----- lines ----------------------------------------------------------------------------------

/// What stands behind a semicolon is a comment, and so is a line that starts
/// with a hash; a line of nothing but white space says nothing.
pub proof fn law_comments_say_nothing(d: Draft, a: Seq<char>, b: Seq<char>)
    requires
        forall|i: int| 0 <= i < a.len() ==> #[trigger] a[i] != ';',
    ensures
        add_line(d, a + seq![';'] + b) == add_line(d, a),
        trim(a).len() == 0 || trim(a)[0] == '#' ==> add_line(d, a) == Ok::<Draft, Seq<char>>(d),
{
    let raw = a + seq![';'] + b;
    lemma_find(a, ';', a.len() as int);
    assert(a.take(a.len() as int) =~= a);
    assert(raw[a.len() as int] == ';');
    assert forall|i: int| 0 <= i < a.len() implies #[trigger] raw[i] != ';' by {
        assert(raw[i] == a[i]);
    }
    lemma_find(raw, ';', a.len() as int);
    assert(raw.take(a.len() as int) =~= a);
}

proof fn lemma_directive(word: Seq<char>, n: nat)
    requires
        word.len() > 0,
        forall|i: int| 0 <= i < word.len() ==> 'a' <= #[trigger] word[i] <= 'z',
    ensures
        ({
            let raw = word + seq![' '] + dec(n);
            &&& find(raw, ';') == raw.len()
            &&& raw.take(raw.len() as int) == raw
            &&& trim(raw) == raw
            &&& find_space(raw) == word.len()
            &&& raw.take(word.len() as int) == word
            &&& raw.skip(word.len() as int + 1) == dec(n)
            &&& trim(dec(n)) == dec(n)
            &&& word.len() < raw.len()
            &&& raw[0] == word[0]
        }),
{
    let raw = word + seq![' '] + dec(n);
    let w = word.len() as int;
    lemma_dec_reads(n, n);
    assert(is_digit(dec(n)[0]) && is_digit(dec(n).last()));
    lemma_trimmed(dec(n));
    assert forall|i: int| 0 <= i < raw.len() implies #[trigger] raw[i] != ';' by {
        if i < w {
            assert(raw[i] == word[i]);
        } else if i > w {
            assert(raw[i] == dec(n)[i - w - 1]);
            assert(is_digit(dec(n)[i - w - 1]));
        }
    }
    lemma_find(raw, ';', raw.len() as int);
    assert(raw.last() == dec(n).last());
    lemma_trimmed(raw);
    assert forall|i: int| 0 <= i < w implies !is_space(#[trigger] raw[i]) by {
        assert(raw[i] == word[i]);
    }
    assert(raw[w] == ' ');
    lemma_find_space(raw, w);
    assert(raw.take(w) =~= word);
    assert(raw.skip(w + 1) =~= dec(n));
    assert(raw.take(raw.len() as int) =~= raw);
}

/// A tempo is frames per row, from 1 to 255, and a loop is the row to go
/// back to; neither changes anything else.
pub proof fn law_tempo_and_loop_are_taken(d: Draft, n: nat)
    requires
        n <= u32::MAX,
    ensures
        1 <= n <= 255 ==> (add_line(d, "tempo"@ + seq![' '] + dec(n)) matches Ok(e) && e.track.tempo
            == n && e.track.rows == d.track.rows && e.track.instruments == d.track.instruments
            && e.loop_row == d.loop_row),
        n == 0 || n > 255 ==> add_line(d, "tempo"@ + seq![' '] + dec(n)) is Err,
        add_line(d, "loop"@ + seq![' '] + dec(n)) matches Ok(e) && e.loop_row == Some(n) && e.track
            == d.track,
{
    reveal_strlit("tempo");
    reveal_strlit("loop");
    lemma_dec_reads(n, u32::MAX as nat);
    lemma_dec_reads(n, usize::MAX as nat);
    lemma_directive("tempo"@, n);
    lemma_directive("loop"@, n);
    assert("tempo"@.len() == 5 && "loop"@.len() == 4);
}

proof fn lemma_lines_push(d: Draft, l: Seq<Seq<char>>, x: Seq<char>, i: int)
    requires
        0 <= i <= l.len(),
    ensures
        add_lines(d, l.push(x), i) == (match add_lines(d, l, i) {
            Err(e) => Err::<Draft, (nat, Seq<char>)>(e),
            Ok(e) => match add_line(e, x) {
                Err(why) => Err(((l.len() + 1) as nat, why)),
                Ok(f) => Ok(f),
            },
        }),
    decreases l.len() - i,
{
    let m = l.push(x);
    if i < l.len() {
        assert(m[i] == l[i]);
        if let Ok(e) = add_line(d, l[i]) {
            lemma_lines_push(e, l, x, i + 1);
        }
    } else {
        assert(m[i] == x);
        reveal_with_fuel(add_lines, 3);
    }
}

/// A file is read line by line, each over what those before it made; the
/// first that is wrong is told with its number, counted from one.
pub proof fn law_a_file_is_read_line_by_line(d: Draft, l: Seq<Seq<char>>, x: Seq<char>)
    ensures
        add_lines(d, seq![], 0) == Ok::<Draft, (nat, Seq<char>)>(d),
        add_lines(d, l.push(x), 0) == (match add_lines(d, l, 0) {
            Err(e) => Err::<Draft, (nat, Seq<char>)>(e),
            Ok(e) => match add_line(e, x) {
                Err(why) => Err(((l.len() + 1) as nat, why)),
                Ok(f) => Ok(f),
            },
        }),
{
    lemma_lines_push(d, l, x, 0);
}

/// A track has rows and loops to one of them, if it loops; it keeps what
/// its file gave.
pub proof fn law_a_track_has_rows_to_loop_to(d: Draft)
    ensures
        finished(d) is Ok <==> d.track.rows.len() > 0 && (d.loop_row matches Some(l) ==> l
            < d.track.rows.len()),
        finished(d) matches Ok(t) ==> t.tempo == d.track.tempo && t.loop_row == d.loop_row
            && t.instruments == d.track.instruments && t.rows.len() == d.track.rows.len()
            && t.columns == d.track.columns,
{
}

} // verus!
