//! What a launcher hands to a confined child as plain text: the command
//! line, quoted the way the MSVC C runtime unquotes it, the environment
//! block, and what a setup failure is called. Creating the token and the
//! process is the host's.

use vstd::prelude::*;
use vstd::string::*;
use crate::text::{chars_of, dec, push_dec, texts};
use crate::worker::{CRASH_HOOK, HANG_HOOK};

verus! {

/// The profile the worker runs under.
pub const PROFILE_NAME: &'static str = "kuula-worker";

/// Test hook: when set, setup fails deliberately after the child exists
/// suspended, so the fail-closed path (terminate, report) is exercised.
pub const FAIL_HOOK: &'static str = "KUULA_TEST_SANDBOX_FAIL";

/// A run of backslashes.
pub open spec fn slashes(n: nat) -> Seq<char> {
    Seq::new(n, |i: int| '\\')
}

pub open spec fn is_blank(c: char) -> bool {
    c == ' ' || c == '\t'
}

/// Whether an argument needs no quotes.
pub open spec fn is_plain(a: Seq<char>) -> bool {
    a.len() > 0 && forall|i: int| 0 <= i < a.len() ==> !is_blank(#[trigger] a[i]) && a[i] != '"'
}

/// What stands between the quotes for the rest of an argument behind a
/// run of backslashes: the run is doubled where a quote follows it.
pub open spec fn escaped(s: Seq<char>, run: nat) -> Seq<char>
    decreases s.len(),
{
    if s.len() == 0 {
        slashes(2 * run)
    } else if s[0] == '\\' {
        escaped(s.skip(1), run + 1)
    } else if s[0] == '"' {
        slashes(2 * run + 1) + seq!['"'] + escaped(s.skip(1), 0)
    } else {
        slashes(run) + seq![s[0]] + escaped(s.skip(1), 0)
    }
}

/// An argument as it stands on a command line.
pub open spec fn quoted_arg(a: Seq<char>) -> Seq<char> {
    if is_plain(a) {
        a
    } else {
        seq!['"'] + escaped(a, 0) + seq!['"']
    }
}

/// The arguments behind a program, each behind a space.
pub open spec fn tail_line(args: Seq<Seq<char>>) -> Seq<char>
    decreases args.len(),
{
    if args.len() == 0 {
        seq![]
    } else {
        seq![' '] + quoted_arg(args[0]) + tail_line(args.skip(1))
    }
}

fn push_slashes(out: &mut Vec<char>, n: usize)
    ensures
        final(out)@ == old(out)@ + slashes(n as nat),
{
    let mut i: usize = 0;
    assert(out@ =~= old(out)@ + slashes(0));
    while i < n
        invariant
            i <= n,
            out@ == old(out)@ + slashes(i as nat),
        decreases n - i,
    {
        out.push('\\');
        assert(slashes((i + 1) as nat) =~= slashes(i as nat).push('\\'));
        assert(out@ =~= old(out)@ + slashes((i + 1) as nat));
        i += 1;
    }
}

/// A run of backslashes, doubled.
fn push_doubled(out: &mut Vec<char>, n: usize)
    ensures
        final(out)@ == old(out)@ + slashes(2 * (n as nat)),
{
    push_slashes(out, n);
    push_slashes(out, n);
    assert(out@ =~= old(out)@ + slashes(2 * (n as nat)));
}

fn plain(a: &Vec<char>) -> (r: bool)
    ensures
        r == is_plain(a@),
{
    if a.len() == 0 {
        return false;
    }
    let mut i: usize = 0;
    while i < a.len()
        invariant
            i <= a@.len(),
            forall|k: int| 0 <= k < i ==> !is_blank(#[trigger] a@[k]) && a@[k] != '"',
        decreases a.len() - i,
    {
        if a[i] == ' ' || a[i] == '\t' || a[i] == '"' {
            assert(is_blank(a@[i as int]) || a@[i as int] == '"');
            return false;
        }
        i += 1;
    }
    true
}

fn push_chars(out: &mut Vec<char>, a: &Vec<char>)
    ensures
        final(out)@ == old(out)@ + a@,
{
    let mut i: usize = 0;
    assert(out@ =~= old(out)@ + a@.take(0));
    while i < a.len()
        invariant
            i <= a@.len(),
            out@ == old(out)@ + a@.take(i as int),
        decreases a.len() - i,
    {
        out.push(a[i]);
        assert(out@ =~= old(out)@ + a@.take(i + 1));
        i += 1;
    }
    assert(a@.take(i as int) =~= a@);
}

/// Quote one argument the way the MSVC C runtime unquotes it.
pub fn quote(arg: &str, out: &mut Vec<char>)
    ensures
        final(out)@ == old(out)@ + quoted_arg(arg@),
{
    let a = chars_of(arg);
    if plain(&a) {
        push_chars(out, &a);
        return;
    }
    out.push('"');
    let ghost start = old(out)@ + seq!['"'];
    let mut run: usize = 0;
    let mut i: usize = 0;
    assert(a@.skip(0) =~= a@);
    assert(out@ + escaped(a@, 0) =~= start + escaped(a@, 0));
    while i < a.len()
        invariant
            i <= a@.len(),
            run <= i,
            out@ + escaped(a@.skip(i as int), run as nat) == start + escaped(a@, 0),
        decreases a.len() - i,
    {
        let ghost s = a@.skip(i as int);
        assert(s.skip(1) =~= a@.skip(i + 1));
        assert(s[0] == a@[i as int]);
        let c = a[i];
        if c == '\\' {
            run += 1;
        } else if c == '"' {
            let ghost before = out@;
            push_doubled(out, run);
            out.push('\\');
            out.push('"');
            assert(out@ =~= before + (slashes(2 * (run as nat) + 1) + seq!['"']));
            assert(out@ + escaped(s.skip(1), 0) =~= before + escaped(s, run as nat));
            run = 0;
        } else {
            let ghost before = out@;
            push_slashes(out, run);
            out.push(c);
            assert(out@ + escaped(s.skip(1), 0) =~= before + escaped(s, run as nat));
            run = 0;
        }
        i += 1;
    }
    let ghost before = out@;
    assert(a@.skip(i as int) =~= seq![]);
    push_doubled(out, run);
    out.push('"');
    assert(out@ =~= (before + slashes(2 * (run as nat))) + seq!['"']);
    assert((start + escaped(a@, 0)) + seq!['"'] =~= old(out)@ + quoted_arg(arg@));
}

/// A program and its arguments as one command line.
pub fn command_line(exe: &str, args: &Vec<String>) -> (line: Vec<char>)
    ensures
        line@ == quoted_arg(exe@) + tail_line(texts(args@)),
{
    let mut line: Vec<char> = Vec::new();
    quote(exe, &mut line);
    let ghost all = texts(args@);
    let mut i: usize = 0;
    assert(all.skip(0) =~= all);
    assert(line@ =~= quoted_arg(exe@));
    while i < args.len()
        invariant
            i <= args@.len(),
            all == texts(args@),
            line@ + tail_line(all.skip(i as int)) == quoted_arg(exe@) + tail_line(all),
        decreases args.len() - i,
    {
        let ghost rest = all.skip(i as int);
        let ghost before = line@;
        assert(rest.skip(1) =~= all.skip(i + 1));
        assert(rest[0] == args@[i as int]@);
        line.push(' ');
        quote(args[i].as_str(), &mut line);
        assert(line@ + tail_line(rest.skip(1)) =~= before + tail_line(rest));
        i += 1;
    }
    assert(all.skip(i as int) =~= seq![]);
    assert(line@ + Seq::<char>::empty() =~= line@);
    line
}

// ----- reading a command line back --------------------------------------------------------

/// What the runtime reads of one argument: the argument and what is left
/// behind it. A run of backslashes stands for itself unless a quote
/// follows; then each pair stands for one, and one left over makes the
/// quote stand for itself. Two quotes in a row inside quotes are a quote.
pub open spec fn read_arg(s: Seq<char>, inside: bool, run: nat, got: Seq<char>) -> (
    Seq<char>,
    Seq<char>,
)
    decreases s.len(),
{
    if s.len() == 0 {
        (got + slashes(run), seq![])
    } else if s[0] == '\\' {
        read_arg(s.skip(1), inside, run + 1, got)
    } else if s[0] == '"' {
        let now = got + slashes(run / 2);
        if run % 2 == 1 {
            read_arg(s.skip(1), inside, 0, now.push('"'))
        } else if inside && s.len() > 1 && s[1] == '"' {
            read_arg(s.skip(2), inside, 0, now.push('"'))
        } else {
            read_arg(s.skip(1), !inside, 0, now)
        }
    } else if is_blank(s[0]) && !inside {
        (got + slashes(run), s)
    } else {
        read_arg(s.skip(1), inside, 0, (got + slashes(run)).push(s[0]))
    }
}

/// A line without the blanks in front.
pub open spec fn past_blanks(s: Seq<char>) -> Seq<char>
    decreases s.len(),
{
    if s.len() > 0 && is_blank(s[0]) {
        past_blanks(s.skip(1))
    } else {
        s
    }
}

/// Whether a line is at an argument's end.
pub open spec fn at_an_end(s: Seq<char>) -> bool {
    s.len() == 0 || is_blank(s[0])
}

proof fn lemma_reads_slashes(n: nat, rest: Seq<char>, inside: bool, run: nat, got: Seq<char>)
    ensures
        read_arg(slashes(n) + rest, inside, run, got) == read_arg(rest, inside, run + n, got),
    decreases n,
{
    if n == 0 {
        assert(slashes(0) + rest =~= rest);
    } else {
        let s = slashes(n) + rest;
        assert(s.skip(1) =~= slashes((n - 1) as nat) + rest);
        lemma_reads_slashes((n - 1) as nat, rest, inside, run + 1, got);
    }
}

/// The rest of a quoted argument reads back behind what was read.
proof fn lemma_escaped_reads_back(s: Seq<char>, run: nat, tail: Seq<char>, got: Seq<char>)
    requires
        at_an_end(tail),
    ensures
        read_arg(escaped(s, run) + seq!['"'] + tail, true, 0, got) == (
            got + slashes(run) + s,
            tail,
        ),
    decreases s.len(),
{
    let end = seq!['"'] + tail;
    let line = escaped(s, run) + seq!['"'] + tail;
    if s.len() == 0 {
        assert(line =~= slashes(2 * run) + end);
        lemma_reads_slashes(2 * run, end, true, 0, got);
        assert(end.skip(1) =~= tail);
        assert((2 * run) as nat / 2 == run && (2 * run) as nat % 2 == 0);
        let now = got + slashes(run);
        assert(now + slashes(0) =~= now);
        assert(tail.len() == 0 ==> tail =~= seq![]);
        assert(read_arg(end, true, 2 * run, got) == read_arg(tail, false, 0, now));
        assert(got + slashes(run) + s =~= now);
    } else if s[0] == '\\' {
        lemma_escaped_reads_back(s.skip(1), run + 1, tail, got);
        assert(got + slashes(run + 1) + s.skip(1) =~= got + slashes(run) + s);
    } else if s[0] == '"' {
        let rest = escaped(s.skip(1), 0) + seq!['"'] + tail;
        let middle = seq!['"'] + rest;
        assert(line =~= slashes(2 * run + 1) + middle);
        lemma_reads_slashes(2 * run + 1, middle, true, 0, got);
        assert(middle.skip(1) =~= rest);
        assert((2 * run + 1) as nat / 2 == run && (2 * run + 1) as nat % 2 == 1);
        let now = (got + slashes(run)).push('"');
        lemma_escaped_reads_back(s.skip(1), 0, tail, now);
        assert(now + slashes(0) + s.skip(1) =~= got + slashes(run) + s);
    } else {
        let rest = escaped(s.skip(1), 0) + seq!['"'] + tail;
        let middle = seq![s[0]] + rest;
        assert(line =~= slashes(run) + middle);
        lemma_reads_slashes(run, middle, true, 0, got);
        assert(middle.skip(1) =~= rest);
        let now = (got + slashes(run)).push(s[0]);
        lemma_escaped_reads_back(s.skip(1), 0, tail, now);
        assert(now + slashes(0) + s.skip(1) =~= got + slashes(run) + s);
    }
}

proof fn lemma_plain_reads_back(a: Seq<char>, run: nat, tail: Seq<char>, got: Seq<char>)
    requires
        forall|i: int| 0 <= i < a.len() ==> !is_blank(#[trigger] a[i]) && a[i] != '"',
        at_an_end(tail),
    ensures
        read_arg(a + tail, false, run, got) == (got + slashes(run) + a, tail),
    decreases a.len(),
{
    let line = a + tail;
    if a.len() == 0 {
        assert(line =~= tail);
        assert(tail.len() == 0 ==> tail =~= seq![]);
        assert(got + slashes(run) + a =~= got + slashes(run));
    } else {
        let rest = a.skip(1);
        assert(line.skip(1) =~= rest + tail);
        assert(line[0] == a[0]);
        assert forall|i: int| 0 <= i < rest.len() implies !is_blank(#[trigger] rest[i]) && rest[i]
            != '"' by {
            assert(rest[i] == a[i + 1]);
        }
        if a[0] == '\\' {
            lemma_plain_reads_back(rest, run + 1, tail, got);
            assert(got + slashes(run + 1) + rest =~= got + slashes(run) + a);
        } else {
            let now = (got + slashes(run)).push(a[0]);
            lemma_plain_reads_back(rest, 0, tail, now);
            assert(now + slashes(0) + rest =~= got + slashes(run) + a);
        }
    }
}

/// What is quoted reads back as it was, whatever it holds, and nothing
/// behind it is taken for a part of it.
pub proof fn law_a_quoted_argument_reads_back(a: Seq<char>, tail: Seq<char>)
    requires
        at_an_end(tail),
    ensures
        read_arg(quoted_arg(a) + tail, false, 0, seq![]) == (a, tail),
{
    if is_plain(a) {
        lemma_plain_reads_back(a, 0, tail, seq![]);
        assert(Seq::<char>::empty() + slashes(0) + a =~= a);
    } else {
        let line = quoted_arg(a) + tail;
        let rest = escaped(a, 0) + seq!['"'] + tail;
        assert(line.skip(1) =~= rest);
        assert(Seq::<char>::empty() + slashes(0) =~= seq![]);
        lemma_escaped_reads_back(a, 0, tail, seq![]);
        assert(Seq::<char>::empty() + slashes(0) + a =~= a);
    }
}

proof fn lemma_an_argument_starts(a: Seq<char>)
    ensures
        quoted_arg(a).len() > 0,
        !is_blank(quoted_arg(a)[0]),
{
    if !is_plain(a) {
        assert(quoted_arg(a)[0] == '"');
    }
}

/// Reading the rest of a line one argument at a time gives the arguments,
/// in order: the first is the first that was put there, and what is left
/// is the line of the others.
pub proof fn law_a_command_line_reads_back(args: Seq<Seq<char>>)
    requires
        args.len() > 0,
    ensures
        read_arg(past_blanks(tail_line(args)), false, 0, seq![]) == (
            args[0],
            tail_line(args.skip(1)),
        ),
{
    let rest = tail_line(args.skip(1));
    let line = tail_line(args);
    let first = quoted_arg(args[0]) + rest;
    lemma_an_argument_starts(args[0]);
    assert(line.skip(1) =~= first);
    assert(first[0] == quoted_arg(args[0])[0]);
    assert(past_blanks(first) == first);
    assert(past_blanks(line) == past_blanks(first));
    assert(at_an_end(rest)) by {
        if args.skip(1).len() > 0 {
            assert(rest[0] == ' ');
        }
    }
    law_a_quoted_argument_reads_back(args[0], rest);
}

// ----- the environment --------------------------------------------------------------------

/// The environment the broker passes to a worker: what the C runtime and
/// loader want, `LOCALAPPDATA` because creating the container derives its
/// redirected profile path from it, and the worker's test hooks.
pub fn env_names() -> (v: Vec<&'static str>)
    ensures
        v@ == seq![
            "SYSTEMROOT",
            "WINDIR",
            "LOCALAPPDATA",
            "KUULA_TEST_WORKER_CRASH",
            "KUULA_TEST_WORKER_HANG",
        ],
{
    let mut v: Vec<&'static str> = Vec::new();
    v.push("SYSTEMROOT");
    v.push("WINDIR");
    v.push("LOCALAPPDATA");
    v.push(CRASH_HOOK);
    v.push(HANG_HOOK);
    v
}

/// A character in UTF-16.
pub open spec fn units(c: char) -> Seq<u16> {
    let v = c as u32;
    if v < 0x10000 {
        seq![v as u16]
    } else {
        seq![(0xd800 + (v - 0x10000) / 0x400) as u16, (0xdc00 + (v - 0x10000) % 0x400) as u16]
    }
}

/// A text in UTF-16.
pub open spec fn wide_of(s: Seq<char>) -> Seq<u16>
    decreases s.len(),
{
    if s.len() == 0 {
        seq![]
    } else {
        wide_of(s.drop_last()) + units(s.last())
    }
}

/// A variable as it stands in the block.
pub open spec fn variable(k: Seq<char>, v: Seq<char>) -> Seq<u16> {
    wide_of(k) + seq![0x3du16] + wide_of(v) + seq![0u16]
}

pub open spec fn variables(env: Seq<(String, String)>) -> Seq<u16>
    decreases env.len(),
{
    if env.len() == 0 {
        seq![]
    } else {
        variables(env.drop_last()) + variable(env.last().0@, env.last().1@)
    }
}

/// A text in UTF-16, put behind other units.
pub fn push_wide(out: &mut Vec<u16>, s: &str)
    ensures
        final(out)@ == old(out)@ + wide_of(s@),
{
    let a = chars_of(s);
    let mut i: usize = 0;
    assert(a@.take(0) =~= seq![]);
    assert(out@ =~= old(out)@ + wide_of(a@.take(0)));
    while i < a.len()
        invariant
            i <= a@.len(),
            out@ == old(out)@ + wide_of(a@.take(i as int)),
        decreases a.len() - i,
    {
        let ghost before = out@;
        let v = a[i] as u32;
        if v < 0x10000 {
            out.push(v as u16);
        } else {
            let w: u32 = v - 0x10000;
            out.push((0xd800 + w / 0x400) as u16);
            out.push((0xdc00 + w % 0x400) as u16);
        }
        proof {
            let t = a@.take(i + 1);
            assert(t.drop_last() =~= a@.take(i as int));
            assert(t.last() == a@[i as int]);
            assert(out@ =~= before + units(a@[i as int]));
            assert(out@ =~= old(out)@ + wide_of(t));
        }
        i += 1;
    }
    assert(a@.take(i as int) =~= a@);
}

/// Each variable as `key=value`, ended by a zero, and a zero at the end.
pub fn environment_block(env: &Vec<(String, String)>) -> (block: Vec<u16>)
    ensures
        block@ == variables(env@).push(0),
{
    let mut block: Vec<u16> = Vec::new();
    let mut i: usize = 0;
    assert(env@.take(0) =~= seq![]);
    while i < env.len()
        invariant
            i <= env@.len(),
            block@ == variables(env@.take(i as int)),
        decreases env.len() - i,
    {
        let ghost before = block@;
        let pair = &env[i];
        push_wide(&mut block, pair.0.as_str());
        block.push(0x3d);
        push_wide(&mut block, pair.1.as_str());
        block.push(0);
        proof {
            let t = env@.take(i + 1);
            assert(t.drop_last() =~= env@.take(i as int));
            assert(t.last() == env@[i as int]);
            assert(block@ =~= before + variable(env@[i as int].0@, env@[i as int].1@));
        }
        i += 1;
    }
    assert(env@.take(i as int) =~= env@);
    block.push(0);
    block
}

// ----- what comes of it -------------------------------------------------------------------

/// The byte a child's exit code leaves for this process.
pub fn exit_byte(code: u32) -> (r: u8)
    ensures
        r == code % 256,
{
    (code % 256) as u8
}

/// Why a child that was set up never ran.
pub fn terminated(pid: u32, reason: &str) -> (s: String)
    ensures
        s@ == "worker "@ + dec(pid as nat) + " terminated before it ran: "@ + reason@,
{
    let mut s = "worker ".to_owned();
    push_dec(&mut s, pid as u64);
    s.append(" terminated before it ran: ");
    s.append(reason);
    s
}

/// `WSAEACCES`: the socket layer's access-denied.
pub const WSAEACCES: i32 = 10013;

/// `ERROR_ACCESS_DENIED`.
pub const ACCESS_DENIED: i32 = 5;

/// What a probe says of an attempt that ended with a system's code, if it
/// had one, and a text.
pub open spec fn verdict_text(kind: Seq<char>, failed: Option<(Option<i32>, Seq<char>)>) -> Seq<
    char,
> {
    match failed {
        None => kind + " ok"@,
        Some((Some(code), _)) if code == ACCESS_DENIED || code == WSAEACCES => kind + " denied"@,
        Some((_, why)) => kind + " other: "@ + why,
    }
}

/// One line of a probe.
pub fn verdict(kind: &str, failed: Option<(Option<i32>, &str)>) -> (s: String)
    ensures
        s@ == verdict_text(
            kind@,
            match failed {
                Some((code, why)) => Some((code, why@)),
                None => None,
            },
        ),
{
    let mut s = kind.to_owned();
    match failed {
        None => {
            s.append(" ok");
        },
        Some((code, why)) => {
            let denied = match code {
                Some(c) => c == ACCESS_DENIED || c == WSAEACCES,
                None => false,
            };
            if denied {
                s.append(" denied");
            } else {
                s.append(" other: ");
                s.append(why);
            }
        },
    }
    s
}

} // verus!
