//! Prices in cycles for work measured in pixels, bytes or elements. Every
//! binding also pays the minimum of one cycle through `charge`.

use vstd::prelude::*;
use vstd::arithmetic::power::*;
use super::{saturate, HOOK_CHARGE};

verus! {

/// `cls` pixels per cycle: the clip area is cheap because it is
/// one fill.
pub const CLS_PIXELS_PER_CYCLE: u64 = 64;

/// Pixels per cycle for shapes, text and blits.
pub const PIXELS_PER_CYCLE: u64 = 3;

/// `map`: cycles per cell requested, on top of the pixels.
pub const MAP_CYCLES_PER_CELL: u64 = 2;

/// Bytes per cycle for log lines and other byte-sized API traffic.
pub const BYTES8: u64 = 8;

/// Bytes per cycle for buffer memory moved or allocated.
pub const BYTES128: u64 = 128;

/// Source bytes per cycle compiled by `require`.
pub const COMPILE_BYTES_PER_CYCLE: u64 = 4;

/// Divisor of the pattern-matching work estimate.
pub const PATTERN_DIVISOR: u64 = 256;

/// Cap on the exponent of the pattern-matching work estimate.
pub const PATTERN_MAX_EXPONENT: u32 = 8;

/// Pixels' worth of work per unit of radius a circle costs before
/// clipping (`raster::circle_work`).
pub const CIRCLE_WORK_PER_RADIUS: u64 = 6;

/// `cls`: the clip area is cheap because it is one fill.
pub fn cls(pixels: u64) -> (n: u64)
    ensures
        n == 1 + pixels / 64,
{
    1 + pixels / CLS_PIXELS_PER_CYCLE
}

/// Shapes and blits: pixels touched after clipping.
pub fn pixels(touched: u64) -> (n: u64)
    ensures
        n == 1 + touched / 3,
{
    1 + touched / PIXELS_PER_CYCLE
}

/// `map`: per cell requested on top of the pixels.
pub fn map(cells: u64, touched: u64) -> (n: u64)
    ensures
        n == saturate(saturate(2 * cells) + 1 + touched / 3),
{
    let per_cell: u64 = if cells > u64::MAX / MAP_CYCLES_PER_CELL {
        u64::MAX
    } else {
        cells * MAP_CYCLES_PER_CELL
    };
    per_cell.saturating_add(pixels(touched))
}

/// `print` drawing: per character plus the pixels.
pub fn text(chars: u64, touched: u64) -> (n: u64)
    ensures
        n == saturate((if chars == 0 {
            1
        } else {
            chars as int
        }) + touched / 3),
{
    let chars: u64 = if chars < 1 { 1 } else { chars };
    chars.saturating_add(touched / PIXELS_PER_CYCLE)
}

/// Log lines and other byte-sized API traffic.
pub fn bytes8(bytes: u64) -> (n: u64)
    ensures
        n == 1 + bytes / 8,
{
    1 + bytes / BYTES8
}

/// Buffer memory moved or allocated.
pub fn bytes128(bytes: u64) -> (n: u64)
    ensures
        n == 1 + bytes / 128,
{
    1 + bytes / BYTES128
}

/// Source compiled by `require`.
pub fn compile(bytes: u64) -> (n: u64)
    ensures
        n == 1 + bytes / 4,
{
    1 + bytes / COMPILE_BYTES_PER_CYCLE
}

/// `n`, but at least one.
pub open spec fn at_least_one(n: u64) -> int {
    if n == 0 {
        1
    } else {
        n as int
    }
}

/// How often a subject can be rescanned: once per backtracking
/// quantifier, once more when the pattern is tried from every position,
/// up to the cap.
pub open spec fn pattern_exponent(quantifiers: u32, anchored: bool) -> nat {
    let exp = quantifiers + (if anchored { 0int } else { 1 });
    if exp > PATTERN_MAX_EXPONENT {
        PATTERN_MAX_EXPONENT as nat
    } else {
        exp as nat
    }
}

/// Worst-case matching work: the pattern times the subject to the power
/// of the rescans.
pub open spec fn pattern_work(subject: u64, length: u64, quantifiers: u32, anchored: bool) -> int {
    at_least_one(length) * pow(at_least_one(subject), pattern_exponent(quantifiers, anchored))
}

/// Pattern matching, priced by its worst case: each backtracking
/// quantifier (`*`, `+`, `-`, `?`) can rescan the subject, and an
/// unanchored pattern is tried from every position. The work is
/// `pattern * subject ^ (quantifiers + 1 if unanchored)`, divided by
/// 256 so ordinary matching on short strings stays cheap while a
/// backtracking bomb on a long subject faults before it runs.
pub fn pattern(subject: u64, length: u64, quantifiers: u32, anchored: bool) -> (n: u64)
    ensures
        n == saturate(1 + pattern_work(subject, length, quantifiers, anchored) / 256),
{
    let more: u32 = if anchored { 0 } else { 1 };
    let exp: u32 = if quantifiers >= PATTERN_MAX_EXPONENT {
        PATTERN_MAX_EXPONENT
    } else {
        quantifiers + more
    };
    let s: u128 = if subject < 1 { 1 } else { subject as u128 };
    let mut work: u128 = if length < 1 { 1 } else { length as u128 };
    let ghost p = work as int;
    let mut i: u32 = 0;
    proof {
        lemma_pow0(s as int);
    }
    while i < exp
        invariant
            i <= exp,
            1 <= s <= u64::MAX,
            1 <= p,
            work == p * pow(s as int, i as nat),
            exp == pattern_exponent(quantifiers, anchored),
            s == at_least_one(subject),
            p == at_least_one(length),
        decreases exp - i,
    {
        let ghost a = pow(s as int, i as nat);
        proof {
            lemma_pow1(s as int);
            lemma_pow_adds(s as int, i as nat, 1);
            assert(p * (a * s) == (p * a) * s) by (nonlinear_arith);
            lemma_pow_positive(s as int, i as nat);
            assert(a * s >= 0) by (nonlinear_arith)
                requires
                    a >= 0,
                    s >= 0,
            ;
        }
        match work.checked_mul(s) {
            Some(more) => {
                work = more;
            },
            None => {
                proof {
                    let b = pow(s as int, (exp - i - 1) as nat);
                    lemma_pow_adds(s as int, (i + 1) as nat, (exp - i - 1) as nat);
                    lemma_pow_positive(s as int, (exp - i - 1) as nat);
                    let c = a * s;
                    assert(p * (c * b) >= p * c) by (nonlinear_arith)
                        requires
                            p >= 1,
                            c >= 0,
                            b >= 1,
                    ;
                    assert(pow(s as int, exp as nat) == c * b);
                }
                return u64::MAX;
            },
        }
        i += 1;
    }
    let scaled: u128 = work / 256;
    if scaled >= u64::MAX as u128 {
        u64::MAX
    } else {
        1 + scaled as u64
    }
}

/// Whether a byte is one of Lua's backtracking quantifiers.
pub open spec fn is_quantifier(b: u8) -> bool {
    b == 42 || b == 43 || b == 45 || b == 63
}

/// Where the body of the set that opens at `i` starts: `[]...]` and
/// `[^]...]` start with a literal `]`.
pub open spec fn set_body(p: Seq<u8>, i: int) -> int {
    let j = if i + 1 < p.len() && p[i + 1] == 94 { i + 2 } else { i + 1 };
    if j < p.len() && p[j] == 93 {
        j + 1
    } else {
        j
    }
}

/// Where the set whose body goes on at `i` ends: at its `]`, or at the
/// end of the pattern. `%` escapes the byte behind it.
pub open spec fn set_end(p: Seq<u8>, i: int) -> int
    decreases p.len() + 2 - i,
{
    if i >= p.len() || p[i] == 93 {
        i
    } else if p[i] == 37 {
        set_end(p, i + 2)
    } else {
        set_end(p, i + 1)
    }
}

pub proof fn lemma_set_end(p: Seq<u8>, i: int)
    ensures
        set_end(p, i) >= i,
        i <= p.len() + 1 ==> set_end(p, i) <= p.len() + 1,
    decreases p.len() + 2 - i,
{
    if i >= p.len() || p[i] == 93 {
    } else if p[i] == 37 {
        lemma_set_end(p, i + 2);
    } else {
        lemma_set_end(p, i + 1);
    }
}

/// The backtracking quantifiers from `i` on, escapes and sets skipped.
pub open spec fn quantifiers_from(p: Seq<u8>, i: int) -> nat
    decreases p.len() + 2 - i,
    via quantifiers_from_decreases
{
    if i >= p.len() {
        0
    } else if p[i] == 37 {
        quantifiers_from(p, i + 2)
    } else if p[i] == 91 {
        quantifiers_from(p, set_end(p, set_body(p, i)) + 1)
    } else if is_quantifier(p[i]) {
        1 + quantifiers_from(p, i + 1)
    } else {
        quantifiers_from(p, i + 1)
    }
}

#[via_fn]
proof fn quantifiers_from_decreases(p: Seq<u8>, i: int) {
    lemma_set_end(p, set_body(p, i));
}

/// Backtracking quantifiers in a Lua pattern and whether it is
/// anchored, for [`pattern`]. A `-` inside a set (`[a-z]`) is a
/// range, not a quantifier, so set bodies are skipped.
pub fn pattern_shape(p: &[u8]) -> (r: (u32, bool))
    requires
        p@.len() <= u32::MAX,
    ensures
        r.0 == quantifiers_from(p@, 0),
        r.1 == (p@.len() > 0 && p@[0] == 94),
{
    let anchored = p.len() > 0 && p[0] == 94;
    let n = p.len();
    let mut quantifiers: u32 = 0;
    let mut i: usize = 0;
    while i < n
        invariant
            n == p@.len(),
            n <= u32::MAX,
            i <= n,
            quantifiers <= i,
            quantifiers + quantifiers_from(p@, i as int) == quantifiers_from(p@, 0),
        decreases n - i,
    {
        let b = p[i];
        if b == 37 {
            assert(n - i <= 1 ==> quantifiers_from(p@, i + 2) == 0);
            i = if n - i > 1 { i + 2 } else { n };
        } else if b == 91 {
            let mut j: usize = i + 1;
            if j < n && p[j] == 94 {
                j += 1;
            }
            if j < n && p[j] == 93 {
                j += 1;
            }
            assert(j == set_body(p@, i as int));
            let ghost body = j as int;
            let ghost end = set_end(p@, body);
            while j < n && p[j] != 93
                invariant
                    n == p@.len(),
                    i < j <= n,
                    set_end(p@, j as int) == end || (end >= n && j == n),
                decreases n - j,
            {
                if p[j] == 37 && n - j == 1 {
                    proof {
                        lemma_set_end(p@, j + 2);
                    }
                    j = n;
                } else if p[j] == 37 {
                    j += 2;
                } else {
                    j += 1;
                }
            }
            i = if j < n { j + 1 } else { n };
            assert(quantifiers_from(p@, end + 1) == quantifiers_from(p@, i as int));
        } else {
            if b == 42 || b == 43 || b == 45 || b == 63 {
                quantifiers += 1;
            }
            i += 1;
        }
    }
    (quantifiers, anchored)
}

/// The number of binary digits of `n`.
pub open spec fn bit_length(n: nat) -> nat
    decreases n,
{
    if n == 0 {
        0
    } else {
        1 + bit_length(n / 2)
    }
}

/// `table.sort`: n log2 n comparisons.
pub open spec fn sort_price(n: u64) -> int {
    1 + saturate(n * (if n <= 1 {
        0
    } else {
        bit_length(n as nat) as int
    }))
}

/// `table.sort`: n log2 n comparisons.
pub fn sort(n: u64) -> (r: u64)
    requires
        sort_price(n) <= u64::MAX,
    ensures
        r == sort_price(n),
{
    let mut log: u64 = 0;
    if n > 1 {
        let mut m = n;
        while m > 0
            invariant
                log + bit_length(m as nat) == bit_length(n as nat),
                log <= n - m,
            decreases m,
        {
            m = m / 2;
            log += 1;
        }
    }
    match n.checked_mul(log) {
        Some(work) => 1 + work,
        None => {
            assert(false);
            u64::MAX
        },
    }
}

/// A new coroutine starts with a reset hook count, so it is charged
/// the interval it could hide.
pub fn coroutine() -> (n: u64)
    ensures
        n == HOOK_CHARGE,
{
    HOOK_CHARGE
}

proof fn lemma_pow_grows(a: int, b: int, n: nat)
    requires
        1 <= a <= b,
    ensures
        1 <= pow(a, n) <= pow(b, n),
    decreases n,
{
    reveal(pow);
    if n > 0 {
        lemma_pow_grows(a, b, (n - 1) as nat);
        let x = pow(a, (n - 1) as nat);
        let y = pow(b, (n - 1) as nat);
        assert(1 <= a * x <= b * y) by (nonlinear_arith)
            requires
                1 <= a <= b,
                1 <= x <= y,
        ;
    }
}

/// A longer subject, a longer pattern or more quantifiers never cost less,
/// and no match is free.
pub proof fn law_pattern_prices_grow(
    s: u64,
    t: u64,
    p: u64,
    q: u64,
    quantifiers: u32,
    more: u32,
    anchored: bool,
)
    requires
        s <= t,
        p <= q,
        quantifiers <= more,
    ensures
        1 <= pattern_work(s, p, quantifiers, anchored) <= pattern_work(t, q, more, anchored),
{
    let a = at_least_one(s);
    let b = at_least_one(t);
    let m = pattern_exponent(quantifiers, anchored);
    let n = pattern_exponent(more, anchored);
    lemma_pow_grows(a, b, m);
    lemma_pow_grows(b, b, m);
    lemma_pow_grows(b, b, (n - m) as nat);
    vstd::arithmetic::power::lemma_pow_adds(b, m, (n - m) as nat);
    let x = pow(a, m);
    let y = pow(b, n);
    assert(pow(b, m) <= y) by (nonlinear_arith)
        requires
            y == pow(b, m) * pow(b, (n - m) as nat),
            pow(b, (n - m) as nat) >= 1,
            pow(b, m) >= 1,
    ;
    assert(1 <= at_least_one(p) * x <= at_least_one(q) * y) by (nonlinear_arith)
        requires
            1 <= at_least_one(p) <= at_least_one(q),
            1 <= x <= y,
    ;
}

proof fn lemma_bits_grow(m: nat, n: nat)
    requires
        m <= n,
    ensures
        bit_length(m) <= bit_length(n),
    decreases n,
{
    if m > 0 {
        lemma_bits_grow(m / 2, n / 2);
    }
}

/// A longer table never costs less to sort, and no sort is free.
pub proof fn law_sort_prices_grow(m: u64, n: u64)
    requires
        m <= n,
    ensures
        1 <= sort_price(m) <= sort_price(n),
{
    lemma_bits_grow(m as nat, n as nat);
    let x: int = if m <= 1 { 0 } else { bit_length(m as nat) as int };
    let y: int = if n <= 1 { 0 } else { bit_length(n as nat) as int };
    assert(0 <= m * x <= n * y) by (nonlinear_arith)
        requires
            0 <= m <= n,
            0 <= x <= y,
    ;
}

} // verus!
