//! Integer division the way the console rounds it.

use vstd::prelude::*;

verus! {

/// `a` divided by `b` towards zero.
pub open spec fn trunc_div(a: int, b: int) -> int {
    if a >= 0 {
        a / b
    } else {
        -((-a) / b)
    }
}

/// `a` kept between `lo` and `hi`.
pub open spec fn clamp(a: int, lo: int, hi: int) -> int {
    if a < lo {
        lo
    } else if a > hi {
        hi
    } else {
        a
    }
}

/// `a` divided by `b`, rounded down.
pub fn floor_div(a: i64, b: i64) -> (r: i64)
    requires
        b > 0,
    ensures
        r == a as int / b as int,
{
    if a >= 0 {
        a / b
    } else {
        let q: i64 = (-1 - a) / b;
        proof {
            let m = -1 - a as int;
            let k = m / b as int;
            let rem = m % b as int;
            assert(m == b as int * k + rem && 0 <= rem < b) by {
                vstd::arithmetic::div_mod::lemma_fundamental_div_mod(m, b as int);
                vstd::arithmetic::div_mod::lemma_mod_bound(m, b as int);
            }
            assert(a as int == b as int * (-1 - k) + (b - 1 - rem)) by (nonlinear_arith)
                requires
                    -1 - a as int == b as int * k + rem,
            ;
            vstd::arithmetic::div_mod::lemma_fundamental_div_mod_converse(
                a as int,
                b as int,
                -1 - k,
                b - 1 - rem,
            );
            assert(k <= m) by (nonlinear_arith)
                requires
                    m == b * k + rem,
                    b > 0,
                    rem >= 0,
                    m >= 0,
            ;
        }
        -1 - q
    }
}

/// `a` divided by `b`, rounded towards zero.
pub fn div_trunc(a: i64, b: i64) -> (r: i64)
    requires
        b > 0,
        a > i64::MIN,
    ensures
        r == trunc_div(a as int, b as int),
{
    if a >= 0 {
        a / b
    } else {
        -((-a) / b)
    }
}

/// `a` kept between `lo` and `hi`.
pub fn clamped(a: i64, lo: i64, hi: i64) -> (r: i64)
    ensures
        r == clamp(a as int, lo as int, hi as int),
{
    if a < lo {
        lo
    } else if a > hi {
        hi
    } else {
        a
    }
}

/// A number kept within 32 bits.
pub open spec fn saturated(v: int) -> int {
    if v > i32::MAX {
        i32::MAX as int
    } else if v < i32::MIN {
        i32::MIN as int
    } else {
        v
    }
}

pub fn saturate(v: i64) -> (r: i32)
    ensures
        r == saturated(v as int),
{
    if v > i32::MAX as i64 {
        i32::MAX
    } else if v < i32::MIN as i64 {
        i32::MIN
    } else {
        v as i32
    }
}

} // verus!
