//! Floats as the codec holds them, and the exact order of integers and
//! floats. A float is its IEEE 754 bits with the shortest decimal digits
//! that read back as it; what has to be known of its value is worked out
//! from the bits in integers.

use vstd::prelude::*;
use vstd::arithmetic::div_mod::*;
use vstd::arithmetic::mul::*;
use vstd::arithmetic::power2::*;
use vstd::string::*;
use super::{CodecError, ErrorView};
use crate::text::{dec_int, push_dec_int};

verus! {

/// A 64-bit float: its bits, and the shortest decimal that reads back as
/// it, as a number whose decimal digits have the point behind the first,
/// and a power of ten.
#[derive(Debug, Clone, Copy, PartialEq, Eq, Structural)]
pub struct Float {
    pub bits: u64,
    pub digits: u64,
    pub exp: i32,
}

/// How two keys or numbers compare.
#[derive(Debug, Clone, Copy, PartialEq, Eq, Structural)]
pub enum Order {
    Less,
    Equal,
    Greater,
}

/// How two integers compare.
pub open spec fn order_of(a: int, b: int) -> Order {
    if a < b {
        Order::Less
    } else if a == b {
        Order::Equal
    } else {
        Order::Greater
    }
}

/// The sign bit.
pub open spec fn negative(bits: u64) -> bool {
    bits >= 0x8000_0000_0000_0000
}

/// The biased exponent.
pub open spec fn exponent(bits: u64) -> int {
    bits as int / 0x10_0000_0000_0000 % 2048
}

/// The fraction bits.
pub open spec fn fraction(bits: u64) -> int {
    bits as int % 0x10_0000_0000_0000
}

/// Neither infinite nor no number.
pub open spec fn finite(bits: u64) -> bool {
    exponent(bits) != 2047
}

/// The significand of a finite float, an integer.
pub open spec fn significand(bits: u64) -> int {
    fraction(bits) + (if exponent(bits) > 0 {
        0x10_0000_0000_0000int
    } else {
        0
    })
}

/// How often the significand is doubled to count the smallest floats.
pub open spec fn doublings(bits: u64) -> nat {
    (if exponent(bits) > 0 {
        exponent(bits) - 1
    } else {
        0
    }) as nat
}

/// The value of a finite float, counted in the smallest float, of which
/// there are 2^1074 in one.
pub open spec fn scaled(bits: u64) -> int {
    let m = significand(bits) * pow2(doublings(bits));
    if negative(bits) {
        -m
    } else {
        m
    }
}

/// The value of an integer on the same scale.
pub open spec fn scaled_int(i: int) -> int {
    i * pow2(1074)
}

/// The 64-bit integer that a finite float equals, if there is one.
pub open spec fn integer_value(bits: u64) -> Option<int> {
    if scaled(bits) % pow2(1074) as int == 0 {
        let n = scaled(bits) / pow2(1074) as int;
        if i64::MIN <= n <= i64::MAX {
            Some(n)
        } else {
            None
        }
    } else {
        None
    }
}

/// What a float that is not finite is called.
pub open spec fn nonfinite_name(bits: u64) -> Seq<char> {
    if fraction(bits) != 0 {
        "NaN"@
    } else if negative(bits) {
        "-inf"@
    } else {
        "inf"@
    }
}

/// What is said of a float that has no encoding.
pub open spec fn float_refusal(bits: u64) -> ErrorView {
    ErrorView { code: "codec_number"@, message: nonfinite_name(bits) + " cannot be encoded"@ }
}

/// NaN and the infinities have no encoding.
pub fn check_float(f: &Float) -> (r: Result<(), CodecError>)
    ensures
        match r {
            Ok(_) => finite(f.bits),
            Err(e) => !finite(f.bits) && e@ == float_refusal(f.bits),
        },
{
    let e: u64 = f.bits / 0x10_0000_0000_0000 % 2048;
    if e != 2047 {
        return Ok(());
    }
    let name = if f.bits % 0x10_0000_0000_0000 != 0 {
        "NaN"
    } else if f.bits >= 0x8000_0000_0000_0000 {
        "-inf"
    } else {
        "inf"
    };
    let mut s = name.to_owned();
    s.append(" cannot be encoded");
    Err(CodecError { code: CodecError::NUMBER, message: s })
}

/// A power of two that fits.
fn power_of_two(k: u64) -> (p: i128)
    requires
        k <= 64,
    ensures
        p == pow2(k as nat),
        1 <= p <= 0x1_0000_0000_0000_0000,
{
    let mut p: i128 = 1;
    let mut i: u64 = 0;
    proof {
        lemma2_to64();
    }
    while i < k
        invariant
            i <= k <= 64,
            p == pow2(i as nat),
            1 <= p,
            pow2(64) == 0x1_0000_0000_0000_0000,
        decreases k - i,
    {
        proof {
            lemma_pow2_unfold((i + 1) as nat);
            if i + 1 < 64 {
                lemma_pow2_strictly_increases((i + 1) as nat, 64);
            }
        }
        p = p * 2;
        i += 1;
    }
    proof {
        if k < 64 {
            lemma_pow2_strictly_increases(k as nat, 64);
        }
    }
    p
}

/// Multiplying both sides by a power of two keeps their order.
proof fn lemma_order_scales(a: int, b: int, q: nat)
    ensures
        order_of(a * pow2(q), b * pow2(q)) == order_of(a, b),
{
    lemma_pow2_pos(q);
    let p = pow2(q) as int;
    if a < b {
        lemma_mul_strict_inequality(a, b, p);
    } else if b < a {
        lemma_mul_strict_inequality(b, a, p);
    }
}

proof fn lemma_parts(bits: u64)
    ensures
        0 <= exponent(bits) < 2048,
        0 <= fraction(bits) < 0x10_0000_0000_0000,
        0 <= significand(bits) < 0x20_0000_0000_0000,
        exponent(bits) > 0 ==> significand(bits) >= 0x10_0000_0000_0000,
        negative(bits) ==> bits - 0x8000_0000_0000_0000 == exponent(bits) * 0x10_0000_0000_0000
            + fraction(bits),
        !negative(bits) ==> bits == exponent(bits) * 0x10_0000_0000_0000 + fraction(bits),
{
}

/// The signed significand.
pub open spec fn signed(bits: u64) -> int {
    if negative(bits) {
        -significand(bits)
    } else {
        significand(bits)
    }
}

proof fn lemma_scaled(bits: u64)
    ensures
        scaled(bits) == signed(bits) * pow2(doublings(bits)),
{
    let m = significand(bits);
    let p = pow2(doublings(bits)) as int;
    assert((-m) * p == -(m * p)) by (nonlinear_arith);
}

/// An integer and a float compare as the integer and the significand do,
/// once the smaller power of two is divided out.
proof fn lemma_int_float(i: int, bits: u64)
    ensures
        doublings(bits) >= 1074 ==> order_of(scaled_int(i), scaled(bits)) == order_of(
            i,
            signed(bits) * pow2((doublings(bits) - 1074) as nat),
        ),
        doublings(bits) < 1074 ==> order_of(scaled_int(i), scaled(bits)) == order_of(
            i * pow2((1074 - doublings(bits)) as nat),
            signed(bits),
        ),
{
    lemma_scaled(bits);
    let q = doublings(bits);
    let s = signed(bits);
    if q >= 1074 {
        let k = (q - 1074) as nat;
        lemma_pow2_adds(k, 1074);
        lemma_mul_is_associative(s, pow2(k) as int, pow2(1074) as int);
        lemma_order_scales(i, s * pow2(k), 1074);
    } else {
        let k = (1074 - q) as nat;
        lemma_pow2_adds(k, q);
        lemma_mul_is_associative(i, pow2(k) as int, pow2(q) as int);
        lemma_order_scales(i * pow2(k), s, q);
    }
}

fn order(a: i128, b: i128) -> (o: Order)
    ensures
        o == order_of(a as int, b as int),
{
    if a < b {
        Order::Less
    } else if a == b {
        Order::Equal
    } else {
        Order::Greater
    }
}

/// Exact comparison of an integer with a finite float.
#[verifier::spinoff_prover]
#[verifier::rlimit(50)]
pub fn compare_int_float(i: i64, f: &Float) -> (o: Order)
    ensures
        o == order_of(scaled_int(i as int), scaled(f.bits)),
{
    let bits = f.bits;
    let e: u64 = bits / 0x10_0000_0000_0000 % 2048;
    let frac: u64 = bits % 0x10_0000_0000_0000;
    let m: i128 = if e > 0 { frac as i128 + 0x10_0000_0000_0000 } else { frac as i128 };
    let s: i128 = if bits >= 0x8000_0000_0000_0000 { -m } else { m };
    let q: u64 = if e > 0 { e - 1 } else { 0 };
    proof {
        lemma_parts(bits);
        lemma_int_float(i as int, bits);
        lemma2_to64();
    }
    assert(s == signed(bits) && q == doublings(bits));
    if q >= 1074 {
        let k: u64 = q - 1074;
        if k > 12 {
            proof {
                lemma_pow2_strictly_increases(12, k as nat);
                let p = pow2(k as nat) as int;
                assert(s > 0 ==> s * p >= 0x10_0000_0000_0000 * 4096) by (nonlinear_arith)
                    requires
                        s > 0 ==> s >= 0x10_0000_0000_0000,
                        p >= 4096,
                ;
                assert(s < 0 ==> s * p <= -0x10_0000_0000_0000 * 4096) by (nonlinear_arith)
                    requires
                        s < 0 ==> s <= -0x10_0000_0000_0000,
                        p >= 4096,
                ;
                assert(s != 0);
            }
            if s > 0 {
                Order::Less
            } else {
                Order::Greater
            }
        } else {
            let p = power_of_two(k);
            proof {
                if k < 12 {
                    lemma_pow2_strictly_increases(k as nat, 12);
                }
                assert(-0x20_0000_0000_0000 * 4096 <= s * p <= 0x20_0000_0000_0000 * 4096)
                    by (nonlinear_arith)
                    requires
                        -0x20_0000_0000_0000 <= s <= 0x20_0000_0000_0000,
                        1 <= p <= 4096,
                ;
            }
            order(i as i128, s * p)
        }
    } else {
        let k: u64 = 1074 - q;
        if k > 63 {
            proof {
                if k > 64 {
                    lemma_pow2_strictly_increases(64, k as nat);
                }
                let p = pow2(k as nat) as int;
                assert(i > 0 ==> i * p >= p) by (nonlinear_arith)
                    requires
                        p >= 1,
                ;
                assert(i < 0 ==> i * p <= -p) by (nonlinear_arith)
                    requires
                        p >= 1,
                ;
                assert(i == 0 ==> i * p == 0) by (nonlinear_arith);
            }
            if i == 0 {
                order(0, s)
            } else if i > 0 {
                Order::Greater
            } else {
                Order::Less
            }
        } else {
            let p = power_of_two(k);
            proof {
                lemma_pow2_unfold(64);
                if k < 63 {
                    lemma_pow2_strictly_increases(k as nat, 63);
                }
                assert(-0x8000_0000_0000_0000 * 0x8000_0000_0000_0000 <= i * p
                    <= 0x8000_0000_0000_0000 * 0x8000_0000_0000_0000) by (nonlinear_arith)
                    requires
                        -0x8000_0000_0000_0000 <= i <= 0x7fff_ffff_ffff_ffff,
                        1 <= p <= 0x8000_0000_0000_0000,
                ;
            }
            order(i as i128 * p, s)
        }
    }
}

/// Larger bits, sign aside, are a larger value.
proof fn lemma_magnitude(a: u64, b: u64)
    requires
        exponent(a) * 0x10_0000_0000_0000 + fraction(a) < exponent(b) * 0x10_0000_0000_0000
            + fraction(b),
    ensures
        significand(a) * pow2(doublings(a)) < significand(b) * pow2(doublings(b)),
{
    lemma_parts(a);
    lemma_parts(b);
    let ma = significand(a);
    let mb = significand(b);
    let pa = pow2(doublings(a)) as int;
    let pb = pow2(doublings(b)) as int;
    lemma_pow2_pos(doublings(a));
    if doublings(a) == doublings(b) {
        assert(ma < mb);
        lemma_mul_strict_inequality(ma, mb, pa);
    } else {
        assert(exponent(a) < exponent(b));
        assert(doublings(a) < doublings(b));
        lemma_pow2_unfold((doublings(a) + 1) as nat);
        if doublings(a) + 1 < doublings(b) {
            lemma_pow2_strictly_increases((doublings(a) + 1) as nat, doublings(b));
        }
        assert(pb >= 2 * pa);
        assert(ma * pa < mb * pb) by (nonlinear_arith)
            requires
                0 <= ma < 0x20_0000_0000_0000,
                mb >= 0x10_0000_0000_0000,
                pa >= 1,
                pb >= 2 * pa,
        ;
    }
}

/// The bits without the sign, negated for a negative float: an integer
/// that orders as the value does.
pub open spec fn sign_magnitude(bits: u64) -> int {
    let m = exponent(bits) * 0x10_0000_0000_0000 + fraction(bits);
    if negative(bits) {
        -m
    } else {
        m
    }
}

/// The order of values is the order of the bits as sign and magnitude;
/// the two zeros are equal.
pub proof fn law_bits_order_as_values(a: u64, b: u64)
    ensures
        order_of(scaled(a), scaled(b)) == order_of(sign_magnitude(a), sign_magnitude(b)),
{
    lemma_parts(a);
    lemma_parts(b);
    lemma_magnitude_zero(a);
    lemma_magnitude_zero(b);
    let x = exponent(a) * 0x10_0000_0000_0000 + fraction(a);
    let y = exponent(b) * 0x10_0000_0000_0000 + fraction(b);
    if x < y {
        lemma_magnitude(a, b);
    } else if y < x {
        lemma_magnitude(b, a);
    } else {
        assert(exponent(a) == exponent(b) && fraction(a) == fraction(b));
    }
}

proof fn lemma_magnitude_zero(a: u64)
    ensures
        significand(a) * pow2(doublings(a)) >= 0,
        (significand(a) * pow2(doublings(a)) == 0) <==> exponent(a) * 0x10_0000_0000_0000
            + fraction(a) == 0,
{
    lemma_parts(a);
    let m = significand(a);
    let p = pow2(doublings(a)) as int;
    lemma_pow2_pos(doublings(a));
    assert(m * p >= 0) by (nonlinear_arith)
        requires
            m >= 0,
            p > 0,
    ;
    assert(m * p == 0 <==> m == 0) by (nonlinear_arith)
        requires
            m >= 0,
            p > 0,
    ;
}

/// Comparison of two finite floats.
pub fn compare_floats(a: &Float, b: &Float) -> (o: Order)
    ensures
        o == order_of(scaled(a.bits), scaled(b.bits)),
{
    let x: i128 = if a.bits >= 0x8000_0000_0000_0000 {
        -(a.bits as i128 - 0x8000_0000_0000_0000)
    } else {
        a.bits as i128
    };
    let y: i128 = if b.bits >= 0x8000_0000_0000_0000 {
        -(b.bits as i128 - 0x8000_0000_0000_0000)
    } else {
        b.bits as i128
    };
    proof {
        lemma_parts(a.bits);
        lemma_parts(b.bits);
        law_bits_order_as_values(a.bits, b.bits);
    }
    order(x, y)
}

/// A float is an integer when its significand divides by what its scale
/// leaves below one.
proof fn lemma_integer_value(bits: u64)
    ensures
        doublings(bits) >= 1074 ==> scaled(bits) % pow2(1074) as int == 0 && scaled(bits) / pow2(
            1074,
        ) as int == signed(bits) * pow2((doublings(bits) - 1074) as nat),
        doublings(bits) < 1074 ==> {
            let p = pow2((1074 - doublings(bits)) as nat) as int;
            (scaled(bits) % pow2(1074) as int == 0 <==> signed(bits) % p == 0) && (signed(bits) % p
                == 0 ==> scaled(bits) / pow2(1074) as int == signed(bits) / p)
        },
{
    lemma_scaled(bits);
    let q = doublings(bits);
    let s = signed(bits);
    let one = pow2(1074) as int;
    lemma_pow2_pos(1074);
    if q >= 1074 {
        let k = (q - 1074) as nat;
        lemma_pow2_adds(k, 1074);
        lemma_mul_is_associative(s, pow2(k) as int, one);
        let n = s * pow2(k);
        assert(scaled(bits) == n * one);
        lemma_fundamental_div_mod_converse(n * one, one, n, 0);
    } else {
        let k = (1074 - q) as nat;
        let p = pow2(k) as int;
        let t = pow2(q) as int;
        lemma_pow2_pos(k);
        lemma_pow2_pos(q);
        lemma_pow2_adds(k, q);
        assert(one == p * t);
        assert(scaled(bits) == s * t);
        let d = s / p;
        let r = s % p;
        lemma_fundamental_div_mod(s, p);
        lemma_mod_bound(s, p);
        assert(s * t == (p * t) * d + r * t) by (nonlinear_arith)
            requires
                s == p * d + r,
        ;
        assert(0 <= r * t < p * t) by (nonlinear_arith)
            requires
                0 <= r < p,
                t > 0,
        ;
        lemma_fundamental_div_mod_converse(s * t, p * t, d, r * t);
        assert(r * t == 0 <==> r == 0) by (nonlinear_arith)
            requires
                r >= 0,
                t > 0,
        ;
    }
}

/// The 64-bit integer that a float equals, if there is one.
#[verifier::spinoff_prover]
#[verifier::rlimit(50)]
pub fn whole(f: &Float) -> (r: Option<i64>)
    ensures
        match (r, integer_value(f.bits)) {
            (Some(a), Some(b)) => a == b,
            (None, None) => true,
            _ => false,
        },
{
    let bits = f.bits;
    let e: u64 = bits / 0x10_0000_0000_0000 % 2048;
    let frac: u64 = bits % 0x10_0000_0000_0000;
    let m: i128 = if e > 0 { frac as i128 + 0x10_0000_0000_0000 } else { frac as i128 };
    let neg = bits >= 0x8000_0000_0000_0000;
    let q: u64 = if e > 0 { e - 1 } else { 0 };
    proof {
        lemma_parts(bits);
        lemma_integer_value(bits);
        lemma2_to64();
    }
    assert(q == doublings(bits));
    if q >= 1074 {
        let k: u64 = q - 1074;
        let s: i128 = if neg { -m } else { m };
        if k > 12 {
            proof {
                lemma_pow2_strictly_increases(12, k as nat);
                let p = pow2(k as nat) as int;
                assert(s > 0 ==> s * p >= 0x10_0000_0000_0000 * 4096) by (nonlinear_arith)
                    requires
                        s > 0 ==> s >= 0x10_0000_0000_0000,
                        p >= 4096,
                ;
                assert(s < 0 ==> s * p <= -0x10_0000_0000_0000 * 4096) by (nonlinear_arith)
                    requires
                        s < 0 ==> s <= -0x10_0000_0000_0000,
                        p >= 4096,
                ;
                assert(s == signed(bits));
                assert(s != 0);
            }
            return None;
        }
        let p = power_of_two(k);
        proof {
            if k < 12 {
                lemma_pow2_strictly_increases(k as nat, 12);
            }
            assert(-0x20_0000_0000_0000 * 4096 <= s * p <= 0x20_0000_0000_0000 * 4096)
                by (nonlinear_arith)
                requires
                    -0x20_0000_0000_0000 <= s <= 0x20_0000_0000_0000,
                    1 <= p <= 4096,
            ;
            assert(s == signed(bits));
        }
        let n: i128 = s * p;
        if n < i64::MIN as i128 || n > i64::MAX as i128 {
            None
        } else {
            Some(n as i64)
        }
    } else {
        let k: u64 = 1074 - q;
        let ghost p = pow2(k as nat) as int;
        proof {
            lemma_pow2_pos(k as nat);
            lemma_negated_division(significand(bits), p);
        }
        if k > 63 {
            proof {
                if k > 64 {
                    lemma_pow2_strictly_increases(64, k as nat);
                }
                lemma_small_mod(m as nat, p as nat);
                lemma_basic_div(m as int, p);
            }
            if m == 0 {
                Some(0)
            } else {
                None
            }
        } else {
            let d = power_of_two(k);
            if m % d != 0 {
                return None;
            }
            let n: i128 = m / d;
            proof {
                assert(n <= m) by (nonlinear_arith)
                    requires
                        n == m as int / d as int,
                        m >= 0,
                        d >= 1,
                ;
                assert(n >= 0) by (nonlinear_arith)
                    requires
                        n == m as int / d as int,
                        m >= 0,
                        d >= 1,
                ;
            }
            Some(if neg { -(n as i64) } else { n as i64 })
        }
    }
}

proof fn lemma_negated_division(m: int, p: int)
    requires
        m >= 0,
        p > 0,
    ensures
        m % p == 0 <==> (-m) % p == 0,
        m % p == 0 ==> (-m) / p == -(m / p),
{
    lemma_fundamental_div_mod(m, p);
    lemma_mod_bound(m, p);
    let d = m / p;
    let r = m % p;
    if r == 0 {
        assert(-m == p * (-d) + 0) by (nonlinear_arith)
            requires
                m == p * d,
        ;
        lemma_fundamental_div_mod_converse(-m, p, -d, 0);
    } else {
        assert(-m == p * (-d - 1) + (p - r)) by (nonlinear_arith)
            requires
                m == p * d + r,
        ;
        lemma_fundamental_div_mod_converse(-m, p, -d - 1, p - r);
    }
}

/// How a float with an integer value is written in a message.
pub open spec fn whole_text(bits: u64) -> Seq<char> {
    match integer_value(bits) {
        Some(n) => if n == 0 && negative(bits) {
            "-0"@
        } else {
            dec_int(n)
        },
        None => seq![],
    }
}

/// What is said of a float key that should be an integer key.
pub open spec fn key_refusal(bits: u64) -> ErrorView {
    ErrorView {
        code: "codec_key"@,
        message: "float key "@ + whole_text(bits) + " has an integer value; use an integer key"@,
    }
}

/// Whether a float may be a key, or what is said against it.
pub open spec fn float_key(bits: u64) -> Option<ErrorView> {
    if !finite(bits) {
        Some(float_refusal(bits))
    } else if integer_value(bits) is Some {
        Some(key_refusal(bits))
    } else {
        None
    }
}

/// A float key must be finite and not an integer value.
pub fn check_float_key(f: &Float) -> (r: Result<(), CodecError>)
    ensures
        match (r, float_key(f.bits)) {
            (Ok(_), None) => true,
            (Err(e), Some(v)) => e@ == v,
            _ => false,
        },
{
    if let Err(e) = check_float(f) {
        return Err(e);
    }
    match whole(f) {
        None => Ok(()),
        Some(n) => {
            let mut s = "float key ".to_owned();
            if n == 0 && f.bits >= 0x8000_0000_0000_0000 {
                s.append("-0");
            } else {
                push_dec_int(&mut s, n);
            }
            s.append(" has an integer value; use an integer key");
            Err(CodecError { code: CodecError::KEY, message: s })
        },
    }
}

} // verus!
