//! What work is priced at, and where a charge goes.

use vstd::prelude::*;
use vstd::arithmetic::power::*;
use super::price::{bit_length, pattern_work, quantifiers_from, set_end, sort_price};
use super::{lemma_sum_nonneg, lemma_sum_update, saturate, sum, Category, MeterView};

verus! {

/// A pattern without a quantifier that is anchored costs its length; each
/// quantifier costs the subject once more, and so does a pattern that is
/// tried from every place.
pub proof fn law_each_quantifier_rescans_the_subject(subject: u64, length: u64, n: u32, anchored: bool)
    requires
        subject >= 1,
        length >= 1,
        n <= 6,
    ensures
        pattern_work(subject, length, 0, true) == length,
        pattern_work(subject, length, (n + 1) as u32, anchored) == subject * pattern_work(
            subject,
            length,
            n,
            anchored,
        ),
        pattern_work(subject, length, n, false) == pattern_work(subject, length, (n + 1) as u32, true),
{
    let s = subject as int;
    let l = length as int;
    lemma_pow0(s);
    let e = (n + (if anchored {
        0int
    } else {
        1
    })) as nat;
    assert(pow(s, e + 1) == s * pow(s, e)) by {
        reveal(pow);
    }
    assert(l * (s * pow(s, e)) == s * (l * pow(s, e))) by (nonlinear_arith);
}

/// Beyond eight rescans a pattern costs no more.
pub proof fn law_rescans_are_capped(subject: u64, length: u64, n: u32)
    requires
        n >= 8,
    ensures
        pattern_work(subject, length, n, true) == pattern_work(subject, length, 8, true),
        pattern_work(subject, length, n, false) == pattern_work(subject, length, 8, true),
{
}

/// A quantifier counts, unless it is escaped; other bytes do not.
pub proof fn law_a_quantifier_counts_unless_escaped(p: Seq<u8>, i: int)
    requires
        0 <= i < p.len(),
    ensures
        p[i] == 0x2a || p[i] == 0x2b || p[i] == 0x2d || p[i] == 0x3f ==> quantifiers_from(p, i) == 1
            + quantifiers_from(p, i + 1),
        p[i] == 0x25 ==> quantifiers_from(p, i) == quantifiers_from(p, i + 2),
        0x61 <= p[i] <= 0x7a || 0x41 <= p[i] <= 0x5a || 0x30 <= p[i] <= 0x39 || p[i] == 0x2e
            ==> quantifiers_from(p, i) == quantifiers_from(p, i + 1),
        quantifiers_from(p, p.len() as int) == 0,
{
}

/// What stands in a set does not count: a set of one plain byte is passed
/// over.
pub proof fn law_a_set_is_passed_over(p: Seq<u8>, i: int)
    requires
        0 <= i,
        i + 2 < p.len(),
        p[i] == 0x5b,
        p[i + 1] != 0x5e && p[i + 1] != 0x5d && p[i + 1] != 0x25,
        p[i + 2] == 0x5d,
    ensures
        quantifiers_from(p, i) == quantifiers_from(p, i + 3),
{
    reveal_with_fuel(set_end, 3);
}

proof fn lemma_bits(n: nat)
    requires
        n > 0,
    ensures
        bit_length(n) > 0,
        pow(2, (bit_length(n) - 1) as nat) <= n < pow(2, bit_length(n)),
    decreases n,
{
    lemma_pow0(2);
    lemma_pow1(2);
    if n == 1 {
        assert(bit_length(0) == 0);
        assert(bit_length(1) == 1);
    } else {
        let h = n / 2;
        lemma_bits(h);
        let b = bit_length(h);
        assert(pow(2, b) == 2 * pow(2, (b - 1) as nat)) by {
            reveal(pow);
        }
        assert(pow(2, b + 1) == 2 * pow(2, b)) by {
            reveal(pow);
        }
        assert(bit_length(n) == b + 1);
    }
}

/// A sort of `n` costs `n` for each binary digit of `n`, and one more; one
/// of nothing, or of a single thing, costs one.
pub proof fn law_a_sort_costs_by_the_digits(n: u64, b: nat)
    requires
        2 <= n <= 0x100_0000_0000_0000,
        b <= 64,
        n * b <= u64::MAX,
        b > 0,
        pow(2, (b - 1) as nat) <= n < pow(2, b),
    ensures
        sort_price(n) == 1 + n * b,
        sort_price(0) == 1,
        sort_price(1) == 1,
{
    let m = bit_length(n as nat);
    lemma_bits(n as nat);
    if m < b {
        lemma_pow_increases(2, m, (b - 1) as nat);
    } else if b < m {
        lemma_pow_increases(2, b, (m - 1) as nat);
    }
    assert(m == b);
}

/// A charge is added to what its category has spent, at least one cycle of
/// it, and to no other; the total grows by as much.
pub proof fn law_a_charge_goes_to_its_category(m: MeterView, cat: Category, n: u64, other: Category)
    requires
        m.used.len() == 7,
        sum(m.used) + n < u64::MAX,
    ensures
        ({
            let cost = if n == 0 {
                1
            } else {
                n as int
            };
            let c = m.charged(cat, n);
            &&& c.total() == m.total() + cost
            &&& other != cat ==> c.used[other.place()] == m.used[other.place()]
            &&& c.used[cat.place()] == m.used[cat.place()] + cost
            &&& c.budget == m.budget
        }),
{
    let at = cat.place();
    let cost = if n == 0 {
        1
    } else {
        n as int
    };
    let rest = m.used.update(at, 0);
    lemma_sum_update(m.used, at, 0);
    lemma_sum_nonneg(rest);
    lemma_sum_nonneg(m.used);
    lemma_sum_update(m.used, at, saturate(m.used[at] + cost));
}

/// A frame begins with nothing spent.
pub proof fn law_a_frame_begins_with_nothing_spent(m: MeterView, budget: u64)
    ensures
        m.begun(budget).total() == 0,
        m.begun(budget).budget == budget,
        m.begun(budget).dead == m.dead,
{
    let u = m.begun(budget).used;
    lemma_no_sum(u);
}

proof fn lemma_no_sum(s: Seq<u64>)
    requires
        forall|i: int| 0 <= i < s.len() ==> s[i] == 0,
    ensures
        sum(s) == 0,
    decreases s.len(),
{
    if s.len() > 0 {
        lemma_no_sum(s.drop_last());
    }
}

} // verus!
