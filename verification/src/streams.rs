//! What holds of every generator: equal seeds give equal sequences of
//! draws, the increment stays odd, and different streams give different
//! sequences.

use vstd::prelude::*;
use vstd::arithmetic::power2::pow2;
use vstd::arithmetic::power2::lemma_pow2_unfold;
use vstd::arithmetic::power2::lemma_pow2_pos;
use vstd::arithmetic::power2::lemma_pow2_adds;
use vstd::arithmetic::power2::lemma_pow2_strictly_increases;
use vstd::arithmetic::power2::lemma2_to64;
use vstd::arithmetic::power2::lemma2_to64_rest;
use vstd::arithmetic::div_mod::lemma_fundamental_div_mod;
use crate::bounded::after_bounded;
use crate::lcg::MULTIPLIER;
use crate::lcg::accumulator_with;
use crate::lcg::lemma_every_output_occurs;
use crate::lcg::lemma_output_determines_accumulator;
use crate::lcg::lcg_step;
use crate::lcg::xsh_rr;
use crate::model::GeneratorState;
use crate::model::default_generator;
use crate::model::lemma_selector_increment_odd;
use crate::model::seeded;
use crate::model::selector_increment;
use crate::orbit::lemma_advance_closed_form;
use crate::orbit::lemma_orbit_distinct;
use crate::orbit::lemma_orbit_reaches;
use crate::orbit::lemma_period;
use crate::orbit::lemma_sum_adds;
use crate::orbit::lemma_sum_of_pow2;
use crate::orbit::modulus;
use crate::orbit::multiplier_power;
use crate::orbit::multiplier_sum;

verus! {

/// Two generators that were seeded with the same initial state and the same
/// sequence selector return the same value at every draw, and are the same
/// generator after any number of draws.
pub proof fn lemma_equal_seeds_equal_draws(
    a: GeneratorState,
    b: GeneratorState,
    initstate: u64,
    initseq: u64,
    n: nat,
)
    requires
        a == seeded(initstate, initseq),
        b == seeded(initstate, initseq),
    ensures
        a.nth_output(n) == b.nth_output(n),
        a.skip(n) == b.skip(n),
{
}

/// A freshly seeded generator and the default generator have odd
/// increments.
pub proof fn lemma_new_generators_wf(initstate: u64, initseq: u64)
    ensures
        seeded(initstate, initseq).wf(),
        default_generator().wf(),
{
    lemma_selector_increment_odd(initseq);
}

/// No draw, plain or bounded, changes the increment: a generator whose
/// increment is odd keeps an odd increment through any number of draws.
pub proof fn lemma_increment_stays_odd(g: GeneratorState, n: nat, bound: u32)
    requires
        g.wf(),
    ensures
        g.step().inc == g.inc,
        g.skip(n).inc == g.inc,
        after_bounded(g, bound).inc == g.inc,
        g.step().wf(),
        g.skip(n).wf(),
        after_bounded(g, bound).wf(),
{
}

/// A generator with an odd increment is back at the same value after
/// exactly the multiples of 2^64 draws.
pub proof fn lemma_generator_period(g: GeneratorState, n: nat)
    requires
        g.wf(),
    ensures
        g.skip(n) == g <==> n % (modulus() as nat) == 0,
{
    lemma_period(g.state, g.inc, n);
}

/// Over the first 2^64 draws of a generator with an odd increment, every
/// 32-bit value is drawn equally often. For each choice of the top five
/// bits `rot` and the low 27 bits `low` of the accumulator there is exactly
/// one position whose accumulator has those bits and whose draw is
/// `value`: the result. Every draw of `value` is found in this way, so
/// each value is drawn at 2^32 positions.
pub proof fn lemma_value_positions(g: GeneratorState, value: u32, rot: u32, low: u32) -> (n: nat)
    requires
        g.wf(),
        rot < 32,
        low < 0x800_0000,
    ensures
        n < modulus(),
        g.skip(n).state == accumulator_with(value, rot, low),
        g.nth_output(n) == value,
        forall|m: nat|
            m < modulus() && (#[trigger] g.skip(m)).state == accumulator_with(value, rot, low)
                ==> m == n,
        forall|m: nat|
            (#[trigger] g.nth_output(m)) == value ==> g.skip(m).state == accumulator_with(
                value,
                (g.skip(m).state >> 59) as u32,
                (g.skip(m).state & 0x7ff_ffff) as u32,
            ),
{
    lemma_every_output_occurs(value, rot, low);
    let target = accumulator_with(value, rot, low);
    let n = lemma_orbit_reaches(g.state, target, g.inc);
    assert forall|m: nat| m < modulus() && (#[trigger] g.skip(m)).state == target implies m
        == n by {
        if m < n {
            lemma_orbit_distinct(g.state, g.inc, m, n);
        }
        if n < m {
            lemma_orbit_distinct(g.state, g.inc, n, m);
        }
    }
    assert forall|m: nat| (#[trigger] g.nth_output(m)) == value implies g.skip(m).state
        == accumulator_with(
        value,
        (g.skip(m).state >> 59) as u32,
        (g.skip(m).state & 0x7ff_ffff) as u32,
    ) by {
        lemma_output_determines_accumulator(g.skip(m).state);
    }
    n
}

/// Every nonzero integer is a power of two times an odd integer; the result
/// is the exponent and the odd factor.
proof fn lemma_two_adic(e: int) -> (r: (nat, int))
    requires
        e != 0,
    ensures
        e == pow2(r.0) * r.1,
        r.1 % 2 == 1,
    decreases (if e > 0 { e } else { -e }),
{
    lemma2_to64();
    if e % 2 == 1 {
        let one: int = pow2(0) as int;
        assert(e == one * e) by (nonlinear_arith)
            requires
                one == 1,
        ;
        (0, e)
    } else {
        let (j, u) = lemma_two_adic(e / 2);
        lemma_pow2_unfold(j + 1);
        let pj: int = pow2(j) as int;
        let pk: int = pow2(j + 1) as int;
        assert(e == pk * u) by (nonlinear_arith)
            requires
                e == 2 * (pj * u),
                pk == 2 * pj,
        ;
        (j + 1, u)
    }
}

/// Accumulators that lie exactly 2^63 apart modulo 2^64 give different
/// outputs.
proof fn lemma_half_apart_outputs_differ(x: u64, y: u64)
    requires
        x - y == 0x8000_0000_0000_0000 || y - x == 0x8000_0000_0000_0000,
    ensures
        xsh_rr(x) != xsh_rr(y),
{
    assert(x == y ^ 0x8000_0000_0000_0000) by (bit_vector)
        requires
            x - y == 0x8000_0000_0000_0000 || y - x == 0x8000_0000_0000_0000,
    ;
    assert(xsh_rr(y ^ 0x8000_0000_0000_0000) != xsh_rr(y)) by (bit_vector);
}

/// After seeding with one initial state and `n` further steps, the
/// accumulators of two streams differ by the difference of their
/// increments times the sum of the first `n + 2` powers of the multiplier,
/// modulo 2^64; the result is the multiple of 2^64 left over.
proof fn lemma_seeded_difference(initstate: u64, seq_a: u64, seq_b: u64, n: nat) -> (k: int)
    ensures
        seeded(initstate, seq_a).skip(n).state - seeded(initstate, seq_b).skip(n).state == (
        selector_increment(seq_a) - selector_increment(seq_b)) * multiplier_sum(n + 2) + modulus()
            * k,
{
    let m = modulus();
    let a: int = MULTIPLIER as int;
    let c1 = selector_increment(seq_a);
    let c2 = selector_increment(seq_b);
    let g1 = seeded(initstate, seq_a);
    let g2 = seeded(initstate, seq_b);
    // The seeded accumulators.
    let mixed1 = lcg_step(0, c1).wrapping_add(initstate);
    let mixed2 = lcg_step(0, c2).wrapping_add(initstate);
    assert(lcg_step(0, c1) == c1);
    assert(lcg_step(0, c2) == c2);
    let w1: int = if c1 + initstate > u64::MAX { 1 } else { 0 };
    let w2: int = if c2 + initstate > u64::MAX { 1 } else { 0 };
    assert(mixed1 == c1 + initstate - m * w1);
    assert(mixed2 == c2 + initstate - m * w2);
    let r1 = (mixed1 * a + c1) / m;
    let r2 = (mixed2 * a + c2) / m;
    lemma_fundamental_div_mod(mixed1 * a + c1, m);
    lemma_fundamental_div_mod(mixed2 * a + c2, m);
    assert(g1.state == mixed1 * a + c1 - m * r1);
    assert(g2.state == mixed2 * a + c2 - m * r2);
    // The accumulators after n more steps.
    let p = multiplier_power(n);
    let s = multiplier_sum(n);
    lemma_advance_closed_form(g1.state, c1, n);
    lemma_advance_closed_form(g2.state, c2, n);
    let t1 = (p * g1.state + c1 * s) / m;
    let t2 = (p * g2.state + c2 * s) / m;
    lemma_fundamental_div_mod(p * g1.state + c1 * s, m);
    lemma_fundamental_div_mod(p * g2.state + c2 * s, m);
    let x1: int = g1.skip(n).state as int;
    let x2: int = g2.skip(n).state as int;
    assert(x1 == p * g1.state + c1 * s - m * t1);
    assert(x2 == p * g2.state + c2 * s - m * t2);
    // The sum of the first n + 2 powers.
    lemma_sum_adds(2, n);
    assert(multiplier_sum(2) == a + 1) by {
        reveal_with_fuel(multiplier_sum, 3);
    }
    assert((2 + n) as nat == n + 2);
    let full = multiplier_sum(n + 2);
    assert(full == (a + 1) * p + s);
    let s1: int = g1.state as int;
    let s2: int = g2.state as int;
    let e: int = c1 - c2;
    let carry = MULTIPLIER * (w2 - w1) + (r2 - r1);
    assert(s1 - s2 == e * (MULTIPLIER + 1) + m * carry);
    let k = p * carry + (t2 - t1);
    let ds = s1 - s2;
    let u1 = e * (a + 1);
    let u2 = m * carry;
    assert(p * s1 - p * s2 == p * ds) by (nonlinear_arith)
        requires
            ds == s1 - s2,
    ;
    assert(p * ds == p * u1 + p * u2) by (nonlinear_arith)
        requires
            ds == u1 + u2,
    ;
    assert(p * u1 == e * ((a + 1) * p)) by (nonlinear_arith)
        requires
            u1 == e * (a + 1),
    ;
    assert(p * u2 == m * (p * carry)) by (nonlinear_arith)
        requires
            u2 == m * carry,
    ;
    assert(c1 * s - c2 * s == e * s) by (nonlinear_arith)
        requires
            e == c1 - c2,
    ;
    assert(e * ((a + 1) * p) + e * s == e * full) by (nonlinear_arith)
        requires
            full == (a + 1) * p + s,
    ;
    assert(m * (p * carry) + m * (t2 - t1) == m * k) by (nonlinear_arith)
        requires
            k == p * carry + (t2 - t1),
    ;
    k
}

/// Two generators seeded with the same initial state, on streams whose
/// selectors stand for different increments, do not return the same
/// sequence of draws; the result is the position of a draw at which they
/// differ.
///
/// The increment keeps the low 63 bits of the selector, so two selectors
/// that differ in their top bit alone select the same stream.
pub proof fn lemma_distinct_streams_differ(initstate: u64, seq_a: u64, seq_b: u64) -> (n: nat)
    requires
        selector_increment(seq_a) != selector_increment(seq_b),
    ensures
        seeded(initstate, seq_a).nth_output(n) != seeded(initstate, seq_b).nth_output(n),
{
    let m = modulus();
    let half: int = 0x8000_0000_0000_0000;
    let c1 = selector_increment(seq_a);
    let c2 = selector_increment(seq_b);
    lemma_selector_increment_odd(seq_a);
    lemma_selector_increment_odd(seq_b);
    let e: int = c1 - c2;
    let (j, u) = lemma_two_adic(e);
    lemma2_to64();
    lemma2_to64_rest();
    lemma_pow2_pos(j);
    // The difference of two odd numbers below 2^64 is even and short of 2^64.
    assert(1 <= j <= 63) by {
        if j == 0 {
            let one: int = pow2(0) as int;
            assert(e == u) by (nonlinear_arith)
                requires
                    e == one * u,
                    one == 1,
            ;
        }
        if j >= 64 {
            if j > 64 {
                lemma_pow2_strictly_increases(64, j);
            }
            let pj: int = pow2(j) as int;
            assert(e >= pj || e <= -pj) by (nonlinear_arith)
                requires
                    e == pj * u,
                    u != 0,
                    pj > 0,
            ;
        }
    }
    if j == 63 {
        let n: nat = 1;
        let k = lemma_seeded_difference(initstate, seq_a, seq_b, n);
        let a: int = MULTIPLIER as int;
        assert(multiplier_sum(3) == a * a + a + 1) by {
            reveal_with_fuel(multiplier_sum, 4);
        }
        let full = multiplier_sum(3);
        let hf = full / 2;
        let hu = u / 2;
        assert(full == 2 * hf + 1);
        let z = 2 * hu * hf + hu + hf;
        let x1: int = seeded(initstate, seq_a).skip(n).state as int;
        let x2: int = seeded(initstate, seq_b).skip(n).state as int;
        let pj: int = pow2(j) as int;
        assert(pj == half);
        assert(e * full == half + m * z) by (nonlinear_arith)
            requires
                e == half * u,
                m == 2 * half,
                u == 2 * hu + 1,
                full == 2 * hf + 1,
                z == 2 * hu * hf + hu + hf,
        ;
        assert(m * z + m * k == m * (z + k)) by (nonlinear_arith);
        assert(x1 - x2 == half + m * (z + k));
        lemma_half_apart_outputs_differ(x1 as u64, x2 as u64);
        n
    } else {
        let i = (63 - j) as nat;
        lemma_pow2_pos(i);
        lemma_pow2_unfold(i);
        let n: nat = (pow2(i) - 2) as nat;
        assert(pow2(i) >= 2) by {
            lemma_pow2_pos((i - 1) as nat);
        }
        let k = lemma_seeded_difference(initstate, seq_a, seq_b, n);
        let w = lemma_sum_of_pow2(i);
        assert(n + 2 == pow2(i));
        let full = multiplier_sum(pow2(i));
        lemma_pow2_adds(j, i);
        let pj: int = pow2(j) as int;
        let pi: int = pow2(i) as int;
        assert(pj * pi == half);
        let hu = u / 2;
        let z = 2 * hu * w + hu + w;
        let x1: int = seeded(initstate, seq_a).skip(n).state as int;
        let x2: int = seeded(initstate, seq_b).skip(n).state as int;
        assert(e * full == half + m * z) by (nonlinear_arith)
            requires
                e == pj * u,
                full == pi * (2 * w + 1),
                pj * pi == half,
                m == 2 * half,
                u == 2 * hu + 1,
                z == 2 * hu * w + hu + w,
        ;
        assert(m * z + m * k == m * (z + k)) by (nonlinear_arith);
        assert(x1 - x2 == half + m * (z + k));
        lemma_half_apart_outputs_differ(x1 as u64, x2 as u64);
        n
    }
}

} // verus!
