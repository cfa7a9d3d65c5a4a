//! The shape of an orbit of the congruential step.
//!
//! After `n` steps the accumulator is an affine function of where it
//! started: `MULTIPLIER^n * state + inc * (1 + MULTIPLIER + ... +
//! MULTIPLIER^(n-1))`, modulo 2^64. Because the multiplier is 1 modulo 4 and
//! the increment is odd, 2^k steps add exactly 2^k modulo 2^(k+1). From this
//! it follows that the orbit of any accumulator passes through every 64-bit
//! value, and comes back to its start after 2^64 steps and no sooner.

use vstd::prelude::*;
use vstd::arithmetic::power2::pow2;
use vstd::arithmetic::power2::lemma_pow2_unfold;
use vstd::arithmetic::power2::lemma_pow2_pos;
use vstd::arithmetic::power2::lemma_pow2_adds;
use vstd::arithmetic::power2::lemma2_to64;
use vstd::arithmetic::power2::lemma2_to64_rest;
use vstd::arithmetic::div_mod::lemma_mul_mod_noop_right;
use vstd::arithmetic::div_mod::lemma_add_mod_noop;
use vstd::arithmetic::div_mod::lemma_fundamental_div_mod;
use crate::lcg::MULTIPLIER;
use crate::lcg::lcg_advance;

verus! {

/// 2^64, the modulus of the congruential step.
pub open spec fn modulus() -> int {
    0x1_0000_0000_0000_0000
}

/// `MULTIPLIER^n`, as an unbounded integer.
pub open spec fn multiplier_power(n: nat) -> int
    decreases n,
{
    if n == 0 {
        1
    } else {
        MULTIPLIER * multiplier_power((n - 1) as nat)
    }
}

/// `1 + MULTIPLIER + ... + MULTIPLIER^(n-1)`, as an unbounded integer.
pub open spec fn multiplier_sum(n: nat) -> int
    decreases n,
{
    if n == 0 {
        0
    } else {
        MULTIPLIER * multiplier_sum((n - 1) as nat) + 1
    }
}

/// Advancing by `m + n` steps is advancing by `m` and then by `n`.
pub proof fn lemma_advance_adds(state: u64, inc: u64, m: nat, n: nat)
    ensures
        lcg_advance(state, inc, m + n) == lcg_advance(lcg_advance(state, inc, m), inc, n),
    decreases n,
{
    if n > 0 {
        lemma_advance_adds(state, inc, m, (n - 1) as nat);
        assert((m + n - 1) as nat == m + (n - 1) as nat);
    }
}

/// The accumulator after `n` steps, in closed form.
pub proof fn lemma_advance_closed_form(state: u64, inc: u64, n: nat)
    ensures
        lcg_advance(state, inc, n) == (multiplier_power(n) * state + inc * multiplier_sum(n))
            % modulus(),
    decreases n,
{
    if n > 0 {
        let k = (n - 1) as nat;
        lemma_advance_closed_form(state, inc, k);
        let p = multiplier_power(k);
        let g = multiplier_sum(k);
        let before = p * state + inc * g;
        let a: int = MULTIPLIER as int;
        // step((before % M)) = (a * (before % M) + inc) % M = (a * before + inc) % M
        lemma_mul_mod_noop_right(a, before, modulus());
        lemma_add_mod_noop(a * (before % modulus()), inc as int, modulus());
        lemma_add_mod_noop(a * before, inc as int, modulus());
        assert(a * before + inc == (a * p) * state + inc * (a * g + 1)) by (nonlinear_arith)
            requires
                before == p * state + inc * g,
        ;
        assert(lcg_advance(state, inc, k) * MULTIPLIER == a * (before % modulus()))
            by (nonlinear_arith)
            requires
                lcg_advance(state, inc, k) == before % modulus(),
                a == MULTIPLIER,
        ;
    }
}

/// `MULTIPLIER^(m+n) = MULTIPLIER^m * MULTIPLIER^n`.
pub proof fn lemma_power_adds(m: nat, n: nat)
    ensures
        multiplier_power(m + n) == multiplier_power(m) * multiplier_power(n),
    decreases n,
{
    if n > 0 {
        lemma_power_adds(m, (n - 1) as nat);
        assert((m + n - 1) as nat == m + (n - 1) as nat);
        let a: int = MULTIPLIER as int;
        let pm = multiplier_power(m);
        let pk = multiplier_power((n - 1) as nat);
        assert(a * (pm * pk) == pm * (a * pk)) by (nonlinear_arith);
    }
}

/// The sum of the first `m + n` powers splits into the first `m`, scaled by
/// `MULTIPLIER^n`, and the first `n`.
pub proof fn lemma_sum_adds(m: nat, n: nat)
    ensures
        multiplier_sum(m + n) == multiplier_sum(m) * multiplier_power(n) + multiplier_sum(n),
    decreases n,
{
    if n > 0 {
        lemma_sum_adds(m, (n - 1) as nat);
        assert((m + n - 1) as nat == m + (n - 1) as nat);
        let a: int = MULTIPLIER as int;
        let gm = multiplier_sum(m);
        let pk = multiplier_power((n - 1) as nat);
        let gk = multiplier_sum((n - 1) as nat);
        assert(a * (gm * pk + gk) + 1 == gm * (a * pk) + (a * gk + 1)) by (nonlinear_arith);
    }
}

/// `MULTIPLIER^(2^k)` is 1 modulo 2^(k+2); the result is the quotient.
pub proof fn lemma_power_of_pow2(k: nat) -> (w: int)
    ensures
        multiplier_power(pow2(k)) == 1 + pow2(k + 2) * w,
    decreases k,
{
    lemma2_to64();
    if k == 0 {
        assert(multiplier_power(1) == MULTIPLIER * multiplier_power(0));
        let w: int = (MULTIPLIER - 1) / 4;
        assert(MULTIPLIER == 1 + 4 * w);
        w
    } else {
        let j = (k - 1) as nat;
        let v = lemma_power_of_pow2(j);
        lemma_pow2_unfold(k);
        lemma_pow2_unfold(k + 1);
        lemma_pow2_unfold(k + 2);
        lemma_power_adds(pow2(j), pow2(j));
        let q: int = pow2(j) as int;
        let p = multiplier_power(pow2(j));
        assert(pow2(j + 2) == 4 * q);
        assert(pow2(k + 2) == 8 * q);
        let w = v + 2 * q * v * v;
        assert(p * p == 1 + (8 * q) * w) by (nonlinear_arith)
            requires
                p == 1 + (4 * q) * v,
                w == v + 2 * q * v * v,
        ;
        w
    }
}

/// The sum of the first 2^k powers of the multiplier is an odd multiple of
/// 2^k; the result is half of that odd factor, rounded down.
pub proof fn lemma_sum_of_pow2(k: nat) -> (w: int)
    ensures
        multiplier_sum(pow2(k)) == pow2(k) * (2 * w + 1),
    decreases k,
{
    lemma2_to64();
    if k == 0 {
        assert(multiplier_sum(1) == MULTIPLIER * multiplier_sum(0) + 1);
        0
    } else {
        let j = (k - 1) as nat;
        let v = lemma_sum_of_pow2(j);
        let u = lemma_power_of_pow2(j);
        lemma_pow2_unfold(k);
        lemma_pow2_unfold(k + 1);
        lemma_sum_adds(pow2(j), pow2(j));
        let q: int = pow2(j) as int;
        let p = multiplier_power(pow2(j));
        let g = multiplier_sum(pow2(j));
        assert(pow2(j + 2) == 4 * q);
        let w = v + q * u * (2 * v + 1);
        assert(g * p + g == (2 * q) * (2 * w + 1)) by (nonlinear_arith)
            requires
                p == 1 + (4 * q) * u,
                g == q * (2 * v + 1),
                w == v + q * u * (2 * v + 1),
        ;
        w
    }
}

/// With an odd increment, 2^k steps move the accumulator by exactly 2^k
/// modulo 2^(k+1).
pub proof fn lemma_advance_pow2(state: u64, inc: u64, k: nat)
    requires
        k <= 63,
        inc % 2 == 1,
    ensures
        (lcg_advance(state, inc, pow2(k)) - state - pow2(k)) % (pow2(k + 1) as int) == 0,
{
    let q: int = pow2(k) as int;
    let r: int = pow2((63 - k) as nat) as int;
    let u = lemma_power_of_pow2(k);
    let v = lemma_sum_of_pow2(k);
    let h: int = inc as int / 2;
    let p = multiplier_power(pow2(k));
    let g = multiplier_sum(pow2(k));
    lemma_advance_closed_form(state, inc, pow2(k));
    lemma_pow2_unfold(k + 1);
    lemma_pow2_unfold(k + 2);
    lemma_pow2_adds(k + 1, (63 - k) as nat);
    lemma_pow2_pos(k);
    lemma2_to64_rest();
    assert(modulus() == (2 * q) * r);
    let total = p * state + inc * g;
    let z1 = 2 * (u * state);
    let z2 = h * (2 * v + 1) + v;
    let z = z1 + z2;
    assert(p * state == state + (2 * q) * z1) by (nonlinear_arith)
        requires
            p == 1 + (4 * q) * u,
            z1 == 2 * (u * state),
    ;
    assert(inc * g == q + (2 * q) * z2) by (nonlinear_arith)
        requires
            g == q * (2 * v + 1),
            inc == 2 * h + 1,
            z2 == h * (2 * v + 1) + v,
    ;
    assert((2 * q) * z1 + (2 * q) * z2 == (2 * q) * z) by (nonlinear_arith)
        requires
            z == z1 + z2,
    ;
    assert(total == state + q + (2 * q) * z);
    let t = total / modulus();
    lemma_fundamental_div_mod(total, modulus());
    let landed: int = lcg_advance(state, inc, pow2(k)) as int;
    assert(landed - state - q == (z - r * t) * (2 * q)) by (nonlinear_arith)
        requires
            total == state + q + (2 * q) * z,
            total == ((2 * q) * r) * t + landed,
    ;
    vstd::arithmetic::div_mod::lemma_mod_multiples_basic(z - r * t, 2 * q);
}

/// With an odd increment, every residue modulo 2^k is met within the first
/// 2^k steps; the result is the number of steps.
pub proof fn lemma_reach_modulo(state: u64, target: u64, inc: u64, k: nat) -> (n: nat)
    requires
        k <= 64,
        inc % 2 == 1,
    ensures
        n < pow2(k),
        (lcg_advance(state, inc, n) - target) % (pow2(k) as int) == 0,
    decreases k,
{
    lemma2_to64();
    if k == 0 {
        0
    } else {
        let j = (k - 1) as nat;
        let n0 = lemma_reach_modulo(state, target, inc, j);
        let q: int = pow2(j) as int;
        lemma_pow2_unfold(k);
        lemma_pow2_pos(j);
        let y = lcg_advance(state, inc, n0);
        let d = (y - target) / q;
        lemma_fundamental_div_mod(y - target, q);
        assert(y - target == q * d);
        if d % 2 == 0 {
            let hd = d / 2;
            assert(q * d == hd * (2 * q)) by (nonlinear_arith)
                requires
                    d == 2 * hd,
            ;
            vstd::arithmetic::div_mod::lemma_mod_multiples_basic(hd, 2 * q);
            n0
        } else {
            let n = n0 + pow2(j);
            lemma_advance_adds(state, inc, n0, pow2(j));
            lemma_advance_pow2(y, inc, j);
            let landed: int = lcg_advance(y, inc, pow2(j)) as int;
            let e = (landed - y - q) / (2 * q);
            lemma_fundamental_div_mod(landed - y - q, 2 * q);
            let hd = (d + 1) / 2;
            assert(q * d + q == (2 * q) * hd) by (nonlinear_arith)
                requires
                    d == 2 * hd - 1,
            ;
            assert((2 * q) * hd + (2 * q) * e == (hd + e) * (2 * q)) by (nonlinear_arith);
            assert(landed - target == (hd + e) * (2 * q));
            vstd::arithmetic::div_mod::lemma_mod_multiples_basic(hd + e, 2 * q);
            n
        }
    }
}

/// With an odd increment, the orbit of any accumulator value passes through
/// every 64-bit value; the result is a number of steps that leads from
/// `state` to `target`.
pub proof fn lemma_orbit_reaches(state: u64, target: u64, inc: u64) -> (n: nat)
    requires
        inc % 2 == 1,
    ensures
        n < modulus(),
        lcg_advance(state, inc, n) == target,
{
    let n = lemma_reach_modulo(state, target, inc, 64);
    lemma2_to64_rest();
    let landed: int = lcg_advance(state, inc, n) as int;
    let d = (landed - target) / modulus();
    lemma_fundamental_div_mod(landed - target, modulus());
    assert(landed - target == modulus() * d);
    n
}

/// With an odd increment, `m` times 2^k steps move the accumulator by
/// `m` times 2^k modulo 2^(k+1).
pub proof fn lemma_advance_pow2_multiple(state: u64, inc: u64, k: nat, m: nat)
    requires
        k <= 63,
        inc % 2 == 1,
    ensures
        (lcg_advance(state, inc, pow2(k) * m) - state - pow2(k) * m) % (pow2(k + 1) as int) == 0,
    decreases m,
{
    let q: int = pow2(k) as int;
    lemma_pow2_pos(k);
    lemma_pow2_unfold(k + 1);
    let steps: nat = pow2(k) * m;
    if m == 0 {
        assert(steps == 0) by (nonlinear_arith)
            requires
                steps == pow2(k) * m,
                m == 0,
        ;
        vstd::arithmetic::div_mod::lemma_small_mod(0, (2 * q) as nat);
    } else {
        let before = (m - 1) as nat;
        let fewer: nat = pow2(k) * before;
        lemma_advance_pow2_multiple(state, inc, k, before);
        assert(steps == fewer + pow2(k)) by (nonlinear_arith)
            requires
                steps == pow2(k) * m,
                fewer == pow2(k) * before,
                before == m - 1,
        ;
        let prev = lcg_advance(state, inc, fewer);
        lemma_advance_adds(state, inc, fewer, pow2(k));
        lemma_advance_pow2(prev, inc, k);
        let landed: int = lcg_advance(prev, inc, pow2(k)) as int;
        assert(landed == lcg_advance(state, inc, steps));
        let e1 = (prev - state - fewer) / (2 * q);
        let e2 = (landed - prev - q) / (2 * q);
        lemma_fundamental_div_mod(prev - state - fewer, 2 * q);
        lemma_fundamental_div_mod(landed - prev - q, 2 * q);
        assert(landed - state - steps == (e1 + e2) * (2 * q)) by (nonlinear_arith)
            requires
                prev - state - fewer == (2 * q) * e1,
                landed - prev - q == (2 * q) * e2,
                steps == fewer + q,
        ;
        vstd::arithmetic::div_mod::lemma_mod_multiples_basic(e1 + e2, 2 * q);
    }
}

/// With an odd increment, an accumulator that has come back to its own
/// residue modulo 2^k has taken a multiple of 2^k steps.
pub proof fn lemma_return_needs_multiple(state: u64, inc: u64, d: nat, k: nat)
    requires
        k <= 64,
        inc % 2 == 1,
        (lcg_advance(state, inc, d) - state) % (pow2(k) as int) == 0,
    ensures
        d % pow2(k) == 0,
    decreases k,
{
    lemma2_to64();
    if k > 0 {
        let j = (k - 1) as nat;
        let q: int = pow2(j) as int;
        lemma_pow2_pos(j);
        lemma_pow2_unfold(k);
        let landed: int = lcg_advance(state, inc, d) as int;
        let e = (landed - state) / (2 * q);
        lemma_fundamental_div_mod(landed - state, 2 * q);
        assert(landed - state == (2 * e) * q) by (nonlinear_arith)
            requires
                landed - state == (2 * q) * e,
        ;
        vstd::arithmetic::div_mod::lemma_mod_multiples_basic(2 * e, q);
        lemma_return_needs_multiple(state, inc, d, j);
        let m = d as int / q;
        lemma_fundamental_div_mod(d as int, q);
        assert(d == q * m);
        assert(m >= 0) by (nonlinear_arith)
            requires
                d == q * m,
                q > 0,
                d >= 0,
        ;
        lemma_advance_pow2_multiple(state, inc, j, m as nat);
        assert(pow2(j) * (m as nat) == d) by (nonlinear_arith)
            requires
                d == q * m,
                q == pow2(j),
                m >= 0,
        ;
        let f = (landed - state - d) / (2 * q);
        lemma_fundamental_div_mod(landed - state - d, 2 * q);
        assert(q * m == (2 * q) * (e - f)) by (nonlinear_arith)
            requires
                landed - state == (2 * q) * e,
                landed - state - d == (2 * q) * f,
                d == q * m,
        ;
        assert(m == 2 * (e - f)) by (nonlinear_arith)
            requires
                q * m == (2 * q) * (e - f),
                q > 0,
        ;
        assert(d == (e - f) * (2 * q)) by (nonlinear_arith)
            requires
                d == q * m,
                m == 2 * (e - f),
        ;
        vstd::arithmetic::div_mod::lemma_mod_multiples_basic(e - f, 2 * q);
    }
}

/// With an odd increment, the accumulator comes back to where it started
/// after exactly the multiples of 2^64 steps: the period is 2^64.
pub proof fn lemma_period(state: u64, inc: u64, n: nat)
    requires
        inc % 2 == 1,
    ensures
        lcg_advance(state, inc, n) == state <==> n % (modulus() as nat) == 0,
{
    lemma2_to64_rest();
    let landed: int = lcg_advance(state, inc, n) as int;
    if landed == state {
        lemma_return_needs_multiple(state, inc, n, 64);
    }
    if n % (modulus() as nat) == 0 {
        let t = n as int / modulus();
        lemma_fundamental_div_mod(n as int, modulus());
        let half: int = pow2(63) as int;
        assert(n == half * (2 * t)) by (nonlinear_arith)
            requires
                n == (2 * half) * t,
        ;
        lemma_advance_pow2_multiple(state, inc, 63, (2 * t) as nat);
        let e = (landed - state - half * (2 * t)) / modulus();
        lemma_fundamental_div_mod(landed - state - half * (2 * t), modulus());
        assert(landed - state == modulus() * (e + t)) by (nonlinear_arith)
            requires
                landed - state - half * (2 * t) == (2 * half) * e,
                modulus() == 2 * half,
        ;
        assert(e + t == 0) by (nonlinear_arith)
            requires
                landed - state == modulus() * (e + t),
                -modulus() < landed - state < modulus(),
                modulus() > 0,
        ;
    }
}

/// With an odd increment, no accumulator value occurs twice within 2^64
/// consecutive steps.
pub proof fn lemma_orbit_distinct(state: u64, inc: u64, i: nat, j: nat)
    requires
        inc % 2 == 1,
        i < j < i + modulus(),
    ensures
        lcg_advance(state, inc, i) != lcg_advance(state, inc, j),
{
    let d = (j - i) as nat;
    lemma_advance_adds(state, inc, i, d);
    lemma_period(lcg_advance(state, inc, i), inc, d);
    vstd::arithmetic::div_mod::lemma_small_mod(d, modulus() as nat);
}

} // verus!
