//! Rejection sampling: drawing a value below a bound without modulo bias.
//!
//! Draws below the threshold `2^32 mod bound` are thrown away, so that the
//! draws that remain fall into `bound` residue classes of equal size. A
//! bound of zero asks for no reduction at all: the threshold is zero and the
//! first draw is returned as it is.

use vstd::prelude::*;
use crate::model::GeneratorState;
use crate::model::lemma_every_value_is_drawn;
use crate::orbit::modulus;

verus! {

/// The least draw that is kept for `bound`: `(2^32 - bound) mod bound`, and
/// zero for a bound of zero.
pub open spec fn rejection_threshold(bound: u32) -> u32 {
    if bound == 0 {
        0
    } else {
        ((0x1_0000_0000 - bound) % (bound as int)) as u32
    }
}

/// A kept draw, reduced below `bound`; unchanged for a bound of zero.
pub open spec fn reduce(value: u32, bound: u32) -> u32 {
    if bound == 0 {
        value
    } else {
        value % bound
    }
}

/// The draw that follows `n` earlier draws is at least `threshold`.
pub open spec fn kept_at(g: GeneratorState, threshold: u32, n: nat) -> bool {
    g.nth_output(n) >= threshold
}

/// The draw after `n` earlier ones is the first that is at least
/// `threshold`.
pub open spec fn first_kept_at(g: GeneratorState, threshold: u32, n: nat) -> bool {
    &&& kept_at(g, threshold, n)
    &&& forall|i: nat| i < n ==> !kept_at(g, threshold, i)
}

/// How many draws are thrown away before one is at least `threshold`.
pub open spec fn rejections(g: GeneratorState, threshold: u32) -> nat {
    choose|n: nat| first_kept_at(g, threshold, n)
}

/// The value that a bounded draw returns.
pub open spec fn bounded_output(g: GeneratorState, bound: u32) -> u32 {
    reduce(g.nth_output(rejections(g, rejection_threshold(bound))), bound)
}

/// The generator after a bounded draw: every rejected draw and the kept one
/// have each advanced it by one step.
pub open spec fn after_bounded(g: GeneratorState, bound: u32) -> GeneratorState {
    g.skip(rejections(g, rejection_threshold(bound)) + 1)
}

/// The threshold is `2^32 mod bound`. It lies below the bound and below
/// 2^31, so fewer than half of all 32-bit values are thrown away, and the
/// draws at or above it are a whole number of runs of `bound` consecutive
/// values.
pub proof fn lemma_threshold(bound: u32)
    requires
        bound > 0,
    ensures
        rejection_threshold(bound) == 0x1_0000_0000int % (bound as int),
        rejection_threshold(bound) < bound,
        rejection_threshold(bound) < 0x8000_0000,
        (0x1_0000_0000int - rejection_threshold(bound)) % (bound as int) == 0,
{
    let b: int = bound as int;
    let full: int = 0x1_0000_0000;
    vstd::arithmetic::div_mod::lemma_mod_sub_multiples_vanish(full, b);
    assert((full - b) % b == full % b);
    let t = full % b;
    vstd::arithmetic::div_mod::lemma_fundamental_div_mod(full, b);
    let q = full / b;
    assert(full - t == q * b) by (nonlinear_arith)
        requires
            full == b * q + t,
    ;
    vstd::arithmetic::div_mod::lemma_mod_multiples_basic(q, b);
    if b == 0x8000_0000 {
        vstd::arithmetic::div_mod::lemma_mod_self_0(b);
    } else if b > 0x8000_0000 {
        vstd::arithmetic::div_mod::lemma_small_mod((full - b) as nat, b as nat);
    }
}

/// Searches upward from `lo` for the first kept draw, given that one is
/// kept at `hi`.
proof fn lemma_first_kept_between(g: GeneratorState, threshold: u32, lo: nat, hi: nat) -> (n: nat)
    requires
        lo <= hi,
        kept_at(g, threshold, hi),
        forall|i: nat| i < lo ==> !kept_at(g, threshold, i),
    ensures
        first_kept_at(g, threshold, n),
        lo <= n <= hi,
    decreases hi - lo,
{
    if kept_at(g, threshold, lo) {
        lo
    } else {
        lemma_first_kept_between(g, threshold, lo + 1, hi)
    }
}

/// Only one draw can be the first kept one.
pub proof fn lemma_first_kept_unique(g: GeneratorState, threshold: u32, m: nat, n: nat)
    requires
        first_kept_at(g, threshold, m),
        first_kept_at(g, threshold, n),
    ensures
        m == n,
{
    if m < n {
        assert(!kept_at(g, threshold, m));
    }
    if n < m {
        assert(!kept_at(g, threshold, n));
    }
}

/// With an odd increment some draw is kept, whatever the threshold:
/// `rejections` names the first, every draw before it is thrown away, and
/// fewer than 2^64 are.
pub proof fn lemma_rejections_first(g: GeneratorState, threshold: u32)
    requires
        g.wf(),
    ensures
        first_kept_at(g, threshold, rejections(g, threshold)),
        rejections(g, threshold) < modulus(),
{
    let hi = lemma_every_value_is_drawn(g, 0xffff_ffff);
    assert(kept_at(g, threshold, hi));
    let n = lemma_first_kept_between(g, threshold, 0, hi);
    lemma_first_kept_unique(g, threshold, n, rejections(g, threshold));
}

/// A bounded draw with a positive bound returns a value below the bound.
pub proof fn lemma_bounded_output_below(g: GeneratorState, bound: u32)
    requires
        bound > 0,
    ensures
        bounded_output(g, bound) < bound,
{
}

/// How many of the kept draws reduce to each value below `bound`.
pub open spec fn kept_per_residue(bound: u32) -> int {
    (0x1_0000_0000 - rejection_threshold(bound)) / (bound as int)
}

/// The kept draws that reduce to `residue`, counted from zero in increasing
/// order.
pub open spec fn kept_draw(bound: u32, residue: u32, k: int) -> int {
    let threshold = rejection_threshold(bound);
    threshold + (residue - threshold) % (bound as int) + k * bound
}

/// For each value below the bound, `kept_draw` lists `kept_per_residue`
/// different draws; each is a 32-bit value at or above the threshold, and
/// each reduces to that value.
pub proof fn lemma_kept_draw_reduces(bound: u32, residue: u32, k: int)
    requires
        bound > 0,
        residue < bound,
        0 <= k < kept_per_residue(bound),
    ensures
        rejection_threshold(bound) <= kept_draw(bound, residue, k) < 0x1_0000_0000,
        kept_draw(bound, residue, k) % (bound as int) == residue,
        kept_draw(bound, residue, k + 1) == kept_draw(bound, residue, k) + bound,
{
    let b: int = bound as int;
    let t: int = rejection_threshold(bound) as int;
    let per = kept_per_residue(bound);
    lemma_threshold(bound);
    vstd::arithmetic::div_mod::lemma_fundamental_div_mod(0x1_0000_0000 - t, b);
    assert(0x1_0000_0000 - t == b * per);
    let off = (residue - t) % b;
    let j = (residue - t) / b;
    vstd::arithmetic::div_mod::lemma_fundamental_div_mod(residue - t, b);
    let r = kept_draw(bound, residue, k);
    assert(k * b + b == (k + 1) * b) by (nonlinear_arith);
    assert((k + 1) * b <= b * per) by (nonlinear_arith)
        requires
            k + 1 <= per,
            b > 0,
    ;
    assert(k * b >= 0) by (nonlinear_arith)
        requires
            k >= 0,
            b > 0,
    ;
    assert(r == b * (k - j) + residue) by (nonlinear_arith)
        requires
            r == t + off + k * b,
            residue - t == b * j + off,
    ;
    vstd::arithmetic::div_mod::lemma_fundamental_div_mod_converse(r, b, k - j, residue as int);
}

/// Every draw at or above the threshold is listed by `kept_draw`, under the
/// value that it reduces to. So the kept draws fall into `bound` classes of
/// `kept_per_residue` draws each, and reducing a kept draw favours no
/// value.
pub proof fn lemma_kept_draw_complete(bound: u32, draw: u32)
    requires
        bound > 0,
        draw >= rejection_threshold(bound),
    ensures
        0 <= (draw - rejection_threshold(bound)) / (bound as int) < kept_per_residue(bound),
        draw == kept_draw(
            bound,
            reduce(draw, bound),
            (draw - rejection_threshold(bound)) / (bound as int),
        ),
{
    let b: int = bound as int;
    let t: int = rejection_threshold(bound) as int;
    let per = kept_per_residue(bound);
    lemma_threshold(bound);
    vstd::arithmetic::div_mod::lemma_fundamental_div_mod(0x1_0000_0000 - t, b);
    assert(0x1_0000_0000 - t == b * per);
    let k = (draw - t) / b;
    vstd::arithmetic::div_mod::lemma_fundamental_div_mod(draw - t, b);
    vstd::arithmetic::div_mod::lemma_div_pos_is_pos(draw - t, b);
    assert(k < per) by (nonlinear_arith)
        requires
            draw - t >= b * k,
            draw - t < b * per,
            b > 0,
    ;
    let v: int = (draw % bound) as int;
    let q = draw as int / b;
    vstd::arithmetic::div_mod::lemma_fundamental_div_mod(draw as int, b);
    vstd::arithmetic::div_mod::lemma_mod_multiples_vanish(-q, draw - t, b);
    assert(b * (-q) + (draw - t) == v - t) by (nonlinear_arith)
        requires
            draw == b * q + v,
    ;
    assert(k * b == b * k) by (nonlinear_arith);
}

} // verus!
