//! The two arithmetic ingredients of the generator: the linear congruential
//! step on the 64-bit accumulator and the xorshift-rotate output permutation.

use vstd::prelude::*;

verus! {

/// The multiplier of the congruential step.
pub const MULTIPLIER: u64 = 6364136223846793005;

/// One congruential step: `state * MULTIPLIER + inc`, reduced modulo 2^64.
pub open spec fn lcg_step(state: u64, inc: u64) -> u64 {
    ((state * MULTIPLIER + inc) % 0x1_0000_0000_0000_0000) as u64
}

/// The accumulator after `n` congruential steps from `state`.
pub open spec fn lcg_advance(state: u64, inc: u64, n: nat) -> u64
    decreases n,
{
    if n == 0 {
        state
    } else {
        lcg_step(lcg_advance(state, inc, (n - 1) as nat), inc)
    }
}

/// The 32 bits drawn from an accumulator value: bits 27..58 of
/// `state ^ (state >> 18)`, rotated right by the top five bits of `state`.
pub open spec fn xsh_rr(state: u64) -> u32 {
    let xorshifted = (((state >> 18) ^ state) >> 27) as u32;
    let rot = (state >> 59) as u32;
    (xorshifted >> rot) | (xorshifted << ((32 - rot) % 32) as u32)
}

/// Computes one congruential step with wrapping arithmetic.
pub fn advance_state(state: u64, inc: u64) -> (next: u64)
    ensures
        next == lcg_step(state, inc),
{
    let product = state.wrapping_mul(MULTIPLIER);
    let next = product.wrapping_add(inc);
    proof {
        lemma_wrapping_step(state, inc);
    }
    next
}

/// Wrapping multiplication followed by wrapping addition is the step
/// modulo 2^64.
proof fn lemma_wrapping_step(state: u64, inc: u64)
    ensures
        (state.wrapping_mul(MULTIPLIER)).wrapping_add(inc) == lcg_step(state, inc),
{
    let m: int = 0x1_0000_0000_0000_0000;
    let p: int = state * MULTIPLIER;
    vstd::arithmetic::div_mod::lemma_add_mod_noop(p, inc as int, m);
    vstd::arithmetic::div_mod::lemma_small_mod(inc as nat, m as nat);
}

/// Computes the output permutation of an accumulator value.
pub fn permute(state: u64) -> (out: u32)
    ensures
        out == xsh_rr(state),
{
    let xorshifted = (((state >> 18) ^ state) >> 27) as u32;
    let rot = (state >> 59) as u32;
    assert(rot < 32) by (bit_vector)
        requires
            rot == (state >> 59) as u32,
    ;
    (xorshifted >> rot) | (xorshifted << ((32 - rot) % 32))
}

/// The accumulator whose top five bits are `rot`, whose low 27 bits are
/// `low`, and whose output is `out`.
pub open spec fn accumulator_with(out: u32, rot: u32, low: u32) -> u64 {
    let xorshifted = (out << rot) | (out >> ((32 - rot) % 32) as u32);
    let folded = xorshifted ^ (rot << 14);
    let middle = folded ^ (folded >> 18);
    ((rot as u64) << 59) | ((middle as u64) << 27) | (low as u64)
}

/// An accumulator is determined by its output, its top five bits and its
/// low 27 bits.
pub proof fn lemma_output_determines_accumulator(state: u64)
    ensures
        accumulator_with(xsh_rr(state), (state >> 59) as u32, (state & 0x7ff_ffff) as u32)
            == state,
{
    assert(accumulator_with(xsh_rr(state), (state >> 59) as u32, (state & 0x7ff_ffff) as u32)
        == state) by (bit_vector);
}

/// Every output occurs with every choice of the top five and the low 27
/// bits of the accumulator. Together with
/// `lemma_output_determines_accumulator`, each 32-bit output is therefore
/// the output of exactly 2^32 accumulators.
pub proof fn lemma_every_output_occurs(out: u32, rot: u32, low: u32)
    requires
        rot < 32,
        low < 0x800_0000,
    ensures
        xsh_rr(accumulator_with(out, rot, low)) == out,
        accumulator_with(out, rot, low) >> 59 == rot,
        accumulator_with(out, rot, low) & 0x7ff_ffff == low,
{
    assert(xsh_rr(accumulator_with(out, rot, low)) == out) by (bit_vector)
        requires
            rot < 32,
            low < 0x800_0000,
    ;
    assert(accumulator_with(out, rot, low) >> 59 == rot) by (bit_vector)
        requires
            rot < 32,
            low < 0x800_0000,
    ;
    assert(accumulator_with(out, rot, low) & 0x7ff_ffff == low) by (bit_vector)
        requires
            rot < 32,
            low < 0x800_0000,
    ;
}

} // verus!
