//! The mathematical model of a generator: its two 64-bit fields, and what
//! seeding and drawing do to them.

use vstd::prelude::*;
use crate::lcg::accumulator_with;
use crate::lcg::lcg_advance;
use crate::lcg::lcg_step;
use crate::lcg::lemma_every_output_occurs;
use crate::lcg::xsh_rr;
use crate::orbit::lemma_advance_adds;
use crate::orbit::lemma_orbit_reaches;
use crate::orbit::modulus;

verus! {

/// The accumulator of the process-wide default generator before any draw.
pub const DEFAULT_STATE: u64 = 0x853c49e6748fea9b;

/// The increment of the process-wide default generator.
pub const DEFAULT_INCREMENT: u64 = 0xda3e39cb94b95bdb;

/// What a generator is, as a value: the accumulator and the additive
/// constant of its congruential step. The pair determines every later draw.
pub struct GeneratorState {
    pub state: u64,
    pub inc: u64,
}

impl GeneratorState {
    /// The increment is odd.
    pub open spec fn wf(self) -> bool {
        self.inc % 2 == 1
    }

    /// The 32-bit value that the next draw returns.
    pub open spec fn output(self) -> u32 {
        xsh_rr(self.state)
    }

    /// The generator after one draw.
    pub open spec fn step(self) -> GeneratorState {
        GeneratorState { state: lcg_step(self.state, self.inc), inc: self.inc }
    }

    /// The generator after `n` draws.
    pub open spec fn skip(self, n: nat) -> GeneratorState {
        GeneratorState { state: lcg_advance(self.state, self.inc, n), inc: self.inc }
    }

    /// The value returned by the draw that follows `n` earlier draws.
    pub open spec fn nth_output(self, n: nat) -> u32 {
        self.skip(n).output()
    }
}

/// The increment that a sequence selector stands for: the selector shifted
/// left by one bit, with the lowest bit set.
pub open spec fn selector_increment(initseq: u64) -> u64 {
    (initseq << 1) | 1
}

/// The generator that seeding with `initstate` and `initseq` produces: from
/// accumulator zero, one step, then `initstate` added modulo 2^64, then a
/// second step.
pub open spec fn seeded(initstate: u64, initseq: u64) -> GeneratorState {
    let inc = selector_increment(initseq);
    let mixed = lcg_step(0, inc).wrapping_add(initstate);
    GeneratorState { state: lcg_step(mixed, inc), inc }
}

/// The default generator: fixed constants, no seeding steps applied.
pub open spec fn default_generator() -> GeneratorState {
    GeneratorState { state: DEFAULT_STATE, inc: DEFAULT_INCREMENT }
}

/// Every selector stands for an odd increment.
pub proof fn lemma_selector_increment_odd(initseq: u64)
    ensures
        selector_increment(initseq) % 2 == 1,
{
    assert(((initseq << 1) | 1) % 2 == 1) by (bit_vector);
}

/// Skipping draws is drawing repeatedly: skipping none changes nothing, and
/// skipping one more is one more step, taken first or last.
pub proof fn lemma_skip_unfolds(g: GeneratorState, n: nat)
    ensures
        g.skip(0) == g,
        g.skip(n + 1) == g.skip(n).step(),
        g.skip(n + 1) == g.step().skip(n),
{
    lemma_advance_adds(g.state, g.inc, 1, n);
    assert(lcg_advance(g.state, g.inc, 1) == lcg_step(g.state, g.inc)) by {
        reveal_with_fuel(lcg_advance, 2);
    }
    assert((1 + n) as nat == n + 1);
}

/// A generator with an odd increment draws every 32-bit value: the result
/// is the position, within the first 2^64 draws, of a draw that returns
/// `value`.
pub proof fn lemma_every_value_is_drawn(g: GeneratorState, value: u32) -> (n: nat)
    requires
        g.wf(),
    ensures
        n < modulus(),
        g.nth_output(n) == value,
{
    lemma_every_output_occurs(value, 0, 0);
    lemma_orbit_reaches(g.state, accumulator_with(value, 0, 0), g.inc)
}

} // verus!
