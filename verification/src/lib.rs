//! PCG32: a permuted congruential generator with 64 bits of state and
//! 32 bits of output per draw.

use vstd::prelude::*;

pub mod bounded;
pub mod lcg;
pub mod model;
pub mod orbit;
pub mod streams;

use crate::bounded::after_bounded;
use crate::bounded::bounded_output;
use crate::bounded::first_kept_at;
use crate::bounded::kept_at;
use crate::bounded::lemma_first_kept_unique;
use crate::bounded::lemma_rejections_first;
use crate::bounded::rejection_threshold;
use crate::bounded::rejections;
use crate::lcg::advance_state;
use crate::lcg::permute;
use crate::model::GeneratorState;
use crate::model::seeded;
use crate::model::default_generator;
use crate::model::lemma_selector_increment_odd;
use crate::model::lemma_skip_unfolds;
use crate::model::DEFAULT_STATE;
use crate::model::DEFAULT_INCREMENT;

verus! {

/// The state of one generator.
pub struct Pcg32Random {
    state: u64,
    inc: u64,
}

impl View for Pcg32Random {
    type V = GeneratorState;

    closed spec fn view(&self) -> GeneratorState {
        GeneratorState { state: self.state, inc: self.inc }
    }
}

impl Pcg32Random {
    /// Every generator has an odd increment.
    #[verifier::type_invariant]
    pub open spec fn inv(self) -> bool {
        self@.wf()
    }

    /// A generator seeded with `initstate` on the stream that `initseq`
    /// selects.
    pub fn new(initstate: u64, initseq: u64) -> (rng: Pcg32Random)
        ensures
            rng@ == seeded(initstate, initseq),
            rng@.wf(),
    {
        let mut rng = Pcg32Random { state: 0, inc: 1 };
        pcg32_srandom_r(&mut rng, initstate, initseq);
        rng
    }

    /// A generator rebuilt from its two raw fields, as read by `state` and
    /// `increment`. An even increment belongs to no generator and is
    /// refused.
    pub fn from_parts(state: u64, inc: u64) -> (restored: Option<Pcg32Random>)
        ensures
            inc % 2 == 1 <==> restored.is_some(),
            restored.is_some() ==> restored.unwrap()@ == (GeneratorState { state, inc }),
    {
        if inc % 2 == 1 {
            Some(Pcg32Random { state, inc })
        } else {
            None
        }
    }

    /// The accumulator.
    pub fn state(&self) -> (s: u64)
        ensures
            s == self@.state,
    {
        self.state
    }

    /// The increment, which is odd.
    pub fn increment(&self) -> (c: u64)
        ensures
            c == self@.inc,
            c % 2 == 1,
    {
        proof {
            use_type_invariant(self);
        }
        self.inc
    }
}

impl Default for Pcg32Random {
    /// The generator with the fixed default constants.
    fn default() -> (rng: Pcg32Random)
        ensures
            rng@ == default_generator(),
            rng@.wf(),
    {
        Pcg32Random { state: DEFAULT_STATE, inc: DEFAULT_INCREMENT }
    }
}

/// Seeds the generator. Whatever it held before, it becomes
/// `seeded(initstate, initseq)`: the increment is `initseq` shifted left by
/// one bit with the lowest bit set, and the accumulator starts at zero,
/// takes one step, has `initstate` added modulo 2^64, and takes a second
/// step. Every pair of inputs is accepted.
pub fn pcg32_srandom_r(rng: &mut Pcg32Random, initstate: u64, initseq: u64)
    ensures
        final(rng)@ == seeded(initstate, initseq),
        final(rng)@.wf(),
{
    proof {
        use_type_invariant(&*rng);
        lemma_selector_increment_odd(initseq);
    }
    rng.state = 0;
    rng.inc = (initseq << 1) | 1;
    pcg32_random_r(rng);
    rng.state = rng.state.wrapping_add(initstate);
    pcg32_random_r(rng);
}

/// Draws the next 32-bit value: the output permutation of the accumulator
/// as it was before the call. The accumulator takes one congruential step,
/// wrapping modulo 2^64; the increment stays.
pub fn pcg32_random_r(rng: &mut Pcg32Random) -> (r: u32)
    ensures
        r == old(rng)@.output(),
        final(rng)@ == old(rng)@.step(),
        final(rng)@.wf(),
{
    proof {
        use_type_invariant(&*rng);
    }
    let oldstate = rng.state;
    rng.state = advance_state(oldstate, rng.inc);
    permute(oldstate)
}

/// Draws a value below `bound` without modulo bias: draws below
/// `rejection_threshold(bound)` are thrown away, and the first draw at or
/// above it is returned modulo `bound`. Each draw, thrown away or kept,
/// advances the generator by one step.
///
/// A bound of zero puts no constraint on the result: the call returns the
/// next draw unchanged.
pub fn pcg32_boundedrand_r(rng: &mut Pcg32Random, bound: u32) -> (r: u32)
    ensures
        first_kept_at(
            old(rng)@,
            rejection_threshold(bound),
            rejections(old(rng)@, rejection_threshold(bound)),
        ),
        r == bounded_output(old(rng)@, bound),
        final(rng)@ == after_bounded(old(rng)@, bound),
        bound > 0 ==> r < bound,
        final(rng)@.wf(),
{
    if bound == 0 {
        proof {
            use_type_invariant(&*rng);
            lemma_rejections_first(rng@, 0);
            assert(kept_at(rng@, 0, 0));
            lemma_first_kept_unique(rng@, 0, 0, rejections(rng@, 0));
            lemma_skip_unfolds(rng@, 0);
        }
        return pcg32_random_r(rng);
    }
    let threshold = (u32::MAX - bound + 1) % bound;
    let ghost start = rng@;
    let ghost mut thrown: nat = 0;
    proof {
        use_type_invariant(&*rng);
        lemma_rejections_first(start, threshold);
    }
    loop
        invariant
            bound > 0,
            threshold == rejection_threshold(bound),
            start == old(rng)@,
            rng@ == start.skip(thrown),
            thrown <= rejections(start, threshold),
            first_kept_at(start, threshold, rejections(start, threshold)),
            forall|i: nat| i < thrown ==> !kept_at(start, threshold, i),
        decreases rejections(start, threshold) - thrown,
    {
        let r = pcg32_random_r(rng);
        proof {
            lemma_skip_unfolds(start, thrown);
        }
        if r >= threshold {
            proof {
                assert(kept_at(start, threshold, thrown));
                lemma_first_kept_unique(start, threshold, thrown, rejections(start, threshold));
            }
            return r % bound;
        }
        proof {
            assert(!kept_at(start, threshold, thrown));
            thrown = thrown + 1;
        }
    }
}

} // verus!
