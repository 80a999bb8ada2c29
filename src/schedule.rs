//! The fixed-timestep accumulator: real time in, whole simulation steps out.

use vstd::arithmetic::div_mod::{lemma_fundamental_div_mod, lemma_fundamental_div_mod_converse};
use vstd::prelude::*;

verus! {

/// Duration of one simulation step, in microseconds (20 steps per second).
pub const TICK_MICROS: u64 = 50000;

/// Real time that has elapsed but has not yet been turned into steps.
pub struct Accumulator {
    micros: u64,
}

impl Accumulator {
    /// The time owed, in microseconds.
    pub closed spec fn owed(&self) -> u64 {
        self.micros
    }

    /// Less than one step is ever owed between calls.
    #[verifier::type_invariant]
    spec fn under_one_step(&self) -> bool {
        self.micros < TICK_MICROS
    }

    /// Nothing owed.
    pub fn new() -> (r: Self)
        ensures
            r.owed() == 0,
    {
        Accumulator { micros: 0 }
    }

    /// Adds `elapsed` microseconds and returns how many whole steps are now
    /// due, all of them; what is left is under one step.
    pub fn advance(&mut self, elapsed: u64) -> (steps: u64)
        ensures
            steps == (old(self).owed() + elapsed) / (TICK_MICROS as int),
            final(self).owed() == (old(self).owed() + elapsed) % (TICK_MICROS as int),
    {
        proof {
            use_type_invariant(&*self);
        }
        let carried = self.micros + elapsed % TICK_MICROS;
        let steps = elapsed / TICK_MICROS + carried / TICK_MICROS;
        self.micros = carried % TICK_MICROS;
        proof {
            let t = TICK_MICROS as int;
            let a = old(self).micros as int;
            let e = elapsed as int;
            let c = a + e % t;
            lemma_fundamental_div_mod(e, t);
            lemma_fundamental_div_mod(c, t);
            assert(a + e == (e / t + c / t) * t + c % t) by (nonlinear_arith)
                requires
                    e == t * (e / t) + e % t,
                    c == t * (c / t) + c % t,
                    c == a + e % t,
            ;
            lemma_fundamental_div_mod_converse(a + e, t, e / t + c / t, c % t);
        }
        steps
    }

    /// The time owed, in microseconds: what a presentation layer divides by
    /// `TICK_MICROS` to interpolate between the last two steps.
    pub fn owed_micros(&self) -> (r: u64)
        ensures
            r == self.owed(),
            r < TICK_MICROS,
    {
        proof {
            use_type_invariant(self);
        }
        self.micros
    }
}

} // verus!
