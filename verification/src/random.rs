//! The source of the numbers from which node levels are drawn.
use vstd::prelude::*;

verus! {

/// The multiplier of the generator's recurrence.
pub const MULTIPLIER: u64 = 6364136223846793005;

/// The increment of the generator's recurrence.
pub const INCREMENT: u64 = 1;

/// A source of 64-bit numbers.
pub trait ThreadSafeRng {
    fn next_u64(&mut self) -> (value: u64);
}

/// The state that follows `state`: `state * MULTIPLIER + INCREMENT`, reduced
/// to 64 bits.
pub open spec fn lcg_next(state: u64) -> u64 {
    ((state * MULTIPLIER + INCREMENT) % 0x1_0000_0000_0000_0000) as u64
}

/// A linear congruential generator. A draw returns the state and moves on to
/// the next one, so the numbers that come out depend on the seed alone.
pub struct AtomicRng(u64);

impl View for AtomicRng {
    type V = u64;

    closed spec fn view(&self) -> u64 {
        self.0
    }
}

impl AtomicRng {
    pub fn new(seed: u64) -> (rng: Self)
        ensures
            rng@ == seed,
    {
        Self(seed)
    }
}

impl ThreadSafeRng for AtomicRng {
    fn next_u64(&mut self) -> (value: u64)
        ensures
            value == old(self)@,
            final(self)@ == lcg_next(old(self)@),
    {
        let state = self.0;
        assert(state * MULTIPLIER <= 0xFFFF_FFFF_FFFF_FFFF * 0xFFFF_FFFF_FFFF_FFFF) by (nonlinear_arith)
            requires
                0 <= state <= 0xFFFF_FFFF_FFFF_FFFF,
                0 <= MULTIPLIER <= 0xFFFF_FFFF_FFFF_FFFF,
        ;
        let wide: u128 = (state as u128) * (MULTIPLIER as u128) + (INCREMENT as u128);
        self.0 = (wide % 0x1_0000_0000_0000_0000) as u64;
        state
    }
}

} // verus!
