//! Price-time priority limit order book with integer tick prices, plus the
//! integer parts of an execution-schedule study (TWAP / VWAP / POV).

pub mod agents;
pub mod book_laws;
pub mod index_laws;
pub mod orderbook;

pub use agents::{
    execute_schedule, fill_child, pov_slices, twap_slices, vwap_buckets, vwap_slices, Algo,
    ChildFill, ExecSide, Execution,
};
pub use orderbook::{Book, CancelResult, Event, Order, Side, Trade};

use vstd::prelude::*;

verus! {

/// Multiplier of the 64-bit linear congruential generator.
pub const LCG_MUL: u64 = 6364136223846793005u64;

/// Increment of the 64-bit linear congruential generator.
pub const LCG_INC: u64 = 1442695040888963407u64;

/// One step of the generator: `s * LCG_MUL + LCG_INC` modulo 2^64.
pub open spec fn lcg_step(s: u64) -> u64 {
    ((s as int * LCG_MUL as int + LCG_INC as int) % 0x1_0000_0000_0000_0000int) as u64
}

/// Deterministic 64-bit LCG for property-style tests (no external crates).
pub struct Lcg(u64);

impl View for Lcg {
    type V = u64;

    /// The generator's current state.
    closed spec fn view(&self) -> u64 {
        self.0
    }
}

impl Lcg {
    /// A generator seeded with `seed`; the low bit of the state is always set.
    pub fn new(seed: u64) -> (r: Self)
        ensures
            r@ == seed | 1,
    {
        Lcg(seed | 1)
    }

    /// Advances the state by one step and returns the new state.
    pub fn next_u64(&mut self) -> (r: u64)
        ensures
            r == lcg_step(old(self)@),
            final(self)@ == r,
    {
        let m = self.0.wrapping_mul(LCG_MUL);
        let s = m.wrapping_add(LCG_INC);
        proof {
            let r = 0x1_0000_0000_0000_0000int;
            let p = self.0 as int * LCG_MUL as int;
            assert(m as int == p % r);
            vstd::arithmetic::div_mod::lemma_add_mod_noop(p, LCG_INC as int, r);
            assert((LCG_INC as int) % r == LCG_INC as int);
            assert(((p % r) + LCG_INC as int) % r == (p + LCG_INC as int) % r);
        }
        self.0 = s;
        s
    }

    /// The next draw reduced modulo `max(n, 1)`: always below `n` when `n > 0`, and 0 when `n == 0`.
    pub fn below(&mut self, n: u64) -> (r: u64)
        ensures
            final(self)@ == lcg_step(old(self)@),
            r == lcg_step(old(self)@) % (if n == 0 { 1 } else { n }),
            n > 0 ==> r < n,
            n == 0 ==> r == 0,
    {
        let d: u64 = if n == 0 { 1 } else { n };
        self.next_u64() % d
    }
}

} // verus!
