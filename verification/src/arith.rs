//! Saturating counter arithmetic for run statistics and wallet balances.
//!
//! Aggregate counters (charged energy, relay rewards, hop totals) grow by a
//! configurable amount on every simulated event, so they are accumulated with
//! saturation: a counter that would pass `u64::MAX` stays at `u64::MAX`
//! instead of wrapping. Saturation keeps every counter monotone, and exact
//! whenever the true sum fits in 64 bits.

use vstd::prelude::*;

verus! {

/// The saturating sum of two 64-bit counters.
pub open spec fn sat_add(a: u64, b: u64) -> u64 {
    if a + b <= u64::MAX {
        (a + b) as u64
    } else {
        u64::MAX
    }
}

/// Add `b` to the counter `a`, capping at `u64::MAX`.
pub fn add_sat(a: u64, b: u64) -> (r: u64)
    ensures
        r == sat_add(a, b),
{
    if a <= u64::MAX - b {
        a + b
    } else {
        u64::MAX
    }
}

/// A nonnegative mathematical value capped at the largest 64-bit counter.
pub open spec fn sat_cap(x: int) -> u64
    recommends
        x >= 0,
{
    if x <= u64::MAX {
        x as u64
    } else {
        u64::MAX
    }
}

/// Saturating addition composes: adding to an already-capped value gives
/// the cap of the true sum.
pub proof fn lemma_sat_cap_add(x: int, b: u64)
    requires
        x >= 0,
    ensures
        sat_add(sat_cap(x), b) == sat_cap(x + b),
{
}

/// A capped summand inside a capped sum changes nothing: once either part
/// passes the cap, so does the whole.
pub proof fn lemma_sat_cap_absorb(a: int, x: int)
    requires
        a >= 0,
        x >= 0,
    ensures
        sat_cap(a + sat_cap(x)) == sat_cap(a + x),
{
}

} // verus!
