//! Timer arithmetic: converting raw counter ticks to microseconds and
//! milliseconds and computing the next timer deadline. Reading the
//! hardware counter and programming the comparator are the surrounding
//! kernel's acts.

use vstd::prelude::*;
use crate::config::{CLOCK_FREQ, MICRO_PER_SEC, TICKS_PER_SEC};

verus! {

/// Microseconds elapsed after `ticks` counter increments.
pub fn get_time_us(ticks: u64) -> (r: u64)
    ensures
        r == ticks / (CLOCK_FREQ / MICRO_PER_SEC),
{
    ticks / (CLOCK_FREQ / MICRO_PER_SEC)
}

/// The counter value at which the next timer interrupt should fire,
/// one scheduling slice after `now`.
pub fn set_next_trigger(now: u64) -> (r: u64)
    requires
        now <= u64::MAX - CLOCK_FREQ / TICKS_PER_SEC,
    ensures
        r == now + CLOCK_FREQ / TICKS_PER_SEC,
{
    now + CLOCK_FREQ / TICKS_PER_SEC
}

/// A compact millisecond clock built from a microsecond count: the low
/// sixteen bits of the seconds, in milliseconds, plus the millisecond
/// remainder.
pub fn get_time2(us: u64) -> (r: u64)
    ensures
        r == ((us / 1_000_000) & 0xFFFF) * 1000 + (us % 1_000_000) / 1000,
{
    proof {
        let s = us / 1_000_000;
        assert(s & 0xFFFF <= 0xFFFF) by (bit_vector);
    }
    ((us / 1_000_000) & 0xFFFF) * 1000 + (us % 1_000_000) / 1000
}

} // verus!
