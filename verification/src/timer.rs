//! The platform timer: time since boot and the next tick.

use vstd::prelude::*;
use crate::config::CLOCK_FREQ;

verus! {

pub const MSEC_PER_SEC: u64 = 1000;

/// Ticks of the timer interrupt per second.
pub const TICKS_PER_SEC: u64 = 100;

/// Milliseconds since boot at counter value `mtime`.
pub open spec fn spec_time_ms(mtime: u64) -> int {
    mtime as int * 1000 / 12500000
}

/// Milliseconds since boot at counter value `mtime`.
pub fn get_time_ms(mtime: u64) -> (r: u64)
    ensures
        r == spec_time_ms(mtime),
        r <= 1475739525896764,
{
    let wide: u128 = mtime as u128 * MSEC_PER_SEC as u128 / CLOCK_FREQ as u128;
    wide as u64
}

/// The counter value at which the next timer interrupt is due: one
/// hundredth of a second after `mtime`.
pub fn set_next_trigger(mtime: u64) -> (r: u64)
    requires
        mtime + 125000 <= u64::MAX,
    ensures
        r == mtime + 125000,
{
    mtime + CLOCK_FREQ as u64 / TICKS_PER_SEC
}

} // verus!
