//! Timer arithmetic: the timebase, the scheduling slice, and deadlines.
use vstd::prelude::*;

verus! {

/// Timer ticks per second.
pub const TIMEBASE: u64 = 10_000_000;

/// Ticks in one scheduling slice: a hundredth of a second.
pub const SLICE: u64 = TIMEBASE / 100;

/// The next deadline: one slice after `rtc`, or the latest time there is.
pub fn rearm(rtc: u64) -> (r: u64)
    ensures
        r == if rtc <= u64::MAX - SLICE {
            (rtc + SLICE) as u64
        } else {
            u64::MAX
        },
{
    if rtc <= u64::MAX - SLICE {
        rtc + SLICE
    } else {
        u64::MAX
    }
}

/// Whole seconds in `rtc` ticks.
pub fn now(rtc: u64) -> (r: u64)
    ensures
        r == rtc / TIMEBASE,
{
    rtc / TIMEBASE
}

} // verus!
