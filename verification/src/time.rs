use vstd::prelude::*;
use fugit::{TimerDurationU64, TimerInstantU64};

verus! {

/// Frequency of the RP2040 timer: one tick per microsecond.
pub const TIMER_HZ: u32 = 1_000_000;

/// `now - earlier` on the 64 bit tick counter, counting through a wrap.
pub open spec fn ticks_between(now: u64, earlier: u64) -> int {
    if now >= earlier {
        now - earlier
    } else {
        now - earlier + 0x1_0000_0000_0000_0000
    }
}

/// The time from `earlier` to `now`, when `now` is not before `earlier`.
/// Instants are compared across a counter wrap: `now` counts as later when
/// it is at most half the counter's range ahead.
pub open spec fn duration_since(now: u64, earlier: u64) -> Option<u64> {
    if ticks_between(now, earlier) <= u64::MAX / 2 {
        Some(ticks_between(now, earlier) as u64)
    } else {
        None
    }
}

/// Calls fugit's `Instant::checked_duration_since` on two instants of the
/// RP2040 timer (`TimerInstantU64<1_000_000>`), given and returned as tick
/// counts. Its source compares with `const_cmp`, which takes the wrapping
/// difference `now - earlier` as "later or equal" when it is at most
/// `u64::MAX / 2`, and then returns that wrapping difference.
#[verifier::external_body]
pub(crate) fn checked_duration_since(now: u64, earlier: u64) -> (r: Option<u64>)
    ensures
        r == duration_since(now, earlier),
{
    TimerInstantU64::<TIMER_HZ>::from_ticks(now).checked_duration_since(
        TimerInstantU64::<TIMER_HZ>::from_ticks(earlier),
    ).map(|d| d.ticks())
}

/// Calls fugit's `Duration::to_micros` on a duration of the RP2040 timer
/// (`TimerDurationU64<1_000_000>`), given as ticks. The timer ticks once per
/// microsecond, so the source multiplies and divides by 1: the result is the
/// tick count.
#[verifier::external_body]
pub(crate) fn to_micros(ticks: u64) -> (r: u64)
    ensures
        r == ticks,
{
    TimerDurationU64::<TIMER_HZ>::from_ticks(ticks).to_micros()
}

} // verus!
