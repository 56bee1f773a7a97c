//! Timer durations for motion, in nanoseconds.
use vstd::prelude::*;

verus! {

/// Nanoseconds in one millisecond.
pub const NANOS_PER_MILLI: u64 = 1_000_000u64;

/// The timer duration of `value` milliseconds, in nanoseconds, saturating at
/// the largest duration.
pub fn millis(value: u64) -> (r: u64)
    ensures
        r == if value * NANOS_PER_MILLI > u64::MAX {
            u64::MAX as int
        } else {
            value * NANOS_PER_MILLI
        },
{
    match value.checked_mul(NANOS_PER_MILLI) {
        Some(nanos) => nanos,
        None => u64::MAX,
    }
}

} // verus!
