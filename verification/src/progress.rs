//! The scan progress reporter's arithmetic: the monitor thread samples a
//! monotonically increasing file counter and turns count and time deltas
//! into a throughput figure.
use vstd::prelude::*;

verus! {

/// Files per second over an interval: the count delta scaled to seconds
/// and divided by the elapsed milliseconds, which are floored at one so
/// an empty interval never divides by zero; the result saturates at the
/// counter range's top.
pub fn scan_rate(delta_count: u64, delta_millis: u64) -> (r: u64)
    ensures
        ({
            let d: int = if delta_millis == 0 {
                1
            } else {
                delta_millis as int
            };
            let q: int = delta_count * 1000 / d;
            r == if q > u64::MAX {
                u64::MAX as int
            } else {
                q
            }
        }),
{
    let d: u64 = if delta_millis == 0 {
        1
    } else {
        delta_millis
    };
    let q: u128 = (delta_count as u128) * 1000 / (d as u128);
    if q > u64::MAX as u128 {
        u64::MAX
    } else {
        q as u64
    }
}

} // verus!
