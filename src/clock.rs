//! Arithmetic of the free-running microsecond counter that bounds waits:
//! reading its two halves, and deciding when a wait is over.
use vstd::prelude::*;

verus! {

/// The 64-bit counter value whose high and low halves are `hi` and `lo`.
pub fn counter_value(hi: u32, lo: u32) -> (r: u64)
    ensures
        r == hi as int * 0x1_0000_0000 + lo as int,
{
    let h = hi as u64;
    assert(h * 0x1_0000_0000 + lo as u64 <= u64::MAX) by (nonlinear_arith)
        requires
            h <= u32::MAX,
            lo <= u32::MAX,
    ;
    h * 0x1_0000_0000 + lo as u64
}

/// The microseconds from `t0` to `now` on a counter that wraps around.
pub open spec fn elapsed(t0: u64, now: u64) -> int {
    if now >= t0 {
        now - t0
    } else {
        now + 0x1_0000_0000_0000_0000 - t0
    }
}

/// Whether a wait of `us` microseconds begun at `t0` is over at `now`.
pub fn wait_over(t0: u64, now: u64, us: u64) -> (r: bool)
    ensures
        r == (elapsed(t0, now) >= us),
{
    now.wrapping_sub(t0) >= us
}

/// Whether a read begun at `t0` has waited longer than `timeout_ms`
/// milliseconds at `now`.
pub fn timed_out(t0: u64, now: u64, timeout_ms: u32) -> (r: bool)
    ensures
        r == (elapsed(t0, now) > timeout_ms * 1000),
{
    now.wrapping_sub(t0) > (timeout_ms as u64) * 1000
}

/// `ms` milliseconds in microseconds, or the longest wait the counter can
/// measure when that does not fit.
pub fn ms_to_us(ms: u64) -> (r: u64)
    ensures
        r == if ms * 1000 <= u64::MAX {
            ms * 1000
        } else {
            u64::MAX as int
        },
{
    if ms <= u64::MAX / 1000 {
        ms * 1000
    } else {
        u64::MAX
    }
}

} // verus!
