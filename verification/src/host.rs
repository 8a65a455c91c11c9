//! What the kernel's clocks say, as plain values.
//!
//! Two readings matter. The *quality* of the clock is the kernel's own error estimate with its
//! status bits. The *correspondence* is a paired reading of the wall clock and of the time since
//! boot: their difference converts between the two.

use vstd::prelude::*;

verus! {

/// The status bit by which the kernel calls its clock unsynchronized.
pub const STA_UNSYNC: i32 = 0x40;

/// The kernel's error estimate and its status bits, taken at one instant.
#[derive(Debug, Clone, Copy, PartialEq, Eq, Structural)]
pub struct Timex {
    /// The kernel's bound on how wrong the clock may be, in microseconds.
    pub max_error_micros: i64,
    /// The `STA_*` bits; see [`is_unsynchronized`].
    pub status: i32,
}

pub open spec fn unsynchronized(status: i32) -> bool {
    status & STA_UNSYNC != 0
}

/// Whether the kernel considers itself unsynchronized.
///
/// Never a test to rely on alone: some time daemons leave the bit set on a clock they keep in
/// perfect order.
pub fn is_unsynchronized(status: i32) -> (r: bool)
    ensures
        r == unsynchronized(status),
{
    status & STA_UNSYNC != 0
}

/// Both clocks, read back to back, in nanoseconds.
#[derive(Debug, Clone, Copy, PartialEq, Eq, Structural)]
pub struct Sample {
    /// Since the Unix epoch, as the system clock believes.
    pub realtime: i64,
    /// Since boot, time spent suspended counted in.
    pub boottime: i64,
}

impl Sample {
    /// Whether the difference of the two clocks can be written in 64 bits.
    pub open spec fn fits(self) -> bool {
        i64::MIN <= self.realtime - self.boottime <= i64::MAX
    }

    /// `realtime − boottime`, which converts between the two frames.
    pub fn offset(self) -> (r: i64)
        requires
            self.fits(),
        ensures
            r == self.realtime - self.boottime,
    {
        self.realtime - self.boottime
    }
}

/// A `timespec` in nanoseconds.
pub fn nanos(tv_sec: i64, tv_nsec: i64) -> (r: i64)
    requires
        i64::MIN <= tv_sec * 1_000_000_000 <= i64::MAX,
        i64::MIN <= tv_sec * 1_000_000_000 + tv_nsec <= i64::MAX,
    ensures
        r == tv_sec * 1_000_000_000 + tv_nsec,
{
    tv_sec * 1_000_000_000 + tv_nsec
}

/// How long the host has been suspended: what the boot clock counts and the monotonic clock does
/// not. The monotonic clock is the one read first, so that the moment between the two readings
/// cannot make the result negative.
pub fn suspended_nanos(monotonic: i64, boottime: i64) -> (r: i64)
    requires
        i64::MIN <= boottime - monotonic <= i64::MAX,
    ensures
        r == boottime - monotonic,
        monotonic <= boottime ==> r >= 0,
{
    boottime - monotonic
}

} // verus!
