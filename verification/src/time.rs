//! Spans of time with nanosecond resolution.

use vstd::prelude::*;

verus! {

/// Nanoseconds in one second.
pub const NANOS_PER_SEC: u128 = 1_000_000_000;

/// The longest span there is: `u64::MAX` seconds and just under one second more.
pub const MAX_NANOS: u128 = 18_446_744_073_709_551_615_999_999_999;

/// A span of time. Its view is its length in nanoseconds.
#[derive(Clone, Copy, Debug, PartialEq, Eq, PartialOrd, Ord, Hash, Structural)]
pub struct Duration {
    nanos: u128,
}

impl Duration {
    pub closed spec fn view(&self) -> nat {
        self.nanos as nat
    }

    #[verifier::type_invariant]
    spec fn within_range(self) -> bool {
        self.nanos <= MAX_NANOS
    }

    /// The empty span.
    pub fn zero() -> (r: Self)
        ensures
            r@ == 0,
    {
        Duration { nanos: 0 }
    }

    /// The longest span.
    pub fn max() -> (r: Self)
        ensures
            r@ == MAX_NANOS,
    {
        Duration { nanos: MAX_NANOS }
    }

    pub fn from_secs(secs: u64) -> (r: Self)
        ensures
            r@ == secs * NANOS_PER_SEC,
    {
        Duration { nanos: secs as u128 * NANOS_PER_SEC }
    }

    pub fn from_millis(millis: u64) -> (r: Self)
        ensures
            r@ == millis * 1_000_000,
    {
        Duration { nanos: millis as u128 * 1_000_000 }
    }

    pub fn from_nanos(nanos: u64) -> (r: Self)
        ensures
            r@ == nanos,
    {
        Duration { nanos: nanos as u128 }
    }

    /// A span of so many nanoseconds.
    pub fn from_total(nanos: u128) -> (r: Self)
        requires
            nanos <= MAX_NANOS,
        ensures
            r@ == nanos,
    {
        Duration { nanos }
    }

    pub fn as_nanos(&self) -> (r: u128)
        ensures
            r == self@,
            r <= MAX_NANOS,
    {
        proof {
            use_type_invariant(self);
        }
        self.nanos
    }

    /// Whole seconds, the rest dropped.
    pub fn as_secs(&self) -> (r: u64)
        ensures
            r == self@ / NANOS_PER_SEC as nat,
    {
        proof {
            use_type_invariant(self);
        }
        (self.nanos / NANOS_PER_SEC) as u64
    }

    pub fn is_zero(&self) -> (r: bool)
        ensures
            r == (self@ == 0),
    {
        self.nanos == 0
    }

    pub fn at_least(&self, other: Duration) -> (r: bool)
        ensures
            r == (self@ >= other@),
    {
        self.nanos >= other.nanos
    }

    /// From `earlier` to `later`, both in nanoseconds on one clock; nothing where the clock reads
    /// `later` as the smaller of the two.
    pub fn between(earlier: i64, later: i64) -> (r: Self)
        ensures
            r@ == elapsed(earlier, later),
    {
        if later <= earlier {
            Duration { nanos: 0 }
        } else {
            let wide: i128 = later as i128 - earlier as i128;
            if wide <= i64::MAX as i128 {
                Duration { nanos: wide as u128 }
            } else {
                Duration { nanos: i64::MAX as u128 }
            }
        }
    }
}

/// Nanoseconds from `earlier` to `later`, kept within zero and `i64::MAX`.
pub open spec fn elapsed(earlier: i64, later: i64) -> nat {
    if later <= earlier {
        0
    } else if later - earlier <= i64::MAX {
        (later - earlier) as nat
    } else {
        i64::MAX as nat
    }
}

/// `n`, moved to the nearer end of the `i64` range where it lies outside.
pub open spec fn saturated(n: int) -> int {
    if n < i64::MIN {
        i64::MIN as int
    } else if n > i64::MAX {
        i64::MAX as int
    } else {
        n
    }
}

pub fn saturating_add(a: i64, b: i64) -> (r: i64)
    ensures
        r == saturated(a + b),
{
    let wide: i128 = a as i128 + b as i128;
    if wide < i64::MIN as i128 {
        i64::MIN
    } else if wide > i64::MAX as i128 {
        i64::MAX
    } else {
        wide as i64
    }
}

pub fn saturating_sub(a: i64, b: i64) -> (r: i64)
    ensures
        r == saturated(a - b),
{
    let wide: i128 = a as i128 - b as i128;
    if wide < i64::MIN as i128 {
        i64::MIN
    } else if wide > i64::MAX as i128 {
        i64::MAX
    } else {
        wide as i64
    }
}

} // verus!
