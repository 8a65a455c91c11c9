//! Deciding whether the clock can be trusted yet.
//!
//! Time daemons write different quantities into the kernel's error field, so its magnitude cannot
//! be compared across them. What the test does tell apart is a clock that something disciplines
//! from one that nothing ever touched.

use vstd::prelude::*;

use crate::host::{is_unsynchronized, unsynchronized, Timex};

verus! {

/// Which condition said the clock was good.
#[derive(Debug, Clone, Copy, PartialEq, Eq, Structural)]
pub enum SyncSource {
    /// The kernel's error bound fell below the threshold.
    MaxError,
    /// The kernel cleared its unsynchronized bit.
    StatusFlag,
}

impl SyncSource {
    pub fn label(self) -> (r: &'static str)
        ensures
            r@ == match self {
                SyncSource::MaxError => "maxerror"@,
                SyncSource::StatusFlag => "sta_unsync_cleared"@,
            },
    {
        match self {
            SyncSource::MaxError => "maxerror",
            SyncSource::StatusFlag => "sta_unsync_cleared",
        }
    }
}

/// What the decision looks at.
#[derive(Debug, Clone, Copy, PartialEq, Eq, Structural)]
pub struct Reading {
    pub max_error_micros: i64,
    pub status: i32,
}

/// The threshold, in microseconds.
pub const DEFAULT_THRESHOLD_MICROS: i64 = 5_000_000;

/// Good readings in a row that are needed.
pub const DEFAULT_CONSECUTIVE: u32 = 3;

/// Where the kernel parks its error bound while nothing disciplines the clock.
pub const KERNEL_UNSYNCHRONIZED_CEILING_MICROS: i64 = 16_000_000;

/// The condition, if any, that calls the clock good.
pub open spec fn sync_condition(reading: Reading, threshold_micros: i64) -> Option<SyncSource> {
    if reading.max_error_micros < threshold_micros {
        Some(SyncSource::MaxError)
    } else if !unsynchronized(reading.status) {
        Some(SyncSource::StatusFlag)
    } else {
        None
    }
}

/// Synchronized if either condition says so; the error bound is asked first.
pub fn decide(reading: Reading, threshold_micros: i64) -> (r: Option<SyncSource>)
    ensures
        r == sync_condition(reading, threshold_micros),
{
    if reading.max_error_micros < threshold_micros {
        return Some(SyncSource::MaxError);
    }
    if !is_unsynchronized(reading.status) {
        return Some(SyncSource::StatusFlag);
    }
    None
}

pub open spec fn disciplined(reading: Reading) -> bool {
    reading.max_error_micros < KERNEL_UNSYNCHRONIZED_CEILING_MICROS || !unsynchronized(reading.status)
}

/// Whether anything disciplines the clock, however badly.
pub fn is_disciplined(reading: Reading) -> (r: bool)
    ensures
        r == disciplined(reading),
{
    reading.max_error_micros < KERNEL_UNSYNCHRONIZED_CEILING_MICROS || !is_unsynchronized(reading.status)
}

/// The length of a run of good readings after one more reading, saturating.
pub open spec fn streak_after(streak: u32, good: bool) -> u32 {
    if !good {
        0
    } else if streak == u32::MAX {
        u32::MAX
    } else {
        (streak + 1) as u32
    }
}

/// A bad reading resets the run.
pub fn next_streak(streak: u32, good: bool) -> (r: u32)
    ensures
        r == streak_after(streak, good),
{
    if good {
        streak.saturating_add(1)
    } else {
        0
    }
}

/// What one poll of the clock concludes.
#[derive(Debug, Clone, Copy, PartialEq, Eq, Structural)]
pub struct Poll {
    /// Good readings in a row, this one counted in; handed to the next call.
    pub streak: u32,
    /// Which condition fired, once the run is long enough to act on.
    pub source: Option<SyncSource>,
    /// Whether the buffer may be released.
    pub released: bool,
}

/// What a poll concludes from a reading and the run before it.
pub open spec fn poll_of(reading: Reading, threshold_micros: i64, consecutive: u32, streak: u32) -> Poll {
    let good = sync_condition(reading, threshold_micros);
    let now = streak_after(streak, good is Some);
    Poll { streak: now, source: if now >= consecutive { good } else { None }, released: now >= consecutive }
}

/// The whole rule for one poll.
pub fn evaluate(reading: Reading, threshold_micros: i64, consecutive: u32, streak: u32) -> (r: Poll)
    ensures
        r == poll_of(reading, threshold_micros, consecutive, streak),
{
    let good = decide(reading, threshold_micros);
    let now: u32 = next_streak(streak, good.is_some());
    let released = now >= consecutive;
    Poll { streak: now, source: if released { good } else { None }, released }
}

/// One kernel reading, shaped for [`decide`].
pub fn read(timex: Timex) -> (r: Reading)
    ensures
        r == (Reading { max_error_micros: timex.max_error_micros, status: timex.status }),
{
    Reading { max_error_micros: timex.max_error_micros, status: timex.status }
}

/// How many of the readings at the end of `goods` are good.
pub open spec fn trailing_good(goods: Seq<bool>) -> nat
    decreases goods.len(),
{
    if goods.len() == 0 || !goods.last() {
        0
    } else {
        1 + trailing_good(goods.drop_last())
    }
}

/// The run that polling reaches after the readings `goods`, having begun with none.
pub open spec fn streak_over(goods: Seq<bool>) -> u32
    decreases goods.len(),
{
    if goods.len() == 0 {
        0
    } else {
        streak_after(streak_over(goods.drop_last()), goods.last())
    }
}

/// Polling from nothing, the run is the number of good readings since the last bad one: a bad
/// reading leaves no credit behind.
pub proof fn law_streak_counts_contiguous_readings(goods: Seq<bool>)
    requires
        goods.len() <= u32::MAX,
    ensures
        streak_over(goods) == trailing_good(goods),
        trailing_good(goods) <= goods.len(),
    decreases goods.len(),
{
    if goods.len() > 0 {
        law_streak_counts_contiguous_readings(goods.drop_last());
    }
}

/// The buffer is released on a reading exactly when that reading and the ones before it are good
/// at least `consecutive` times in a row; and with a positive `consecutive`, a release always
/// names the condition that fired.
pub proof fn law_release_needs_consecutive_good_readings(
    earlier: Seq<bool>,
    reading: Reading,
    threshold_micros: i64,
    consecutive: u32,
)
    requires
        earlier.len() < u32::MAX,
    ensures
        ({
            let poll = poll_of(reading, threshold_micros, consecutive, streak_over(earlier));
            let good = sync_condition(reading, threshold_micros) is Some;
            &&& poll.released <==> trailing_good(earlier.push(good)) >= consecutive
            &&& consecutive > 0 ==> (poll.released <==> poll.source is Some)
        }),
{
    let good = sync_condition(reading, threshold_micros) is Some;
    law_streak_counts_contiguous_readings(earlier);
    assert(earlier.push(good).drop_last() =~= earlier);
}

/// A clock called synchronized under a threshold below the kernel's ceiling is disciplined.
pub proof fn law_synchronized_implies_disciplined(reading: Reading, threshold_micros: i64)
    requires
        threshold_micros <= KERNEL_UNSYNCHRONIZED_CEILING_MICROS,
    ensures
        sync_condition(reading, threshold_micros) is Some ==> disciplined(reading),
{
}

} // verus!
