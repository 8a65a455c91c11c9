//! Noticing that the wall clock was stepped.
//!
//! A timer set as far in the future as it goes is cancelled by the kernel when the clock is set. Its
//! cancellation is the notice; its expiry means nothing.

use vstd::prelude::*;

verus! {

/// What reading the timer came to.
#[derive(Debug, Clone, Copy, PartialEq, Eq, Structural)]
pub enum TimerRead {
    /// There was nothing to read after all.
    NotReady,
    /// The clock was set.
    Cancelled,
    /// The far future came.
    Expired,
    Failed,
}

/// What to do about it.
#[derive(Debug, Clone, Copy, PartialEq, Eq, Structural)]
pub enum StepAction {
    /// Wait on.
    Wait,
    /// Arm the timer again and wait on.
    Rearm,
    /// Arm the timer again, or only the first step would ever be seen, and report a step.
    RearmAndReport,
    Fail,
}

pub fn on_read(read: TimerRead) -> (r: StepAction)
    ensures
        r == match read {
            TimerRead::NotReady => StepAction::Wait,
            TimerRead::Cancelled => StepAction::RearmAndReport,
            TimerRead::Expired => StepAction::Rearm,
            TimerRead::Failed => StepAction::Fail,
        },
{
    match read {
        TimerRead::NotReady => StepAction::Wait,
        TimerRead::Cancelled => StepAction::RearmAndReport,
        TimerRead::Expired => StepAction::Rearm,
        TimerRead::Failed => StepAction::Fail,
    }
}

/// The times to arm the timer for, in seconds, the first one that the kernel takes: the latest there
/// is, and the latest that a kernel without 64-bit times takes.
pub fn far_future(attempt: usize) -> (r: Option<i64>)
    ensures
        r == if attempt == 0 {
            Some(i64::MAX)
        } else if attempt == 1 {
            Some(i32::MAX as i64)
        } else {
            None
        },
{
    if attempt == 0 {
        Some(i64::MAX)
    } else if attempt == 1 {
        Some(i32::MAX as i64)
    } else {
        None
    }
}

} // verus!
