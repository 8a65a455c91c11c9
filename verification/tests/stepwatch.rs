use monitoring_platform::collector::stepwatch::{far_future, on_read, StepAction, TimerRead};

#[test]
fn a_cancelled_timer_is_rearmed_and_reported() {
    assert_eq!(on_read(TimerRead::Cancelled), StepAction::RearmAndReport);
    assert_eq!(on_read(TimerRead::Expired), StepAction::Rearm);
    assert_eq!(on_read(TimerRead::NotReady), StepAction::Wait);
    assert_eq!(on_read(TimerRead::Failed), StepAction::Fail);
}

#[test]
fn the_thirty_two_bit_expiry_comes_second() {
    assert_eq!(far_future(0), Some(i64::MAX));
    assert_eq!(far_future(1), Some(i64::from(i32::MAX)));
    assert_eq!(far_future(2), None);
}
