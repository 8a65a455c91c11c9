use monitoring_platform::collector::peer::{started_at, starttime_ticks, ticks_to_nanos, StartError};

const STAT: &str = "1234 (bash) S 1 1234 1234 34816 1234 4194304 1000 2000 0 0 10 20 30 40 \
                    20 0 1 0 4242 12345678 900 18446744073709551615";

#[test]
fn reads_field_22() {
    assert_eq!(starttime_ticks(STAT), Some(4242));
}

#[test]
fn a_process_name_containing_spaces_and_parens_does_not_shift_the_fields() {
    let weird = STAT.replace("(bash)", "(my (weird) proc)");
    assert_eq!(starttime_ticks(&weird), Some(4242));

    let spaced = STAT.replace("(bash)", "(Web Content)");
    assert_eq!(starttime_ticks(&spaced), Some(4242));
}

#[test]
fn malformed_input_is_none_rather_than_a_guess() {
    assert_eq!(starttime_ticks(""), None);
    assert_eq!(starttime_ticks("no parens here at all"), None);
    assert_eq!(starttime_ticks("1234 (bash) S 1 2 3"), None, "too few fields");
    let not_a_number = STAT.replace(" 4242 ", " forty-two ");
    assert_eq!(starttime_ticks(&not_a_number), None);
}

#[test]
fn converts_ticks_at_the_usual_hundred_hertz() {
    assert_eq!(ticks_to_nanos(0, 100), Some(0));
    assert_eq!(ticks_to_nanos(100, 100), Some(1_000_000_000));
    assert_eq!(ticks_to_nanos(4242, 100), Some(42_420_000_000));
    assert_eq!(ticks_to_nanos(1, 1000), Some(1_000_000));
}

#[test]
fn a_decade_of_uptime_does_not_overflow() {
    let ten_years_of_ticks = 10 * 365 * 86_400 * 100;
    assert_eq!(
        ticks_to_nanos(ten_years_of_ticks, 100),
        Some(10 * 365 * 86_400 * 1_000_000_000)
    );
}

#[test]
fn a_nonsense_tick_rate_is_refused_rather_than_dividing_by_zero() {
    assert_eq!(ticks_to_nanos(100, 0), None);
    assert_eq!(ticks_to_nanos(100, -1), None);
}

#[test]
fn a_start_time_is_read_and_scaled_or_refused() {
    assert_eq!(started_at(STAT, 100), Ok(42_420_000_000));
    assert_eq!(started_at("", 100), Err(StartError::NoField));
    assert_eq!(started_at(STAT, 0), Err(StartError::OutOfRange));
}
