//! The `h:mm` rendering of a time entry's minutes.

use screen_time::models::TimeEntry;

#[test]
fn get_formatted_time_returns_correct_format_for_full_hours() {
    let entry = TimeEntry {
        id: 1,
        time: 120,
        created: 0,
    };
    assert_eq!(entry.get_formatted_time(), "2:00");
}

#[test]
fn get_formatted_time_returns_correct_format_for_partial_hours() {
    let entry = TimeEntry {
        id: 1,
        time: 90,
        created: 0,
    };
    assert_eq!(entry.get_formatted_time(), "1:30");
}

#[test]
fn get_formatted_time_returns_correct_format_for_zero_minutes() {
    let entry = TimeEntry {
        id: 1,
        time: 0,
        created: 0,
    };
    assert_eq!(entry.get_formatted_time(), "0:00");
}

#[test]
fn get_formatted_time_returns_correct_format_for_single_digit_minutes() {
    let entry = TimeEntry {
        id: 1,
        time: 9,
        created: 0,
    };
    assert_eq!(entry.get_formatted_time(), "0:09");
}

#[test]
fn get_formatted_time_returns_correct_format_for_single_digit_hours() {
    let entry = TimeEntry {
        id: 1,
        time: 65,
        created: 0,
    };
    assert_eq!(entry.get_formatted_time(), "1:05");
}

#[test]
fn format_time_handles_the_largest_minute_count() {
    let entry = TimeEntry {
        id: 1,
        time: u16::MAX,
        created: 0,
    };
    assert_eq!(entry.get_formatted_time(), "1092:15");
}

#[test]
fn decimal_rendering_is_exact() {
    assert_eq!(screen_time::digits::u64_to_dec(0), "0");
    assert_eq!(screen_time::digits::u64_to_dec(10), "10");
    assert_eq!(screen_time::digits::u64_to_dec(907), "907");
    assert_eq!(
        screen_time::digits::u64_to_dec(u64::MAX),
        "18446744073709551615"
    );
    assert_eq!(screen_time::digits::u64_to_two_dec(0), "00");
    assert_eq!(screen_time::digits::u64_to_two_dec(7), "07");
    assert_eq!(screen_time::digits::u64_to_two_dec(59), "59");
}
