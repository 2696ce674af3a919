use slate::date::Time;
use slate::editor::{
    bucket, freq_label, non_empty, parse_optional_time, parse_time, priority_label, status_label,
    TodoStatus,
};
use slate::recurrence::Freq;

fn t(h: u8, m: u8) -> Time {
    Time { hour: h, minute: m, second: 0 }
}

#[test]
fn parses_the_time_formats_people_type() {
    assert_eq!(parse_time("9:30"), Some(t(9, 30)));
    assert_eq!(parse_time("09:30"), Some(t(9, 30)));
    assert_eq!(parse_time("0930"), Some(t(9, 30)));
    assert_eq!(parse_time("9"), Some(t(9, 0)));
    assert_eq!(parse_time(" 14:05 "), Some(t(14, 5)));
}

#[test]
fn parses_meridiem() {
    assert_eq!(parse_time("2:05 pm"), Some(t(14, 5)));
    assert_eq!(parse_time("2:05pm"), Some(t(14, 5)));
    assert_eq!(parse_time("12:00 am"), Some(t(0, 0)));
    assert_eq!(parse_time("12:00 pm"), Some(t(12, 0)));
    assert_eq!(parse_time("11:59 pm"), Some(t(23, 59)));
}

#[test]
fn rejects_nonsense() {
    assert_eq!(parse_time(""), None);
    assert_eq!(parse_time("abc"), None);
    assert_eq!(parse_time("25:00"), None);
    assert_eq!(parse_time("9:70"), None);
}

#[test]
fn blank_optional_time_means_none_and_nonsense_is_rejected() {
    assert_eq!(parse_optional_time("  "), Some(None));
    assert_eq!(parse_optional_time("9:15"), Some(Some(t(9, 15))));
    assert_eq!(parse_optional_time("later"), None);
}

#[test]
fn non_empty_trims() {
    assert_eq!(non_empty("  hi  "), Some("hi".to_string()));
    assert_eq!(non_empty(" \t "), None);
}

#[test]
fn labels_name_their_message_ids() {
    assert_eq!(freq_label(Freq::Weekly), "repeat-weekly");
    assert_eq!(status_label(TodoStatus::InProcess), "status-in-process");
    assert_eq!(priority_label(0), "priority-none");
    assert_eq!(priority_label(3), "priority-high");
    assert_eq!(priority_label(5), "priority-medium");
    assert_eq!(priority_label(8), "priority-low");
    assert_eq!(bucket(7), 9);
    assert_eq!(bucket(2), 1);
}
