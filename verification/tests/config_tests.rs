use slate::config::{Config, ViewKind};
use slate::date::Weekday;

#[test]
fn toggling_a_calendar_is_reversible() {
    let mut config = Config::default();
    assert!(!config.is_hidden("work"));

    config.toggle_calendar("work");
    assert!(config.is_hidden("work"));

    config.toggle_calendar("work");
    assert!(!config.is_hidden("work"));
    assert!(config.hidden_calendars.is_empty());
}

#[test]
fn a_calendar_without_overrides_uses_the_app_defaults() {
    let config = Config { default_reminder_minutes: 15, ..Config::default() };
    assert_eq!(config.reminder_for("work"), Some(15));
    assert_eq!(config.duration_for("work"), 60);
}

#[test]
fn a_calendars_own_defaults_win() {
    let mut config = Config { default_reminder_minutes: 15, ..Config::default() };
    config.set_defaults_for("work", 30, 45);

    assert_eq!(config.reminder_for("work"), Some(30));
    assert_eq!(config.duration_for("work"), 45);
    assert_eq!(config.reminder_for("personal"), Some(15));
}

#[test]
fn clearing_both_overrides_forgets_the_calendar() {
    let mut config = Config::default();
    config.set_defaults_for("work", 30, 45);
    assert_eq!(config.calendar_defaults.len(), 1);

    config.set_defaults_for("work", 0, 0);
    assert!(config.calendar_defaults.is_empty());
    assert_eq!(config.duration_for("work"), 60);
}

#[test]
fn setting_one_override_twice_replaces_rather_than_duplicates() {
    let mut config = Config::default();
    config.set_defaults_for("work", 30, 0);
    config.set_defaults_for("work", 60, 0);
    assert_eq!(config.calendar_defaults.len(), 1);
    assert_eq!(config.reminder_for("work"), Some(60));
}

#[test]
fn first_weekday_defaults_to_monday() {
    assert_eq!(Config::default().first_weekday(), Weekday::Mon);
}

#[test]
fn out_of_range_weekday_falls_back_to_monday() {
    let config = Config { first_day_of_week: 42, ..Config::default() };
    assert_eq!(config.first_weekday(), Weekday::Mon);
}

#[test]
fn a_sunday_start_is_honoured() {
    let config = Config { first_day_of_week: 6, ..Config::default() };
    assert_eq!(config.first_weekday(), Weekday::Sun);
}

#[test]
fn snap_is_guarded_against_odd_values() {
    assert_eq!(Config::default().snap(), 15);
    assert_eq!(Config { snap_minutes: 5, ..Config::default() }.snap(), 5);
    assert_eq!(Config { snap_minutes: 7, ..Config::default() }.snap(), 15);
}

#[test]
fn no_reminder_without_a_default() {
    assert_eq!(Config::default().default_reminder(), None);
    assert_eq!(Config::default().reminder_for("work"), None);
}

#[test]
fn the_hidden_set_holds_each_calendar_once() {
    let mut config = Config::default();
    config.toggle_calendar("a");
    config.toggle_calendar("b");
    let set = config.hidden_set();
    assert_eq!(set.len(), 2);
    assert!(set.contains(&"a".to_string()) && set.contains(&"b".to_string()));
}

#[test]
fn views_page_by_their_own_length() {
    assert_eq!(ViewKind::Week.page_days(), 7);
    assert_eq!(ViewKind::Day.page_days(), 1);
    assert_eq!(ViewKind::Agenda.page_days(), 30);
    assert!(ViewKind::Month.is_dated());
    assert!(!ViewKind::Tasks.is_dated());
}

#[test]
fn defaults_for_finds_the_override() {
    let mut config = Config::default();
    assert!(config.defaults_for("work").is_none());
    config.set_defaults_for("work", 10, 20);
    let d = config.defaults_for("work").unwrap();
    assert_eq!((d.reminder_minutes, d.duration_minutes), (10, 20));
}
