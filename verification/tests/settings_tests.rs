use slate::config::Config;
use slate::settings::{
    calendar_duration_choices, calendar_reminder_choices, calendar_reminder_label, duration_label, reminder_choices,
    reminder_label, selected, snap_choices, snap_selected, ChoiceLabel,
};

fn label(id: &'static str, count: Option<u32>) -> ChoiceLabel {
    ChoiceLabel { id, count }
}

#[test]
fn the_dropdowns_offer_their_lists() {
    assert_eq!(reminder_choices(), vec![0, 5, 10, 15, 30, 60, 120, 1440]);
    assert_eq!(snap_choices(), vec![5, 10, 15]);
    assert_eq!(calendar_reminder_choices(), vec![0, 5, 10, 15, 30, 60, 1440]);
    assert_eq!(calendar_duration_choices(), vec![0, 15, 30, 45, 60, 90, 120]);
}

#[test]
fn lead_times_are_worded_by_size() {
    assert_eq!(reminder_label(0), label("reminder-none", None));
    assert_eq!(calendar_reminder_label(0), label("calendar-default-inherit", None));
    assert_eq!(reminder_label(1440), label("reminder-day-before", None));
    assert_eq!(reminder_label(15), label("reminder-minutes", Some(15)));
    assert_eq!(reminder_label(120), label("reminder-hours", Some(2)));
    assert_eq!(calendar_reminder_label(60), label("reminder-hours", Some(1)));
}

#[test]
fn lengths_are_worded_in_hours_only_when_whole() {
    assert_eq!(duration_label(0), label("calendar-duration-default", None));
    assert_eq!(duration_label(45), label("duration-minutes", Some(45)));
    assert_eq!(duration_label(120), label("duration-hours", Some(2)));
    assert_eq!(duration_label(90), label("duration-minutes", Some(90)));
}

#[test]
fn the_current_value_selects_its_entry() {
    let choices = reminder_choices();
    assert_eq!(selected(&choices, 30), Some(4));
    assert_eq!(selected(&choices, 7), None);
    let mut config = Config::default();
    assert_eq!(snap_selected(&config), Some(2));
    config.snap_minutes = 10;
    assert_eq!(snap_selected(&config), Some(1));
    config.snap_minutes = 7;
    assert_eq!(snap_selected(&config), Some(2), "an unknown step snaps to fifteen");
}

#[test]
fn the_first_day_is_clamped_to_the_week() {
    let mut config = Config::default();
    config.choose_first_day(3);
    assert_eq!(config.first_day_of_week, 3);
    config.choose_first_day(9);
    assert_eq!(config.first_day_of_week, 6);
    config.choose_first_day(300);
    assert_eq!(config.first_day_of_week, 0);
}

#[test]
fn picking_a_choice_sets_it_and_a_stray_index_does_nothing() {
    let mut config = Config::default();
    assert!(config.choose_default_reminder(5));
    assert_eq!(config.default_reminder_minutes, 60);
    assert!(!config.choose_default_reminder(8));
    assert_eq!(config.default_reminder_minutes, 60);
    assert!(config.choose_snap(0));
    assert_eq!(config.snap_minutes, 5);
    assert!(!config.choose_snap(3));
    assert_eq!(config.snap_minutes, 5);
}

#[test]
fn a_calendars_reminder_and_length_are_set_apart() {
    let mut config = Config::default();
    assert!(config.choose_calendar_reminder("work", 2));
    assert_eq!(config.reminder_for("work"), Some(10));
    assert_eq!(config.duration_for("work"), 60);
    assert!(config.choose_calendar_duration("work", 2));
    assert_eq!(config.duration_for("work"), 30);
    assert_eq!(config.reminder_for("work"), Some(10), "the reminder is kept");
    assert!(config.choose_calendar_reminder("work", 0));
    assert!(config.choose_calendar_duration("work", 0));
    assert!(config.calendar_defaults.is_empty(), "both back to the defaults drops the entry");
    assert!(!config.choose_calendar_duration("work", 7));
}

#[test]
fn the_secondary_zone_takes_only_real_names() {
    let mut config = Config::default();
    assert!(config.choose_secondary_tz("  Asia/Tokyo "));
    assert_eq!(config.secondary_timezone, "Asia/Tokyo");
    assert!(!config.choose_secondary_tz("Asia/Tok"));
    assert_eq!(config.secondary_timezone, "Asia/Tokyo");
    assert!(config.choose_secondary_tz("   "));
    assert_eq!(config.secondary_timezone, "");
}

#[test]
fn the_second_zone_is_the_setting_when_it_names_a_zone() {
    let mut config = Config::default();
    assert_eq!(config.secondary_tz(), None);
    config.secondary_timezone = "  Asia/Tokyo ".into();
    assert_eq!(config.secondary_tz().as_deref(), Some("Asia/Tokyo"));
    config.secondary_timezone = "Asia/Tok".into();
    assert_eq!(config.secondary_tz(), None);
}
