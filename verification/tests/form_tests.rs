use slate::date::{Date, DateTime, Time};
use slate::event::{Event, EventTime};
use slate::launch::EditScope;
use slate::form::{scoped_edit, freq_at, AttendeeAvailability, AvailabilityView, DateField, Editor, FormError, TzField};
use slate::recurrence::{Freq, RepeatEnd};

fn day(y: i32, m: u8, d: u8) -> Date {
    Date { year: y, month: m, day: d }
}

fn dt(y: i32, m: u8, d: u8, h: u8, min: u8) -> DateTime {
    DateTime { date: day(y, m, d), time: Time { hour: h, minute: min, second: 0 } }
}

fn unix(t: DateTime) -> i64 {
    t.instant() - dt(1970, 1, 1, 0, 0).instant()
}

fn nine_am_editor() -> Editor {
    Editor::new("personal".into(), dt(2026, 8, 4, 9, 0), false, 3600)
}

#[test]
fn new_event_requires_a_title() {
    let editor = nine_am_editor();
    assert!(editor.to_event("UTC").is_err());
    assert_eq!(editor.to_event("UTC").unwrap_err(), FormError::SummaryRequired);
}

#[test]
fn end_before_start_is_rejected() {
    let mut editor = nine_am_editor();
    editor.summary = "Standup".into();
    editor.end_time = "08:00".into();
    assert!(editor.to_event("UTC").is_err());
    assert_eq!(editor.to_event("UTC").unwrap_err(), FormError::InvalidTimeRange);
}

#[test]
fn all_day_end_is_stored_exclusive() {
    let mut editor = Editor::new("personal".into(), dt(2026, 8, 4, 0, 0), true, 3600);
    editor.summary = "Conference".into();
    editor.start_date = day(2026, 8, 4);
    editor.end_date = day(2026, 8, 6);

    let event = editor.to_event("UTC").unwrap();
    assert_eq!(
        event.end,
        EventTime::Date(day(2026, 8, 7)),
        "the exclusive DTEND was not derived from the last covered day"
    );
}

#[test]
fn editing_an_all_day_event_shows_the_inclusive_end() {
    let mut event = Event::draft("personal", dt(2026, 8, 4, 0, 0), "UTC");
    event.summary = "Conference".into();
    event.start = EventTime::Date(day(2026, 8, 4));
    event.end = EventTime::Date(day(2026, 8, 7));

    let editor = Editor::from_event(&event, "UTC");
    assert_eq!(editor.end_date, day(2026, 8, 6));

    let saved = editor.to_event("UTC").unwrap();
    assert_eq!(saved.end, event.end, "round-trip moved an all-day event's end");
}

#[test]
fn complex_rrule_survives_an_edit() {
    let mut event = Event::draft("personal", dt(2026, 8, 4, 9, 0), "UTC");
    event.summary = "Standup".into();
    event.rrule = Some("FREQ=WEEKLY;BYDAY=MO,WE,FR".into());

    let mut editor = Editor::from_event(&event, "UTC");
    editor.summary = "Renamed standup".into();

    let saved = editor.to_event("UTC").unwrap();
    assert_eq!(
        saved.rrule.as_deref(),
        Some("FREQ=WEEKLY;BYDAY=MO,WE,FR"),
        "editing the title destroyed the recurrence rule"
    );
    assert_eq!(saved.summary, "Renamed standup");
}

#[test]
fn saving_bumps_the_sequence() {
    let mut event = Event::draft("personal", dt(2026, 8, 4, 9, 0), "UTC");
    event.summary = "Standup".into();
    event.sequence = 3;

    let editor = Editor::from_event(&event, "UTC");
    assert_eq!(editor.to_event("UTC").unwrap().sequence, 4);
}

#[test]
fn opening_a_series_instance_shows_its_own_dates() {
    let mut master = Event::draft("personal", dt(2026, 8, 4, 9, 0), "UTC");
    master.summary = "Standup".into();
    master.rrule = Some("FREQ=WEEKLY".into());

    let at = unix(dt(2026, 8, 18, 9, 0));
    let editor = Editor::from_series_occurrence(&master, at, "UTC");

    assert_eq!(
        editor.start_date,
        day(2026, 8, 18),
        "the editor must show the clicked instance, not the series start"
    );
    assert_eq!(editor.start_time, "09:00");
    assert_eq!(editor.occurrence, Some(at));

    let event = editor.to_event("UTC").unwrap();
    assert_eq!(event.start.naive_local("UTC").date, day(2026, 8, 18));
    assert_eq!(event.uid, master.uid, "identity is the master's");
}

#[test]
fn a_foreign_zone_is_preserved_and_shown_in_its_own_wall_clock() {
    let nine = dt(2026, 8, 4, 9, 0);
    let ten = dt(2026, 8, 4, 10, 0);

    let mut event = Event::draft("personal", nine, "Europe/Athens");
    event.summary = "Tokyo call".into();
    event.start = EventTime::Zoned(nine, "Asia/Tokyo".into());
    event.end = EventTime::Zoned(ten, "Asia/Tokyo".into());

    let editor = Editor::from_event(&event, "Europe/Athens");
    assert_eq!(editor.start_tz.as_deref(), Some("Asia/Tokyo"));
    assert_eq!(editor.end_tz, None, "same zone at both ends");
    assert_eq!(
        editor.start_time, "09:00",
        "displayed in the event's own zone, not flattened to the viewer's"
    );

    let saved = editor.to_event("Europe/Athens").unwrap();
    assert_eq!(saved.start, EventTime::Zoned(nine, "Asia/Tokyo".into()));
    assert_eq!(saved.end, EventTime::Zoned(ten, "Asia/Tokyo".into()));
}

#[test]
fn the_flight_case_keeps_two_zones_and_validates_by_instant() {
    let mut editor = Editor::new("personal".into(), dt(2026, 8, 4, 10, 0), false, 3600);
    editor.summary = "ATH → LAX".into();
    editor.start_tz = Some("Europe/Athens".into());
    editor.end_tz = Some("America/Los_Angeles".into());
    editor.start_time = "10:00".into();
    editor.end_time = "13:00".into();

    let event = editor.to_event("Europe/Athens").unwrap();
    assert!(matches!(&event.start, EventTime::Zoned(_, tz) if tz == "Europe/Athens"));
    assert!(matches!(&event.end, EventTime::Zoned(_, tz) if tz == "America/Los_Angeles"));

    editor.end_time = "00:00".into();
    assert!(editor.to_event("Europe/Athens").is_err());
}

#[test]
fn a_utc_stamped_event_still_edits_as_local_time() {
    let six_utc = dt(2026, 8, 4, 6, 0);
    let mut event = Event::draft("personal", six_utc, "Europe/Athens");
    event.summary = "Imported".into();
    event.start = EventTime::Zoned(six_utc, "UTC".into());
    event.end = EventTime::Zoned(dt(2026, 8, 4, 7, 0), "UTC".into());

    let editor = Editor::from_event(&event, "Europe/Athens");
    assert_eq!(editor.start_tz, None, "a UTC stamp is not a zone choice");
    assert_eq!(editor.start_time, "09:00", "shown as local wall clock");
}

#[test]
fn editing_preserves_uid_and_file_name() {
    let mut event = Event::draft("personal", dt(2026, 8, 4, 9, 0), "UTC");
    event.summary = "Standup".into();

    let editor = Editor::from_event(&event, "UTC");
    let saved = editor.to_event("UTC").unwrap();
    assert_eq!(saved.uid, event.uid);
    assert_eq!(saved.file_name, event.file_name);
}

#[test]
fn a_new_form_shows_the_slot_it_was_opened_on() {
    let editor = Editor::new("work".into(), dt(2026, 8, 4, 23, 30), false, 3600);
    assert!(editor.is_new());
    assert_eq!(editor.start_date, day(2026, 8, 4));
    assert_eq!(editor.start_time, "23:30");
    assert_eq!(editor.end_date, day(2026, 8, 5));
    assert_eq!(editor.end_time, "00:30");
    assert_eq!(editor.until, day(2026, 9, 3));
    assert_eq!(editor.interval, "1");
    assert_eq!(editor.count, "10");
}

#[test]
fn the_repeat_fields_build_the_rule() {
    let mut editor = nine_am_editor();
    editor.summary = "  Review  ".into();
    editor.location = "   ".into();
    editor.description = " notes ".into();
    editor.freq = Freq::Weekly;
    editor.interval = "2".into();
    editor.repeat_end = RepeatEnd::After(0);
    editor.count = "5".into();
    let event = editor.to_event("UTC").unwrap();
    assert_eq!(event.summary, "Review");
    assert_eq!(event.location, None);
    assert_eq!(event.description.as_deref(), Some("notes"));
    assert_eq!(event.rrule.as_deref(), Some("FREQ=WEEKLY;INTERVAL=2;COUNT=5"));
    assert_eq!(event.sequence, 0);
    assert!(event.uid.ends_with("@cosmic-calendar"));
    assert!(event.last_modified.is_some());
}

#[test]
fn unreadable_repeat_numbers_fall_back() {
    let mut editor = nine_am_editor();
    editor.summary = "Review".into();
    editor.freq = Freq::Daily;
    editor.interval = "x".into();
    editor.repeat_end = RepeatEnd::After(3);
    editor.count = "0".into();
    let event = editor.to_event("UTC").unwrap();
    assert_eq!(event.rrule.as_deref(), Some("FREQ=DAILY;COUNT=1"));

    editor.count = "many".into();
    let event = editor.to_event("UTC").unwrap();
    assert_eq!(event.rrule.as_deref(), Some("FREQ=DAILY;COUNT=10"));

    editor.freq = Freq::Never;
    let event = editor.to_event("UTC").unwrap();
    assert_eq!(event.rrule, None);
}

#[test]
fn a_time_that_does_not_parse_is_an_invalid_range() {
    let mut editor = nine_am_editor();
    editor.summary = "Review".into();
    editor.start_time = "soon".into();
    assert_eq!(editor.to_event("UTC").unwrap_err(), FormError::InvalidTimeRange);
    assert_eq!(FormError::InvalidTimeRange.message_id(), "error-invalid-time-range");
    assert_eq!(FormError::SummaryRequired.message_id(), "error-summary-required");
}

#[test]
fn an_all_day_end_before_the_start_lasts_one_day() {
    let mut editor = Editor::new("personal".into(), dt(2026, 8, 4, 0, 0), true, 0);
    editor.summary = "Holiday".into();
    editor.end_date = day(2026, 8, 1);
    let event = editor.to_event("UTC").unwrap();
    assert_eq!(event.start, EventTime::Date(day(2026, 8, 4)));
    assert_eq!(event.end, EventTime::Date(day(2026, 8, 5)));
}

#[test]
fn a_simple_rule_is_shown_in_the_repeat_fields() {
    let mut event = Event::draft("personal", dt(2026, 8, 4, 9, 0), "UTC");
    event.rrule = Some("FREQ=MONTHLY;INTERVAL=3;COUNT=4".into());
    let editor = Editor::from_event(&event, "UTC");
    assert_eq!(editor.freq, Freq::Monthly);
    assert_eq!(editor.interval, "3");
    assert_eq!(editor.repeat_end, RepeatEnd::After(4));
    assert_eq!(editor.count, "4");
    assert_eq!(editor.custom_rrule, None);
    assert!(!editor.is_new());
}

fn with_availability(answers: Vec<AttendeeAvailability>) -> Editor {
    let mut editor = nine_am_editor();
    editor.availability = Some(AvailabilityView::Answers(answers));
    editor
}

#[test]
fn a_server_that_would_not_say_is_never_shown_as_free() {
    let editor = with_availability(vec![AttendeeAvailability {
        email: "bob@example.com".into(),
        answered: false,
        busy: false,
    }]);
    let shown = editor.availability_for("bob@example.com").unwrap();
    assert_ne!(shown, "availability-free");
    assert_eq!(shown, "availability-unknown");
}

#[test]
fn an_answered_attendee_reads_free_or_busy() {
    let editor = with_availability(vec![
        AttendeeAvailability { email: "free@example.com".into(), answered: true, busy: false },
        AttendeeAvailability { email: "busy@example.com".into(), answered: true, busy: true },
    ]);
    assert_eq!(editor.availability_for("free@example.com").unwrap(), "availability-free");
    assert_eq!(editor.availability_for("busy@example.com").unwrap(), "availability-busy");
}

#[test]
fn an_attendee_nobody_asked_about_shows_nothing() {
    let editor = with_availability(Vec::new());
    assert!(editor.availability_for("stranger@example.com").is_none());
}

#[test]
fn availability_that_is_not_answers_shows_nothing_per_attendee() {
    let mut editor = nine_am_editor();
    assert!(editor.availability_for("bob@example.com").is_none());
    editor.availability = Some(AvailabilityView::Unsupported);
    assert!(editor.availability_for("bob@example.com").is_none());
    editor.availability = Some(AvailabilityView::Failed("timeout".into()));
    assert!(editor.availability_for("bob@example.com").is_none());
}

#[test]
fn a_new_editor_has_its_pickers_closed() {
    let editor = nine_am_editor();
    assert_eq!(editor.picking, None);
    assert_eq!(editor.tz_picking, None);
    assert!(editor.tz_query.is_empty());
    assert!(editor.availability.is_none());
}

#[test]
fn the_zone_picker_toggles_and_forgets_its_search() {
    let mut editor = nine_am_editor();
    editor.toggle_tz(TzField::Start);
    assert_eq!(editor.tz_picking, Some(TzField::Start));
    editor.tz_query = "Tok".into();
    editor.toggle_tz(TzField::End);
    assert_eq!(editor.tz_picking, Some(TzField::End));
    assert!(editor.tz_query.is_empty());
    editor.toggle_tz(TzField::End);
    assert_eq!(editor.tz_picking, None);
}

#[test]
fn a_chosen_zone_lands_in_the_open_field() {
    let mut editor = nine_am_editor();
    editor.toggle_tz(TzField::Start);
    editor.choose_tz("Asia/Tokyo");
    assert_eq!(editor.start_tz.as_deref(), Some("Asia/Tokyo"));
    assert_eq!(editor.end_tz, None);
    assert_eq!(editor.tz_picking, None);

    editor.toggle_tz(TzField::End);
    editor.choose_tz("Not/AZone");
    assert_eq!(editor.end_tz, None);
    assert_eq!(editor.tz_picking, None);

    editor.choose_tz("Europe/Athens");
    assert_eq!(editor.end_tz, None, "nothing is chosen with the picker closed");

    editor.toggle_tz(TzField::End);
    editor.choose_tz("Europe/Athens");
    assert_eq!(editor.end_tz.as_deref(), Some("Europe/Athens"));

    editor.toggle_tz(TzField::Start);
    editor.clear_tz();
    assert_eq!(editor.start_tz, None);
    assert_eq!(editor.end_tz.as_deref(), Some("Europe/Athens"));
}

#[test]
fn moving_the_start_date_keeps_the_length() {
    let mut editor = nine_am_editor();
    editor.end_date = day(2026, 8, 6);
    editor.pick_date(DateField::Start);
    assert_eq!(editor.picking, Some(DateField::Start));
    editor.date_picked(day(2026, 8, 30));
    assert_eq!(editor.start_date, day(2026, 8, 30));
    assert_eq!(editor.end_date, day(2026, 9, 1));
    assert_eq!(editor.picking, None);

    editor.end_date = day(2026, 8, 1);
    editor.pick_date(DateField::Start);
    editor.date_picked(day(2026, 9, 10));
    assert_eq!(editor.end_date, day(2026, 9, 10), "a negative span is kept as none");
}

#[test]
fn picking_an_until_date_ends_the_series_on_it() {
    let mut editor = nine_am_editor();
    editor.pick_date(DateField::Until);
    editor.date_picked(day(2026, 12, 24));
    assert_eq!(editor.until, day(2026, 12, 24));
    assert_eq!(editor.repeat_end, RepeatEnd::On(day(2026, 12, 24)));

    editor.pick_date(DateField::End);
    editor.pick_date(DateField::End);
    assert_eq!(editor.picking, None);
    editor.date_picked(day(2027, 1, 1));
    assert_eq!(editor.end_date, day(2026, 8, 4), "no field is open, so nothing changes");
}

#[test]
fn the_repeat_end_picker_reads_the_count() {
    let mut editor = nine_am_editor();
    editor.count = "5".into();
    editor.choose_repeat_end(1);
    assert_eq!(editor.repeat_end, RepeatEnd::After(5));
    editor.count = "five".into();
    editor.choose_repeat_end(1);
    assert_eq!(editor.repeat_end, RepeatEnd::After(10));
    editor.choose_repeat_end(2);
    assert_eq!(editor.repeat_end, RepeatEnd::On(editor.until));
    editor.choose_repeat_end(7);
    assert_eq!(editor.repeat_end, RepeatEnd::Never);
}

#[test]
fn the_frequency_picker_lists_five() {
    let mut editor = nine_am_editor();
    editor.choose_freq(2);
    assert_eq!(editor.freq, Freq::Weekly);
    editor.choose_freq(5);
    assert_eq!(editor.freq, Freq::Weekly);
    assert_eq!(freq_at(0), Some(Freq::Never));
    assert_eq!(freq_at(4), Some(Freq::Yearly));
}

fn weekly_master() -> Event {
    let mut master = Event::draft("personal", dt(2026, 8, 4, 9, 0), "UTC");
    master.summary = "Standup".into();
    master.start = EventTime::Floating(dt(2026, 8, 4, 9, 0));
    master.end = EventTime::Floating(dt(2026, 8, 4, 9, 30));
    master.rrule = Some("FREQ=WEEKLY".into());
    master.exdates = vec![dt(2026, 8, 11, 9, 0)];
    master.file_name = "standup.ics".into();
    master
}

fn moved_instance(master: &Event) -> Event {
    let mut edited = master.clone();
    edited.summary = "Standup, later".into();
    edited.calendar_id = "work".into();
    edited.start = EventTime::Floating(dt(2026, 8, 18, 10, 0));
    edited.end = EventTime::Floating(dt(2026, 8, 18, 11, 0));
    edited
}

#[test]
fn editing_the_whole_series_moves_its_start_by_the_instances_shift() {
    let master = weekly_master();
    let edited = moved_instance(&master);
    let at = unix(dt(2026, 8, 18, 9, 0));
    let series = scoped_edit(&master, &edited, at, "UTC", EditScope::All).unwrap();
    assert_eq!(series.start, EventTime::Floating(dt(2026, 8, 4, 10, 0)));
    assert_eq!(series.end, EventTime::Floating(dt(2026, 8, 4, 11, 0)), "the edited length, one hour");
    assert_eq!(series.summary, "Standup, later");
    assert_eq!(series.rrule.as_deref(), Some("FREQ=WEEKLY"));
    assert_eq!(series.calendar_id, "work");
    assert_eq!(series.exdates, master.exdates);
}

#[test]
fn editing_one_instance_writes_it_on_its_own() {
    let master = weekly_master();
    let edited = moved_instance(&master);
    let at = unix(dt(2026, 8, 18, 9, 0));
    let one = scoped_edit(&master, &edited, at, "UTC", EditScope::This).unwrap();
    assert_eq!(one.rrule, None);
    assert!(one.exdates.is_empty());
    assert_eq!(one.calendar_id, "personal", "an instance stays in its series' calendar");
    assert_eq!(one.file_name, "standup.ics");
    assert_eq!(one.start, EventTime::Floating(dt(2026, 8, 18, 10, 0)));
    assert_eq!(one.summary, "Standup, later");
}

#[test]
fn a_series_edit_needs_the_instance_time_readable() {
    let master = weekly_master();
    let edited = moved_instance(&master);
    let at = unix(dt(2026, 8, 18, 9, 0));
    assert!(scoped_edit(&master, &edited, at, "Nowhere/Zone", EditScope::All).is_none());
}
