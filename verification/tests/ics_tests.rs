use slate::date::{Date, DateTime, Time};
use slate::event::{Event, EventTime};
use slate::ics::{
    default_end, event_from_record, format_ical_datetime, from_event_time, parse_ical_datetime,
    parse_ics, record_of, to_event_time, to_ics, IcsEvent, IcsTime,
};

fn day(y: i32, m: u8, d: u8) -> Date {
    Date { year: y, month: m, day: d }
}

fn dt(y: i32, m: u8, d: u8, h: u8, min: u8) -> DateTime {
    DateTime { date: day(y, m, d), time: Time { hour: h, minute: min, second: 0 } }
}

fn unix(t: DateTime) -> i64 {
    t.instant() - dt(1970, 1, 1, 0, 0).instant()
}

fn chars(s: &str) -> Vec<char> {
    s.chars().collect()
}

fn empty_record() -> IcsEvent {
    IcsEvent {
        uid: None,
        summary: None,
        description: None,
        location: None,
        start: None,
        end: None,
        rrule: None,
        exdates: None,
        exdate: None,
        sequence: None,
        created: None,
        last_modified: None,
    }
}

fn through_text(event: &Event) -> Vec<Event> {
    let text = to_ics(event);
    parse_ics(&text, &event.calendar_id, &event.file_name)
}

#[test]
fn missing_dtend_gets_a_sensible_default() {
    let ics = "BEGIN:VCALENDAR\r\nVERSION:2.0\r\nPRODID:-//test//EN\r\n\
               BEGIN:VEVENT\r\nUID:x@test\r\nDTSTART:20260804T090000Z\r\n\
               SUMMARY:No end\r\nEND:VEVENT\r\nEND:VCALENDAR\r\n";
    let events = parse_ics(ics, "personal", "x.ics");
    assert_eq!(events.len(), 1);
    assert_eq!(events[0].end, EventTime::Zoned(dt(2026, 8, 4, 10, 0), "UTC".into()));
}

#[test]
fn event_roundtrips_through_disk() {
    let mut event = Event::draft("personal", dt(2026, 8, 4, 9, 30), "Europe/Athens");
    event.summary = "Standup".into();
    event.location = Some("Room 3".into());
    event.description = Some("Daily sync".into());
    event.rrule = Some("FREQ=WEEKLY".into());

    let read = through_text(&event);
    assert_eq!(read.len(), 1);
    let got = &read[0];
    assert_eq!(got.uid, event.uid);
    assert_eq!(got.summary, "Standup");
    assert_eq!(got.location.as_deref(), Some("Room 3"));
    assert_eq!(got.description.as_deref(), Some("Daily sync"));
    assert_eq!(got.rrule.as_deref(), Some("FREQ=WEEKLY"));
    assert_eq!(got.start, event.start);
    assert_eq!(got.end, event.end);
}

#[test]
fn all_day_events_keep_date_semantics() {
    let mut event = Event::draft("personal", dt(2026, 8, 4, 0, 0), "UTC");
    event.summary = "Holiday".into();
    event.start = EventTime::Date(day(2026, 8, 4));
    event.end = EventTime::Date(day(2026, 8, 5));

    let got = through_text(&event).remove(0);
    assert!(got.is_all_day(), "all-day event came back as timed");
    assert_eq!(got.start, EventTime::Date(day(2026, 8, 4)));
}

#[test]
fn timezone_survives_a_roundtrip() {
    let mut event = Event::draft("personal", dt(2026, 8, 4, 9, 0), "Europe/Athens");
    event.summary = "Meeting".into();
    let got = through_text(&event).remove(0);
    assert_eq!(
        got.start,
        EventTime::Zoned(dt(2026, 8, 4, 9, 0), "Europe/Athens".into()),
        "TZID was not preserved"
    );
}

#[test]
fn exdates_are_parsed_and_written() {
    let mut event = Event::draft("personal", dt(2026, 8, 3, 9, 0), "UTC");
    event.summary = "Standup".into();
    event.rrule = Some("FREQ=WEEKLY".into());
    event.exdates = vec![dt(2026, 8, 17, 9, 0)];
    let got = through_text(&event).remove(0);
    assert_eq!(got.exdates, event.exdates);
}

#[test]
fn text_that_is_not_icalendar_has_no_events() {
    assert!(parse_ics("this is not iCalendar at all", "personal", "broken.ics").is_empty());
}

#[test]
fn components_other_than_events_and_events_without_a_start_are_skipped() {
    let ics = "BEGIN:VCALENDAR\r\nVERSION:2.0\r\nPRODID:-//test//EN\r\n\
               BEGIN:VTODO\r\nUID:t@test\r\nSUMMARY:Task\r\nEND:VTODO\r\n\
               BEGIN:VEVENT\r\nUID:a@test\r\nSUMMARY:No start\r\nEND:VEVENT\r\n\
               BEGIN:VEVENT\r\nUID:b@test\r\nDTSTART;VALUE=DATE:20260804\r\n\
               SUMMARY:Day\r\nSEQUENCE:7\r\nEND:VEVENT\r\nEND:VCALENDAR\r\n";
    let events = parse_ics(ics, "personal", "many.ics");
    assert_eq!(events.len(), 1);
    assert_eq!(events[0].uid, "b@test");
    assert_eq!(events[0].start, EventTime::Date(day(2026, 8, 4)));
    assert_eq!(events[0].end, EventTime::Date(day(2026, 8, 5)));
    assert_eq!(events[0].sequence, 7);
    assert_eq!(events[0].file_name, "many.ics");
    assert_eq!(events[0].calendar_id, "personal");
}

#[test]
fn a_comma_list_of_exdates_is_read_in_order() {
    let ics = "BEGIN:VCALENDAR\r\nVERSION:2.0\r\nPRODID:-//test//EN\r\n\
               BEGIN:VEVENT\r\nUID:c@test\r\nDTSTART:20260803T090000\r\n\
               DTEND:20260803T100000\r\nRRULE:FREQ=DAILY\r\n\
               EXDATE:20260805T090000,20260807T090000Z, junk\r\nEND:VEVENT\r\nEND:VCALENDAR\r\n";
    let events = parse_ics(ics, "personal", "c.ics");
    assert_eq!(events.len(), 1);
    assert_eq!(events[0].start, EventTime::Floating(dt(2026, 8, 3, 9, 0)));
    assert_eq!(events[0].exdates, vec![dt(2026, 8, 5, 9, 0), dt(2026, 8, 7, 9, 0)]);
}

#[test]
fn exdate_values_read_as_date_times_or_dates() {
    assert_eq!(parse_ical_datetime(&chars("20260817T091500")), Some(dt(2026, 8, 17, 9, 15)));
    assert_eq!(parse_ical_datetime(&chars("20260817T091500ZZ")), Some(dt(2026, 8, 17, 9, 15)));
    assert_eq!(parse_ical_datetime(&chars("20260817")), Some(dt(2026, 8, 17, 0, 0)));
    assert_eq!(parse_ical_datetime(&chars("20260230")), None);
    assert_eq!(parse_ical_datetime(&chars("nope")), None);
}

#[test]
fn exdates_are_written_like_the_start() {
    let x = dt(2026, 8, 17, 9, 5);
    assert_eq!(format_ical_datetime(x, &EventTime::Date(day(2026, 8, 3))), "20260817");
    assert_eq!(format_ical_datetime(x, &EventTime::Floating(dt(2026, 8, 3, 9, 0))), "20260817T090500");
    let far = dt(12345, 1, 2, 3, 4);
    assert_eq!(format_ical_datetime(far, &EventTime::Floating(far)), "+123450102T030400");
}

#[test]
fn the_default_end_is_a_day_or_an_hour() {
    assert_eq!(default_end(&EventTime::Date(day(2026, 12, 31))), EventTime::Date(day(2027, 1, 1)));
    assert_eq!(
        default_end(&EventTime::Zoned(dt(2026, 8, 4, 23, 30), "Asia/Tokyo".into())),
        EventTime::Zoned(dt(2026, 8, 5, 0, 30), "Asia/Tokyo".into())
    );
}

#[test]
fn event_times_map_to_icalendar_times_and_back() {
    let nine = dt(2026, 8, 4, 9, 0);
    assert!(matches!(from_event_time(&EventTime::Zoned(nine, "UTC".into())), IcsTime::Utc(s) if s == unix(nine)));
    assert!(matches!(from_event_time(&EventTime::Floating(nine)), IcsTime::Floating(s) if s == unix(nine)));
    assert!(matches!(from_event_time(&EventTime::Date(day(1, 1, 1))), IcsTime::Date(1)));
    assert_eq!(to_event_time(&IcsTime::Zoned(unix(nine), "Nowhere/Special".into())), EventTime::Floating(nine));
    assert_eq!(to_event_time(&IcsTime::Zoned(unix(nine), "Asia/Tokyo".into())), EventTime::Zoned(nine, "Asia/Tokyo".into()));
    assert_eq!(to_event_time(&IcsTime::Date(739832)), EventTime::Date(day(2026, 8, 4)));
}

#[test]
fn a_record_without_uid_gets_a_fresh_one_and_empty_text_is_dropped() {
    let mut rec = empty_record();
    rec.start = Some(IcsTime::Floating(unix(dt(2026, 8, 4, 9, 0))));
    rec.description = Some(String::new());
    rec.location = Some("Hall".into());
    let e = event_from_record(&rec, "work", "w.ics").unwrap();
    assert!(e.uid.ends_with("@cosmic-calendar"));
    assert_eq!(e.description, None);
    assert_eq!(e.location.as_deref(), Some("Hall"));
    assert_eq!(e.summary, "");
    assert_eq!(e.end, EventTime::Floating(dt(2026, 8, 4, 10, 0)));
    assert!(event_from_record(&empty_record(), "work", "w.ics").is_none());
}

#[test]
fn the_written_record_reads_back_as_the_event() {
    let mut event = Event::draft("personal", dt(2026, 8, 3, 9, 0), "Europe/Athens");
    event.summary = "Standup".into();
    event.sequence = -4;
    event.last_modified = None;
    event.exdates = vec![dt(2026, 8, 10, 9, 0)];
    let rec = record_of(&event, 1_000);
    assert_eq!(rec.sequence, Some(0));
    assert_eq!(rec.last_modified, Some(1_000));
    assert_eq!(rec.exdates, Some(vec!["20260810T090000".to_string()]));
    let back = event_from_record(&rec, "personal", &event.file_name).unwrap();
    assert_eq!(back.uid, event.uid);
    assert_eq!(back.start, event.start);
    assert_eq!(back.end, event.end);
    assert_eq!(back.exdates, event.exdates);
    assert_eq!(back.sequence, 0);
}
