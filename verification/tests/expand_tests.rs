use slate::date::{Date, DateTime, Time};
use slate::event::{Event, EventTime};
use slate::expand::expand;

fn day(y: i32, m: u8, d: u8) -> Date {
    Date { year: y, month: m, day: d }
}

fn at(y: i32, m: u8, d: u8, h: u8) -> DateTime {
    DateTime { date: day(y, m, d), time: Time { hour: h, minute: 0, second: 0 } }
}

fn utc(y: i32, m: u8, d: u8) -> i64 {
    at(y, m, d, 0).instant() - at(1970, 1, 1, 0).instant()
}

fn zoned(t: DateTime, tz: &str) -> EventTime {
    EventTime::Zoned(t, tz.into())
}

fn event_with(start: EventTime, end: EventTime, rrule: Option<&str>) -> Event {
    Event {
        uid: "test-uid".into(),
        calendar_id: "personal".into(),
        summary: "Standup".into(),
        description: None,
        location: None,
        start,
        end,
        rrule: rrule.map(ToOwned::to_owned),
        exdates: Vec::new(),
        sequence: 0,
        created: None,
        last_modified: None,
        file_name: "test-uid.ics".into(),
    }
}

#[test]
fn single_event_appears_once() {
    let e = event_with(zoned(at(2026, 8, 4, 9), "UTC"), zoned(at(2026, 8, 4, 10), "UTC"), None);
    let got = expand(&e, utc(2026, 8, 1), utc(2026, 9, 1), "UTC");
    assert_eq!(got.len(), 1);
    assert_eq!(got[0].start, at(2026, 8, 4, 9));
    assert_eq!(got[0].end, at(2026, 8, 4, 10));
    assert_eq!(got[0].recurrence_id, None);
}

#[test]
fn single_event_outside_range_is_dropped() {
    let e = event_with(zoned(at(2026, 6, 4, 9), "UTC"), zoned(at(2026, 6, 4, 10), "UTC"), None);
    assert!(expand(&e, utc(2026, 8, 1), utc(2026, 9, 1), "UTC").is_empty());
}

#[test]
fn weekly_rule_expands_across_the_month() {
    let e = event_with(zoned(at(2026, 8, 3, 9), "UTC"), zoned(at(2026, 8, 3, 10), "UTC"), Some("FREQ=WEEKLY"));
    let got = expand(&e, utc(2026, 8, 1), utc(2026, 9, 1), "UTC");
    let days: Vec<u8> = got.iter().map(|o| o.start.date.day).collect();
    assert_eq!(days, vec![3, 10, 17, 24, 31]);
    assert!(got.iter().all(|o| o.recurrence_id.is_some()));
}

#[test]
fn count_limits_the_series() {
    let e = event_with(zoned(at(2026, 8, 3, 9), "UTC"), zoned(at(2026, 8, 3, 10), "UTC"), Some("FREQ=DAILY;COUNT=3"));
    let got = expand(&e, utc(2026, 8, 1), utc(2026, 9, 1), "UTC");
    assert_eq!(got.len(), 3);
}

#[test]
fn exdate_removes_an_instance() {
    let mut e = event_with(zoned(at(2026, 8, 3, 9), "UTC"), zoned(at(2026, 8, 3, 10), "UTC"), Some("FREQ=WEEKLY"));
    e.exdates.push(at(2026, 8, 17, 9));
    let got = expand(&e, utc(2026, 8, 1), utc(2026, 9, 1), "UTC");
    let days: Vec<u8> = got.iter().map(|o| o.start.date.day).collect();
    assert_eq!(days, vec![3, 10, 24, 31]);
}

#[test]
fn event_starting_before_the_window_still_shows() {
    let e = event_with(EventTime::Date(day(2026, 7, 31)), EventTime::Date(day(2026, 8, 3)), None);
    let got = expand(&e, utc(2026, 8, 1), utc(2026, 9, 1), "UTC");
    assert_eq!(got.len(), 1, "long event overlapping the window was dropped");
}

#[test]
fn weekly_meeting_keeps_its_wall_clock_across_dst() {
    let e = event_with(
        zoned(at(2026, 10, 19, 9), "Europe/Athens"),
        zoned(at(2026, 10, 19, 10), "Europe/Athens"),
        Some("FREQ=WEEKLY"),
    );
    let got = expand(&e, utc(2026, 10, 1), utc(2026, 11, 15), "Europe/Athens");
    assert!(got.len() >= 3);
    for o in &got {
        assert_eq!(o.start.time, Time { hour: 9, minute: 0, second: 0 });
    }
}

#[test]
fn unparseable_rule_falls_back_to_one_instance() {
    let e = event_with(zoned(at(2026, 8, 4, 9), "UTC"), zoned(at(2026, 8, 4, 10), "UTC"), Some("FREQ=NONSENSE;;;"));
    let got = expand(&e, utc(2026, 8, 1), utc(2026, 9, 1), "UTC");
    assert_eq!(got.len(), 1, "a broken rule should not hide the event");
}

#[test]
fn an_instance_running_into_the_window_shows() {
    // A daily 23:00-01:00 series: the instance of 31 July reaches 1 August.
    let e = event_with(zoned(at(2026, 7, 20, 23), "UTC"), zoned(at(2026, 7, 21, 1), "UTC"), Some("FREQ=DAILY"));
    let got = expand(&e, utc(2026, 8, 1), utc(2026, 8, 2), "UTC");
    let starts: Vec<(u8, u8)> = got.iter().map(|o| (o.start.date.month, o.start.date.day)).collect();
    assert_eq!(starts, vec![(7, 31), (8, 1)]);
}
