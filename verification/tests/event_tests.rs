use slate::date::{Date, DateTime, Time};
use slate::event::{resolve, shift_time, Event, EventTime, Occurrence};
use slate::recurrence::{Freq, Recurrence, RepeatEnd};

fn day(y: i32, m: u8, d: u8) -> Date {
    Date { year: y, month: m, day: d }
}

fn dt(y: i32, m: u8, d: u8, h: u8, min: u8) -> DateTime {
    DateTime { date: day(y, m, d), time: Time { hour: h, minute: min, second: 0 } }
}

fn unix(t: DateTime) -> i64 {
    t.instant() - dt(1970, 1, 1, 0, 0).instant()
}

fn occurrence(start: DateTime, end: DateTime) -> Occurrence {
    Occurrence {
        uid: "x".into(),
        calendar_id: "c".into(),
        summary: "s".into(),
        location: None,
        all_day: false,
        start,
        end,
        recurrence_id: None,
    }
}

#[test]
fn occurrence_covers_spanning_days() {
    let o = occurrence(dt(2026, 8, 4, 22, 0), dt(2026, 8, 5, 2, 0));
    assert!(o.covers(day(2026, 8, 4)));
    assert!(o.covers(day(2026, 8, 5)));
    assert!(!o.covers(day(2026, 8, 6)));
    let o2 = Occurrence { end: dt(2026, 8, 5, 0, 0), ..o };
    assert!(!o2.covers(day(2026, 8, 5)));
}

#[test]
fn all_day_times_do_not_shift_across_zones() {
    let t = EventTime::Date(day(2026, 8, 4));
    for tz in ["UTC", "Pacific/Kiritimati", "Pacific/Midway"] {
        assert_eq!(t.date(tz), day(2026, 8, 4), "shifted in {tz}");
    }
}

#[test]
fn zoned_times_convert_to_local_wall_clock() {
    let t = EventTime::Zoned(dt(2026, 8, 4, 12, 0), "Europe/Athens".into());
    assert_eq!(t.naive_local("UTC"), dt(2026, 8, 4, 9, 0));
    let t = EventTime::Zoned(dt(2026, 8, 4, 14, 0), "Europe/Kiev".into());
    assert_eq!(t.naive_local("UTC"), dt(2026, 8, 4, 11, 0));
}

#[test]
fn dst_gap_does_not_panic() {
    let t = EventTime::Zoned(dt(2026, 3, 29, 3, 30), "Europe/Athens".into());
    let _ = t.to_utc("Europe/Athens");
}

#[test]
fn a_gap_reads_an_hour_later() {
    // 03:30 does not exist in Athens on 2026-03-29; 04:30 EEST is 01:30 UTC.
    assert_eq!(resolve(dt(2026, 3, 29, 3, 30), "Europe/Athens"), unix(dt(2026, 3, 29, 1, 30)));
}

#[test]
fn a_fold_reads_its_earliest_instant() {
    // 03:30 happens twice in Athens on 2026-10-25; the first is 00:30 UTC.
    assert_eq!(resolve(dt(2026, 10, 25, 3, 30), "Europe/Athens"), unix(dt(2026, 10, 25, 0, 30)));
}

#[test]
fn an_unknown_zone_reads_as_utc() {
    assert_eq!(resolve(dt(2026, 8, 4, 9, 0), "Nowhere/Special"), unix(dt(2026, 8, 4, 9, 0)));
}

#[test]
fn floating_times_resolve_in_the_viewers_zone() {
    let t = EventTime::Floating(dt(2026, 8, 4, 12, 0));
    assert_eq!(t.to_utc("Europe/Athens"), unix(dt(2026, 8, 4, 9, 0)));
    assert_eq!(t.naive_local("Europe/Athens"), dt(2026, 8, 4, 12, 0));
}

fn event(start: EventTime, end: EventTime, rrule: Option<&str>) -> Event {
    Event {
        uid: "test-uid".into(),
        calendar_id: "personal".into(),
        summary: "Standup".into(),
        description: None,
        location: None,
        start,
        end,
        rrule: rrule.map(ToOwned::to_owned),
        exdates: Vec::new(),
        sequence: 0,
        created: None,
        last_modified: None,
        file_name: "test-uid.ics".into(),
    }
}

#[test]
fn duration_falls_back_for_malformed_ends() {
    let e = event(EventTime::Floating(dt(2026, 8, 4, 10, 0)), EventTime::Floating(dt(2026, 8, 4, 9, 0)), None);
    assert_eq!(e.duration("UTC"), 3600);
    let e = event(EventTime::Date(day(2026, 8, 4)), EventTime::Date(day(2026, 8, 4)), None);
    assert_eq!(e.duration("UTC"), 86400);
    let e = event(EventTime::Date(day(2026, 8, 4)), EventTime::Date(day(2026, 8, 7)), None);
    assert_eq!(e.duration("UTC"), 3 * 86400);
}

#[test]
fn the_recurrence_of_an_event() {
    let e = event(EventTime::Date(day(2026, 8, 4)), EventTime::Date(day(2026, 8, 5)), None);
    assert_eq!(e.recurrence(), Some(Recurrence::default()));
    assert!(!e.is_recurring());
    assert!(e.is_all_day());
    let e = event(EventTime::Date(day(2026, 8, 4)), EventTime::Date(day(2026, 8, 5)), Some("FREQ=DAILY;COUNT=2"));
    assert_eq!(e.recurrence(), Some(Recurrence { freq: Freq::Daily, interval: 1, end: RepeatEnd::After(2) }));
    let e = event(EventTime::Date(day(2026, 8, 4)), EventTime::Date(day(2026, 8, 5)), Some("FREQ=DAILY;BYDAY=MO"));
    assert_eq!(e.recurrence(), None);
}

#[test]
fn a_draft_lasts_an_hour_in_the_given_zone() {
    let e = Event::draft("personal", dt(2026, 8, 4, 9, 0), "Europe/Athens");
    assert!(e.uid.ends_with("@cosmic-calendar"));
    assert_eq!(e.file_name, format!("{}.ics", e.uid));
    assert_eq!(e.start, EventTime::Zoned(dt(2026, 8, 4, 9, 0), "Europe/Athens".into()));
    assert_eq!(e.end, EventTime::Zoned(dt(2026, 8, 4, 10, 0), "Europe/Athens".into()));
    assert!(e.summary.is_empty());
    assert!(e.created.is_some());
}

#[test]
fn with_naive_keeps_the_kind() {
    let z = EventTime::Zoned(dt(2026, 8, 4, 9, 0), "UTC".into());
    assert_eq!(z.with_naive(dt(2026, 8, 5, 7, 0)), EventTime::Zoned(dt(2026, 8, 5, 7, 0), "UTC".into()));
    let d = EventTime::Date(day(2026, 8, 4));
    assert_eq!(d.with_naive(dt(2026, 8, 9, 7, 0)), EventTime::Date(day(2026, 8, 9)));
}

#[test]
fn shifting_moves_dates_by_whole_days() {
    let d = EventTime::Date(day(2026, 8, 4));
    assert_eq!(shift_time(&d, 86400 + 3600), EventTime::Date(day(2026, 8, 5)));
    assert_eq!(shift_time(&d, -(86400 + 3600)), EventTime::Date(day(2026, 8, 3)));
    let f = EventTime::Floating(dt(2026, 8, 4, 23, 30));
    assert_eq!(shift_time(&f, 3600), EventTime::Floating(dt(2026, 8, 5, 0, 30)));
}
