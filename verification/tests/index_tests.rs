use slate::collection::CalendarMeta;
use slate::color::Rgb;
use slate::date::{Date, DateTime, Time};
use slate::event::{Event, EventTime};
use slate::index::{
    candidates, changed_files, decode_exdates, encode_exdates, event_of_row, has_expected_columns,
    is_candidate, is_stale, join_time, missing_calendars, removed_files, row_of, series_until,
    split_time, FileStamp, IndexRow, KIND_DATE, KIND_FLOATING, KIND_ZONED,
};

fn day(y: i32, m: u8, d: u8) -> Date {
    Date { year: y, month: m, day: d }
}

fn dt(y: i32, m: u8, d: u8, h: u8, min: u8) -> DateTime {
    DateTime { date: day(y, m, d), time: Time { hour: h, minute: min, second: 0 } }
}

fn unix(t: DateTime) -> i64 {
    t.instant() - dt(1970, 1, 1, 0, 0).instant()
}

fn utc(y: i32, m: u8, d: u8) -> i64 {
    unix(dt(y, m, d, 0, 0))
}

fn event(summary: &str, d: u8, rrule: Option<&str>) -> Event {
    let mut e = Event::draft("personal", dt(2026, 8, d, 9, 0), "UTC");
    e.summary = summary.to_owned();
    e.rrule = rrule.map(ToOwned::to_owned);
    e
}

fn rows_of(events: &[Event]) -> Vec<IndexRow> {
    events.iter().map(|e| row_of(e, "UTC")).collect()
}

fn stamp(name: &str, mtime: i64, size: i64) -> FileStamp {
    FileStamp { name: name.into(), mtime, size }
}

fn meta(id: &str) -> CalendarMeta {
    CalendarMeta {
        id: id.into(),
        name: id.into(),
        color: Rgb(1, 2, 3),
        path: format!("/tmp/{id}"),
        read_only: false,
    }
}

fn all_columns() -> Vec<String> {
    [
        "calendar_id", "file_name", "uid", "summary", "description", "location", "start_kind",
        "start_naive", "start_tz", "end_kind", "end_naive", "end_tz", "rrule", "exdates", "alarms",
        "sequence", "created", "modified", "start_utc", "end_utc", "until_utc",
    ]
    .iter()
    .map(|s| s.to_string())
    .collect()
}

#[test]
fn range_query_excludes_events_outside_the_window() {
    let rows = rows_of(&[event("August", 4, None)]);
    let ids = vec!["personal".to_string()];
    assert_eq!(candidates(&rows, &ids, utc(2026, 8, 1), utc(2026, 9, 1)).len(), 1);
    assert!(candidates(&rows, &ids, utc(2026, 6, 1), utc(2026, 7, 1)).is_empty());
}

#[test]
fn unbounded_series_is_always_a_candidate() {
    let rows = rows_of(&[event("Weekly", 3, Some("FREQ=WEEKLY"))]);
    let hit = candidates(&rows, &vec!["personal".to_string()], utc(2030, 1, 1), utc(2030, 2, 1));
    assert_eq!(hit.len(), 1);
}

#[test]
fn series_with_until_stops_being_a_candidate() {
    let rows = rows_of(&[event("Course", 3, Some("FREQ=WEEKLY;UNTIL=20260930T000000Z"))]);
    let ids = vec!["personal".to_string()];
    assert_eq!(candidates(&rows, &ids, utc(2026, 9, 1), utc(2026, 10, 1)).len(), 1);
    assert!(
        candidates(&rows, &ids, utc(2027, 1, 1), utc(2027, 2, 1)).is_empty(),
        "a series past its UNTIL was still returned"
    );
}

#[test]
fn empty_calendar_list_returns_nothing() {
    let rows = rows_of(&[event("Standup", 4, None)]);
    assert!(candidates(&rows, &Vec::new(), utc(2026, 8, 1), utc(2026, 9, 1)).is_empty());
}

#[test]
fn round_trips_all_event_fields() {
    let mut e = Event::draft("personal", dt(2026, 8, 4, 9, 0), "Europe/Athens");
    e.summary = "Standup".into();
    e.description = Some("notes".into());
    e.location = Some("Room 3".into());
    e.rrule = Some("FREQ=WEEKLY".into());
    e.exdates = vec![dt(2026, 8, 18, 9, 0)];

    let got = event_of_row(&row_of(&e, "UTC"));
    assert_eq!(got.summary, e.summary);
    assert_eq!(got.description, e.description);
    assert_eq!(got.location, e.location);
    assert_eq!(got.rrule, e.rrule);
    assert_eq!(got.start, e.start, "timezone lost through the index");
    assert_eq!(got.end, e.end);
    assert_eq!(got.exdates, e.exdates);
}

#[test]
fn sync_indexes_events() {
    let disk = vec![stamp("a.ics", 10, 100)];
    assert_eq!(changed_files(&disk, &Vec::new()), vec!["a.ics".to_string()]);
    assert!(removed_files(&Vec::new(), &disk).is_empty());
}

#[test]
fn resync_without_changes_is_a_noop() {
    let disk = vec![stamp("a.ics", 10, 100), stamp("b.ics", 11, 50)];
    assert!(changed_files(&disk, &disk).is_empty(), "second sync re-parsed unchanged files");
    assert!(removed_files(&disk, &disk).is_empty());
}

#[test]
fn deleting_a_file_removes_its_rows() {
    let indexed = vec![stamp("a.ics", 10, 100), stamp("b.ics", 11, 50)];
    let disk = vec![stamp("b.ics", 11, 50)];
    assert_eq!(removed_files(&indexed, &disk), vec!["a.ics".to_string()]);
    assert!(changed_files(&disk, &indexed).is_empty());
}

#[test]
fn a_file_with_a_new_size_or_time_is_read_again() {
    let indexed = vec![stamp("a.ics", 10, 100), stamp("b.ics", 11, 50)];
    let disk = vec![stamp("a.ics", 10, 101), stamp("b.ics", 12, 50), stamp("c.ics", 1, 1)];
    assert_eq!(
        changed_files(&disk, &indexed),
        vec!["a.ics".to_string(), "b.ics".to_string(), "c.ics".to_string()]
    );
}

#[test]
fn an_older_on_disk_schema_is_rebuilt_not_patched() {
    let old_columns: Vec<String> = vec!["calendar_id".into(), "file_name".into(), "uid".into()];
    assert!(is_stale(&Some("1".into()), &Some("UTC".into()), "UTC", &old_columns));
}

#[test]
fn a_half_applied_upgrade_heals_itself() {
    let old_columns: Vec<String> = vec!["calendar_id".into(), "file_name".into(), "uid".into()];
    assert!(is_stale(&Some("2".into()), &Some("UTC".into()), "UTC", &old_columns));
    assert!(!has_expected_columns(&old_columns));
    assert!(!has_expected_columns(&Vec::new()));
}

#[test]
fn a_current_index_is_kept_across_reopens() {
    assert!(!is_stale(&Some("2".into()), &Some("UTC".into()), "UTC", &all_columns()));
    assert!(has_expected_columns(&all_columns()));
}

#[test]
fn changing_timezone_invalidates_the_cache() {
    assert!(is_stale(&Some("2".into()), &Some("UTC".into()), "Europe/Athens", &all_columns()));
    assert!(is_stale(&None, &Some("UTC".into()), "UTC", &all_columns()));
    assert!(is_stale(&Some("two".into()), &Some("UTC".into()), "UTC", &all_columns()));
}

#[test]
fn pruning_drops_removed_calendars() {
    let known = vec!["personal".to_string(), "work".to_string()];
    assert_eq!(missing_calendars(&known, &Vec::new()), known);
    assert_eq!(missing_calendars(&known, &vec![meta("work")]), vec!["personal".to_string()]);
}

#[test]
fn event_times_split_into_columns_and_back() {
    let nine = dt(2026, 8, 4, 9, 0);
    let (k, n, z) = split_time(&EventTime::Zoned(nine, "Asia/Tokyo".into()));
    assert_eq!((k, n, z.as_deref()), (KIND_ZONED, unix(nine), Some("Asia/Tokyo")));
    assert_eq!(join_time(k, n, z), EventTime::Zoned(nine, "Asia/Tokyo".into()));
    let (k, n, z) = split_time(&EventTime::Date(day(1969, 12, 31)));
    assert_eq!((k, n, z.clone()), (KIND_DATE, -86400, None));
    assert_eq!(join_time(k, n, z), EventTime::Date(day(1969, 12, 31)));
    assert_eq!(split_time(&EventTime::Floating(nine)).0, KIND_FLOATING);
    assert_eq!(join_time(KIND_ZONED, unix(nine), Some("Mars/Olympus".into())), EventTime::Zoned(nine, "UTC".into()));
    assert_eq!(join_time(KIND_ZONED, unix(nine), None), EventTime::Zoned(nine, "UTC".into()));
    assert_eq!(join_time(7, unix(nine), None), EventTime::Floating(nine));
}

#[test]
fn excluded_occurrences_are_stored_as_seconds() {
    let xs = vec![dt(1969, 12, 31, 23, 0), dt(2026, 8, 18, 9, 0)];
    let text = encode_exdates(&xs);
    assert_eq!(text, format!("-3600,{}", unix(dt(2026, 8, 18, 9, 0))));
    assert_eq!(decode_exdates(&text), xs);
    assert_eq!(encode_exdates(&Vec::new()), "");
    assert!(decode_exdates("").is_empty());
    assert_eq!(decode_exdates(",x,60,"), vec![dt(1970, 1, 1, 0, 1)]);
}

#[test]
fn the_series_end_is_its_until_plus_its_length() {
    let e = event("Course", 3, Some("FREQ=WEEKLY;UNTIL=20260930T000000Z"));
    assert_eq!(series_until(&e, "UTC"), Some(utc(2026, 9, 30) + 3600));
    let lower = event("Course", 3, Some("FREQ=WEEKLY; until = 20260930"));
    assert_eq!(series_until(&lower, "UTC"), Some(utc(2026, 9, 30) + 3600));
    assert_eq!(series_until(&event("Count", 3, Some("FREQ=DAILY;COUNT=3")), "UTC"), None);
    assert_eq!(series_until(&event("Odd", 3, Some("FREQ=DAILY;BYSETPOS;UNTIL=20260930")), "UTC"), None);
    assert_eq!(series_until(&event("Bad", 3, Some("FREQ=DAILY;UNTIL=soon")), "UTC"), None);
    assert_eq!(series_until(&event("Once", 3, None), "UTC"), None);
}

#[test]
fn a_row_is_a_candidate_by_its_instants() {
    let row = row_of(&event("Standup", 4, None), "UTC");
    assert!(is_candidate(&row, utc(2026, 8, 4), utc(2026, 8, 5)));
    assert!(!is_candidate(&row, unix(dt(2026, 8, 4, 10, 0)), utc(2026, 8, 5)));
    assert!(!is_candidate(&row, utc(2026, 8, 1), unix(dt(2026, 8, 4, 9, 0))));
}

#[test]
fn a_second_refresh_with_nothing_changed_finds_nothing() {
    let disk = vec![stamp("a.ics", 10, 100), stamp("b.ics", 20, 200)];
    let index = vec![stamp("b.ics", 20, 200), stamp("a.ics", 10, 100)];
    assert!(removed_files(&index, &disk).is_empty());
    assert!(changed_files(&disk, &index).is_empty());
}
