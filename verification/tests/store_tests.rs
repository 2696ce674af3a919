use slate::date::{Date, DateTime, Time};
use slate::event::Occurrence;
use slate::collection::CalendarMeta;
use slate::color::Rgb;
use slate::event::Event;
use slate::index::row_of;
use slate::store::{
    calendar as find_calendar, calendars_changed, default_calendar, nth_writable,
    clash_count, day_start_utc, occurrences_by_day, occurrences_in, occurrences_of_events, sort_occurrences,
    visible_ids,
};

fn day(y: i32, m: u8, d: u8) -> Date {
    Date { year: y, month: m, day: d }
}

fn at(y: i32, m: u8, d: u8, h: u8) -> DateTime {
    DateTime { date: day(y, m, d), time: Time { hour: h, minute: 0, second: 0 } }
}

fn occ(summary: &str, all_day: bool, start: DateTime, end: DateTime) -> Occurrence {
    Occurrence {
        uid: summary.into(),
        calendar_id: "c".into(),
        summary: summary.into(),
        location: None,
        all_day,
        start,
        end,
        recurrence_id: None,
    }
}

#[test]
fn multi_day_event_lands_in_every_day_it_touches() {
    // An all-day event from the 4th to the exclusive 7th.
    let o = occ("Conference", true, at(2026, 8, 4, 0), at(2026, 8, 7, 0));
    let by_day = occurrences_by_day(&[o], day(2026, 8, 1), day(2026, 9, 1));
    assert_eq!(by_day.len(), 31);
    assert!(by_day[2].is_empty());
    assert_eq!(by_day[3], vec![0]);
    assert_eq!(by_day[4], vec![0]);
    assert_eq!(by_day[5], vec![0]);
    assert!(by_day[6].is_empty(), "exclusive DTEND leaked into an extra day");
}

#[test]
fn an_event_from_before_the_window_starts_on_its_first_day() {
    let o = occ("Trip", true, at(2026, 7, 30, 0), at(2026, 8, 2, 12));
    let by_day = occurrences_by_day(&[o], day(2026, 8, 1), day(2026, 8, 4));
    assert_eq!(by_day, vec![vec![0], vec![0], vec![]]);
}

#[test]
fn listing_puts_all_day_first_then_by_start_then_title() {
    let list = vec![
        occ("b", false, at(2026, 8, 4, 9), at(2026, 8, 4, 10)),
        occ("a", false, at(2026, 8, 4, 9), at(2026, 8, 4, 10)),
        occ("z", true, at(2026, 8, 4, 0), at(2026, 8, 5, 0)),
        occ("early", false, at(2026, 8, 4, 7), at(2026, 8, 4, 8)),
    ];
    let sorted = sort_occurrences(list);
    let names: Vec<&str> = sorted.iter().map(|o| o.summary.as_str()).collect();
    assert_eq!(names, vec!["z", "early", "a", "b"]);
}

#[test]
fn equal_keys_keep_their_order() {
    let mut one = occ("same", false, at(2026, 8, 4, 9), at(2026, 8, 4, 10));
    one.uid = "first".into();
    let mut two = occ("same", false, at(2026, 8, 4, 9), at(2026, 8, 4, 11));
    two.uid = "second".into();
    let sorted = sort_occurrences(vec![one, two]);
    assert_eq!(sorted[0].uid, "first");
    assert_eq!(sorted[1].uid, "second");
}

#[test]
fn a_day_starts_at_local_midnight() {
    let epoch = at(1970, 1, 1, 0).instant();
    assert_eq!(day_start_utc(day(2026, 8, 4), "UTC"), at(2026, 8, 4, 0).instant() - epoch);
    assert_eq!(day_start_utc(day(2026, 8, 4), "Europe/Athens"), at(2026, 8, 3, 21).instant() - epoch);
}

#[test]
fn clashes_count_other_events_once_each() {
    let mut a = occ("a", false, at(2026, 8, 4, 9), at(2026, 8, 4, 11));
    a.recurrence_id = Some(1);
    let a_again = a.clone();
    let b = occ("b", false, at(2026, 8, 4, 10), at(2026, 8, 5, 1));
    let c = occ("c", false, at(2026, 8, 4, 11), at(2026, 8, 4, 12));
    let me = occ("me", false, at(2026, 8, 4, 10), at(2026, 8, 4, 11));
    let list = vec![a, me.clone(), b.clone(), a_again, b, c];
    assert_eq!(clash_count(&list, "me", at(2026, 8, 4, 10), at(2026, 8, 4, 11)), 2);
    assert_eq!(clash_count(&list, "me", at(2026, 8, 4, 12), at(2026, 8, 4, 13)), 1);
    assert_eq!(clash_count(&Vec::new(), "me", at(2026, 8, 4, 12), at(2026, 8, 4, 13)), 0);
}

fn unix(t: DateTime) -> i64 {
    t.instant() - at(1970, 1, 1, 0).instant()
}

fn calendar(id: &str) -> CalendarMeta {
    CalendarMeta { id: id.into(), name: id.into(), color: Rgb(1, 2, 3), path: format!("/c/{id}"), read_only: false }
}

fn standup(calendar_id: &str, d: u8, rrule: Option<&str>) -> Event {
    let mut e = Event::draft(calendar_id, at(2026, 8, d, 9), "UTC");
    e.summary = "Standup".into();
    e.rrule = rrule.map(Into::into);
    e
}

#[test]
fn create_save_and_query() {
    let rows = vec![row_of(&standup("personal", 4, None), "UTC")];
    let got = occurrences_in(&rows, &vec![calendar("personal")], &Vec::new(), day(2026, 8, 1), day(2026, 9, 1), "UTC");
    assert_eq!(got.len(), 1);
    assert_eq!(got[0].summary, "Standup");
}

#[test]
fn hidden_calendars_are_excluded() {
    let rows = vec![row_of(&standup("personal", 4, None), "UTC")];
    let hidden = vec!["personal".to_string()];
    assert!(occurrences_in(&rows, &vec![calendar("personal")], &hidden, day(2026, 8, 1), day(2026, 9, 1), "UTC").is_empty());
    assert_eq!(visible_ids(&vec![calendar("personal"), calendar("work")], &hidden), vec!["work".to_string()]);
}

#[test]
fn recurring_event_appears_on_each_occurrence_day() {
    let rows = vec![row_of(&standup("personal", 3, Some("FREQ=WEEKLY")), "UTC")];
    let got = occurrences_in(&rows, &vec![calendar("personal")], &Vec::new(), day(2026, 8, 1), day(2026, 9, 1), "UTC");
    let days: Vec<u8> = got.iter().map(|o| o.start.date.day).collect();
    assert_eq!(days, vec![3, 10, 17, 24, 31]);
    let by_day = occurrences_by_day(&got, day(2026, 8, 1), day(2026, 9, 1));
    for d in [3usize, 10, 17, 24, 31] {
        assert!(!by_day[d - 1].is_empty(), "missing {d} Aug");
    }
}

#[test]
fn occurrences_of_several_events_come_in_listing_order() {
    let mut holiday = standup("personal", 5, None);
    holiday.summary = "Holiday".into();
    holiday.start = slate::event::EventTime::Date(day(2026, 8, 5));
    holiday.end = slate::event::EventTime::Date(day(2026, 8, 6));
    let events = vec![standup("personal", 5, None), holiday, standup("work", 4, None)];
    let from = unix(at(2026, 8, 1, 0));
    let to = unix(at(2026, 9, 1, 0));
    let got = occurrences_of_events(&events, from, to, "UTC");
    let names: Vec<(&str, bool)> = got.iter().map(|o| (o.summary.as_str(), o.all_day)).collect();
    assert_eq!(names, vec![("Holiday", true), ("Standup", false), ("Standup", false)]);
    assert_eq!(got[1].calendar_id, "work");
}

#[test]
fn calendars_are_found_by_id() {
    let cs = vec![calendar("home"), calendar("work")];
    assert_eq!(find_calendar(&cs, "work").map(|c| c.path.as_str()), Some("/c/work"));
    assert!(find_calendar(&cs, "gym").is_none());
}

#[test]
fn new_events_land_in_the_first_writable_calendar() {
    let mut feed = calendar("holidays");
    feed.read_only = true;
    let cs = vec![feed.clone(), calendar("home"), calendar("work")];
    assert_eq!(default_calendar(&cs).map(|c| c.id.as_str()), Some("home"));
    assert!(default_calendar(&vec![feed]).is_none());
}

#[test]
fn a_rescan_notices_renames_recolours_and_new_calendars() {
    let known = vec![calendar("home"), calendar("work")];
    assert!(!calendars_changed(&known.clone(), &known));
    let mut renamed = known.clone();
    renamed[1].name = "Office".into();
    assert!(calendars_changed(&renamed, &known));
    let mut recoloured = known.clone();
    recoloured[0].color = Rgb(9, 9, 9);
    assert!(calendars_changed(&recoloured, &known));
    let mut grown = known.clone();
    grown.push(calendar("gym"));
    assert!(calendars_changed(&grown, &known));
    let mut moved = known.clone();
    moved[0].path = "/elsewhere".into();
    assert!(!calendars_changed(&moved, &known));
}

#[test]
fn the_editor_offers_only_writable_calendars() {
    let mut feed = calendar("holidays");
    feed.read_only = true;
    let cs = vec![calendar("home"), feed, calendar("work")];
    assert_eq!(nth_writable(&cs, 0).map(|c| c.id.as_str()), Some("home"));
    assert_eq!(nth_writable(&cs, 1).map(|c| c.id.as_str()), Some("work"));
    assert!(nth_writable(&cs, 2).is_none());
}
