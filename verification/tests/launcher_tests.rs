use slate::config::Config;
use slate::date::{Date, DateTime, Time};
use slate::event::Occurrence;
use slate::launcher::{
    app_search, app_search_window, find_occurrences, search, query_needle, APP_RESULTS, describe, display_name, search_needle, search_results, search_window, DayWord, MAX_RESULTS,
};

fn day(y: i32, m: u8, d: u8) -> Date {
    Date { year: y, month: m, day: d }
}

fn dt(y: i32, m: u8, d: u8, h: u8, min: u8) -> DateTime {
    DateTime { date: day(y, m, d), time: Time { hour: h, minute: min, second: 0 } }
}

fn occ(uid: &str, summary: &str, location: Option<&str>, start: DateTime) -> Occurrence {
    Occurrence {
        uid: uid.into(),
        calendar_id: "personal".into(),
        summary: summary.into(),
        location: location.map(Into::into),
        all_day: false,
        start,
        end: start,
        recurrence_id: None,
    }
}

#[test]
fn the_needle_drops_the_prefix_and_case() {
    assert_eq!(search_needle("  cal  Standup "), "standup");
    assert_eq!(search_needle("cal cal Dentist"), "dentist");
    assert_eq!(search_needle("   "), "");
    assert_eq!(search_needle("calendar"), "calendar");
}

#[test]
fn results_match_title_or_place_nearest_first_one_per_event() {
    let today = day(2026, 8, 10);
    let occs = vec![
        occ("a", "Standup", None, dt(2026, 8, 1, 9, 0)),
        occ("a", "Standup", None, dt(2026, 8, 11, 9, 0)),
        occ("b", "Lunch", Some("Standup Café"), dt(2026, 8, 9, 12, 0)),
        occ("c", "Dentist", None, dt(2026, 8, 10, 8, 0)),
        occ("d", "STANDUP review", None, dt(2026, 8, 20, 9, 0)),
    ];
    let found = search_results(&occs, "standup", today);
    let ids: Vec<(&str, DateTime)> = found.iter().map(|o| (o.uid.as_str(), o.start)).collect();
    assert_eq!(
        ids,
        vec![("a", dt(2026, 8, 11, 9, 0)), ("b", dt(2026, 8, 9, 12, 0)), ("d", dt(2026, 8, 20, 9, 0))]
    );
}

#[test]
fn equal_distances_keep_their_order_and_results_are_capped() {
    let today = day(2026, 8, 10);
    let occs: Vec<Occurrence> = (0..20)
        .map(|k| occ(&format!("e{k}"), "Gym", None, dt(2026, 8, if k % 2 == 0 { 9 } else { 11 }, 7, 0)))
        .collect();
    let found = search_results(&occs, "gym", today);
    assert_eq!(found.len(), MAX_RESULTS);
    assert_eq!(found[0].uid, "e0");
    assert_eq!(found[1].uid, "e1");
    assert_eq!(found[2].uid, "e2");
    assert!(search_results(&occs, "swim", today).is_empty());
}

#[test]
fn an_untitled_event_has_a_placeholder_name() {
    let mut o = occ("a", "  ", None, dt(2026, 8, 9, 12, 0));
    assert_eq!(display_name(&o), "(No title)");
    o.summary = "Lunch".into();
    assert_eq!(display_name(&o), "Lunch");
}

#[test]
fn a_result_is_described_by_day_time_and_place() {
    let config = Config::default();
    let today = day(2026, 8, 10);
    let d = describe(&occ("a", "Lunch", Some("Café"), dt(2026, 8, 10, 12, 30)), today, &config);
    assert_eq!(d.day, DayWord::Today);
    assert_eq!(d.time.as_deref(), Some("12:30"));
    assert_eq!(d.location.as_deref(), Some("Café"));
    let d = describe(&occ("a", "Lunch", Some(""), dt(2026, 8, 11, 9, 0)), today, &config);
    assert_eq!(d.day, DayWord::Tomorrow);
    assert_eq!(d.location, None);
    let d = describe(&occ("a", "Lunch", None, dt(2026, 8, 9, 9, 0)), today, &config);
    assert_eq!(d.day, DayWord::Yesterday);
    let mut far = occ("a", "Trip", None, dt(2026, 9, 1, 0, 0));
    far.all_day = true;
    let d = describe(&far, today, &config);
    assert_eq!(d.day, DayWord::On(day(2026, 9, 1)));
    assert_eq!(d.time, None);
}

#[test]
fn the_search_window_spans_a_month_back_and_half_a_year_ahead() {
    assert_eq!(search_window(day(2026, 8, 10)), (day(2026, 7, 11), day(2027, 2, 6)));
}

#[test]
fn the_in_app_search_trims_lowercases_and_caps_at_fifty() {
    assert_eq!(query_needle("  Cal Standup "), "cal standup");
    let today = day(2026, 8, 10);
    let occs: Vec<Occurrence> = (0..60).map(|k| occ(&format!("e{k}"), "Gym", None, dt(2026, 8, 10, 7, 0))).collect();
    assert_eq!(find_occurrences(&occs, "gym", today, APP_RESULTS).len(), 50);
    assert_eq!(app_search_window(today), (day(2026, 2, 11), day(2027, 8, 10)));
}

#[test]
fn an_empty_query_finds_nothing() {
    let today = day(2026, 8, 10);
    let occs = vec![occ("a", "Standup", None, dt(2026, 8, 11, 9, 0))];
    assert!(search("", &occs, today).is_empty());
    assert!(search("   ", &occs, today).is_empty());
    assert_eq!(search("cal stand", &occs, today).len(), 1);
    assert!(app_search("  ", &occs, today).is_empty());
    assert_eq!(app_search(" STAND ", &occs, today).len(), 1);
}
