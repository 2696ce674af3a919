use slate::config::Config;
use slate::date::{Date, DateTime, Time};
use slate::event::Occurrence;
use slate::panel::{day_heading, tooltip, upcoming, DayHeading, HORIZON_DAYS, MAX_LISTED};

fn day(y: i32, m: u8, d: u8) -> Date {
    Date { year: y, month: m, day: d }
}

fn dt(y: i32, m: u8, d: u8, h: u8, min: u8) -> DateTime {
    DateTime { date: day(y, m, d), time: Time { hour: h, minute: min, second: 0 } }
}

fn occ(uid: &str, all_day: bool, start: DateTime, end: DateTime) -> Occurrence {
    Occurrence {
        uid: uid.into(),
        calendar_id: "personal".into(),
        summary: format!("Event {uid}"),
        location: None,
        all_day,
        start,
        end,
        recurrence_id: None,
    }
}

#[test]
fn finished_occurrences_are_not_upcoming() {
    let now = dt(2026, 8, 10, 12, 0);
    let occs = vec![
        occ("done", false, dt(2026, 8, 10, 9, 0), dt(2026, 8, 10, 10, 0)),
        occ("ends-now", false, dt(2026, 8, 10, 11, 0), dt(2026, 8, 10, 12, 0)),
        occ("running", false, dt(2026, 8, 10, 11, 30), dt(2026, 8, 10, 12, 30)),
        occ("holiday", true, dt(2026, 8, 10, 0, 0), dt(2026, 8, 11, 0, 0)),
        occ("later", false, dt(2026, 8, 12, 9, 0), dt(2026, 8, 12, 10, 0)),
    ];
    let ids: Vec<String> = upcoming(&occs, now).into_iter().map(|o| o.uid).collect();
    assert_eq!(ids, vec!["running", "holiday", "later"]);
}

#[test]
fn all_day_occurrences_stay_listed_all_day() {
    let now = dt(2026, 8, 10, 23, 0);
    let occs = vec![occ("holiday", true, dt(2026, 8, 9, 0, 0), dt(2026, 8, 10, 0, 0))];
    assert_eq!(upcoming(&occs, now).len(), 1);
}

#[test]
fn the_list_is_capped() {
    let now = dt(2026, 8, 10, 0, 0);
    let occs: Vec<Occurrence> = (0..20u8)
        .map(|k| occ(&format!("e{k}"), false, dt(2026, 8, 11, k, 0), dt(2026, 8, 11, k, 30)))
        .collect();
    let listed = upcoming(&occs, now);
    assert_eq!(listed.len(), MAX_LISTED);
    assert_eq!(listed[0].uid, "e0");
    assert_eq!(listed[MAX_LISTED - 1].uid, "e11");
    assert_eq!(HORIZON_DAYS, 7);
}

#[test]
fn the_tooltip_names_the_next_occurrence() {
    let config = Config::default();
    let timed = vec![occ("standup", false, dt(2026, 8, 10, 9, 5), dt(2026, 8, 10, 9, 20))];
    assert_eq!(tooltip(&timed, &config).as_deref(), Some("09:05 · Event standup"));
    let all_day = vec![occ("holiday", true, dt(2026, 8, 10, 0, 0), dt(2026, 8, 11, 0, 0))];
    assert_eq!(tooltip(&all_day, &config).as_deref(), Some("Event holiday"));
    assert_eq!(tooltip(&Vec::new(), &config), None);
}

#[test]
fn days_are_headed_in_words_when_near() {
    let today = day(2026, 12, 31);
    assert_eq!(day_heading(today, today), DayHeading::Today);
    assert_eq!(day_heading(day(2027, 1, 1), today), DayHeading::Tomorrow);
    assert_eq!(day_heading(day(2027, 1, 2), today), DayHeading::On(day(2027, 1, 2)));
    assert_eq!(day_heading(day(2026, 12, 30), today), DayHeading::On(day(2026, 12, 30)));
}
