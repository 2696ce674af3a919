use slate::date::{Date, DateTime, Time};
use slate::event::EventTime;
use slate::quickadd::{parse, quick_event};

fn today() -> Date {
    // A Tuesday.
    Date { year: 2026, month: 9, day: 1 }
}

fn t(h: u8, m: u8) -> Time {
    Time { hour: h, minute: m, second: 0 }
}

fn instant(dt: DateTime) -> i64 {
    dt.instant()
}

#[test]
fn the_roadmap_example_parses() {
    let parsed = parse("lunch with Maria Thu 13:00 at Kolonaki", today()).unwrap();
    assert_eq!(parsed.summary, "lunch with Maria");
    assert_eq!(parsed.date, Date { year: 2026, month: 9, day: 3 });
    assert_eq!(parsed.start, Some(t(13, 0)));
    assert_eq!(parsed.location.as_deref(), Some("Kolonaki"));
}

#[test]
fn greek_parses_the_same_way() {
    let parsed = parse("γεύμα με τη Μαρία πεμ 13:00 στο Κολωνάκι", today()).unwrap();
    assert_eq!(parsed.summary, "γεύμα με τη Μαρία");
    assert_eq!(parsed.date, Date { year: 2026, month: 9, day: 3 });
    assert_eq!(parsed.start, Some(t(13, 0)));
    assert_eq!(parsed.location.as_deref(), Some("Κολωνάκι"));
}

#[test]
fn at_before_a_time_is_a_time_not_a_place() {
    let parsed = parse("standup tomorrow at 9:30", today()).unwrap();
    assert_eq!(parsed.summary, "standup");
    assert_eq!(parsed.date, Date { year: 2026, month: 9, day: 2 });
    assert_eq!(parsed.start, Some(t(9, 30)));
    assert_eq!(parsed.location, None);
}

#[test]
fn a_range_sets_the_end() {
    let parsed = parse("workshop 13:00-14:30", today()).unwrap();
    assert_eq!(parsed.start, Some(t(13, 0)));
    assert_eq!(parsed.end, Some(t(14, 30)));
    let (from, to) = parsed.span();
    assert_eq!(instant(to) - instant(from), 90 * 60);
}

#[test]
fn no_time_means_all_day_and_no_date_means_today() {
    let parsed = parse("conference tomorrow", today()).unwrap();
    assert!(parsed.all_day());

    let parsed = parse("write report", today()).unwrap();
    assert_eq!(parsed.date, today());
    assert!(parsed.all_day());
}

#[test]
fn a_numeric_date_in_the_past_rolls_to_next_year() {
    let parsed = parse("ski trip 15/1", today()).unwrap();
    assert_eq!(parsed.date, Date { year: 2027, month: 1, day: 15 });
}

#[test]
fn a_weekday_matching_today_is_today() {
    let parsed = parse("review tue 10:00", today()).unwrap();
    assert_eq!(parsed.date, today());
}

#[test]
fn empty_or_summaryless_input_is_rejected() {
    assert!(parse("", today()).is_none());
    assert!(parse("13:00", today()).is_none());
}

#[test]
fn a_bare_number_stays_in_the_summary() {
    let parsed = parse("route 66 documentary 20:00", today()).unwrap();
    assert_eq!(parsed.summary, "route 66 documentary");
    assert_eq!(parsed.start, Some(t(20, 0)));
}

#[test]
fn a_full_numeric_date_keeps_its_year() {
    let parsed = parse("exam 15/1/2026", today()).unwrap();
    assert_eq!(parsed.date, Date { year: 2026, month: 1, day: 15 });
}

#[test]
fn an_impossible_date_stays_in_the_summary() {
    let parsed = parse("party 31/2", today()).unwrap();
    assert_eq!(parsed.summary, "party 31/2");
    assert_eq!(parsed.date, today());
}

#[test]
fn all_day_spans_midnight_to_midnight() {
    let parsed = parse("holiday", today()).unwrap();
    let (from, to) = parsed.span();
    assert_eq!(from, DateTime { date: today(), time: t(0, 0) });
    assert_eq!(to, DateTime { date: Date { year: 2026, month: 9, day: 2 }, time: t(0, 0) });
}

#[test]
fn a_start_without_a_later_end_lasts_an_hour() {
    let parsed = parse("call 23:30", today()).unwrap();
    let (from, to) = parsed.span();
    assert_eq!(from.time, t(23, 30));
    assert_eq!(to, DateTime { date: Date { year: 2026, month: 9, day: 2 }, time: t(0, 30) });
    let parsed = parse("night 22:00-01:00", today()).unwrap();
    let (from, to) = parsed.span();
    assert_eq!(instant(to) - instant(from), 3600);
}

#[test]
fn a_preposition_at_the_end_is_dropped() {
    let parsed = parse("coffee at", today()).unwrap();
    assert_eq!(parsed.summary, "coffee");
    assert_eq!(parsed.location, None);
}

#[test]
fn an_en_dash_range_and_meridiem_times_work() {
    let parsed = parse("talk 2pm–3pm", today()).unwrap();
    assert_eq!(parsed.start, Some(t(14, 0)));
    assert_eq!(parsed.end, Some(t(15, 0)));
}

#[test]
fn a_quick_line_becomes_a_drafted_event() {
    let today = Date { year: 2026, month: 8, day: 4 };
    let p = parse("Lunch tomorrow 12:30-13:15 at Café Nikos", today).unwrap();
    let e = quick_event(&p, "personal", "Europe/Athens");
    assert_eq!(e.summary, p.summary);
    assert_eq!(e.location, p.location);
    assert_eq!(e.calendar_id, "personal");
    assert!(e.uid.ends_with("@cosmic-calendar"));
    let start = DateTime { date: p.date, time: p.start.unwrap() };
    assert_eq!(e.start, EventTime::Zoned(start, "Europe/Athens".into()));
    assert_eq!(e.end, EventTime::Zoned(DateTime { date: p.date, time: p.end.unwrap() }, "Europe/Athens".into()));

    let day = parse("Holiday friday", today).unwrap();
    let e = quick_event(&day, "personal", "UTC");
    assert_eq!(e.start, EventTime::Date(day.date));
    assert!(matches!(e.end, EventTime::Date(d) if d.day_number() == day.date.day_number() + 1));
}
