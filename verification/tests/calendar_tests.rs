use slate::calendar::{
    busy_level, day_chips, default_new_event_time, format_range, RangeLabel, add_months, days_in_month, format_time, ghost_span, month_name, range_title, snap_to,
    step_anchor, visible_range, week_number, week_start, weekday_order, weekday_short, GridBlockRef,
    GridDrag, RangeTitle, release, Release,
};
use slate::config::{Config, ViewKind};
use slate::date::{Date, DateTime, Time, Weekday};
use slate::launch::InviteAnswer;

fn day(y: i32, m: u8, d: u8) -> Date {
    Date { year: y, month: m, day: d }
}

fn at(y: i32, m: u8, d: u8, h: u8, min: u8) -> DateTime {
    DateTime { date: day(y, m, d), time: Time { hour: h, minute: min, second: 0 } }
}

fn days_between(a: Date, b: Date) -> i64 {
    b.day_number() - a.day_number()
}

#[test]
fn snapping_rounds_to_the_nearest_step() {
    assert_eq!(snap_to(at(2026, 8, 4, 9, 7), 15), at(2026, 8, 4, 9, 0));
    assert_eq!(snap_to(at(2026, 8, 4, 9, 8), 15), at(2026, 8, 4, 9, 15));
    assert_eq!(snap_to(at(2026, 8, 4, 9, 7), 5), at(2026, 8, 4, 9, 5));
    assert_eq!(snap_to(at(2026, 8, 4, 9, 7), 10), at(2026, 8, 4, 9, 10));
}

#[test]
fn snapping_stays_inside_the_day_it_started_in() {
    let snapped = snap_to(at(2026, 8, 4, 23, 58), 15);
    assert_eq!(snapped.date, day(2026, 8, 4));
    assert!((snapped.time.hour as u32) * 60 + (snapped.time.minute as u32) < 23 * 60 + 59);
    assert_eq!(snap_to(at(2026, 8, 4, 0, 1), 15), at(2026, 8, 4, 0, 0));
}

#[test]
fn a_drag_that_did_not_move_paints_no_ghost() {
    let drag = GridDrag::Create { anchor: at(2026, 8, 4, 9, 0), current: at(2026, 8, 4, 9, 0), moved: false };
    assert!(ghost_span(&drag, at(2026, 8, 4, 10, 0), 15).is_none());
}

#[test]
fn sweeping_upwards_still_produces_a_forward_span() {
    let drag = GridDrag::Create { anchor: at(2026, 8, 4, 11, 0), current: at(2026, 8, 4, 9, 0), moved: true };
    let (from, to) = ghost_span(&drag, at(2026, 8, 4, 9, 0), 15).expect("a moved drag");
    assert_eq!((from, to), (at(2026, 8, 4, 9, 0), at(2026, 8, 4, 11, 0)));
}

fn block(resize: bool) -> GridBlockRef {
    GridBlockRef {
        calendar_id: "personal".into(),
        uid: "u".into(),
        rid: None,
        start: at(2026, 8, 4, 10, 0),
        end: at(2026, 8, 4, 11, 0),
        resize,
    }
}

#[test]
fn a_resize_never_collapses_the_event() {
    let drag = GridDrag::Block { block: block(true), pressed_at: at(2026, 8, 4, 11, 0), moved: true };
    let (from, to) = ghost_span(&drag, at(2026, 8, 4, 8, 0), 15).expect("a moved drag");
    assert_eq!(from, at(2026, 8, 4, 10, 0), "resize moved the start");
    assert!(to.instant() > from.instant(), "the event collapsed or inverted");
    assert_eq!(to, at(2026, 8, 4, 10, 15));
}

#[test]
fn moving_a_block_keeps_its_duration_and_the_grab_point() {
    let drag = GridDrag::Block { block: block(false), pressed_at: at(2026, 8, 4, 10, 30), moved: true };
    let (from, to) = ghost_span(&drag, at(2026, 8, 4, 12, 30), 15).expect("a moved drag");
    assert_eq!(from, at(2026, 8, 4, 12, 0), "the grab point was not held");
    assert_eq!(to.instant() - from.instant(), 3600, "duration changed while moving");
}

#[test]
fn a_sweep_that_does_not_reach_a_step_lasts_one_step() {
    let drag = GridDrag::Create { anchor: at(2026, 8, 4, 9, 0), current: at(2026, 8, 4, 9, 5), moved: true };
    let (from, to) = ghost_span(&drag, at(2026, 8, 4, 9, 5), 15).unwrap();
    assert_eq!((from, to), (at(2026, 8, 4, 9, 0), at(2026, 8, 4, 9, 15)));
}

#[test]
fn invite_answers_spell_partstat_as_rfc_5545_does() {
    assert_eq!(InviteAnswer::Accepted.partstat(), "ACCEPTED");
    assert_eq!(InviteAnswer::Tentative.partstat(), "TENTATIVE");
    assert_eq!(InviteAnswer::Declined.partstat(), "DECLINED");
}

#[test]
fn month_stepping_wraps_the_year() {
    assert_eq!(add_months(day(2026, 12, 15), 1), day(2027, 1, 15));
    assert_eq!(add_months(day(2026, 1, 15), -1), day(2025, 12, 15));
}

#[test]
fn month_stepping_clamps_short_months() {
    assert_eq!(add_months(day(2026, 1, 31), 1), day(2026, 2, 28));
    assert_eq!(add_months(day(2028, 1, 31), 1), day(2028, 2, 29));
    assert_eq!(add_months(day(2026, 3, 31), -1), day(2026, 2, 28));
}

#[test]
fn month_stepping_is_reversible_for_safe_days() {
    let d = day(2026, 8, 15);
    for delta in 1..=24 {
        assert_eq!(add_months(add_months(d, delta), -delta), d);
    }
}

#[test]
fn days_in_month_knows_leap_years() {
    assert_eq!(days_in_month(2026, 2), 28);
    assert_eq!(days_in_month(2028, 2), 29);
    assert_eq!(days_in_month(2026, 12), 31);
    assert_eq!(days_in_month(2026, 4), 30);
}

#[test]
fn days_in_month_falls_back_for_months_that_do_not_exist() {
    assert_eq!(days_in_month(2026, 13), 28);
    assert_eq!(days_in_month(2026, 0), 31);
}

#[test]
fn the_year_range_covers_every_day_of_the_year() {
    let config = Config::default();
    let (from, to) = visible_range(ViewKind::Year, day(2026, 6, 15), &config);
    assert_eq!(from.weekday(), config.first_weekday());
    assert!(from.day_number() <= day(2026, 1, 1).day_number());
    assert!(to.day_number() > day(2026, 12, 31).day_number());
}

#[test]
fn the_year_range_follows_the_anchor_year() {
    let config = Config::default();
    let (from, to) = visible_range(ViewKind::Year, day(2027, 3, 2), &config);
    assert!(from.day_number() <= day(2027, 1, 1).day_number());
    assert!(to.day_number() > day(2027, 12, 31).day_number());
    assert!(from.day_number() > day(2026, 12, 1).day_number(), "leaked into the previous year");
}

#[test]
fn week_start_respects_the_configured_first_day() {
    let tuesday = day(2026, 8, 4);
    assert_eq!(week_start(tuesday, Weekday::Mon), day(2026, 8, 3));
    assert_eq!(week_start(tuesday, Weekday::Sun), day(2026, 8, 2));
    assert_eq!(week_start(tuesday, Weekday::Sat), day(2026, 8, 1));
}

#[test]
fn week_start_of_the_first_day_is_itself() {
    assert_eq!(week_start(day(2026, 8, 3), Weekday::Mon), day(2026, 8, 3));
}

#[test]
fn month_range_is_always_six_full_weeks() {
    let config = Config::default();
    for month in 1..=12 {
        let (start, end) = visible_range(ViewKind::Month, day(2026, month, 15), &config);
        assert_eq!(days_between(start, end), 42, "month {month} did not produce a 6x7 grid");
        assert_eq!(start.weekday(), Weekday::Mon);
    }
}

#[test]
fn month_range_covers_the_whole_month() {
    let config = Config::default();
    let (start, end) = visible_range(ViewKind::Month, day(2026, 8, 15), &config);
    assert!(start.day_number() <= day(2026, 8, 1).day_number());
    assert!(end.day_number() > day(2026, 8, 31).day_number());
}

#[test]
fn weekday_order_starts_where_asked() {
    assert_eq!(weekday_order(Weekday::Mon)[0], Weekday::Mon);
    assert_eq!(weekday_order(Weekday::Sun)[0], Weekday::Sun);
    assert_eq!(weekday_order(Weekday::Sun)[6], Weekday::Sat);
    assert_eq!(weekday_order(Weekday::Mon).len(), 7);
}

#[test]
fn time_format_follows_the_setting() {
    let t = Time { hour: 14, minute: 5, second: 0 };
    let c24 = Config { time_24h: true, ..Config::default() };
    let c12 = Config { time_24h: false, ..Config::default() };
    assert_eq!(format_time(t, &c24), "14:05");
    assert_eq!(format_time(t, &c12), "2:05 PM");
}

#[test]
fn midnight_and_noon_in_twelve_hour_time() {
    let c12 = Config { time_24h: false, ..Config::default() };
    assert_eq!(format_time(Time { hour: 0, minute: 0, second: 0 }, &c12), "12:00 AM");
    assert_eq!(format_time(Time { hour: 12, minute: 30, second: 0 }, &c12), "12:30 PM");
    let c24 = Config::default();
    assert_eq!(format_time(Time { hour: 7, minute: 3, second: 0 }, &c24), "07:03");
}

#[test]
fn week_day_and_agenda_ranges() {
    let config = Config::default();
    let (s, e) = visible_range(ViewKind::Week, day(2026, 8, 6), &config);
    assert_eq!((s, e), (day(2026, 8, 3), day(2026, 8, 10)));
    let (s, e) = visible_range(ViewKind::Day, day(2026, 8, 6), &config);
    assert_eq!((s, e), (day(2026, 8, 6), day(2026, 8, 7)));
    let (s, e) = visible_range(ViewKind::Agenda, day(2026, 8, 6), &config);
    assert_eq!(days_between(s, e), 30);
}

#[test]
fn stepping_pages_by_view() {
    assert_eq!(step_anchor(ViewKind::Month, day(2026, 1, 31), 1), day(2026, 2, 28));
    assert_eq!(step_anchor(ViewKind::Year, day(2028, 2, 29), 1), day(2029, 2, 28));
    assert_eq!(step_anchor(ViewKind::Week, day(2026, 8, 4), -1), day(2026, 7, 28));
    assert_eq!(step_anchor(ViewKind::Agenda, day(2026, 8, 4), 1), day(2026, 9, 3));
}

#[test]
fn titles_name_the_range() {
    let config = Config::default();
    assert_eq!(range_title(ViewKind::Month, day(2026, 8, 4), &config), RangeTitle::Month { month: 8, year: 2026 });
    assert_eq!(
        range_title(ViewKind::Week, day(2026, 8, 4), &config),
        RangeTitle::WeekInMonth { first_day: 3, last: day(2026, 8, 9) }
    );
    assert_eq!(
        range_title(ViewKind::Week, day(2026, 7, 29), &config),
        RangeTitle::Span { first: day(2026, 7, 27), last: day(2026, 8, 2) }
    );
    assert_eq!(
        range_title(ViewKind::Day, day(2026, 8, 4), &config),
        RangeTitle::Day { weekday: Weekday::Tue, date: day(2026, 8, 4) }
    );
    assert_eq!(range_title(ViewKind::Year, day(2026, 8, 4), &config), RangeTitle::Year(2026));
    assert_eq!(range_title(ViewKind::Tasks, day(2026, 8, 4), &config), RangeTitle::Tasks);
}

#[test]
fn names_are_message_ids() {
    assert_eq!(month_name(1), "month-january");
    assert_eq!(month_name(12), "month-december");
    assert_eq!(month_name(99), "month-december");
    assert_eq!(weekday_short(Weekday::Wed), "weekday-wed");
}

#[test]
fn iso_week_numbers() {
    assert_eq!(week_number(day(2026, 1, 1)), 1);
    assert_eq!(week_number(day(2026, 12, 31)), 53);
    assert_eq!(week_number(day(2027, 1, 1)), 53);
}

#[test]
fn a_new_event_starts_at_the_next_hour_today_else_at_nine() {
    let today = day(2026, 8, 4);
    let t = default_new_event_time(today, today, 14);
    assert_eq!((t.date, t.time.hour, t.time.minute), (today, 15, 0));
    assert_eq!(default_new_event_time(today, today, 23).time.hour, 23);
    assert_eq!(default_new_event_time(today, today, 22).time.hour, 23);
    let other = default_new_event_time(day(2026, 8, 5), today, 14);
    assert_eq!((other.date, other.time.hour), (day(2026, 8, 5), 9));
}

#[test]
fn a_range_on_one_day_shows_two_times() {
    let mut config = Config::default();
    config.time_24h = true;
    let start = DateTime { date: day(2026, 8, 4), time: Time { hour: 9, minute: 5, second: 0 } };
    let end = DateTime { date: day(2026, 8, 4), time: Time { hour: 17, minute: 0, second: 0 } };
    match format_range(start, end, &config) {
        RangeLabel::SameDay { start, end } => assert_eq!((start.as_str(), end.as_str()), ("09:05", "17:00")),
        RangeLabel::Span { .. } => panic!("one day shown as a span"),
    }
    let later = DateTime { date: day(2026, 8, 5), time: Time { hour: 1, minute: 0, second: 0 } };
    config.time_24h = false;
    match format_range(start, later, &config) {
        RangeLabel::Span { start_date, start, end_date, end } => {
            assert_eq!((start_date, start.as_str()), (day(2026, 8, 4), "9:05 AM"));
            assert_eq!((end_date, end.as_str()), (day(2026, 8, 5), "1:00 AM"));
        },
        RangeLabel::SameDay { .. } => panic!("two days shown as one"),
    }
}

#[test]
fn busy_days_are_tinted_in_four_steps() {
    let levels: Vec<usize> = (0..8).map(busy_level).collect();
    assert_eq!(levels, vec![0, 1, 1, 2, 2, 3, 3, 3]);
}

#[test]
fn a_month_cell_folds_the_fourth_chip_into_more() {
    assert_eq!(day_chips(0), (0, 0));
    assert_eq!(day_chips(3), (3, 0));
    assert_eq!(day_chips(7), (3, 4));
}

#[test]
fn a_click_on_a_block_opens_it() {
    let drag = GridDrag::Block { block: block(false), pressed_at: at(2026, 8, 4, 10, 30), moved: false };
    match release(drag, Some(at(2026, 8, 4, 10, 30)), 15) {
        Release::Open(b) => assert_eq!(b.uid, block(false).uid),
        other => panic!("expected Open, got {other:?}"),
    }
}

#[test]
fn a_click_on_empty_space_starts_on_the_hour() {
    let drag = GridDrag::Create { anchor: at(2026, 8, 4, 9, 40), current: at(2026, 8, 4, 9, 40), moved: false };
    match release(drag, None, 15) {
        Release::NewAt(t) => assert_eq!(t, at(2026, 8, 4, 9, 0)),
        other => panic!("expected NewAt, got {other:?}"),
    }
}

#[test]
fn a_sweep_becomes_a_new_span() {
    let drag = GridDrag::Create { anchor: at(2026, 8, 4, 11, 0), current: at(2026, 8, 4, 9, 7), moved: true };
    match release(drag, None, 15) {
        Release::NewSpan(a, b) => {
            assert_eq!(a, at(2026, 8, 4, 9, 0));
            assert_eq!(b, at(2026, 8, 4, 11, 0));
        }
        other => panic!("expected NewSpan, got {other:?}"),
    }
}

#[test]
fn a_moved_block_commits_its_ghost_unless_it_is_back_where_it_was() {
    let b = block(false);
    let drag = GridDrag::Block { block: b.clone(), pressed_at: at(2026, 8, 4, 10, 30), moved: true };
    match release(drag, Some(at(2026, 8, 4, 12, 30)), 15) {
        Release::Commit(_, s, e) => {
            assert_eq!(s, at(2026, 8, 4, 12, 0));
            assert_eq!(e, at(2026, 8, 4, 13, 0));
        }
        other => panic!("expected Commit, got {other:?}"),
    }
    let back = GridDrag::Block { block: b.clone(), pressed_at: at(2026, 8, 4, 10, 30), moved: true };
    assert!(matches!(release(back, Some(at(2026, 8, 4, 10, 30)), 15), Release::Nothing));
    let lost = GridDrag::Block { block: b, pressed_at: at(2026, 8, 4, 10, 30), moved: true };
    assert!(matches!(release(lost, None, 15), Release::Nothing));
}

#[test]
fn paging_forth_and_back_returns_to_the_anchor() {
    for view in [ViewKind::Day, ViewKind::Week, ViewKind::Agenda, ViewKind::Month, ViewKind::Year] {
        let anchor = day(2026, 8, 28);
        assert_eq!(step_anchor(view, step_anchor(view, anchor, 1), -1), anchor);
    }
    assert_eq!(step_anchor(ViewKind::Day, step_anchor(ViewKind::Day, day(2026, 1, 31), 1), -1), day(2026, 1, 31));
}
