use slate::date::{Date, DateTime, Time};
use slate::event::Occurrence;
use slate::reminders::Scheduler;

fn at(h: u8, m: u8) -> DateTime {
    DateTime { date: Date { year: 2026, month: 8, day: 4 }, time: Time { hour: h, minute: m, second: 0 } }
}

fn next_day(dt: DateTime) -> DateTime {
    dt.add_seconds(86400)
}

fn occurrence(uid: &str, start: DateTime) -> Occurrence {
    Occurrence {
        uid: uid.into(),
        calendar_id: "personal".into(),
        summary: uid.into(),
        location: None,
        all_day: false,
        start,
        end: start.add_seconds(3600),
        recurrence_id: None,
    }
}

fn ten_minutes_before(n: usize) -> Vec<Vec<i64>> {
    vec![vec![-600]; n]
}

fn no_alarms(n: usize) -> Vec<Vec<i64>> {
    vec![Vec::new(); n]
}

#[test]
fn fires_once_the_trigger_has_passed() {
    let mut scheduler = Scheduler::new();
    let events = [occurrence("Standup", at(9, 0))];
    assert!(scheduler.due(&events, &ten_minutes_before(1), at(8, 45), None).is_empty(), "fired before the trigger");
    let got = scheduler.due(&events, &ten_minutes_before(1), at(8, 50), None);
    assert_eq!(got.len(), 1);
    assert_eq!(got[0].summary, "Standup");
    assert_eq!(got[0].lead_secs, 600);
}

#[test]
fn never_fires_the_same_reminder_twice() {
    let mut scheduler = Scheduler::new();
    let events = [occurrence("Standup", at(9, 0))];
    assert_eq!(scheduler.due(&events, &ten_minutes_before(1), at(8, 50), None).len(), 1);
    for minute in 51..55 {
        assert!(
            scheduler.due(&events, &ten_minutes_before(1), at(8, minute), None).is_empty(),
            "re-fired at 8:{minute}"
        );
    }
}

#[test]
fn does_not_replay_the_whole_day_on_a_late_start() {
    let mut scheduler = Scheduler::new();
    let events = [occurrence("Breakfast", at(8, 0)), occurrence("Standup", at(9, 0)), occurrence("Lunch", at(13, 0))];
    assert!(
        scheduler.due(&events, &ten_minutes_before(3), at(17, 0), None).is_empty(),
        "replayed reminders from earlier in the day"
    );
}

#[test]
fn a_reminder_inside_the_grace_window_still_fires() {
    let mut scheduler = Scheduler::new();
    let events = [occurrence("Standup", at(9, 0))];
    assert_eq!(scheduler.due(&events, &ten_minutes_before(1), at(8, 52), None).len(), 1);
}

#[test]
fn events_without_alarms_are_silent_unless_a_default_is_set() {
    let mut scheduler = Scheduler::new();
    let events = [occurrence("Standup", at(9, 0))];
    assert!(scheduler.due(&events, &no_alarms(1), at(8, 50), None).is_empty(), "notified without any alarm configured");
    assert_eq!(
        scheduler.due(&events, &no_alarms(1), at(8, 50), Some(600)).len(),
        1,
        "the default reminder did not apply"
    );
}

#[test]
fn an_events_own_alarm_wins_over_the_default() {
    let mut scheduler = Scheduler::new();
    let events = [occurrence("Standup", at(9, 0))];
    let got = scheduler.due(&events, &ten_minutes_before(1), at(8, 50), Some(3600));
    assert_eq!(got.len(), 1);
    assert_eq!(got[0].id.offset_secs, -600);
}

#[test]
fn multiple_alarms_on_one_event_each_fire() {
    let mut scheduler = Scheduler::new();
    let events = [occurrence("Flight", at(9, 0))];
    let two = vec![vec![-3600, -600]];
    assert_eq!(scheduler.due(&events, &two, at(8, 5), None).len(), 1);
    assert_eq!(scheduler.due(&events, &two, at(8, 51), None).len(), 1);
}

#[test]
fn two_instances_of_a_series_are_separate_reminders() {
    let mut scheduler = Scheduler::new();
    let monday = occurrence("Standup", at(9, 0));
    let tuesday = occurrence("Standup", next_day(at(9, 0)));
    assert_eq!(scheduler.due(&[monday], &ten_minutes_before(1), at(8, 50), None).len(), 1);
    assert_eq!(
        scheduler.due(&[tuesday], &ten_minutes_before(1), next_day(at(8, 50)), None).len(),
        1,
        "the next instance of the series was suppressed"
    );
}

#[test]
fn forgetting_prunes_old_reminders() {
    let mut scheduler = Scheduler::new();
    scheduler.due(&[occurrence("Standup", at(9, 0))], &ten_minutes_before(1), at(8, 50), None);
    assert_eq!(scheduler.remembered(), 1);
    scheduler.forget_before(next_day(at(9, 0)));
    assert_eq!(scheduler.remembered(), 0);
}

#[test]
fn forgetting_keeps_what_is_not_yet_past() {
    let mut scheduler = Scheduler::default();
    scheduler.due(&[occurrence("Standup", at(9, 0))], &ten_minutes_before(1), at(8, 50), None);
    scheduler.forget_before(at(9, 0));
    assert_eq!(scheduler.remembered(), 1);
}

#[test]
fn the_same_alarm_twice_in_one_list_fires_once() {
    let mut scheduler = Scheduler::new();
    let events = [occurrence("Standup", at(9, 0))];
    assert_eq!(scheduler.due(&events, &[vec![-600, -600]], at(8, 50), None).len(), 1);
}

#[test]
fn exactly_at_the_edge_of_the_grace_still_fires() {
    let mut scheduler = Scheduler::new();
    let events = [occurrence("Standup", at(9, 0))];
    assert_eq!(scheduler.due(&events, &ten_minutes_before(1), at(8, 55), None).len(), 1);
    let mut scheduler = Scheduler::new();
    assert!(scheduler.due(&events, &ten_minutes_before(1), at(8, 56), None).is_empty());
}
