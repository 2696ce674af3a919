use slate::date::{Date, DateTime, Time};
use slate::event::Occurrence;
use slate::timegrid::{layout_day, Placed};

const HOUR_HEIGHT: f32 = 48.0;
const MIN_BLOCK_HEIGHT: f32 = 20.0;

fn date() -> Date {
    Date { year: 2026, month: 8, day: 4 }
}

fn at(h: u8, m: u8) -> DateTime {
    DateTime { date: date(), time: Time { hour: h, minute: m, second: 0 } }
}

fn occurrence(summary: &str, start: DateTime, end: DateTime) -> Occurrence {
    Occurrence {
        uid: summary.into(),
        calendar_id: "personal".into(),
        summary: summary.into(),
        location: None,
        all_day: false,
        start,
        end,
        recurrence_id: None,
    }
}

/// The layout as `(summary, top, height, column, columns)`, geometry worked
/// out from minutes the way the grid draws it.
fn layout(occurrences: Vec<Occurrence>) -> Vec<(String, f32, f32, usize, usize)> {
    let placed: Vec<Placed> = layout_day(date(), &occurrences);
    placed
        .into_iter()
        .map(|b| {
            let top = b.start_minute as f32 / 60.0 * HOUR_HEIGHT;
            let height = ((b.end_minute - b.start_minute) as f32 / 60.0 * HOUR_HEIGHT).max(MIN_BLOCK_HEIGHT);
            (occurrences[b.index].summary.clone(), top, height, b.column, b.columns)
        })
        .collect()
}

#[test]
fn block_position_and_height_follow_the_clock() {
    let got = layout(vec![occurrence("A", at(9, 0), at(10, 30))]);
    assert_eq!(got.len(), 1);
    assert!((got[0].1 - 9.0 * HOUR_HEIGHT).abs() < 0.01, "wrong top");
    assert!((got[0].2 - 1.5 * HOUR_HEIGHT).abs() < 0.01, "wrong height");
}

#[test]
fn a_very_short_event_still_gets_a_usable_height() {
    let got = layout(vec![occurrence("A", at(9, 0), at(9, 5))]);
    assert!(got[0].2 >= MIN_BLOCK_HEIGHT);
}

#[test]
fn sequential_events_share_one_full_width_column() {
    let got = layout(vec![occurrence("A", at(9, 0), at(10, 0)), occurrence("B", at(10, 0), at(11, 0))]);
    assert!(got.iter().all(|b| b.4 == 1), "non-overlapping events were narrowed");
}

#[test]
fn overlapping_events_are_dealt_side_by_side() {
    let got = layout(vec![occurrence("A", at(9, 0), at(11, 0)), occurrence("B", at(10, 0), at(12, 0))]);
    assert!(got.iter().all(|b| b.4 == 2), "overlap did not split the column");
    let columns: Vec<usize> = got.iter().map(|b| b.3).collect();
    assert_ne!(columns[0], columns[1], "overlapping events landed in one slot");
}

#[test]
fn three_way_overlap_uses_three_columns() {
    let got = layout(vec![
        occurrence("A", at(9, 0), at(12, 0)),
        occurrence("B", at(9, 30), at(11, 0)),
        occurrence("C", at(10, 0), at(10, 30)),
    ]);
    assert!(got.iter().all(|b| b.4 == 3));
}

#[test]
fn a_freed_column_is_reused() {
    let got = layout(vec![
        occurrence("A", at(9, 0), at(10, 0)),
        occurrence("B", at(9, 30), at(12, 0)),
        occurrence("C", at(10, 0), at(11, 0)),
    ]);
    assert!(got.iter().all(|b| b.4 == 2), "column was not reused");
}

#[test]
fn separate_clusters_do_not_narrow_each_other() {
    let got = layout(vec![
        occurrence("A", at(9, 0), at(10, 0)),
        occurrence("B", at(9, 30), at(10, 30)),
        occurrence("Later", at(15, 0), at(16, 0)),
    ]);
    let later = got.iter().find(|b| b.0 == "Later").unwrap();
    assert_eq!(later.4, 1, "a busy morning narrowed an unrelated afternoon event");
}

#[test]
fn an_event_running_in_from_yesterday_is_clipped_to_the_top() {
    let yesterday_evening =
        DateTime { date: Date { year: 2026, month: 8, day: 3 }, time: Time { hour: 22, minute: 0, second: 0 } };
    let got = layout(vec![occurrence("Overnight", yesterday_evening, at(2, 0))]);
    assert_eq!(got.len(), 1);
    assert!((got[0].1 - 0.0).abs() < 0.01, "did not clip to midnight");
    assert!((got[0].2 - 2.0 * HOUR_HEIGHT).abs() < 0.01, "wrong clipped height");
    assert!(layout_day(date(), &[occurrence("Overnight", yesterday_evening, at(2, 0))])[0].continues_from_earlier);
}

#[test]
fn all_day_events_stay_out_of_the_hour_grid() {
    let mut all_day = occurrence("Holiday", at(0, 0), at(23, 59));
    all_day.all_day = true;
    assert!(layout(vec![all_day]).is_empty());
}

#[test]
fn blocks_come_out_in_start_order() {
    let placed = layout_day(
        date(),
        &[occurrence("Late", at(15, 0), at(16, 0)), occurrence("Early", at(8, 0), at(9, 0))],
    );
    assert_eq!(placed.iter().map(|p| p.index).collect::<Vec<_>>(), vec![1, 0]);
}

#[test]
fn an_event_on_another_day_is_left_out() {
    let other = DateTime { date: Date { year: 2026, month: 8, day: 5 }, time: Time { hour: 9, minute: 0, second: 0 } };
    let end = DateTime { date: other.date, time: Time { hour: 10, minute: 0, second: 0 } };
    assert!(layout_day(date(), &[occurrence("Tomorrow", other, end)]).is_empty());
}
