//! Paging through the calendar: month arithmetic, week boundaries, the days
//! each view shows, header titles, and snapping time-grid drags.

use vstd::prelude::*;
use crate::config::{page_days_of, Config, ViewKind, AGENDA_DAYS};
use crate::date::{
    date_after, datetime_at, day_number, floor_div, instant, lemma_date_after, lemma_date_after_valid,
    lemma_datetime_at, lemma_day_number_bounds, max_day_number, min_day_number, month_days,
    prev_date, valid_ymd, weekday_from_number, weekday_index, weekday_number, year_in_range, Date,
    DateTime, Time, Weekday, MAX_YEAR, MIN_YEAR,
};
use chrono::Datelike;
use crate::text::{decimal_digits, push_padded, push_str, string_of, zero_padded};

verus! {

/// Rows of weeks in the month grid.
pub const MONTH_ROWS: i64 = 6;

/// Days in month `m` of year `y` as the day before the first of the next
/// month; 28 when either of those days cannot be named.
pub open spec fn days_in_month_spec(y: int, m: int) -> int {
    if m == 12 {
        if year_in_range(y) && year_in_range(y + 1) {
            31
        } else {
            28
        }
    } else if m == 0 {
        if year_in_range(y) && year_in_range(y - 1) {
            31
        } else {
            28
        }
    } else if 1 <= m <= 11 {
        if year_in_range(y) {
            month_days(y, m)
        } else {
            28
        }
    } else {
        28
    }
}

/// The length of a month, counted back from the first of the next one.
pub fn days_in_month(year: i32, month: u32) -> (r: u32)
    requires
        month == 12 ==> year < i32::MAX,
        month < u32::MAX,
    ensures
        r == days_in_month_spec(year as int, month as int),
{
    let (next_year, next_month) = if month == 12 {
        (year + 1, 1u32)
    } else {
        (year, month + 1)
    };
    match Date::from_ymd(next_year as i64, next_month as i64, 1) {
        Some(first) => match first.pred_opt() {
            Some(last) => {
                proof {
                    lemma_day_number_bounds(first);
                    if next_month == 1 {
                        assert(year_in_range(next_year - 1));
                    }
                }
                last.day as u32
            },
            None => 28,
        },
        None => 28,
    }
}

/// The month count since year 0 of `d`'s month, plus `delta`.
pub open spec fn month_count(d: Date, delta: int) -> int {
    d.year * 12 + (d.month - 1) + delta
}

/// Whether `add_months` can do its arithmetic for `d` and `delta`.
pub open spec fn add_months_fits(d: Date, delta: int) -> bool {
    let months = month_count(d, delta);
    &&& i64::MIN <= months <= i64::MAX
    &&& !(months / 12 == i32::MAX && months % 12 == 11)
}

/// `delta` calendar months after `d`, the day clamped to the target month's
/// length; `d` itself when the target cannot be named.
pub open spec fn add_months_spec(d: Date, delta: int) -> Date {
    let months = month_count(d, delta);
    let y = months / 12;
    let year = if i32::MIN <= y <= i32::MAX {
        y
    } else {
        d.year as int
    };
    let month = months % 12 + 1;
    let last = days_in_month_spec(year, month);
    let day = if d.day < last {
        d.day as int
    } else {
        last
    };
    if valid_ymd(year, month, day) {
        Date { year: year as i32, month: month as u8, day: day as u8 }
    } else {
        d
    }
}

/// Adds `delta` calendar months, so that 31 January plus one lands on the
/// last day of February.
pub fn add_months(date: Date, delta: i64) -> (r: Date)
    requires
        date.valid(),
        add_months_fits(date, delta as int),
    ensures
        r == add_months_spec(date, delta as int),
        r.valid(),
{
    let months = (date.year as i64) * 12 + (date.month as i64 - 1) + delta;
    let y = floor_div(months, 12);
    let month0 = months.checked_rem_euclid(12).unwrap();
    let year: i32 = if i32::MIN as i64 <= y && y <= i32::MAX as i64 {
        y as i32
    } else {
        date.year
    };
    let month = month0 as u32 + 1;
    let last = days_in_month(year, month);
    let day = if (date.day as u32) < last {
        date.day as u32
    } else {
        last
    };
    match Date::from_ymd(year as i64, month as i64, day as i64) {
        Some(d) => d,
        None => date,
    }
}

/// Stepping `k` months away and `k` back returns to a day no later than the
/// 28th, whenever the month stepped to can be named.
pub proof fn lemma_add_months_reversible(d: Date, k: int)
    requires
        d.valid(),
        d.day <= 28,
        year_in_range(month_count(d, k) / 12),
    ensures
        add_months_fits(d, k),
        add_months_fits(add_months_spec(d, k), -k),
        add_months_spec(add_months_spec(d, k), -k) == d,
{
    let months = month_count(d, k);
    let y = months / 12;
    let m = months % 12 + 1;
    assert(days_in_month_spec(y, m) >= 28);
    let e = add_months_spec(d, k);
    assert(e == Date { year: y as i32, month: m as u8, day: d.day });
    assert(month_count(e, -k) == d.year * 12 + (d.month - 1));
    assert(month_count(e, -k) / 12 == d.year) by {
        vstd::arithmetic::div_mod::lemma_fundamental_div_mod_converse(
            month_count(e, -k),
            12,
            d.year as int,
            d.month - 1,
        );
    }
    assert(month_count(e, -k) % 12 == d.month - 1) by {
        vstd::arithmetic::div_mod::lemma_fundamental_div_mod_converse(
            month_count(e, -k),
            12,
            d.year as int,
            d.month - 1,
        );
    }
    assert(days_in_month_spec(d.year as int, d.month as int) >= 28);
}

/// How many days `d` lies after the start of its week.
pub open spec fn week_offset(d: Date, first: Weekday) -> int {
    (weekday_index(d) - weekday_number(first)) % 7
}

/// The day number of the first day of `d`'s week.
pub open spec fn week_start_number(d: Date, first: Weekday) -> int {
    day_number(d) - week_offset(d, first)
}

/// The first day of the week holding `date`, weeks starting on `first`.
pub fn week_start(date: Date, first: Weekday) -> (r: Date)
    requires
        date.valid(),
        week_start_number(date, first) >= min_day_number(),
    ensures
        r.valid(),
        day_number(r) == week_start_number(date, first),
        r == date_after(date, -week_offset(date, first)),
        weekday_index(r) == weekday_number(first),
        day_number(date) - 6 <= day_number(r) <= day_number(date),
{
    let today = date.weekday().num_days_from_monday() as i64;
    let start = first.num_days_from_monday() as i64;
    let diff = today - start;
    let offset = if diff < 0 {
        diff + 7
    } else {
        diff
    };
    assert(offset == week_offset(date, first));
    let r = date.add_days(-offset);
    proof {
        lemma_date_after(date, -offset as int, r);
        let n = day_number(date);
        let f = weekday_number(first);
        assert(0 <= f < 7);
        assert((n - (n % 7 - f) % 7) % 7 == f) by (nonlinear_arith)
            requires
                0 <= f < 7,
        {
            let a = n % 7;
            let q = n / 7;
            vstd::arithmetic::div_mod::lemma_fundamental_div_mod(n, 7);
            if a >= f {
                assert((a - f) % 7 == a - f);
                vstd::arithmetic::div_mod::lemma_fundamental_div_mod_converse(n - (a - f), 7, q, f);
            } else {
                vstd::arithmetic::div_mod::lemma_fundamental_div_mod_converse(a - f, 7, -1, a - f + 7);
                vstd::arithmetic::div_mod::lemma_fundamental_div_mod_converse(
                    n - (a - f + 7),
                    7,
                    q - 1,
                    f,
                );
            }
        }
    }
    r
}

/// The days a view shows from `anchor`, as day numbers `[from, to)`. The
/// month grid always holds six full weeks; the year range reaches the week
/// edges of January and December.
pub open spec fn range_numbers(view: ViewKind, anchor: Date, first: Weekday) -> (int, int) {
    match view {
        ViewKind::Month => {
            let s = week_start_number(Date { day: 1, ..anchor }, first);
            (s, s + MONTH_ROWS * 7)
        },
        ViewKind::Week => {
            let s = week_start_number(anchor, first);
            (s, s + 7)
        },
        ViewKind::Agenda => (day_number(anchor), day_number(anchor) + AGENDA_DAYS),
        ViewKind::Year => (
            week_start_number(Date { year: anchor.year, month: 1, day: 1 }, first),
            week_start_number(Date { year: anchor.year, month: 12, day: 31 }, first) + 7,
        ),
        _ => (day_number(anchor), day_number(anchor) + 1),
    }
}

/// Whether a view's range from `anchor` lies within the dates that exist.
pub open spec fn range_fits(view: ViewKind, anchor: Date, first: Weekday) -> bool {
    min_day_number() <= range_numbers(view, anchor, first).0 && range_numbers(
        view,
        anchor,
        first,
    ).1 <= max_day_number()
}

/// The dates a view covers from `anchor`, start inclusive, end exclusive.
pub fn visible_range(view: ViewKind, anchor: Date, config: &Config) -> (r: (Date, Date))
    requires
        anchor.valid(),
        range_fits(view, anchor, config.first_weekday_spec()),
    ensures
        r.0.valid(),
        r.1.valid(),
        (day_number(r.0), day_number(r.1)) == range_numbers(view, anchor, config.first_weekday_spec()),
{
    let first = config.first_weekday();
    match view {
        ViewKind::Month => {
            let first_of_month = Date { day: 1, ..anchor };
            let start = week_start(first_of_month, first);
            (start, start.add_days(MONTH_ROWS * 7))
        },
        ViewKind::Week => {
            let start = week_start(anchor, first);
            (start, start.add_days(7))
        },
        ViewKind::Agenda => (anchor, anchor.add_days(AGENDA_DAYS)),
        ViewKind::Year => {
            let jan = Date { year: anchor.year, month: 1, day: 1 };
            let dec = Date { year: anchor.year, month: 12, day: 31 };
            (week_start(jan, first), week_start(dec, first).add_days(7))
        },
        _ => (anchor, anchor.add_days(1)),
    }
}

/// The seven weekdays in order, starting from `first`.
pub fn weekday_order(first: Weekday) -> (r: Vec<Weekday>)
    ensures
        r@.len() == 7,
        forall|i: int| 0 <= i < 7 ==> weekday_number(#[trigger] r@[i]) == (weekday_number(first) + i) % 7,
{
    let mut day = first;
    let mut out: Vec<Weekday> = Vec::new();
    let mut i: usize = 0;
    while i < 7
        invariant
            i <= 7,
            out@.len() == i,
            weekday_number(day) == (weekday_number(first) + i) % 7,
            forall|j: int| 0 <= j < i ==> weekday_number(#[trigger] out@[j]) == (weekday_number(first) + j) % 7,
        decreases 7 - i,
    {
        out.push(day);
        day = day.succ();
        i = i + 1;
    }
    out
}

/// Whether paging `direction` pages from `anchor` stays among the dates that
/// exist.
pub open spec fn step_fits(view: ViewKind, anchor: Date, direction: int) -> bool {
    match view {
        ViewKind::Month => add_months_fits(anchor, direction),
        ViewKind::Year => i64::MIN <= direction * 12 <= i64::MAX && add_months_fits(anchor, direction * 12),
        _ => min_day_number() <= day_number(anchor) + page_days_of(view) * direction <= max_day_number(),
    }
}

/// Where the anchor lands after paging `direction` pages: whole months in
/// month view, whole years in year view, else that many pages of days.
pub open spec fn step_spec(view: ViewKind, anchor: Date, direction: int) -> Date {
    match view {
        ViewKind::Month => add_months_spec(anchor, direction),
        ViewKind::Year => add_months_spec(anchor, direction * 12),
        _ => date_after(anchor, page_days_of(view) * direction),
    }
}

/// Pages the anchor date `direction` pages forward (backward when negative).
pub fn step_anchor(view: ViewKind, anchor: Date, direction: i64) -> (r: Date)
    requires
        anchor.valid(),
        step_fits(view, anchor, direction as int),
    ensures
        r.valid(),
        r == step_spec(view, anchor, direction as int),
{
    match view {
        ViewKind::Month => add_months(anchor, direction),
        ViewKind::Year => add_months(anchor, direction * 12),
        _ => {
            let page = view.page_days();
            proof {
                lemma_day_number_bounds(anchor);
                assert(-200_000_000 <= min_day_number() && max_day_number() <= 200_000_000);
                assert(-400_000_000 <= page * direction <= 400_000_000);
            }
            let r = anchor.add_days(page * direction);
            proof {
                lemma_date_after(anchor, page * direction, r);
            }
            r
        },
    }
}

/// The minute of the day a time rounds to on a `step`-minute grid, kept
/// inside the day.
pub open spec fn snapped_minutes(t: Time, step: int) -> int {
    let minutes = t.hour * 60 + t.minute;
    let s = (minutes + step / 2) / step * step;
    if s < 0 {
        0
    } else if s > 1440 - step {
        1440 - step
    } else {
        s
    }
}

/// `t` rounded to the nearest `step` minutes on its own day.
pub open spec fn snap_spec(t: DateTime, step: int) -> DateTime {
    let s = snapped_minutes(t.time, step);
    DateTime { date: t.date, time: Time { hour: (s / 60) as u8, minute: (s % 60) as u8, second: 0 } }
}

/// Rounds to the nearest `step`-minute mark, never leaving the day.
pub fn snap_to(t: DateTime, step: i64) -> (r: DateTime)
    requires
        t.valid(),
        0 < step <= 1440,
    ensures
        r == snap_spec(t, step as int),
        r.valid(),
        0 <= r.time.hour * 60 + r.time.minute <= 1440 - step,
{
    let minutes = (t.time.hour as i64) * 60 + t.time.minute as i64;
    let q = (minutes + step / 2) / step;
    assert(0 <= q <= minutes + step) by (nonlinear_arith)
        requires
            q == (minutes + step / 2) as int / step as int,
            0 <= minutes,
            0 < step,
    ;
    assert(q * step <= 2 * 1440 + 2 * step) by (nonlinear_arith)
        requires
            q == (minutes + step / 2) as int / step as int,
            0 <= minutes < 1440,
            0 < step,
    {
        vstd::arithmetic::div_mod::lemma_fundamental_div_mod(minutes + step / 2, step as int);
    }
    let raw = q * step;
    let snapped = if raw < 0 {
        0
    } else if raw > 1440 - step {
        1440 - step
    } else {
        raw
    };
    DateTime {
        date: t.date,
        time: Time { hour: (snapped / 60) as u8, minute: (snapped % 60) as u8, second: 0 },
    }
}

/// Identity and span of a time-grid block under the pointer.
#[derive(Clone, Debug)]
pub struct GridBlockRef {
    pub calendar_id: String,
    pub uid: String,
    /// For one occurrence of a series, which one: seconds since the epoch.
    pub rid: Option<i64>,
    pub start: DateTime,
    pub end: DateTime,
    /// Whether the press landed on the bottom resize strip.
    pub resize: bool,
}

/// A pointer gesture on the time grid, resolved on release.
#[derive(Clone, Debug)]
pub enum GridDrag {
    /// A block was grabbed at `pressed_at`; moving shifts it, or its end.
    Block { block: GridBlockRef, pressed_at: DateTime, moved: bool },
    /// Empty grid space went down at `anchor`; moving sweeps out a new span.
    Create { anchor: DateTime, current: DateTime, moved: bool },
}

/// The date-time `minutes` minutes after `dt`.
pub open spec fn later_by(dt: DateTime, minutes: int) -> DateTime {
    datetime_at(instant(dt) + minutes * 60)
}

/// Whether instant `i` falls on a date that exists.
pub open spec fn instant_fits(i: int) -> bool {
    min_day_number() * 86400 <= i < (max_day_number() + 1) * 86400
}

/// Where a moved block starts, before snapping: the pointer, less how far
/// into the block it was grabbed.
pub open spec fn grabbed_start(block: GridBlockRef, pressed_at: DateTime, cursor: DateTime) -> int {
    instant(cursor) - (instant(pressed_at) - instant(block.start))
}

/// The span a drag would commit if released at `cursor` now: `None` until the
/// pointer has moved. A resize keeps the start and never ends earlier than
/// one step after it; a move keeps the length and the grab point; a sweep is
/// ordered forwards and lasts at least one step.
pub open spec fn ghost_spec(drag: GridDrag, cursor: DateTime, snap: int) -> Option<(DateTime, DateTime)> {
    match drag {
        GridDrag::Block { block, pressed_at, moved } => {
            if !moved {
                None
            } else if block.resize {
                let s = snap_spec(cursor, snap);
                let floor = instant(block.start) + snap * 60;
                if instant(s) >= floor {
                    Some((block.start, s))
                } else {
                    Some((block.start, later_by(block.start, snap)))
                }
            } else {
                let start = snap_spec(datetime_at(grabbed_start(block, pressed_at, cursor)), snap);
                Some(
                    (
                        start,
                        datetime_at(instant(start) + (instant(block.end) - instant(block.start))),
                    ),
                )
            }
        },
        GridDrag::Create { anchor, current, moved } => {
            if !moved {
                None
            } else {
                let swept = snap_spec(current, snap);
                let (from, to) = if instant(swept) >= instant(anchor) {
                    (anchor, swept)
                } else {
                    (swept, anchor)
                };
                if instant(to) <= instant(from) {
                    Some((from, later_by(from, snap)))
                } else {
                    Some((from, to))
                }
            }
        },
    }
}

/// The date-times a drag holds are real, and every date-time the ghost needs
/// exists.
pub open spec fn ghost_fits(drag: GridDrag, cursor: DateTime, snap: int) -> bool {
    &&& cursor.valid()
    &&& 0 < snap <= 1440
    &&& match drag {
        GridDrag::Block { block, pressed_at, moved } => {
            &&& block.start.valid()
            &&& block.end.valid()
            &&& pressed_at.valid()
            &&& (moved && block.resize ==> instant_fits(instant(block.start) + snap * 60))
            &&& (moved && !block.resize ==> {
                let g = grabbed_start(block, pressed_at, cursor);
                &&& instant_fits(g)
                &&& instant_fits(
                    instant(snap_spec(datetime_at(g), snap)) + (instant(block.end) - instant(
                        block.start,
                    )),
                )
            })
        },
        GridDrag::Create { anchor, current, moved } => {
            &&& anchor.valid()
            &&& current.valid()
            &&& (moved ==> instant_fits(instant(anchor) + snap * 60) && instant_fits(
                instant(snap_spec(current, snap)) + snap * 60,
            ))
        },
    }
}

proof fn lemma_instant_bounds(dt: DateTime)
    requires
        dt.valid(),
    ensures
        instant_fits(instant(dt)),
{
    lemma_day_number_bounds(dt.date);
}

/// `dt` moved by `secs` seconds, named by its instant.
fn shifted(dt: DateTime, secs: i64) -> (r: DateTime)
    requires
        dt.valid(),
        instant_fits(instant(dt) + secs),
    ensures
        r.valid(),
        r == datetime_at(instant(dt) + secs),
        instant(r) == instant(dt) + secs,
{
    let r = dt.add_seconds(secs);
    proof {
        lemma_datetime_at(r);
    }
    r
}

/// The span a drag would commit if released now: the ghost's rectangle, and
/// the value the commit itself uses. A sweep always runs forward, a resize
/// keeps the start and lasts at least one step, and a move keeps the length.
pub fn ghost_span(drag: &GridDrag, cursor: DateTime, snap: i64) -> (r: Option<(DateTime, DateTime)>)
    requires
        ghost_fits(*drag, cursor, snap as int),
    ensures
        r == ghost_spec(*drag, cursor, snap as int),
        r matches Some((a, b)) ==> a.valid() && b.valid(),
        r matches Some((a, b)) ==> match *drag {
            GridDrag::Create { .. } => instant(a) < instant(b),
            GridDrag::Block { block, .. } => if block.resize {
                a == block.start && instant(b) >= instant(block.start) + snap * 60
            } else {
                instant(b) - instant(a) == instant(block.end) - instant(block.start)
            },
        },
{
    proof {
        lemma_instant_bounds(cursor);
    }
    match drag {
        GridDrag::Block { block, pressed_at, moved } => {
            if !*moved {
                return None;
            }
            proof {
                lemma_instant_bounds(block.start);
                lemma_instant_bounds(block.end);
                lemma_instant_bounds(*pressed_at);
            }
            if block.resize {
                let s = snap_to(cursor, snap);
                let floor = shifted(block.start, snap * 60);
                if s.instant() >= floor.instant() {
                    proof {
                        lemma_datetime_at(floor);
                    }
                    Some((block.start, s))
                } else {
                    Some((block.start, floor))
                }
            } else {
                let back = pressed_at.instant() - block.start.instant();
                let grabbed = shifted(cursor, -back);
                let start = snap_to(grabbed, snap);
                let length = block.end.instant() - block.start.instant();
                let end = shifted(start, length);
                Some((start, end))
            }
        },
        GridDrag::Create { anchor, current, moved } => {
            if !*moved {
                return None;
            }
            proof {
                lemma_instant_bounds(*anchor);
                lemma_instant_bounds(*current);
            }
            let swept = snap_to(*current, snap);
            let (from, to) = if swept.instant() >= anchor.instant() {
                (*anchor, swept)
            } else {
                (swept, *anchor)
            };
            if to.instant() <= from.instant() {
                Some((from, shifted(from, snap * 60)))
            } else {
                Some((from, to))
            }
        },
    }
}

/// The message id of a month's full name; out-of-range numbers name December.
pub fn month_name(month: u32) -> (r: &'static str)
    ensures
        r@ == month_name_id(month as int),
{
    match month {
        1 => "month-january",
        2 => "month-february",
        3 => "month-march",
        4 => "month-april",
        5 => "month-may",
        6 => "month-june",
        7 => "month-july",
        8 => "month-august",
        9 => "month-september",
        10 => "month-october",
        11 => "month-november",
        _ => "month-december",
    }
}

pub open spec fn month_name_id(month: int) -> Seq<char> {
    if month == 1 {
        "month-january"@
    } else if month == 2 {
        "month-february"@
    } else if month == 3 {
        "month-march"@
    } else if month == 4 {
        "month-april"@
    } else if month == 5 {
        "month-may"@
    } else if month == 6 {
        "month-june"@
    } else if month == 7 {
        "month-july"@
    } else if month == 8 {
        "month-august"@
    } else if month == 9 {
        "month-september"@
    } else if month == 10 {
        "month-october"@
    } else if month == 11 {
        "month-november"@
    } else {
        "month-december"@
    }
}

pub open spec fn weekday_short_id(w: Weekday) -> Seq<char> {
    match w {
        Weekday::Mon => "weekday-mon"@,
        Weekday::Tue => "weekday-tue"@,
        Weekday::Wed => "weekday-wed"@,
        Weekday::Thu => "weekday-thu"@,
        Weekday::Fri => "weekday-fri"@,
        Weekday::Sat => "weekday-sat"@,
        Weekday::Sun => "weekday-sun"@,
    }
}

/// The message id of a weekday's short name, for column headers.
pub fn weekday_short(w: Weekday) -> (r: &'static str)
    ensures
        r@ == weekday_short_id(w),
{
    match w {
        Weekday::Mon => "weekday-mon",
        Weekday::Tue => "weekday-tue",
        Weekday::Wed => "weekday-wed",
        Weekday::Thu => "weekday-thu",
        Weekday::Fri => "weekday-fri",
        Weekday::Sat => "weekday-sat",
        Weekday::Sun => "weekday-sun",
    }
}

/// What the header names for a view: the parts of its title, which the
/// interface words in the user's language.
#[derive(Clone, Copy, Debug, PartialEq, Eq, Structural)]
pub enum RangeTitle {
    /// A month and its year.
    Month { month: u8, year: i32 },
    /// A week within one month: its first day of the month, then its last
    /// date in full.
    WeekInMonth { first_day: u8, last: Date },
    /// Two dates, each with day and month, then the last one's year.
    Span { first: Date, last: Date },
    /// One day, with its weekday.
    Day { weekday: Weekday, date: Date },
    Year(i32),
    /// The task list, which names no dates.
    Tasks,
}

/// Whether the dates a title names exist.
pub open spec fn title_fits(view: ViewKind, anchor: Date, first: Weekday) -> bool {
    match view {
        ViewKind::Week => week_start_number(anchor, first) >= min_day_number()
            && week_start_number(anchor, first) + 6 <= max_day_number(),
        ViewKind::Agenda => day_number(anchor) + AGENDA_DAYS - 1 <= max_day_number(),
        _ => true,
    }
}

/// The title the header shows for a view anchored at `anchor`.
pub open spec fn title_spec(view: ViewKind, anchor: Date, first: Weekday) -> RangeTitle {
    match view {
        ViewKind::Month => RangeTitle::Month { month: anchor.month, year: anchor.year },
        ViewKind::Week => {
            let s = date_after(anchor, -week_offset(anchor, first));
            let e = date_after(s, 6);
            if s.month == e.month {
                RangeTitle::WeekInMonth { first_day: s.day, last: e }
            } else {
                RangeTitle::Span { first: s, last: e }
            }
        },
        ViewKind::Day => RangeTitle::Day { weekday: crate::date::weekday_of_number(weekday_index(anchor)), date: anchor },
        ViewKind::Agenda => RangeTitle::Span { first: anchor, last: date_after(anchor, AGENDA_DAYS - 1) },
        ViewKind::Year => RangeTitle::Year(anchor.year),
        ViewKind::Tasks => RangeTitle::Tasks,
    }
}

/// The header title for a view and anchor date.
pub fn range_title(view: ViewKind, anchor: Date, config: &Config) -> (r: RangeTitle)
    requires
        anchor.valid(),
        title_fits(view, anchor, config.first_weekday_spec()),
    ensures
        r == title_spec(view, anchor, config.first_weekday_spec()),
{
    proof {
        lemma_day_number_bounds(anchor);
    }
    match view {
        ViewKind::Month => RangeTitle::Month { month: anchor.month, year: anchor.year },
        ViewKind::Week => {
            let start = week_start(anchor, config.first_weekday());
            let end = start.add_days(6);
            proof {
                lemma_date_after(start, 6, end);
            }
            if start.month == end.month {
                RangeTitle::WeekInMonth { first_day: start.day, last: end }
            } else {
                RangeTitle::Span { first: start, last: end }
            }
        },
        ViewKind::Day => {
            let w = anchor.weekday();
            proof {
                assert(crate::date::weekday_of_number(weekday_number(w)) == w);
            }
            RangeTitle::Day { weekday: w, date: anchor }
        },
        ViewKind::Agenda => {
            let end = anchor.add_days(AGENDA_DAYS - 1);
            proof {
                lemma_date_after(anchor, AGENDA_DAYS - 1, end);
            }
            RangeTitle::Span { first: anchor, last: end }
        },
        ViewKind::Year => RangeTitle::Year(anchor.year),
        ViewKind::Tasks => RangeTitle::Tasks,
    }
}

/// A time of day as the settings want it: `14:05`, or `2:05 PM`.
pub open spec fn time_text(t: Time, h24: bool) -> Seq<char> {
    let mm = zero_padded(decimal_digits(t.minute as nat), 2);
    if h24 {
        zero_padded(decimal_digits(t.hour as nat), 2) + ":"@ + mm
    } else {
        let h12 = if t.hour % 12 == 0 {
            12
        } else {
            t.hour % 12
        };
        decimal_digits(h12 as nat) + ":"@ + mm + if t.hour < 12 {
            " AM"@
        } else {
            " PM"@
        }
    }
}

/// Formats a time of day, honouring the 24-hour setting.
pub fn format_time(time: Time, config: &Config) -> (r: String)
    requires
        time.valid(),
    ensures
        r@ == time_text(time, config.time_24h),
{
    let mut out: Vec<char> = Vec::new();
    if config.time_24h {
        push_padded(&mut out, time.hour as u32, 2);
        push_str(&mut out, ":");
        push_padded(&mut out, time.minute as u32, 2);
    } else {
        let h12: u32 = if time.hour % 12 == 0 {
            12
        } else {
            (time.hour % 12) as u32
        };
        push_padded(&mut out, h12, 0);
        assert(zero_padded(decimal_digits(h12 as nat), 0) == decimal_digits(h12 as nat));
        push_str(&mut out, ":");
        push_padded(&mut out, time.minute as u32, 2);
        if time.hour < 12 {
            push_str(&mut out, " AM");
        } else {
            push_str(&mut out, " PM");
        }
    }
    string_of(out.as_slice())
}

/// The Thursday of a date's week, weeks starting on Monday.
pub open spec fn week_thursday(d: Date) -> Date {
    date_after(d, 3 - weekday_index(d))
}

/// The ISO 8601 week number of a date: weeks start on Monday, and a week
/// belongs to the year its Thursday falls in, so that week 1 is the one
/// holding that year's first Thursday.
pub open spec fn iso_week_spec(d: Date) -> int {
    let th = week_thursday(d);
    (day_number(th) - day_number(Date { year: th.year, month: 1, day: 1 })) / 7 + 1
}

/// Whether the Thursday of a date's week is a date that can be held.
pub open spec fn thursday_fits(d: Date) -> bool {
    min_day_number() <= day_number(d) - weekday_index(d) + 3 <= max_day_number()
}

/// The ISO 8601 week number of a date, through chrono's `NaiveDate::iso_week`
/// and `IsoWeek::week`. Claimed of it: the ISO 8601 week, as chrono's
/// documentation states, wherever the week's Thursday is a date chrono
/// holds; from 1 to 53 in any case.
#[verifier::external_body]
fn iso_week(year: i32, month: u8, day: u8) -> (r: u32)
    requires
        valid_ymd(year as int, month as int, day as int),
    ensures
        thursday_fits(Date { year, month, day }) ==> r == iso_week_spec(Date { year, month, day }),
        1 <= r <= 53,
{
    chrono::NaiveDate::from_ymd_opt(year, month as u32, day as u32).unwrap().iso_week().week()
}

/// The ISO week number, shown in the gutter when the setting is on.
pub fn week_number(date: Date) -> (r: u32)
    requires
        date.valid(),
    ensures
        thursday_fits(date) ==> r == iso_week_spec(date),
        1 <= r <= 53,
{
    iso_week(date.year, date.month, date.day)
}

/// The month grid covers its whole month: it starts on or before the first
/// and ends after the last day, six weeks on, on the configured weekday.
pub proof fn lemma_month_range_covers(anchor: Date, first: Weekday)
    requires
        anchor.valid(),
    ensures
        ({
            let (from, to) = range_numbers(ViewKind::Month, anchor, first);
            let d1 = day_number(Date { day: 1, ..anchor });
            &&& from <= d1
            &&& d1 - 6 <= from
            &&& to - from == 42
            &&& to > day_number(Date { day: month_days(anchor.year as int, anchor.month as int) as u8, ..anchor })
        }),
{
    let f = Date { day: 1, ..anchor };
    assert(0 <= week_offset(f, first) < 7);
}

/// The year range covers the whole year: it starts on or before 1 January
/// and ends after 31 December.
pub proof fn lemma_year_range_covers(anchor: Date, first: Weekday)
    ensures
        ({
            let (from, to) = range_numbers(ViewKind::Year, anchor, first);
            &&& from <= day_number(Date { year: anchor.year, month: 1, day: 1 })
            &&& to > day_number(Date { year: anchor.year, month: 12, day: 31 })
        }),
{
    let jan = Date { year: anchor.year, month: 1, day: 1 };
    let dec = Date { year: anchor.year, month: 12, day: 31 };
    assert(0 <= week_offset(jan, first) < 7);
    assert(0 <= week_offset(dec, first) < 7);
}

/// When a new event starts by default: on today's date, the next whole hour
/// (but no later than 23:00); on any other day, 09:00.
pub open spec fn default_start_spec(anchor: Date, today: Date, now_hour: int) -> DateTime {
    let hour = if anchor == today {
        if now_hour + 1 < 23 {
            now_hour + 1
        } else {
            23
        }
    } else {
        9
    };
    DateTime { date: anchor, time: Time { hour: hour as u8, minute: 0, second: 0 } }
}

/// When a new event on `anchor` starts by default, the clock reading hour
/// `now_hour`.
pub fn default_new_event_time(anchor: Date, today: Date, now_hour: u8) -> (r: DateTime)
    requires
        now_hour < 24,
    ensures
        r == default_start_spec(anchor, today, now_hour as int),
        r.time.valid(),
{
    let hour: u8 = if anchor == today {
        if now_hour + 1 < 23 {
            now_hour + 1
        } else {
            23
        }
    } else {
        9
    };
    DateTime { date: anchor, time: Time { hour, minute: 0, second: 0 } }
}

/// A chip's time range: the two times when it starts and ends on one day,
/// else each with its date, which the interface writes as the day and the
/// month's name.
pub enum RangeLabel {
    SameDay { start: String, end: String },
    Span { start_date: Date, start: String, end_date: Date, end: String },
}

/// The label of the time range `[start, end)` for an occurrence's chip.
pub fn format_range(start: DateTime, end: DateTime, config: &Config) -> (r: RangeLabel)
    requires
        start.time.valid(),
        end.time.valid(),
    ensures
        match r {
            RangeLabel::SameDay { start: s, end: e } => start.date == end.date && s@ == time_text(
                start.time,
                config.time_24h,
            ) && e@ == time_text(end.time, config.time_24h),
            RangeLabel::Span { start_date, start: s, end_date, end: e } => start.date != end.date
                && start_date == start.date && end_date == end.date && s@ == time_text(start.time, config.time_24h)
                && e@ == time_text(end.time, config.time_24h),
        },
{
    let s = format_time(start.time, config);
    let e = format_time(end.time, config);
    if start.date == end.date {
        RangeLabel::SameDay { start: s, end: e }
    } else {
        RangeLabel::Span { start_date: start.date, start: s, end_date: end.date, end: e }
    }
}

/// Chips a month cell shows before it folds the rest into "n more".
pub const MAX_CHIPS_PER_DAY: usize = 3;

/// How a month cell lists a day's `count` occurrences: how many chips it
/// shows, and how many it folds into a "more" button.
pub fn day_chips(count: usize) -> (r: (usize, usize))
    ensures
        r.0 == if count > MAX_CHIPS_PER_DAY {
            MAX_CHIPS_PER_DAY
        } else {
            count
        },
        r.0 + r.1 == count,
{
    if count > MAX_CHIPS_PER_DAY {
        (MAX_CHIPS_PER_DAY, count - MAX_CHIPS_PER_DAY)
    } else {
        (count, 0)
    }
}

/// How busy a day with `count` occurrences looks in the year view: one step
/// for each of the thresholds 1, 3 and 5 it reaches. Four steps, because the
/// eye reads four and not fourteen.
pub open spec fn busy_level_spec(count: int) -> int {
    (if count >= 1 {
        1int
    } else {
        0
    }) + (if count >= 3 {
        1int
    } else {
        0
    }) + (if count >= 5 {
        1int
    } else {
        0
    })
}

/// How busy a day with `count` occurrences looks in the year view.
pub fn busy_level(count: usize) -> (r: usize)
    ensures
        r == busy_level_spec(count as int),
        r <= 3,
{
    let mut level: usize = 0;
    if count >= 1 {
        level = level + 1;
    }
    if count >= 3 {
        level = level + 1;
    }
    if count >= 5 {
        level = level + 1;
    }
    level
}

/// A busier day never looks lighter.
pub proof fn lemma_busy_level_monotone(a: int, b: int)
    requires
        a <= b,
    ensures
        busy_level_spec(a) <= busy_level_spec(b),
{
}


/// What letting go of the pointer on the time grid does.
#[derive(Clone, Debug)]
pub enum Release {
    /// A block was clicked, not dragged: open it.
    Open(GridBlockRef),
    /// A block was moved or resized: save it over this span.
    Commit(GridBlockRef, DateTime, DateTime),
    /// Empty space was clicked: a new event at the top of that hour.
    NewAt(DateTime),
    /// Empty space was swept: a new event over this span.
    NewSpan(DateTime, DateTime),
    /// Nothing: the block ended where it was, or the pointer is off the grid.
    Nothing,
}

/// The date-times a release needs exist: for a dragged block, where the
/// pointer is; for a sweep, where it went.
pub open spec fn release_fits(drag: GridDrag, cursor: Option<DateTime>, snap: int) -> bool {
    match drag {
        GridDrag::Block { moved, .. } => match cursor {
            Some(c) => moved ==> ghost_fits(drag, c, snap),
            None => true,
        },
        GridDrag::Create { anchor, current, moved } => anchor.valid() && (moved ==> ghost_fits(
            drag,
            current,
            snap,
        )),
    }
}

/// What a release does, the pointer last seen at `cursor`.
pub open spec fn release_spec(drag: GridDrag, cursor: Option<DateTime>, snap: int) -> Release {
    match drag {
        GridDrag::Block { block, moved, .. } => if !moved {
            Release::Open(block)
        } else {
            match cursor {
                None => Release::Nothing,
                Some(c) => match ghost_spec(drag, c, snap) {
                    Some((a, b)) => if a == block.start && b == block.end {
                        Release::Nothing
                    } else {
                        Release::Commit(block, a, b)
                    },
                    None => Release::Nothing,
                },
            }
        },
        GridDrag::Create { anchor, current, moved } => if !moved {
            Release::NewAt(
                DateTime { date: anchor.date, time: Time { hour: anchor.time.hour, minute: 0, second: 0 } },
            )
        } else {
            match ghost_spec(drag, current, snap) {
                Some((a, b)) => Release::NewSpan(a, b),
                None => Release::Nothing,
            }
        },
    }
}

/// Resolves a gesture on the time grid when the pointer is let go: a click
/// opens the block or starts an event on the hour, a drag commits the span
/// its ghost showed, and a block let go where it was changes nothing.
pub fn release(drag: GridDrag, cursor: Option<DateTime>, snap: i64) -> (r: Release)
    requires
        release_fits(drag, cursor, snap as int),
    ensures
        r == release_spec(drag, cursor, snap as int),
{
    let moved = match &drag {
        GridDrag::Block { moved, .. } => *moved,
        GridDrag::Create { moved, .. } => *moved,
    };
    if !moved {
        return match drag {
            GridDrag::Block { block, .. } => Release::Open(block),
            GridDrag::Create { anchor, .. } => Release::NewAt(
                DateTime { date: anchor.date, time: Time { hour: anchor.time.hour, minute: 0, second: 0 } },
            ),
        };
    }
    match &drag {
        GridDrag::Block { .. } => {
            let c = match cursor {
                Some(c) => c,
                None => {
                    return Release::Nothing;
                },
            };
            let span = ghost_span(&drag, c, snap);
            match drag {
                GridDrag::Block { block, .. } => match span {
                    Some((a, b)) => {
                        if a == block.start && b == block.end {
                            Release::Nothing
                        } else {
                            Release::Commit(block, a, b)
                        }
                    },
                    None => Release::Nothing,
                },
                GridDrag::Create { .. } => Release::Nothing,
            }
        },
        GridDrag::Create { current, .. } => {
            let at = *current;
            match ghost_span(&drag, at, snap) {
                Some((a, b)) => Release::NewSpan(a, b),
                None => Release::Nothing,
            }
        },
    }
}

/// Paging one page forward and then one back returns to the same anchor:
/// always in day, week and agenda views, and in month and year views when
/// the day is one every month has (the 28th or earlier). The page forward
/// must land on a date that can be held.
pub proof fn lemma_page_forth_and_back(view: ViewKind, anchor: Date)
    requires
        anchor.valid(),
        match view {
            ViewKind::Month => anchor.day <= 28 && year_in_range(month_count(anchor, 1) / 12),
            ViewKind::Year => anchor.day <= 28 && year_in_range(month_count(anchor, 12) / 12),
            _ => day_number(anchor) + page_days_of(view) <= max_day_number(),
        },
    ensures
        step_fits(view, anchor, 1),
        step_fits(view, step_spec(view, anchor, 1), -1),
        step_spec(view, step_spec(view, anchor, 1), -1) == anchor,
{
    match view {
        ViewKind::Month => {
            lemma_add_months_reversible(anchor, 1);
        },
        ViewKind::Year => {
            lemma_add_months_reversible(anchor, 12);
        },
        _ => {
            let p = page_days_of(view) as int;
            lemma_day_number_bounds(anchor);
            assert(p >= 0);
            lemma_date_after_valid(anchor, p);
            let s = date_after(anchor, p);
            lemma_date_after(s, -p, anchor);
        },
    }
}

} // verus!
