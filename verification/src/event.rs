//! Events and their occurrences: when an event happens, read in the form its
//! file wrote it (a date, a floating wall-clock time, or a time in a named
//! zone), and single instances placed on the local wall clock.

use vstd::prelude::*;
use chrono::{Datelike, Offset, TimeZone, Timelike};
use crate::date::{
    date_after, datetime_at, day_number, lemma_date_after, instant, lemma_datetime_at, lemma_day_number_bounds, max_day_number,
    min_day_number, Date, DateTime, Time,
};
use crate::recurrence::{parse_recurrence, Freq, Recurrence, RepeatEnd};
use crate::text::{push_str, string_of};

verus! {

/// One materialised instance of an event, on the local wall clock.
#[derive(Clone, Debug)]
pub struct Occurrence {
    pub uid: String,
    pub calendar_id: String,
    pub summary: String,
    pub location: Option<String>,
    pub all_day: bool,
    pub start: DateTime,
    /// Exclusive.
    pub end: DateTime,
    /// For a member of a series, the instant naming which instance it is, in
    /// seconds since the epoch; `None` for a one-off event.
    pub recurrence_id: Option<i64>,
}

/// A copy of an occurrence, field for field.
pub(crate) fn copy_occurrence(o: &Occurrence) -> (r: Occurrence)
    ensures
        r == *o,
{
    Occurrence {
        uid: o.uid.clone(),
        calendar_id: o.calendar_id.clone(),
        summary: o.summary.clone(),
        location: match &o.location {
            Some(l) => Some(l.clone()),
            None => None,
        },
        all_day: o.all_day,
        start: o.start,
        end: o.end,
        recurrence_id: o.recurrence_id,
    }
}

/// The first instant of `date`.
pub open spec fn day_start(date: Date) -> int {
    day_number(date) * 86400
}

impl Occurrence {
    /// The date-times it holds are real.
    pub open spec fn valid(self) -> bool {
        self.start.valid() && self.end.valid()
    }

    /// Whether it covers any part of `date`: starting before the day ends and
    /// ending after it begins.
    pub open spec fn covers_spec(self, date: Date) -> bool {
        instant(self.start) < day_start(date) + 86400 && instant(self.end) > day_start(date)
    }

    /// Whether this occurrence covers any part of `date`; the end is
    /// exclusive, so ending at midnight does not touch the next day.
    pub fn covers(&self, date: Date) -> (r: bool)
        requires
            self.valid(),
            date.valid(),
            day_number(date) < max_day_number(),
        ensures
            r == self.covers_spec(date),
    {
        proof {
            lemma_day_number_bounds(date);
        }
        let day_start = date.day_number() * 86400;
        let day_end = day_start + 86400;
        self.start.instant() < day_end && self.end.instant() > day_start
    }

    /// Sort key: all-day first, then by start, then by title.
    pub fn sort_key(&self) -> (r: (bool, DateTime, String))
        ensures
            r.0 == !self.all_day,
            r.1 == self.start,
            r.2@ == self.summary@,
    {
        (!self.all_day, self.start, self.summary.clone())
    }
}

/// How a `DTSTART` or `DTEND` was written: kept as written, so that saving an
/// event does not rewrite the zone another program chose for it.
#[derive(Clone, Debug, PartialEq, Eq)]
pub enum EventTime {
    /// A date alone: an all-day event.
    Date(Date),
    /// A floating wall-clock time, "9am wherever the viewer is".
    Floating(DateTime),
    /// A wall-clock time in the zone with this IANA name (`UTC` for a `Z`
    /// stamp).
    Zoned(DateTime, String),
}

/// How a wall-clock time reads in a zone: one instant, two (a fold, earliest
/// first), or none (a gap). Instants are seconds since 1970-01-01 UTC.
#[derive(Clone, Copy, Debug, PartialEq, Eq, Structural)]
pub enum LocalMatch {
    Single(i64),
    Ambiguous(i64, i64),
    Gap,
}

/// 1970-01-01T00:00:00 as an instant on this library's scale.
pub open spec fn epoch() -> int {
    day_number(Date { year: 1970, month: 1, day: 1 }) * 86400
}

/// The Unix time of a wall-clock reading taken as UTC.
pub open spec fn utc_seconds(dt: DateTime) -> int {
    instant(dt) - epoch()
}

/// What the zone database says of a wall-clock reading in the named zone;
/// `None` when no zone has that name.
pub uninterp spec fn local_match(zone: Seq<char>, local: int) -> Option<LocalMatch>;

/// What the wall clock reads in the named zone at a Unix time; `None` when
/// no zone has that name, or the reading falls outside the dates chrono can
/// hold.
pub uninterp spec fn wall_clock(zone: Seq<char>, unix: int) -> Option<DateTime>;

/// Whether a Unix time falls on a date that exists.
pub open spec fn unix_fits(t: int) -> bool {
    min_day_number() * 86400 <= t + epoch() < (max_day_number() + 1) * 86400
}

/// Whether Unix time `t` lies within a day of the wall-clock instant `local`:
/// what a zone offset, which chrono's `FixedOffset` keeps under a day, can
/// move a reading.
pub open spec fn near(t: int, local: int) -> bool {
    local - 86400 < t + epoch() < local + 86400
}

/// How a wall-clock time reads in a zone, through chrono-tz: the zone is
/// parsed from its name (`str::parse::<chrono_tz::Tz>`), then asked
/// `TimeZone::from_local_datetime`. Claimed of it: the result is a function
/// of the name and the reading; every instant it gives is one a chrono
/// `DateTime<Utc>` can hold, that is, on a date that exists; and it differs
/// from the reading by the zone's offset, which is under a day.
#[verifier::external_body]
pub(crate) fn local_in_zone(zone: &str, local: DateTime) -> (r: Option<LocalMatch>)
    requires
        local.valid(),
    ensures
        r == local_match(zone@, instant(local)),
        r matches Some(LocalMatch::Single(t)) ==> unix_fits(t as int) && near(t as int, instant(local)),
        r matches Some(LocalMatch::Ambiguous(a, b)) ==> unix_fits(a as int) && unix_fits(b as int)
            && near(a as int, instant(local)) && near(b as int, instant(local)),
{
    let tz: chrono_tz::Tz = zone.parse().ok()?;
    let d = chrono::NaiveDate::from_ymd_opt(local.date.year, local.date.month as u32, local.date.day as u32)?;
    let naive = d.and_hms_opt(local.time.hour as u32, local.time.minute as u32, local.time.second as u32)?;
    Some(match tz.from_local_datetime(&naive) {
        chrono::LocalResult::Single(t) => LocalMatch::Single(t.timestamp()),
        chrono::LocalResult::Ambiguous(a, b) => LocalMatch::Ambiguous(a.timestamp(), b.timestamp()),
        chrono::LocalResult::None => LocalMatch::Gap,
    })
}

/// The wall clock in a zone at a Unix time, through chrono-tz: the zone
/// parsed from its name, `TimeZone::timestamp_opt`, then the zone's offset
/// added with `NaiveDateTime::checked_add_offset`, which gives `None` where
/// the reading would leave chrono's range (the check `naive_local` would
/// panic on). Claimed of it: the result is a function of the name and the
/// time, a reading it gives is a real date and time, and it differs from
/// the time by the zone's offset, which is under a day.
#[verifier::external_body]
pub(crate) fn wall_clock_in_zone(zone: &str, unix: i64) -> (r: Option<DateTime>)
    ensures
        r == wall_clock(zone@, unix as int),
        r matches Some(dt) ==> dt.valid() && near(unix as int, instant(dt)),
{
    let tz: chrono_tz::Tz = zone.parse().ok()?;
    let at = tz.timestamp_opt(unix, 0).single()?;
    let t = at.naive_utc().checked_add_offset(at.offset().fix())?;
    Some(DateTime {
        date: Date { year: t.year(), month: t.month() as u8, day: t.day() as u8 },
        time: Time { hour: t.hour() as u8, minute: t.minute() as u8, second: t.second() as u8 },
    })
}

/// The instant a wall-clock reading in a zone refers to. A fold takes its
/// earliest reading; a gap is read an hour later, which lands after the
/// change; and a reading that still names nothing, or a zone that does not
/// exist, is read as UTC.
pub open spec fn resolve_spec(dt: DateTime, zone: Seq<char>) -> int {
    match local_match(zone, instant(dt)) {
        Some(LocalMatch::Single(t)) => t as int,
        Some(LocalMatch::Ambiguous(t, _)) => t as int,
        Some(LocalMatch::Gap) => match local_match(zone, instant(dt) + 3600) {
            Some(LocalMatch::Single(t)) => t as int,
            Some(LocalMatch::Ambiguous(t, _)) => t as int,
            _ => utc_seconds(dt),
        },
        None => utc_seconds(dt),
    }
}

/// Whether a reading and the reading an hour later are both real.
pub open spec fn resolvable(dt: DateTime) -> bool {
    dt.valid() && instant(dt) + 3600 < (max_day_number() + 1) * 86400
}

pub(crate) fn epoch_exec() -> (r: i64)
    ensures
        r == epoch(),
{
    let d = Date { year: 1970, month: 1, day: 1 };
    d.day_number() * 86400
}

/// The Unix time a wall-clock reading in a zone refers to, tolerating
/// daylight-saving gaps and folds.
pub fn resolve(dt: DateTime, zone: &str) -> (r: i64)
    requires
        resolvable(dt),
    ensures
        r == resolve_spec(dt, zone@),
        unix_fits(r as int),
        instant(dt) - 90000 < r + epoch() < instant(dt) + 90000,
{
    proof {
        lemma_day_number_bounds(dt.date);
    }
    let as_utc = dt.instant() - epoch_exec();
    match local_in_zone(zone, dt) {
        Some(LocalMatch::Single(t)) => t,
        Some(LocalMatch::Ambiguous(t, _)) => t,
        Some(LocalMatch::Gap) => {
            let later = dt.add_seconds(3600);
            match local_in_zone(zone, later) {
                Some(LocalMatch::Single(t)) => t,
                Some(LocalMatch::Ambiguous(t, _)) => t,
                _ => as_utc,
            }
        },
        None => as_utc,
    }
}

impl EventTime {
    /// The wall-clock reading it holds, midnight for a date.
    pub open spec fn reading(self) -> DateTime {
        match self {
            EventTime::Date(d) => DateTime { date: d, time: Time { hour: 0, minute: 0, second: 0 } },
            EventTime::Floating(dt) => dt,
            EventTime::Zoned(dt, _) => dt,
        }
    }

    /// The readings it holds are real, and so is the one an hour later.
    pub open spec fn valid(self) -> bool {
        resolvable(self.reading())
    }

    /// The Unix time it refers to, floating times read in `local`.
    pub open spec fn utc_spec(self, local: Seq<char>) -> int {
        match self {
            EventTime::Zoned(dt, tz) => resolve_spec(dt, tz@),
            _ => resolve_spec(self.reading(), local),
        }
    }

    /// The wall clock the user sees, in zone `local`. Dates and floating
    /// times are already wall-clock; a zoned time is moved into `local`, or
    /// read as UTC when `local` names no zone.
    pub open spec fn local_spec(self, local: Seq<char>) -> DateTime {
        match self {
            EventTime::Zoned(..) => match wall_clock(local, self.utc_spec(local)) {
                Some(w) => w,
                None => datetime_at(self.utc_spec(local) + epoch()),
            },
            _ => self.reading(),
        }
    }

    /// The wall-clock reading it holds, midnight for a date.
    pub fn reading_exec(&self) -> (r: DateTime)
        ensures
            r == self.reading(),
    {
        match self {
            EventTime::Date(d) => DateTime { date: *d, time: Time::midnight() },
            EventTime::Floating(dt) => *dt,
            EventTime::Zoned(dt, _) => *dt,
        }
    }

    pub fn is_all_day(&self) -> (r: bool)
        ensures
            r == (*self is Date),
    {
        match self {
            EventTime::Date(_) => true,
            _ => false,
        }
    }

    /// The Unix time this refers to, resolving floating times against the
    /// zone named `local`.
    pub fn to_utc(&self, local: &str) -> (r: i64)
        requires
            self.valid(),
        ensures
            r == self.utc_spec(local@),
            unix_fits(r as int),
            instant(self.reading()) - 90000 < r + epoch() < instant(self.reading()) + 90000,
    {
        match self {
            EventTime::Date(d) => resolve(DateTime { date: *d, time: Time::midnight() }, local),
            EventTime::Floating(dt) => resolve(*dt, local),
            EventTime::Zoned(dt, tz) => resolve(*dt, tz.as_str()),
        }
    }

    /// The wall-clock time the user sees, in the zone named `local`.
    pub fn naive_local(&self, local: &str) -> (r: DateTime)
        requires
            self.valid(),
        ensures
            r == self.local_spec(local@),
            r.valid(),
            instant(self.reading()) - 176400 < instant(r) < instant(self.reading()) + 176400,
    {
        match self {
            EventTime::Date(d) => DateTime { date: *d, time: Time::midnight() },
            EventTime::Floating(dt) => *dt,
            EventTime::Zoned(..) => {
                let t = self.to_utc(local);
                match wall_clock_in_zone(local, t) {
                    Some(w) => w,
                    None => {
                        let r = DateTime { date: Date { year: 1970, month: 1, day: 1 }, time: Time::midnight() };
                        proof {
                            lemma_day_number_bounds(r.date);
                        }
                        let w = r.add_seconds(t);
                        proof {
                            lemma_datetime_at(w);
                        }
                        w
                    },
                }
            },
        }
    }

    /// The local calendar date this time falls on.
    pub fn date(&self, local: &str) -> (r: Date)
        requires
            self.valid(),
        ensures
            r == self.local_spec(local@).date,
    {
        self.naive_local(local).date
    }

    /// The same kind of time with a new wall-clock reading: a date keeps
    /// only the reading's date, a zoned time keeps its zone.
    pub fn with_naive(&self, dt: DateTime) -> (r: EventTime)
        ensures
            match *self {
                EventTime::Date(_) => r == EventTime::Date(dt.date),
                EventTime::Floating(_) => r == EventTime::Floating(dt),
                EventTime::Zoned(_, tz) => r matches EventTime::Zoned(d, z) && d == dt && z@ == tz@,
            },
    {
        match self {
            EventTime::Date(_) => EventTime::Date(dt.date),
            EventTime::Floating(_) => EventTime::Floating(dt),
            EventTime::Zoned(_, tz) => EventTime::Zoned(dt, tz.clone()),
        }
    }
}

/// A single event, as one `.ics` file stores it.
#[derive(Clone, Debug)]
pub struct Event {
    pub uid: String,
    /// The collection directory it lives in.
    pub calendar_id: String,
    pub summary: String,
    pub description: Option<String>,
    pub location: Option<String>,
    pub start: EventTime,
    /// Exclusive: an all-day event on the 4th ends on the 5th.
    pub end: EventTime,
    /// The `RRULE` value as written, kept verbatim.
    pub rrule: Option<String>,
    /// Occurrences deleted from a series.
    pub exdates: Vec<DateTime>,
    pub sequence: i32,
    /// Unix times.
    pub created: Option<i64>,
    pub last_modified: Option<i64>,
    /// The file name within the collection directory.
    pub file_name: String,
}

/// A fresh random identifier, through `uuid::Uuid::new_v4` and its hyphenated
/// text form. Nothing is claimed of the value: it is random.
#[verifier::external_body]
pub(crate) fn fresh_uuid() -> (r: String) {
    uuid::Uuid::new_v4().to_string()
}

/// The current Unix time, through `chrono::Utc::now` and `DateTime::timestamp`.
/// The value is the clock's; claimed of it only that it lies on a date that
/// exists, as every chrono `DateTime<Utc>` does.
#[verifier::external_body]
pub(crate) fn now_unix() -> (r: i64)
    ensures
        unix_fits(r as int),
{
    chrono::Utc::now().timestamp()
}

impl Event {
    /// A new, blank event in `calendar_id` starting at `start` in the zone
    /// named `local`, lasting an hour, with a fresh identifier.
    pub fn draft(calendar_id: &str, start: DateTime, local: &str) -> (r: Event)
        requires
            start.valid(),
            instant(start) + 7200 < (max_day_number() + 1) * 86400,
        ensures
            exists|u: Seq<char>| r.uid@ == u + "@cosmic-calendar"@,
            r.file_name@ == r.uid@ + ".ics"@,
            r.calendar_id@ == calendar_id@,
            r.summary@.len() == 0,
            r.description is None,
            r.location is None,
            r.start matches EventTime::Zoned(dt, z) && dt == start && z@ == local@,
            r.end matches EventTime::Zoned(dt, z) && dt.valid() && instant(dt) == instant(start) + 3600
                && z@ == local@,
            r.rrule is None,
            r.exdates@.len() == 0,
            r.sequence == 0,
            r.created is Some,
            r.last_modified is Some,
    {
        let id = fresh_uuid();
        let mut uid: Vec<char> = crate::text::chars_of(id.as_str());
        let ghost u = uid@;
        push_str(&mut uid, "@cosmic-calendar");
        let mut file: Vec<char> = Vec::new();
        crate::text::push_all(&mut file, uid.as_slice());
        push_str(&mut file, ".ics");
        proof {
            lemma_day_number_bounds(start.date);
        }
        let end = start.add_seconds(3600);
        Event {
            uid: string_of(uid.as_slice()),
            calendar_id: crate::text::owned(calendar_id),
            summary: String::new(),
            description: None,
            location: None,
            start: EventTime::Zoned(start, crate::text::owned(local)),
            end: EventTime::Zoned(end, crate::text::owned(local)),
            rrule: None,
            exdates: Vec::new(),
            sequence: 0,
            created: Some(now_unix()),
            last_modified: Some(now_unix()),
            file_name: string_of(file.as_slice()),
        }
    }

    pub fn is_all_day(&self) -> (r: bool)
        ensures
            r == (self.start is Date),
    {
        self.start.is_all_day()
    }

    pub fn is_recurring(&self) -> (r: bool)
        ensures
            r == (self.rrule is Some),
    {
        self.rrule.is_some()
    }

    /// The editor's reading of the repeat rule: no rule is "never", and a rule
    /// too complex to edit reads as `None`.
    pub fn recurrence(&self) -> (r: Option<Recurrence>)
        ensures
            r == match self.rrule {
                None => Some(Recurrence { freq: Freq::Never, interval: 1, end: RepeatEnd::Never }),
                Some(rule) => parse_recurrence(rule@),
            },
    {
        match &self.rrule {
            None => Some(Recurrence::default()),
            Some(rule) => Recurrence::parse(rule.as_str()),
        }
    }

    /// Seconds from start to end, used to place expanded occurrences. A file
    /// whose end is not after its start lasts a day if all-day, else an hour.
    pub fn duration(&self, local: &str) -> (r: i64)
        requires
            self.start.valid(),
            self.end.valid(),
        ensures
            r == duration_spec(*self, local@),
            0 < r <= forward_span(*self) + 180000,
    {
        let a = self.start.to_utc(local);
        let b = self.end.to_utc(local);
        proof {
            assert(-200_000_000 <= min_day_number() && max_day_number() <= 200_000_000);
            assert(0 <= epoch() <= 100_000_000_000);
        }
        let d = b - a;
        if d <= 0 {
            if self.is_all_day() {
                86400
            } else {
                3600
            }
        } else {
            d
        }
    }
}

/// How long an event lasts, in seconds: from the instant of its start to that
/// of its end, or a day (all-day) or an hour when the end is not after the
/// start.
pub open spec fn duration_spec(e: Event, local: Seq<char>) -> int {
    let d = e.end.utc_spec(local) - e.start.utc_spec(local);
    if d <= 0 {
        if e.start is Date {
            86400
        } else {
            3600
        }
    } else {
        d
    }
}

/// How far an event's end reading lies after its start reading, or 0.
pub open spec fn forward_span(e: Event) -> int {
    let d = instant(e.end.reading()) - instant(e.start.reading());
    if d >= 0 {
        d
    } else {
        0
    }
}

/// Whole days in `delta` seconds, rounded toward zero.
pub open spec fn whole_days(delta: int) -> int {
    if delta >= 0 {
        delta / 86400
    } else {
        -((-delta) / 86400)
    }
}

/// Whether moving `t` by `delta` seconds keeps it among real dates.
pub open spec fn shift_fits(t: EventTime, delta: int) -> bool {
    match t {
        EventTime::Date(d) => min_day_number() <= day_number(d) + whole_days(delta) <= max_day_number(),
        _ => min_day_number() * 86400 <= instant(t.reading()) + delta < (max_day_number() + 1) * 86400,
    }
}

/// `t` moved by `delta` seconds, kept as the same kind of time; a date
/// moves by the whole days in `delta`.
pub open spec fn shift_spec(t: EventTime, delta: int) -> EventTime {
    match t {
        EventTime::Date(d) => EventTime::Date(date_after(d, whole_days(delta))),
        EventTime::Floating(dt) => EventTime::Floating(datetime_at(instant(dt) + delta)),
        EventTime::Zoned(dt, z) => EventTime::Zoned(datetime_at(instant(dt) + delta), z),
    }
}

/// Whether moving `t` by `delta` seconds keeps it among real dates.
pub fn shift_fits_exec(t: &EventTime, delta: i64) -> (r: bool)
    requires
        t.reading().valid(),
    ensures
        r == shift_fits(*t, delta as int),
{
    let lo = Date { year: crate::date::MIN_YEAR, month: 1, day: 1 };
    let hi = Date { year: crate::date::MAX_YEAR, month: 12, day: 31 };
    proof {
        lemma_day_number_bounds(lo);
        lemma_day_number_bounds(hi);
        lemma_day_number_bounds(t.reading().date);
    }
    let lo_day = lo.day_number() as i128;
    let hi_day = hi.day_number() as i128;
    match t {
        EventTime::Date(d) => {
            let days: i128 = if delta >= 0 {
                (delta as i128) / 86400
            } else {
                -((-(delta as i128)) / 86400)
            };
            let n = d.day_number() as i128 + days;
            lo_day <= n && n <= hi_day
        },
        _ => {
            let at = t.reading_exec().instant() as i128 + delta as i128;
            lo_day * 86400 <= at && at < (hi_day + 1) * 86400
        },
    }
}

/// The same kind of time moved by `delta` seconds; a date moves by the whole
/// days in `delta`.
pub fn shift_time(t: &EventTime, delta: i64) -> (r: EventTime)
    requires
        t.reading().valid(),
        shift_fits(*t, delta as int),
    ensures
        match *t {
            EventTime::Date(d) => r matches EventTime::Date(e) && e.valid() && day_number(e)
                == day_number(d) + whole_days(delta as int),
            EventTime::Floating(dt) => r matches EventTime::Floating(e) && e.valid() && instant(e)
                == instant(dt) + delta,
            EventTime::Zoned(dt, z) => r matches EventTime::Zoned(e, y) && e.valid() && instant(e)
                == instant(dt) + delta && y@ == z@,
        },
        r.reading() == shift_spec(*t, delta as int).reading(),
        r is Date <==> t is Date,
        r is Floating <==> t is Floating,
{
    proof {
        lemma_day_number_bounds(t.reading().date);
    }
    match t {
        EventTime::Date(d) => {
            let days = if delta >= 0 {
                delta / 86400
            } else {
                -((-(delta as i128)) / 86400) as i64
            };
            let e = d.add_days(days);
            proof {
                lemma_date_after(*d, days as int, e);
            }
            EventTime::Date(e)
        },
        EventTime::Floating(dt) => {
            let e = dt.add_seconds(delta);
            proof {
                lemma_datetime_at(e);
            }
            EventTime::Floating(e)
        },
        EventTime::Zoned(dt, z) => {
            let e = dt.add_seconds(delta);
            proof {
                lemma_datetime_at(e);
            }
            EventTime::Zoned(e, z.clone())
        },
    }
}

} // verus!
