//! Events as iCalendar files store them: one `VEVENT` per `.ics` file in a
//! collection directory, the layout vdirsyncer and khal use, so that a
//! collection can be synced to a CalDAV server with no export step.
//!
//! The icalendar crate reads and writes the text. What this module decides is
//! how its values become the library's events and back: which properties are
//! read, what a missing `DTEND` means, how `EXDATE` lists are read and
//! written, and how each kind of date-time maps onto an event time.

use vstd::prelude::*;
use chrono::{Datelike, Timelike};
use icalendar::{CalendarDateTime, Component, DatePerhapsTime};
use crate::date::{
    date_after, datetime_at, day_number, instant, lemma_date_after, lemma_datetime_at,
    lemma_day_number_bounds, max_day_number, min_day_number, valid_ymd, Date, DateTime, Time,
};
use crate::event::{epoch, epoch_exec, unix_fits, utc_seconds, Event, EventTime};
use crate::recurrence::{parse_compact_date, until_date};
use crate::text::{
    all_digits, chars_of, parse_unsigned, decimal_digits, decimal_value, opt_view, owned, push_padded, push_str,
    split_exec, split_on, string_of, trim, trimmed, views, zero_padded,
};

verus! {

#[verifier::external_type_specification]
#[verifier::external_body]
pub struct ExCalendar(icalendar::Calendar);

#[verifier::external_type_specification]
#[verifier::external_body]
pub struct ExCalendarComponent(icalendar::CalendarComponent);

/// A date or date-time as an iCalendar file holds it, counted the way chrono
/// counts: dates as days of the common era (1 January of year 1 is day 1),
/// wall-clock readings as their seconds from 1970 read as UTC.
pub enum IcsTime {
    /// A `DATE` value.
    Date(i32),
    /// A `DATE-TIME` with no zone.
    Floating(i64),
    /// A `DATE-TIME` in UTC (written with a trailing `Z`), as a Unix time.
    Utc(i64),
    /// A `DATE-TIME` with a `TZID` parameter, and the zone's name.
    Zoned(i64, String),
}

/// What the library reads of, or writes to, one `VEVENT`.
pub struct IcsEvent {
    pub uid: Option<String>,
    pub summary: Option<String>,
    pub description: Option<String>,
    pub location: Option<String>,
    pub start: Option<IcsTime>,
    pub end: Option<IcsTime>,
    pub rrule: Option<String>,
    /// The values of the `EXDATE` lines, when the file repeats the property.
    pub exdates: Option<Vec<String>>,
    /// The value of a single `EXDATE` line.
    pub exdate: Option<String>,
    pub sequence: Option<u32>,
    /// Unix times.
    pub created: Option<i64>,
    pub last_modified: Option<i64>,
}

/// Whether an iCalendar time holds a value chrono can hold.
pub open spec fn ics_time_ok(t: IcsTime) -> bool {
    match t {
        IcsTime::Date(n) => min_day_number() + 1 <= n <= max_day_number() + 1,
        IcsTime::Floating(s) => unix_fits(s as int),
        IcsTime::Utc(s) => unix_fits(s as int),
        IcsTime::Zoned(s, _) => unix_fits(s as int),
    }
}

/// Whether chrono-tz knows a zone by this name.
pub uninterp spec fn known_zone(name: Seq<char>) -> bool;


/// Whether a zone name is one chrono-tz knows, through
/// `str::parse::<chrono_tz::Tz>`, which looks the exact name up in its
/// table. Claimed of it: the answer is a function of the name, and `UTC` is
/// known.
#[verifier::external_body]
pub(crate) fn zone_is_known(name: &str) -> (r: bool)
    ensures
        r == known_zone(name@),
        name@ == "UTC"@ ==> r,
{
    name.parse::<chrono_tz::Tz>().is_ok()
}

/// A property as icalendar holds it: its name, its value, and its
/// parameters by name.
pub struct PropView {
    pub key: Seq<char>,
    pub value: Seq<char>,
    pub params: Map<Seq<char>, Seq<char>>,
}

/// A component's properties as icalendar holds them: one per name, and the
/// repeatable ones, in the order they were added, under their name.
pub struct EventView {
    pub props: Map<Seq<char>, PropView>,
    pub multi: Map<Seq<char>, Seq<PropView>>,
}

/// One component of a calendar: whether it is a `VEVENT`, and its
/// properties.
pub type ComponentView = (bool, EventView);

/// A date or date-time as plain values, counted as `IcsTime` counts.
pub enum TimeView {
    Date(int),
    Floating(int),
    Utc(int),
    Zoned(int, Seq<char>),
}

pub open spec fn time_view(t: IcsTime) -> TimeView {
    match t {
        IcsTime::Date(n) => TimeView::Date(n as int),
        IcsTime::Floating(s) => TimeView::Floating(s as int),
        IcsTime::Utc(s) => TimeView::Utc(s as int),
        IcsTime::Zoned(s, tz) => TimeView::Zoned(s as int, tz@),
    }
}

pub open spec fn opt_time_view(t: Option<IcsTime>) -> Option<TimeView> {
    match t {
        Some(t) => Some(time_view(t)),
        None => None,
    }
}

/// What `str::parse::<icalendar::Calendar>` gives for a text: `None` when it
/// does not parse, else its components in order.
pub uninterp spec fn ics_read(text: Seq<char>) -> Option<Seq<ComponentView>>;

/// Whether icalendar parses this text as a calendar.
pub open spec fn ics_parses(text: Seq<char>) -> bool {
    ics_read(text) is Some
}

/// What a calendar holds: its components in order.
pub uninterp spec fn calendar_components(cal: icalendar::Calendar) -> Seq<ComponentView>;

/// How icalendar reads a date or date-time property, through
/// `DatePerhapsTime::from_property`: `None` when the value does not parse.
pub uninterp spec fn date_perhaps_time(p: PropView) -> Option<TimeView>;

/// How icalendar reads a UTC stamp such as `CREATED`, as a Unix time:
/// `None` when the value does not parse.
pub uninterp spec fn utc_read(value: Seq<char>) -> Option<int>;

/// The property named `key` of the component at `i`, when it is a `VEVENT`
/// that has one.
pub open spec fn prop_of(comps: Seq<ComponentView>, i: int, key: Seq<char>) -> Option<PropView> {
    if 0 <= i < comps.len() && comps[i].0 && comps[i].1.props.contains_key(key) {
        Some(comps[i].1.props[key])
    } else {
        None
    }
}

pub open spec fn value_of(comps: Seq<ComponentView>, i: int, key: Seq<char>) -> Option<Seq<char>> {
    match prop_of(comps, i, key) {
        Some(p) => Some(p.value),
        None => None,
    }
}

/// The values of a repeatable property of the `VEVENT` at `i`, in order.
pub open spec fn values_of(comps: Seq<ComponentView>, i: int, key: Seq<char>) -> Option<Seq<Seq<char>>> {
    if 0 <= i < comps.len() && comps[i].0 && comps[i].1.multi.contains_key(key) {
        Some(comps[i].1.multi[key].map_values(|p: PropView| p.value))
    } else {
        None
    }
}

pub open spec fn time_of(comps: Seq<ComponentView>, i: int, key: Seq<char>) -> Option<TimeView> {
    match prop_of(comps, i, key) {
        Some(p) => date_perhaps_time(p),
        None => None,
    }
}

/// `SEQUENCE` as `Component::get_sequence` reads it: the value parsed as a
/// `u32`.
pub open spec fn sequence_of(comps: Seq<ComponentView>, i: int) -> Option<int> {
    match value_of(comps, i, "SEQUENCE"@) {
        Some(v) => parse_unsigned(v, 0xffff_ffff),
        None => None,
    }
}

pub open spec fn utc_of(comps: Seq<ComponentView>, i: int, key: Seq<char>) -> Option<int> {
    match value_of(comps, i, key) {
        Some(v) => utc_read(v),
        None => None,
    }
}

/// Parses an iCalendar text, through `str::parse::<icalendar::Calendar>`.
/// Claimed of it: whether the text parses, and the components it gives, are
/// a function of the text.
#[verifier::external_body]
fn parse_calendar(text: &str) -> (r: Option<icalendar::Calendar>)
    ensures
        match r {
            Some(c) => ics_read(text@) == Some(calendar_components(c)),
            None => ics_read(text@) is None,
        },
{
    text.parse().ok()
}

/// How many components a calendar holds.
#[verifier::external_body]
fn component_count(cal: &icalendar::Calendar) -> (r: usize)
    ensures
        r == calendar_components(*cal).len(),
{
    cal.components.len()
}

/// Whether the component at `i` is a `VEVENT`.
#[verifier::external_body]
fn is_vevent(cal: &icalendar::Calendar, i: usize) -> (r: bool)
    ensures
        r == (i < calendar_components(*cal).len() && calendar_components(*cal)[i as int].0),
{
    matches!(cal.components.get(i), Some(icalendar::CalendarComponent::Event(_)))
}

/// A property's value in the `VEVENT` at `i`, through
/// `icalendar::Component::property_value`, which looks the name up among the
/// component's properties.
#[verifier::external_body]
fn vevent_value(cal: &icalendar::Calendar, i: usize, key: &str) -> (r: Option<String>)
    ensures
        opt_view(r) == value_of(calendar_components(*cal), i as int, key@),
{
    match cal.components.get(i)? {
        icalendar::CalendarComponent::Event(ev) => ev.property_value(key).map(|v| v.to_owned()),
        _ => None,
    }
}

/// The values of a property the `VEVENT` at `i` repeats, through
/// `Component::multi_properties`.
#[verifier::external_body]
fn vevent_values(cal: &icalendar::Calendar, i: usize, key: &str) -> (r: Option<Vec<String>>)
    ensures
        match r {
            Some(v) => values_of(calendar_components(*cal), i as int, key@) == Some(
                v@.map_values(|s: String| s@),
            ),
            None => values_of(calendar_components(*cal), i as int, key@) is None,
        },
{
    match cal.components.get(i)? {
        icalendar::CalendarComponent::Event(ev) => {
            ev.multi_properties().get(key).map(|ps| ps.iter().map(|p| p.value().to_owned()).collect())
        },
        _ => None,
    }
}

/// A date-time property of the `VEVENT` at `i` as icalendar reads it, through
/// `DatePerhapsTime::from_property`, which is how `get_start` and `get_end`
/// read `DTSTART` and `DTEND`. Claimed of it besides: the value is one
/// chrono holds.
#[verifier::external_body]
fn vevent_time(cal: &icalendar::Calendar, i: usize, key: &str) -> (r: Option<IcsTime>)
    ensures
        opt_time_view(r) == match prop_of(calendar_components(*cal), i as int, key@) {
            Some(p) => date_perhaps_time(p),
            None => None,
        },
        r matches Some(t) ==> ics_time_ok(t),
{
    let icalendar::CalendarComponent::Event(ev) = cal.components.get(i)? else { return None };
    Some(match DatePerhapsTime::from_property(ev.properties().get(key)?)? {
        DatePerhapsTime::Date(d) => IcsTime::Date(d.num_days_from_ce()),
        DatePerhapsTime::DateTime(CalendarDateTime::Floating(dt)) => IcsTime::Floating(dt.and_utc().timestamp()),
        DatePerhapsTime::DateTime(CalendarDateTime::Utc(dt)) => IcsTime::Utc(dt.timestamp()),
        DatePerhapsTime::DateTime(CalendarDateTime::WithTimezone { date_time, tzid }) => {
            IcsTime::Zoned(date_time.and_utc().timestamp(), tzid)
        },
    })
}

/// `SEQUENCE` of the `VEVENT` at `i`, through `Component::get_sequence`,
/// which parses the value as a `u32`.
#[verifier::external_body]
fn vevent_sequence(cal: &icalendar::Calendar, i: usize) -> (r: Option<u32>)
    ensures
        match r {
            Some(n) => sequence_of(calendar_components(*cal), i as int) == Some(n as int),
            None => sequence_of(calendar_components(*cal), i as int) is None,
        },
{
    match cal.components.get(i)? {
        icalendar::CalendarComponent::Event(ev) => ev.get_sequence(),
        _ => None,
    }
}

/// `CREATED` of the `VEVENT` at `i` as a Unix time, through
/// `Component::get_created`. Claimed of it besides: the time is one chrono
/// holds.
#[verifier::external_body]
fn vevent_created(cal: &icalendar::Calendar, i: usize) -> (r: Option<i64>)
    ensures
        match r {
            Some(t) => Some(t as int),
            None => None,
        } == match value_of(calendar_components(*cal), i as int, "CREATED"@) {
            Some(v) => utc_read(v),
            None => None,
        },
        r matches Some(t) ==> unix_fits(t as int),
{
    match cal.components.get(i)? {
        icalendar::CalendarComponent::Event(ev) => ev.get_created().map(|t| t.timestamp()),
        _ => None,
    }
}

/// `LAST-MODIFIED` of the `VEVENT` at `i` as a Unix time, through
/// `Component::get_last_modified`. Claimed of it besides: the time is one
/// chrono holds.
#[verifier::external_body]
fn vevent_last_modified(cal: &icalendar::Calendar, i: usize) -> (r: Option<i64>)
    ensures
        match r {
            Some(t) => Some(t as int),
            None => None,
        } == match value_of(calendar_components(*cal), i as int, "LAST-MODIFIED"@) {
            Some(v) => utc_read(v),
            None => None,
        },
        r matches Some(t) ==> unix_fits(t as int),
{
    match cal.components.get(i)? {
        icalendar::CalendarComponent::Event(ev) => ev.get_last_modified().map(|t| t.timestamp()),
        _ => None,
    }
}

/// The date of day `n` of the common era.
pub open spec fn date_of_ce(n: int) -> Date {
    date_after(Date { year: 1, month: 1, day: 1 }, n - 1)
}

/// The day of the common era a date is.
pub open spec fn ce_of(d: Date) -> int {
    day_number(d) + 1
}

/// The wall-clock reading of `s` seconds from 1970, read as UTC.
pub open spec fn reading_of(s: int) -> DateTime {
    datetime_at(s + epoch())
}

/// `r` is the event time an iCalendar time reads as: a UTC stamp as a time
/// in `UTC`, a `TZID` chrono-tz knows as a time in that zone, and one it does
/// not know as a floating time.
pub open spec fn time_from_ics(t: IcsTime, r: EventTime) -> bool {
    match t {
        IcsTime::Date(n) => r == EventTime::Date(date_of_ce(n as int)),
        IcsTime::Floating(s) => r == EventTime::Floating(reading_of(s as int)),
        IcsTime::Utc(s) => r matches EventTime::Zoned(dt, z) && dt == reading_of(s as int) && z@ == "UTC"@,
        IcsTime::Zoned(s, tz) => if known_zone(tz@) {
            r matches EventTime::Zoned(dt, z) && dt == reading_of(s as int) && z@ == tz@
        } else {
            r == EventTime::Floating(reading_of(s as int))
        },
    }
}

/// `r` is the iCalendar time an event time is written as: a time in `UTC`
/// as a UTC stamp, any other zone by its name.
pub open spec fn time_to_ics(t: EventTime, r: IcsTime) -> bool {
    match t {
        EventTime::Date(d) => r == IcsTime::Date(ce_of(d) as i32),
        EventTime::Floating(dt) => r == IcsTime::Floating(utc_seconds(dt) as i64),
        EventTime::Zoned(dt, z) => if z@ == "UTC"@ {
            r == IcsTime::Utc(utc_seconds(dt) as i64)
        } else {
            r matches IcsTime::Zoned(s, tz) && s == utc_seconds(dt) && tz@ == z@
        },
    }
}

proof fn lemma_first_day()
    ensures
        day_number((Date { year: 1, month: 1, day: 1 })) == 0,
        (Date { year: 1, month: 1, day: 1 }).valid(),
        max_day_number() + 1 < 0x7fff_ffff,
        min_day_number() + 1 > -0x7fff_ffff,
{
}

fn date_of_ce_exec(n: i32) -> (r: Date)
    requires
        min_day_number() + 1 <= n <= max_day_number() + 1,
    ensures
        r == date_of_ce(n as int),
        r.valid(),
        day_number(r) == n - 1,
{
    let first = Date { year: 1, month: 1, day: 1 };
    proof {
        lemma_first_day();
    }
    let d = first.add_days(n as i64 - 1);
    proof {
        lemma_date_after(first, n - 1, d);
    }
    d
}

fn reading_of_exec(s: i64) -> (r: DateTime)
    requires
        unix_fits(s as int),
    ensures
        r == reading_of(s as int),
        r.valid(),
        instant(r) == s + epoch(),
{
    let base = DateTime { date: Date { year: 1970, month: 1, day: 1 }, time: Time::midnight() };
    proof {
        lemma_day_number_bounds(base.date);
    }
    let r = base.add_seconds(s);
    proof {
        lemma_datetime_at(r);
    }
    r
}

fn seconds_of(dt: DateTime) -> (r: i64)
    requires
        dt.valid(),
    ensures
        r == utc_seconds(dt),
        unix_fits(r as int),
{
    proof {
        lemma_day_number_bounds(dt.date);
    }
    dt.instant() - epoch_exec()
}

/// The instant an iCalendar time's reading is, on this library's scale.
pub open spec fn ics_instant(t: IcsTime) -> int {
    match t {
        IcsTime::Date(n) => (n - 1) * 86400,
        IcsTime::Floating(s) => s + epoch(),
        IcsTime::Utc(s) => s + epoch(),
        IcsTime::Zoned(s, _) => s + epoch(),
    }
}

/// The event time an iCalendar time reads as.
pub fn to_event_time(t: &IcsTime) -> (r: EventTime)
    requires
        ics_time_ok(*t),
    ensures
        time_from_ics(*t, r),
        r.reading().valid(),
        instant(r.reading()) == ics_instant(*t),
{
    match t {
        IcsTime::Date(n) => EventTime::Date(date_of_ce_exec(*n)),
        IcsTime::Floating(s) => EventTime::Floating(reading_of_exec(*s)),
        IcsTime::Utc(s) => EventTime::Zoned(reading_of_exec(*s), owned("UTC")),
        IcsTime::Zoned(s, tz) => if zone_is_known(tz.as_str()) {
            EventTime::Zoned(reading_of_exec(*s), tz.clone())
        } else {
            EventTime::Floating(reading_of_exec(*s))
        },
    }
}

/// The iCalendar time an event time is written as.
pub fn from_event_time(t: &EventTime) -> (r: IcsTime)
    requires
        t.reading().valid(),
    ensures
        time_to_ics(*t, r),
        ics_time_ok(r),
{
    match t {
        EventTime::Date(d) => {
            proof {
                lemma_day_number_bounds(*d);
                lemma_first_day();
            }
            IcsTime::Date((d.day_number() + 1) as i32)
        },
        EventTime::Floating(dt) => IcsTime::Floating(seconds_of(*dt)),
        EventTime::Zoned(dt, z) => if crate::text::str_equal(z.as_str(), "UTC") {
            IcsTime::Utc(seconds_of(*dt))
        } else {
            IcsTime::Zoned(seconds_of(*dt), z.clone())
        },
    }
}

/// An event time read back from what it is written as is the same time,
/// when its zone is one chrono-tz knows.
pub proof fn lemma_time_roundtrip(t: EventTime, written: IcsTime, back: EventTime)
    requires
        t.reading().valid(),
        t matches EventTime::Zoned(_, z) ==> (z@ == "UTC"@ || known_zone(z@)),
        time_to_ics(t, written),
        time_from_ics(written, back),
    ensures
        crate::form::same_time(back, t),
{
    match t {
        EventTime::Date(d) => {
            lemma_first_day();
            lemma_date_after(Date { year: 1, month: 1, day: 1 }, day_number(d), d);
        },
        EventTime::Floating(dt) => {
            lemma_datetime_at(dt);
        },
        EventTime::Zoned(dt, z) => {
            lemma_datetime_at(dt);
        },
    }
}

/// `s` with every trailing `Z` removed.
pub open spec fn strip_z(s: Seq<char>) -> Seq<char>
    decreases s.len(),
{
    if s.len() > 0 && s.last() == 'Z' {
        strip_z(s.drop_last())
    } else {
        s
    }
}

/// What `NaiveDateTime::parse_from_str(s, "%Y%m%dT%H%M%S")` gives for a text
/// not of the plain form.
pub uninterp spec fn compact_datetime(s: Seq<char>) -> Option<DateTime>;

/// The number two digits at `i` spell.
pub open spec fn two_at(s: Seq<char>, i: int) -> int {
    decimal_value(s.subrange(i, i + 2))
}

/// Whether `s` is eight digits, `T`, and six digits.
pub open spec fn stamp_shape(s: Seq<char>) -> bool {
    s.len() == 15 && all_digits(s.take(8)) && s[8] == 'T' && all_digits(s.skip(9))
}

/// What `NaiveDateTime::parse_from_str(s, "%Y%m%dT%H%M%S")` gives: for eight
/// digits, `T` and six digits that spell a real date and time of day, that
/// reading; for eight digits alone, nothing, the time being missing; for any
/// other text, the named result.
pub open spec fn stamp_datetime(s: Seq<char>) -> Option<DateTime> {
    if s.len() == 8 && all_digits(s) {
        None
    } else if stamp_shape(s) && valid_ymd(decimal_value(s.take(4)), two_at(s, 4), two_at(s, 6)) && two_at(s, 9)
        < 24 && two_at(s, 11) < 60 && two_at(s, 13) < 60 {
        Some(
            DateTime {
                date: Date {
                    year: decimal_value(s.take(4)) as i32,
                    month: two_at(s, 4) as u8,
                    day: two_at(s, 6) as u8,
                },
                time: Time {
                    hour: two_at(s, 9) as u8,
                    minute: two_at(s, 11) as u8,
                    second: two_at(s, 13) as u8,
                },
            },
        )
    } else {
        compact_datetime(s)
    }
}

/// Reads a `YYYYMMDDTHHMMSS` date-time through chrono's
/// `NaiveDateTime::parse_from_str` with the format `%Y%m%dT%H%M%S`. Claimed
/// of it: for eight digits, `T` and six digits spelling a real date and time
/// of day it returns that reading (chrono reads an unsigned `%Y` as four
/// digits and each other field as two, and requires the text to be used up);
/// for eight digits alone it returns `None`, the text ending before the `T`;
/// for other texts the result is a function of the text, left unsaid beyond
/// that any reading it returns is a real date and time.
#[verifier::external_body]
fn parse_compact_datetime(s: &str) -> (r: Option<DateTime>)
    ensures
        r == stamp_datetime(s@),
        !stamp_shape(s@) ==> r == compact_datetime(s@),
        r matches Some(dt) ==> dt.valid(),
{
    let t = chrono::NaiveDateTime::parse_from_str(s, "%Y%m%dT%H%M%S").ok()?;
    Some(DateTime {
        date: Date { year: t.year(), month: t.month() as u8, day: t.day() as u8 },
        time: Time { hour: t.hour() as u8, minute: t.minute() as u8, second: t.second() as u8 },
    })
}

/// What an `EXDATE` value reads as: trailing `Z`s dropped, then a
/// `YYYYMMDDTHHMMSS` date-time, or else a `YYYYMMDD` date at midnight.
pub open spec fn ical_datetime(value: Seq<char>) -> Option<DateTime> {
    let v = strip_z(value);
    match stamp_datetime(v) {
        Some(dt) => Some(dt),
        None => match until_date(v) {
            Some(d) => Some(DateTime { date: d, time: Time { hour: 0, minute: 0, second: 0 } }),
            None => None,
        },
    }
}

/// Reads one `EXDATE` value.
pub fn parse_ical_datetime(value: &[char]) -> (r: Option<DateTime>)
    ensures
        r == ical_datetime(value@),
        r matches Some(dt) ==> dt.valid(),
{
    let mut n: usize = value.len();
    assert(value@.take(n as int) =~= value@);
    while n > 0 && value[n - 1] == 'Z'
        invariant
            n <= value@.len(),
            strip_z(value@) == strip_z(value@.take(n as int)),
        decreases n,
    {
        assert(value@.take(n as int).drop_last() =~= value@.take(n - 1));
        n = n - 1;
    }
    let kept = crate::text::sub_chars(value, 0, n);
    assert(kept@ =~= value@.take(n as int));
    assert(strip_z(kept@) == kept@);
    let text = string_of(kept.as_slice());
    match parse_compact_datetime(text.as_str()) {
        Some(dt) => Some(dt),
        None => match parse_compact_date(text.as_str()) {
            Some(d) => Some(DateTime { date: d, time: Time::midnight() }),
            None => None,
        },
    }
}

/// The date-times a comma-separated list of values reads as, values that do
/// not read skipped.
pub open spec fn values_in(pieces: Seq<Seq<char>>) -> Seq<DateTime>
    decreases pieces.len(),
{
    if pieces.len() == 0 {
        Seq::empty()
    } else {
        values_in(pieces.drop_last()) + match ical_datetime(trim(pieces.last())) {
            Some(dt) => seq![dt],
            None => Seq::empty(),
        }
    }
}

/// The date-times a run of `EXDATE` lines reads as, in order.
pub open spec fn exdates_in(lines: Seq<Seq<char>>) -> Seq<DateTime>
    decreases lines.len(),
{
    if lines.len() == 0 {
        Seq::empty()
    } else {
        exdates_in(lines.drop_last()) + values_in(split_on(lines.last(), ','))
    }
}

/// The `EXDATE` lines of a record: every one when the property repeats, else
/// the single one.
pub open spec fn exdate_lines(rec: IcsEvent) -> Seq<Seq<char>> {
    match rec.exdates {
        Some(v) => v@.map_values(|s: String| s@),
        None => match rec.exdate {
            Some(s) => seq![s@],
            None => Seq::empty(),
        },
    }
}

fn push_values(out: &mut Vec<DateTime>, line: &str)
    ensures
        final(out)@ == old(out)@ + values_in(split_on(line@, ',')),
{
    let chars = chars_of(line);
    let pieces = split_exec(chars.as_slice(), ',');
    let ghost start = out@;
    let ghost all = views(pieces@);
    let mut i: usize = 0;
    while i < pieces.len()
        invariant
            i <= pieces@.len(),
            all == views(pieces@),
            out@ == start + values_in(all.take(i as int)),
        decreases pieces.len() - i,
    {
        let piece = trimmed(pieces[i].as_slice());
        assert(all.take(i + 1).drop_last() =~= all.take(i as int));
        assert(all.take(i + 1).last() == pieces@[i as int]@);
        match parse_ical_datetime(piece.as_slice()) {
            Some(dt) => {
                out.push(dt);
            },
            None => {},
        }
        assert(out@ =~= start + values_in(all.take(i + 1)));
        i = i + 1;
    }
    assert(all.take(pieces@.len() as int) =~= all);
}

/// The occurrences a record excludes, from its `EXDATE` lines.
pub fn exdates_of(rec: &IcsEvent) -> (r: Vec<DateTime>)
    ensures
        r@ == exdates_in(exdate_lines(*rec)),
{
    let mut out: Vec<DateTime> = Vec::new();
    match &rec.exdates {
        Some(lines) => {
            let ghost all = lines@.map_values(|s: String| s@);
            let mut i: usize = 0;
            while i < lines.len()
                invariant
                    i <= lines@.len(),
                    all == lines@.map_values(|s: String| s@),
                    out@ == exdates_in(all.take(i as int)),
                decreases lines.len() - i,
            {
                assert(all.take(i + 1).drop_last() =~= all.take(i as int));
                assert(all.take(i + 1).last() == lines@[i as int]@);
                push_values(&mut out, lines[i].as_str());
                i = i + 1;
            }
            assert(all.take(lines@.len() as int) =~= all);
        },
        None => match &rec.exdate {
            Some(line) => {
                push_values(&mut out, line.as_str());
                let ghost one = seq![line@];
                assert(one.drop_last() =~= Seq::<Seq<char>>::empty());
                assert(one.last() == line@);
                assert(exdates_in(one.drop_last()) =~= Seq::<DateTime>::empty());
                assert(out@ =~= exdates_in(one));
            },
            None => {},
        },
    }
    out
}

/// `r` is the end an event with no `DTEND` is given: RFC 5545 makes a date
/// event last one day; a timed one, zero-length there, is given an hour so
/// that it stays clickable.
pub open spec fn default_end_of(start: EventTime, r: EventTime) -> bool {
    match start {
        EventTime::Date(d) => r == EventTime::Date(date_after(d, 1)),
        EventTime::Floating(dt) => r == EventTime::Floating(datetime_at(instant(dt) + 3600)),
        EventTime::Zoned(dt, z) => r matches EventTime::Zoned(e, y) && e == datetime_at(instant(dt) + 3600)
            && y@ == z@,
    }
}

/// The end an event with no `DTEND` is given.
pub fn default_end(start: &EventTime) -> (r: EventTime)
    requires
        start.reading().valid(),
        instant(start.reading()) + 86400 < (max_day_number() + 1) * 86400,
    ensures
        default_end_of(*start, r),
        r.reading().valid(),
{
    proof {
        lemma_day_number_bounds(start.reading().date);
    }
    match start {
        EventTime::Date(d) => {
            let e = d.add_days(1);
            proof {
                lemma_date_after(*d, 1, e);
            }
            EventTime::Date(e)
        },
        EventTime::Floating(dt) => {
            let e = dt.add_seconds(3600);
            proof {
                lemma_datetime_at(e);
            }
            EventTime::Floating(e)
        },
        EventTime::Zoned(dt, z) => {
            let e = dt.add_seconds(3600);
            proof {
                lemma_datetime_at(e);
            }
            EventTime::Zoned(e, z.clone())
        },
    }
}

/// Whether a start leaves room for the default end after it.
pub open spec fn end_room(t: IcsTime) -> bool {
    match t {
        IcsTime::Date(n) => n <= max_day_number(),
        IcsTime::Floating(s) => s + epoch() + 86400 < (max_day_number() + 1) * 86400,
        IcsTime::Utc(s) => s + epoch() + 86400 < (max_day_number() + 1) * 86400,
        IcsTime::Zoned(s, _) => s + epoch() + 86400 < (max_day_number() + 1) * 86400,
    }
}

/// Whether a record can be read as an event: its times are ones chrono
/// holds, and a start with no end leaves room for the default end.
pub open spec fn record_ok(rec: IcsEvent) -> bool {
    &&& rec.start matches Some(t) ==> ics_time_ok(t)
    &&& rec.end matches Some(t) ==> ics_time_ok(t)
    &&& rec.end is None ==> (rec.start matches Some(t) ==> end_room(t))
}

/// Text, or nothing when it is empty.
pub open spec fn unless_empty(o: Option<String>) -> Option<Seq<char>> {
    match o {
        Some(s) => if s@.len() > 0 {
            Some(s@)
        } else {
            None
        },
        None => None,
    }
}

/// `e` is the event a record reads as, filed as `file_name` in the
/// collection `calendar_id`. A record with no `UID` is given a fresh one.
pub open spec fn event_from_ics(rec: IcsEvent, calendar_id: Seq<char>, file_name: Seq<char>, e: Event) -> bool {
    &&& rec.start matches Some(st) && time_from_ics(st, e.start)
    &&& match rec.end {
        Some(en) => time_from_ics(en, e.end),
        None => default_end_of(e.start, e.end),
    }
    &&& match rec.uid {
        Some(u) => e.uid@ == u@,
        None => exists|x: Seq<char>| e.uid@ == x + "@cosmic-calendar"@,
    }
    &&& e.calendar_id@ == calendar_id
    &&& e.summary@ == match rec.summary {
        Some(s) => s@,
        None => Seq::empty(),
    }
    &&& opt_view(e.description) == unless_empty(rec.description)
    &&& opt_view(e.location) == unless_empty(rec.location)
    &&& opt_view(e.rrule) == opt_view(rec.rrule)
    &&& e.exdates@ == exdates_in(exdate_lines(rec))
    &&& e.sequence == match rec.sequence {
        Some(n) => n as i32,
        None => 0,
    }
    &&& e.created == rec.created
    &&& e.last_modified == rec.last_modified
    &&& e.file_name@ == file_name
}

fn copy_text(o: &Option<String>) -> (r: Option<String>)
    ensures
        opt_view(r) == opt_view(*o),
{
    match o {
        Some(s) => Some(s.clone()),
        None => None,
    }
}

fn unless_empty_exec(o: &Option<String>) -> (r: Option<String>)
    ensures
        opt_view(r) == unless_empty(*o),
{
    match o {
        Some(s) => if !s.as_str().is_empty() {
            Some(s.clone())
        } else {
            None
        },
        None => None,
    }
}

/// The event a record reads as, or `None` when it has no start: an event
/// that cannot be placed on a grid is not one this library shows.
pub fn event_from_record(rec: &IcsEvent, calendar_id: &str, file_name: &str) -> (r: Option<Event>)
    requires
        record_ok(*rec),
    ensures
        match r {
            None => rec.start is None,
            Some(e) => event_from_ics(*rec, calendar_id@, file_name@, e),
        },
{
    let start = match &rec.start {
        None => return None,
        Some(t) => to_event_time(t),
    };
    let end = match &rec.end {
        Some(t) => to_event_time(t),
        None => {
            default_end(&start)
        },
    };
    let uid = match &rec.uid {
        Some(u) => u.clone(),
        None => {
            let id = crate::event::fresh_uuid();
            let mut v: Vec<char> = chars_of(id.as_str());
            let ghost x = v@;
            push_str(&mut v, "@cosmic-calendar");
            string_of(v.as_slice())
        },
    };
    let summary = match &rec.summary {
        Some(s) => s.clone(),
        None => String::new(),
    };
    let sequence: i32 = match rec.sequence {
        Some(n) => n as i32,
        None => 0,
    };
    Some(
        Event {
            uid,
            calendar_id: owned(calendar_id),
            summary,
            description: unless_empty_exec(&rec.description),
            location: unless_empty_exec(&rec.location),
            start,
            end,
            rrule: copy_text(&rec.rrule),
            exdates: exdates_of(rec),
            sequence,
            created: rec.created,
            last_modified: rec.last_modified,
            file_name: owned(file_name),
        },
    )
}

/// Whether `r` holds what the component at `i` says, field by field.
pub open spec fn record_reads(r: IcsEvent, comps: Seq<ComponentView>, i: int) -> bool {
    &&& opt_view(r.uid) == value_of(comps, i, "UID"@)
    &&& opt_view(r.summary) == value_of(comps, i, "SUMMARY"@)
    &&& opt_view(r.description) == value_of(comps, i, "DESCRIPTION"@)
    &&& opt_view(r.location) == value_of(comps, i, "LOCATION"@)
    &&& opt_time_view(r.start) == time_of(comps, i, "DTSTART"@)
    &&& opt_time_view(r.end) == time_of(comps, i, "DTEND"@)
    &&& opt_view(r.rrule) == value_of(comps, i, "RRULE"@)
    &&& match r.exdates {
        Some(v) => values_of(comps, i, "EXDATE"@) == Some(v@.map_values(|s: String| s@)),
        None => values_of(comps, i, "EXDATE"@) is None,
    }
    &&& opt_view(r.exdate) == value_of(comps, i, "EXDATE"@)
    &&& match r.sequence {
        Some(n) => sequence_of(comps, i) == Some(n as int),
        None => sequence_of(comps, i) is None,
    }
    &&& match r.created {
        Some(t) => utc_of(comps, i, "CREATED"@) == Some(t as int),
        None => utc_of(comps, i, "CREATED"@) is None,
    }
    &&& match r.last_modified {
        Some(t) => utc_of(comps, i, "LAST-MODIFIED"@) == Some(t as int),
        None => utc_of(comps, i, "LAST-MODIFIED"@) is None,
    }
}

/// What the library reads of the `VEVENT` at `i`.
fn vevent_record(cal: &icalendar::Calendar, i: usize) -> (r: IcsEvent)
    ensures
        record_reads(r, calendar_components(*cal), i as int),
        r.start matches Some(t) ==> ics_time_ok(t),
        r.end matches Some(t) ==> ics_time_ok(t),
{
    IcsEvent {
        uid: vevent_value(cal, i, "UID"),
        summary: vevent_value(cal, i, "SUMMARY"),
        description: vevent_value(cal, i, "DESCRIPTION"),
        location: vevent_value(cal, i, "LOCATION"),
        start: vevent_time(cal, i, "DTSTART"),
        end: vevent_time(cal, i, "DTEND"),
        rrule: vevent_value(cal, i, "RRULE"),
        exdates: vevent_values(cal, i, "EXDATE"),
        exdate: vevent_value(cal, i, "EXDATE"),
        sequence: vevent_sequence(cal, i),
        created: vevent_created(cal, i),
        last_modified: vevent_last_modified(cal, i),
    }
}

fn end_room_exec(t: &IcsTime) -> (r: bool)
    requires
        ics_time_ok(*t),
    ensures
        r == end_room(*t),
{
    proof {
        lemma_first_day();
    }
    let limit: i64 = 86400 * (max_day_number_exec() + 1);
    match t {
        IcsTime::Date(n) => (*n as i64) <= max_day_number_exec(),
        IcsTime::Floating(s) => *s + epoch_exec() + 86400 < limit,
        IcsTime::Utc(s) => *s + epoch_exec() + 86400 < limit,
        IcsTime::Zoned(s, _) => *s + epoch_exec() + 86400 < limit,
    }
}

fn max_day_number_exec() -> (r: i64)
    ensures
        r == max_day_number(),
{
    let last = Date { year: crate::date::MAX_YEAR, month: 12, day: 31 };
    proof {
        lemma_day_number_bounds(last);
    }
    last.day_number()
}

/// Whether an event read from a file holds what its file says.
pub open spec fn read_from_ics(e: Event, calendar_id: Seq<char>, file_name: Seq<char>) -> bool {
    exists|rec: IcsEvent| record_ok(rec) && #[trigger] event_from_ics(rec, calendar_id, file_name, e)
}

/// Whether a start with no end leaves room for the default end after it.
pub open spec fn room_view(t: TimeView) -> bool {
    match t {
        TimeView::Date(n) => n <= max_day_number(),
        TimeView::Floating(s) => s + epoch() + 86400 < (max_day_number() + 1) * 86400,
        TimeView::Utc(s) => s + epoch() + 86400 < (max_day_number() + 1) * 86400,
        TimeView::Zoned(s, _) => s + epoch() + 86400 < (max_day_number() + 1) * 86400,
    }
}

/// Whether the component at `i` is read as an event: a `VEVENT` with a
/// start, and room for the default end when it has no end.
pub open spec fn kept(comps: Seq<ComponentView>, i: int) -> bool {
    &&& 0 <= i < comps.len()
    &&& comps[i].0
    &&& time_of(comps, i, "DTSTART"@) matches Some(st)
    &&& (time_of(comps, i, "DTEND"@) is None ==> room_view(st))
}

/// The positions of the components before `n` that are read as events.
pub open spec fn kept_upto(comps: Seq<ComponentView>, n: int) -> Seq<int>
    decreases n,
{
    if n <= 0 {
        Seq::empty()
    } else {
        let p = kept_upto(comps, n - 1);
        if kept(comps, n - 1) {
            p.push(n - 1)
        } else {
            p
        }
    }
}

/// Whether `e` is the event the component at `i` reads as, filed as
/// `file_name` in `calendar_id`.
pub open spec fn event_read(
    e: Event,
    comps: Seq<ComponentView>,
    i: int,
    calendar_id: Seq<char>,
    file_name: Seq<char>,
) -> bool {
    exists|rec: IcsEvent|
        record_reads(rec, comps, i) && record_ok(rec) && #[trigger] event_from_ics(rec, calendar_id, file_name, e)
}

/// Whether `evs` are, in order, the events the components up to `n` read as.
pub open spec fn events_read_upto(
    comps: Seq<ComponentView>,
    n: int,
    evs: Seq<Event>,
    calendar_id: Seq<char>,
    file_name: Seq<char>,
) -> bool {
    let ks = kept_upto(comps, n);
    &&& evs.len() == ks.len()
    &&& forall|k: int| 0 <= k < evs.len() ==> event_read(#[trigger] evs[k], comps, ks[k], calendar_id, file_name)
}

/// The events of one `.ics` file, filed as `file_name` in the collection
/// `calendar_id`: one for each `VEVENT` with a start, in the file's order.
/// Text that does not parse gives none. An event with no end whose start
/// is the last moment chrono can hold, which has no room for the default
/// end, is skipped too.
pub fn parse_ics(text: &str, calendar_id: &str, file_name: &str) -> (r: Vec<Event>)
    ensures
        match ics_read(text@) {
            None => r@.len() == 0,
            Some(comps) => events_read_upto(comps, comps.len() as int, r@, calendar_id@, file_name@),
        },
        forall|k: int| 0 <= k < r@.len() ==> read_from_ics(#[trigger] r@[k], calendar_id@, file_name@),
{
    let mut out: Vec<Event> = Vec::new();
    let cal = match parse_calendar(text) {
        Some(c) => c,
        None => return out,
    };
    let ghost comps = calendar_components(cal);
    let n = component_count(&cal);
    let mut i: usize = 0;
    while i < n
        invariant
            comps == calendar_components(cal),
            n == comps.len(),
            i <= n,
            events_read_upto(comps, i as int, out@, calendar_id@, file_name@),
            forall|k: int| 0 <= k < out@.len() ==> read_from_ics(#[trigger] out@[k], calendar_id@, file_name@),
        decreases n - i,
    {
        let ghost before = out@;
        if is_vevent(&cal, i) {
            let rec = vevent_record(&cal, i);
            let room = match (&rec.start, &rec.end) {
                (Some(t), None) => end_room_exec(t),
                _ => true,
            };
            if room {
                match event_from_record(&rec, calendar_id, file_name) {
                    Some(e) => {
                        assert(event_from_ics(rec, calendar_id@, file_name@, e));
                        assert(kept(comps, i as int));
                        out.push(e);
                        assert(event_read(e, comps, i as int, calendar_id@, file_name@));
                        assert forall|k: int| 0 <= k < out@.len() implies event_read(
                            #[trigger] out@[k],
                            comps,
                            kept_upto(comps, i + 1)[k],
                            calendar_id@,
                            file_name@,
                        ) by {
                            if k < before.len() {
                                assert(out@[k] == before[k]);
                            }
                        }
                    },
                    None => {
                        assert(!kept(comps, i as int));
                    },
                }
            } else {
                assert(!kept(comps, i as int));
            }
        } else {
            assert(!kept(comps, i as int));
        }
        i = i + 1;
    }
    out
}

/// A year as chrono's `%Y` writes it: four digits, zero-padded, for years 0
/// to 9999; otherwise a sign and at least four digits.
pub open spec fn chrono_year(y: int) -> Seq<char> {
    if 0 <= y <= 9999 {
        zero_padded(decimal_digits(y as nat), 4)
    } else if y < 0 {
        seq!['-'] + zero_padded(decimal_digits((-y) as nat), 4)
    } else {
        seq!['+'] + zero_padded(decimal_digits(y as nat), 4)
    }
}

/// A number as two zero-padded digits.
pub open spec fn two_digits(n: int) -> Seq<char> {
    zero_padded(decimal_digits(n as nat), 2)
}

/// A date as `%Y%m%d` writes it.
pub open spec fn date_stamp(d: Date) -> Seq<char> {
    chrono_year(d.year as int) + two_digits(d.month as int) + two_digits(d.day as int)
}

/// A reading as `%Y%m%dT%H%M%S` writes it.
pub open spec fn datetime_stamp(dt: DateTime) -> Seq<char> {
    date_stamp(dt.date) + "T"@ + two_digits(dt.time.hour as int) + two_digits(dt.time.minute as int)
        + two_digits(dt.time.second as int)
}

/// How an excluded occurrence is written: as a date when the event is
/// all-day, else as a date-time.
pub open spec fn exdate_text(x: DateTime, like: EventTime) -> Seq<char> {
    if like is Date {
        date_stamp(x.date)
    } else {
        datetime_stamp(x)
    }
}

fn push_chrono_year(out: &mut Vec<char>, y: i32)
    requires
        crate::date::year_in_range(y as int),
    ensures
        final(out)@ == old(out)@ + chrono_year(y as int),
{
    let ghost start = out@;
    if 0 <= y && y <= 9999 {
        push_padded(out, y as u32, 4);
    } else if y < 0 {
        out.push('-');
        push_padded(out, (-(y as i64)) as u32, 4);
        assert(out@ =~= start + chrono_year(y as int));
    } else {
        out.push('+');
        push_padded(out, y as u32, 4);
        assert(out@ =~= start + chrono_year(y as int));
    }
}

/// Writes an excluded occurrence the way the event's start is written.
pub fn format_ical_datetime(x: DateTime, like: &EventTime) -> (r: String)
    requires
        x.valid(),
    ensures
        r@ == exdate_text(x, *like),
{
    let mut out: Vec<char> = Vec::new();
    push_chrono_year(&mut out, x.date.year);
    push_padded(&mut out, x.date.month as u32, 2);
    push_padded(&mut out, x.date.day as u32, 2);
    if !like.is_all_day() {
        push_str(&mut out, "T");
        push_padded(&mut out, x.time.hour as u32, 2);
        push_padded(&mut out, x.time.minute as u32, 2);
        push_padded(&mut out, x.time.second as u32, 2);
    }
    assert(out@ =~= exdate_text(x, *like));
    string_of(out.as_slice())
}

/// `rec` is what an event is written as, `now` standing in for a missing
/// last-modified time.
pub open spec fn record_for(e: Event, now: i64, rec: IcsEvent) -> bool {
    &&& rec.uid matches Some(u) && u@ == e.uid@
    &&& rec.summary matches Some(s) && s@ == e.summary@
    &&& opt_view(rec.description) == opt_view(e.description)
    &&& opt_view(rec.location) == opt_view(e.location)
    &&& rec.start matches Some(t) && time_to_ics(e.start, t)
    &&& rec.end matches Some(t) && time_to_ics(e.end, t)
    &&& opt_view(rec.rrule) == opt_view(e.rrule)
    &&& rec.exdates matches Some(v) && v@.map_values(|s: String| s@) == e.exdates@.map_values(
        |x: DateTime| exdate_text(x, e.start),
    )
    &&& rec.exdate is None
    &&& rec.sequence == Some(
        (if e.sequence < 0 {
            0
        } else {
            e.sequence
        }) as u32,
    )
    &&& rec.created == e.created
    &&& rec.last_modified == Some(
        match e.last_modified {
            Some(t) => t,
            None => now,
        },
    )
}

/// Whether an event can be written: its readings and excluded occurrences
/// are real date-times.
pub open spec fn writable(e: Event) -> bool {
    &&& e.start.reading().valid()
    &&& e.end.reading().valid()
    &&& forall|i: int| 0 <= i < e.exdates@.len() ==> (#[trigger] e.exdates@[i]).valid()
}

/// What an event is written as; `now` is its last-modified time when it has
/// none.
pub fn record_of(e: &Event, now: i64) -> (r: IcsEvent)
    requires
        writable(*e),
    ensures
        record_for(*e, now, r),
        r.start matches Some(t) && ics_time_ok(t),
        r.end matches Some(t) && ics_time_ok(t),
{
    let mut texts: Vec<String> = Vec::new();
    let mut i: usize = 0;
    while i < e.exdates.len()
        invariant
            i <= e.exdates@.len(),
            writable(*e),
            texts@.map_values(|s: String| s@) == e.exdates@.take(i as int).map_values(
                |x: DateTime| exdate_text(x, e.start),
            ),
        decreases e.exdates.len() - i,
    {
        let t = format_ical_datetime(e.exdates[i], &e.start);
        let ghost before = texts@;
        texts.push(t);
        proof {
            let f = |s: String| s@;
            let g = |x: DateTime| exdate_text(x, e.start);
            assert(before.map_values(f).len() == before.len());
            assert(before.len() == i);
            assert(texts@.len() == i + 1);
            assert(texts@[i as int]@ == exdate_text(e.exdates@[i as int], e.start));
            assert forall|k: int| 0 <= k < i + 1 implies #[trigger] texts@.map_values(f)[k]
                == e.exdates@.take(i + 1).map_values(g)[k] by {
                if k < i {
                    assert(texts@[k] == before[k]);
                    assert(before.map_values(f)[k] == e.exdates@.take(i as int).map_values(g)[k]);
                }
            }
            assert(texts@.map_values(f) =~= e.exdates@.take(i + 1).map_values(g));
        }
        i = i + 1;
    }
    assert(e.exdates@.take(e.exdates@.len() as int) =~= e.exdates@);
    let sequence: u32 = if e.sequence < 0 {
        0
    } else {
        e.sequence as u32
    };
    IcsEvent {
        uid: Some(e.uid.clone()),
        summary: Some(e.summary.clone()),
        description: copy_text(&e.description),
        location: copy_text(&e.location),
        start: Some(from_event_time(&e.start)),
        end: Some(from_event_time(&e.end)),
        rrule: copy_text(&e.rrule),
        exdates: Some(texts),
        exdate: None,
        sequence: Some(sequence),
        created: e.created,
        last_modified: Some(
            match e.last_modified {
                Some(t) => t,
                None => now,
            },
        ),
    }
}

/// The properties of the one `VEVENT` of a calendar that `Calendar::new`
/// made and that holds nothing but that event, which has no components of
/// its own; `None` for any other calendar.
pub uninterp spec fn written_event(cal: icalendar::Calendar) -> Option<EventView>;

/// What `Calendar`'s `Display` writes for a calendar whose `written_event`
/// is `ev`, when `ev` has a `DTSTAMP` and a `UID`.
pub uninterp spec fn event_calendar_text(ev: EventView) -> Seq<char>;

/// A property with no parameters.
pub open spec fn plain_prop(key: Seq<char>, value: Seq<char>) -> PropView {
    PropView { key, value, params: Map::empty() }
}

/// `ev` with `p` set, replacing any property of that name.
pub open spec fn with_prop(ev: EventView, p: PropView) -> EventView {
    EventView { props: ev.props.insert(p.key, p), multi: ev.multi }
}

/// `ev` with `p` added after the repeated properties of its name.
pub open spec fn with_multi(ev: EventView, p: PropView) -> EventView {
    let before = if ev.multi.contains_key(p.key) {
        ev.multi[p.key]
    } else {
        Seq::empty()
    };
    EventView { props: ev.props, multi: ev.multi.insert(p.key, before.push(p)) }
}

/// How icalendar writes a Unix time as a UTC stamp: `%Y%m%dT%H%M%SZ`.
pub open spec fn utc_text(t: int) -> Seq<char> {
    datetime_stamp(reading_of(t)) + "Z"@
}

/// How `DatePerhapsTime::to_property` writes a time under `key`: a date as
/// `%Y%m%d` with `VALUE=DATE`, a floating time as `%Y%m%dT%H%M%S`, a UTC one
/// with a trailing `Z`, and a zoned one with its `TZID`.
pub open spec fn time_prop(key: Seq<char>, t: IcsTime) -> PropView {
    match t {
        IcsTime::Date(n) => PropView {
            key,
            value: date_stamp(date_of_ce(n as int)),
            params: Map::empty().insert("VALUE"@, "DATE"@),
        },
        IcsTime::Floating(s) => plain_prop(key, datetime_stamp(reading_of(s as int))),
        IcsTime::Utc(s) => plain_prop(key, utc_text(s as int)),
        IcsTime::Zoned(s, tz) => PropView {
            key,
            value: datetime_stamp(reading_of(s as int)),
            params: Map::empty().insert("TZID"@, tz@),
        },
    }
}

/// A calendar holding one empty `VEVENT`, through `icalendar::Calendar::new`,
/// `icalendar::Event::new` and `Calendar::push`.
#[verifier::external_body]
fn calendar_with_vevent() -> (r: icalendar::Calendar)
    ensures
        written_event(r) == Some(EventView { props: Map::empty(), multi: Map::empty() }),
{
    let mut cal = icalendar::Calendar::new();
    cal.push(icalendar::Event::new());
    cal
}

/// Sets a property of the calendar's last `VEVENT`, through
/// `Component::add_property`, which replaces one of the same name.
#[verifier::external_body]
fn vevent_put(cal: &mut icalendar::Calendar, key: &str, value: &str)
    ensures
        written_event(*old(cal)) matches Some(ev) ==> written_event(*final(cal)) == Some(
            with_prop(ev, plain_prop(key@, value@)),
        ),
{
    if let Some(icalendar::CalendarComponent::Event(ev)) = cal.components.last_mut() {
        ev.add_property(key, value);
    }
}

/// Adds one more value of a repeatable property to the calendar's last
/// `VEVENT`, through `Component::add_multi_property`.
#[verifier::external_body]
fn vevent_put_multi(cal: &mut icalendar::Calendar, key: &str, value: &str)
    ensures
        written_event(*old(cal)) matches Some(ev) ==> written_event(*final(cal)) == Some(
            with_multi(ev, plain_prop(key@, value@)),
        ),
{
    if let Some(icalendar::CalendarComponent::Event(ev)) = cal.components.last_mut() {
        ev.add_multi_property(key, value);
    }
}

/// Sets a date-time property of the calendar's last `VEVENT`, through
/// `DatePerhapsTime::to_property`, which is how `EventLike::starts` and
/// `ends` write `DTSTART` and `DTEND`.
#[verifier::external_body]
fn vevent_put_time(cal: &mut icalendar::Calendar, key: &str, t: &IcsTime)
    requires
        ics_time_ok(*t),
    ensures
        written_event(*old(cal)) matches Some(ev) ==> written_event(*final(cal)) == Some(
            with_prop(ev, time_prop(key@, *t)),
        ),
{
    let at = |s: i64| chrono::DateTime::from_timestamp(s, 0).unwrap();
    let value: DatePerhapsTime = match t {
        IcsTime::Date(n) => DatePerhapsTime::Date(chrono::NaiveDate::from_num_days_from_ce_opt(*n).unwrap()),
        IcsTime::Floating(s) => CalendarDateTime::Floating(at(*s).naive_utc()).into(),
        IcsTime::Utc(s) => CalendarDateTime::Utc(at(*s)).into(),
        IcsTime::Zoned(s, tz) => CalendarDateTime::WithTimezone { date_time: at(*s).naive_utc(), tzid: tz.clone() }.into(),
    };
    if let Some(icalendar::CalendarComponent::Event(ev)) = cal.components.last_mut() {
        ev.append_property(value.to_property(key));
    }
}

/// Sets `SEQUENCE` of the calendar's last `VEVENT`, through
/// `Component::sequence`, which writes the number in decimal.
#[verifier::external_body]
fn vevent_put_sequence(cal: &mut icalendar::Calendar, n: u32)
    ensures
        written_event(*old(cal)) matches Some(ev) ==> written_event(*final(cal)) == Some(
            with_prop(ev, plain_prop("SEQUENCE"@, decimal_digits(n as nat))),
        ),
{
    if let Some(icalendar::CalendarComponent::Event(ev)) = cal.components.last_mut() {
        ev.sequence(n);
    }
}

/// Sets `CREATED` of the calendar's last `VEVENT` to a Unix time, through
/// `Component::created`, which writes it as a UTC stamp.
#[verifier::external_body]
fn vevent_put_created(cal: &mut icalendar::Calendar, t: i64)
    requires
        unix_fits(t as int),
    ensures
        written_event(*old(cal)) matches Some(ev) ==> written_event(*final(cal)) == Some(
            with_prop(ev, plain_prop("CREATED"@, utc_text(t as int))),
        ),
{
    if let Some(icalendar::CalendarComponent::Event(ev)) = cal.components.last_mut() {
        ev.created(chrono::DateTime::from_timestamp(t, 0).unwrap());
    }
}

/// Sets `LAST-MODIFIED` of the calendar's last `VEVENT` to a Unix time,
/// through `Component::last_modified`, which writes it as a UTC stamp.
#[verifier::external_body]
fn vevent_put_last_modified(cal: &mut icalendar::Calendar, t: i64)
    requires
        unix_fits(t as int),
    ensures
        written_event(*old(cal)) matches Some(ev) ==> written_event(*final(cal)) == Some(
            with_prop(ev, plain_prop("LAST-MODIFIED"@, utc_text(t as int))),
        ),
{
    if let Some(icalendar::CalendarComponent::Event(ev)) = cal.components.last_mut() {
        ev.last_modified(chrono::DateTime::from_timestamp(t, 0).unwrap());
    }
}

/// Stamps the calendar's last `VEVENT` with the current time as `DTSTAMP`,
/// through `Component::timestamp` and `chrono::Utc::now`. Claimed of the
/// time only that chrono holds it: it is the clock's.
#[verifier::external_body]
fn vevent_stamp_now(cal: &mut icalendar::Calendar)
    ensures
        written_event(*old(cal)) matches Some(ev) ==> exists|t: int|
            unix_fits(t) && #[trigger] written_event(*final(cal)) == Some(
                with_prop(ev, plain_prop("DTSTAMP"@, utc_text(t))),
            ),
{
    if let Some(icalendar::CalendarComponent::Event(ev)) = cal.components.last_mut() {
        ev.timestamp(chrono::Utc::now());
    }
}

/// The text of a calendar, through its `Display`. Claimed of it: for a
/// calendar holding just one `VEVENT` that has a `DTSTAMP` and a `UID`, the
/// text is a function of that event's properties. (Where either is missing,
/// icalendar writes the current time or a fresh UUID in its place, so no
/// such claim is made.)
#[verifier::external_body]
fn calendar_text(cal: &icalendar::Calendar) -> (r: String)
    ensures
        match written_event(*cal) {
            Some(ev) => ev.props.contains_key("DTSTAMP"@) && ev.props.contains_key("UID"@) ==> r@
                == event_calendar_text(ev),
            None => true,
        },
{
    cal.to_string()
}

/// Whether an event's stored times are ones chrono holds.
pub open spec fn stamps_fit(e: Event) -> bool {
    &&& e.created matches Some(t) ==> unix_fits(t as int)
    &&& e.last_modified matches Some(t) ==> unix_fits(t as int)
}

/// `ev` with each of `texts` added, in order, as an `EXDATE`.
pub open spec fn exdate_props(ev: EventView, texts: Seq<Seq<char>>) -> EventView
    decreases texts.len(),
{
    if texts.len() == 0 {
        ev
    } else {
        with_multi(exdate_props(ev, texts.drop_last()), plain_prop("EXDATE"@, texts.last()))
    }
}

pub open spec fn put_opt(ev: EventView, key: Seq<char>, value: Option<String>) -> EventView {
    match value {
        Some(v) => with_prop(ev, plain_prop(key, v@)),
        None => ev,
    }
}

pub open spec fn put_opt_time(ev: EventView, key: Seq<char>, t: Option<IcsTime>) -> EventView {
    match t {
        Some(t) => with_prop(ev, time_prop(key, t)),
        None => ev,
    }
}

pub open spec fn put_opt_stamp(ev: EventView, key: Seq<char>, t: Option<i64>) -> EventView {
    match t {
        Some(t) => with_prop(ev, plain_prop(key, utc_text(t as int))),
        None => ev,
    }
}

/// The first properties an event is written with: its identity, title,
/// times and revision.
pub open spec fn written_head(e: Event, rec: IcsEvent) -> EventView {
    let v0 = EventView { props: Map::empty(), multi: Map::empty() };
    let v1 = with_prop(with_prop(v0, plain_prop("UID"@, e.uid@)), plain_prop("SUMMARY"@, e.summary@));
    let v2 = put_opt_time(put_opt_time(v1, "DTSTART"@, rec.start), "DTEND"@, rec.end);
    match rec.sequence {
        Some(n) => with_prop(v2, plain_prop("SEQUENCE"@, decimal_digits(n as nat))),
        None => v2,
    }
}

/// The properties written after the stamp: the optional text fields and
/// the creation and modification times.
pub open spec fn written_tail(v: EventView, e: Event, rec: IcsEvent) -> EventView {
    let v5 = put_opt(put_opt(put_opt(v, "DESCRIPTION"@, e.description), "LOCATION"@, e.location), "RRULE"@, e.rrule);
    put_opt_stamp(put_opt_stamp(v5, "CREATED"@, e.created), "LAST-MODIFIED"@, rec.last_modified)
}

/// The `VEVENT` an event is written as: its identity, title, times and
/// revision, the stamp, its optional fields, and its exclusions, as `rec`
/// holds them.
pub open spec fn written_view(e: Event, rec: IcsEvent, stamp: int) -> EventView {
    let v = written_tail(
        with_prop(written_head(e, rec), plain_prop("DTSTAMP"@, utc_text(stamp))),
        e,
        rec,
    );
    match rec.exdates {
        Some(x) => exdate_props(v, x@.map_values(|t: String| t@)),
        None => v,
    }
}

/// Adds each of `texts`, in order, as an `EXDATE` of the calendar's event.
fn put_exdates(cal: &mut icalendar::Calendar, texts: &Vec<String>, Ghost(v): Ghost<EventView>)
    requires
        written_event(*old(cal)) == Some(v),
    ensures
        written_event(*final(cal)) == Some(exdate_props(v, texts@.map_values(|x: String| x@))),
{
    let ghost tv = texts@.map_values(|x: String| x@);
    let mut i: usize = 0;
    assert(tv.take(0) =~= Seq::<Seq<char>>::empty());
    while i < texts.len()
        invariant
            i <= texts@.len(),
            tv == texts@.map_values(|x: String| x@),
            written_event(*cal) == Some(exdate_props(v, tv.take(i as int))),
        decreases texts.len() - i,
    {
        vevent_put_multi(cal, "EXDATE", texts[i].as_str());
        assert(tv.take(i + 1).drop_last() =~= tv.take(i as int));
        i = i + 1;
    }
    assert(tv.take(texts@.len() as int) =~= tv);
}

/// An event as iCalendar text: icalendar's text of a calendar holding one
/// `VEVENT`, with the properties `record_of` says the event is written as,
/// stamped with the current time.
#[verifier::rlimit(40)]
pub fn to_ics(e: &Event) -> (r: String)
    requires
        writable(*e),
        stamps_fit(*e),
    ensures
        exists|now: i64, rec: IcsEvent, stamp: int|
            #[trigger] record_for(*e, now, rec) && unix_fits(stamp) && #[trigger] event_calendar_text(
                written_view(*e, rec, stamp),
            ) == r@,
{
    let now = crate::event::now_unix();
    let rec = record_of(e, now);
    let mut cal = calendar_with_vevent();
    vevent_put(&mut cal, "UID", e.uid.as_str());
    vevent_put(&mut cal, "SUMMARY", e.summary.as_str());
    if let Some(t) = &rec.start {
        vevent_put_time(&mut cal, "DTSTART", t);
    }
    if let Some(t) = &rec.end {
        vevent_put_time(&mut cal, "DTEND", t);
    }
    if let Some(n) = rec.sequence {
        vevent_put_sequence(&mut cal, n);
    }
    assert(written_event(cal) == Some(written_head(*e, rec)));
    vevent_stamp_now(&mut cal);
    let ghost stamp = choose|t: int|
        unix_fits(t) && #[trigger] written_event(cal) == Some(
            with_prop(written_head(*e, rec), plain_prop("DTSTAMP"@, utc_text(t))),
        );
    let ghost stamped = with_prop(written_head(*e, rec), plain_prop("DTSTAMP"@, utc_text(stamp)));
    assert(written_event(cal) == Some(stamped));
    if let Some(d) = &e.description {
        vevent_put(&mut cal, "DESCRIPTION", d.as_str());
    }
    if let Some(l) = &e.location {
        vevent_put(&mut cal, "LOCATION", l.as_str());
    }
    if let Some(rule) = &e.rrule {
        vevent_put(&mut cal, "RRULE", rule.as_str());
    }
    if let Some(t) = e.created {
        vevent_put_created(&mut cal, t);
    }
    if let Some(t) = rec.last_modified {
        vevent_put_last_modified(&mut cal, t);
    }
    let ghost v6 = written_tail(stamped, *e, rec);
    assert(written_event(cal) == Some(v6));
    if let Some(texts) = &rec.exdates {
        put_exdates(&mut cal, texts, Ghost(v6));
    }
    assert(written_event(cal) == Some(written_view(*e, rec, stamp)));
    proof {
        lemma_written_stamped(*e, rec, stamp);
    }
    let r = calendar_text(&cal);
    assert(record_for(*e, now, rec));
    r
}

/// What an event is written as always holds its stamp and its identity.
proof fn lemma_written_stamped(e: Event, rec: IcsEvent, stamp: int)
    ensures
        written_view(e, rec, stamp).props.contains_key("DTSTAMP"@),
        written_view(e, rec, stamp).props.contains_key("UID"@),
{
    let h = written_head(e, rec);
    assert(h.props.contains_key("UID"@));
    let v = written_tail(with_prop(h, plain_prop("DTSTAMP"@, utc_text(stamp))), e, rec);
    assert(v.props.contains_key("DTSTAMP"@) && v.props.contains_key("UID"@));
    match rec.exdates {
        Some(x) => lemma_exdates_keep_props(v, x@.map_values(|t: String| t@)),
        None => {},
    }
}

proof fn lemma_exdates_keep_props(v: EventView, texts: Seq<Seq<char>>)
    ensures
        exdate_props(v, texts).props == v.props,
    decreases texts.len(),
{
    if texts.len() > 0 {
        lemma_exdates_keep_props(v, texts.drop_last());
    }
}

proof fn lemma_all_digits_concat(a: Seq<char>, b: Seq<char>)
    requires
        all_digits(a),
        all_digits(b),
    ensures
        all_digits(a + b),
{
    assert forall|i: int| 0 <= i < (a + b).len() implies crate::text::is_digit(#[trigger] (a + b)[i]) by {
        if i < a.len() {
            assert((a + b)[i] == a[i]);
        } else {
            assert((a + b)[i] == b[i - a.len()]);
        }
    }
}

proof fn lemma_two_digits(n: int)
    requires
        0 <= n < 100,
    ensures
        two_digits(n).len() == 2,
        all_digits(two_digits(n)),
        decimal_value(two_digits(n)) == n,
{
    crate::text::lemma_decimal_digits(n as nat);
    crate::text::lemma_zero_padded(decimal_digits(n as nat), 2);
}

proof fn lemma_date_stamp(d: Date)
    requires
        d.valid(),
        0 <= d.year <= 9999,
    ensures
        date_stamp(d).len() == 8,
        all_digits(date_stamp(d)),
        decimal_value(date_stamp(d).take(4)) == d.year,
        decimal_value(date_stamp(d).subrange(4, 6)) == d.month,
        decimal_value(date_stamp(d).subrange(6, 8)) == d.day,
{
    let y = chrono_year(d.year as int);
    let m = two_digits(d.month as int);
    let dd = two_digits(d.day as int);
    crate::text::lemma_decimal_digits(d.year as nat);
    crate::text::lemma_zero_padded(decimal_digits(d.year as nat), 4);
    lemma_two_digits(d.month as int);
    lemma_two_digits(d.day as int);
    let t = date_stamp(d);
    assert(t.take(4) =~= y);
    assert(t.subrange(4, 6) =~= m);
    assert(t.subrange(6, 8) =~= dd);
    lemma_all_digits_concat(y, m);
    lemma_all_digits_concat(y + m, dd);
}

/// Whether an excluded occurrence is written in a form that reads back as
/// itself: a real reading in years 0 to 9999, at midnight when the event is
/// all-day (whose exclusions are written as dates).
pub open spec fn exdate_reads_back(x: DateTime, like: EventTime) -> bool {
    &&& x.valid()
    &&& 0 <= x.date.year <= 9999
    &&& like is Date ==> x.time == (Time { hour: 0, minute: 0, second: 0 })
}

proof fn lemma_exdate_reads_back(x: DateTime, like: EventTime)
    requires
        exdate_reads_back(x, like),
    ensures
        values_in(split_on(exdate_text(x, like), ',')) == seq![x],
{
    let t = exdate_text(x, like);
    let ds = date_stamp(x.date);
    lemma_date_stamp(x.date);
    if like is Date {
        assert(t == ds);
        assert(!crate::text::is_white_space(t[0]) && !crate::text::is_white_space(t.last()));
        assert(t.last() != 'Z');
        assert(strip_z(t) == t);
        assert(stamp_datetime(t) is None);
        assert(ical_datetime(t) == Some(x));
    } else {
        reveal_strlit("T");
        let h = two_digits(x.time.hour as int);
        let mi = two_digits(x.time.minute as int);
        let se = two_digits(x.time.second as int);
        lemma_two_digits(x.time.hour as int);
        lemma_two_digits(x.time.minute as int);
        lemma_two_digits(x.time.second as int);
        assert(t =~= ds + seq!['T'] + h + mi + se);
        assert(t.len() == 15);
        assert(t.take(8) =~= ds);
        assert(t.take(4) =~= ds.take(4));
        assert(t.subrange(4, 6) =~= ds.subrange(4, 6));
        assert(t.subrange(6, 8) =~= ds.subrange(6, 8));
        assert(t.skip(9) =~= h + mi + se);
        lemma_all_digits_concat(h, mi);
        lemma_all_digits_concat(h + mi, se);
        assert(t.subrange(9, 11) =~= h);
        assert(t.subrange(11, 13) =~= mi);
        assert(t.subrange(13, 15) =~= se);
        assert(stamp_shape(t));
        assert(!crate::text::is_white_space(t[0]) && !crate::text::is_white_space(t.last()));
        assert(t.last() == se[1]);
        assert(t.last() != 'Z');
        assert(strip_z(t) == t);
        assert(stamp_datetime(t) == Some(x));
    }
    crate::text::lemma_trim_id(t);
    assert(!t.contains(',')) by {
        if t.contains(',') {
            let k = choose|k: int| 0 <= k < t.len() && t[k] == ',';
            if like is Date {
            } else {
                if k < 8 {
                    assert(t[k] == ds[k]);
                } else if k > 8 {
                    assert(t[k] == t.skip(9)[k - 9]);
                }
            }
        }
    }
    crate::text::lemma_split_single(t, ',');
    let one = seq![t];
    assert(one.drop_last() =~= Seq::<Seq<char>>::empty());
    assert(one.last() == t);
    assert(ical_datetime(t) == Some(x));
    assert(trim(one.last()) == t);
    assert(values_in(one.drop_last()) =~= Seq::<DateTime>::empty());
    assert(values_in(one) =~= seq![x]);
}

proof fn lemma_exdates_read_back(xs: Seq<DateTime>, like: EventTime)
    requires
        forall|i: int| 0 <= i < xs.len() ==> exdate_reads_back(#[trigger] xs[i], like),
    ensures
        exdates_in(xs.map_values(|x: DateTime| exdate_text(x, like))) == xs,
    decreases xs.len(),
{
    let g = |x: DateTime| exdate_text(x, like);
    let lines = xs.map_values(g);
    if xs.len() > 0 {
        let rest = xs.drop_last();
        assert forall|i: int| 0 <= i < rest.len() implies exdate_reads_back(#[trigger] rest[i], like) by {
            assert(rest[i] == xs[i]);
        }
        lemma_exdates_read_back(rest, like);
        assert(lines.drop_last() =~= rest.map_values(g));
        assert(exdate_reads_back(xs[xs.len() - 1], like));
        lemma_exdate_reads_back(xs.last(), like);
        assert(lines.last() == exdate_text(xs.last(), like));
        assert(exdates_in(lines) =~= rest + seq![xs.last()]);
        assert(xs =~= rest + seq![xs.last()]);
    } else {
        assert(lines.len() == 0);
    }
}

/// What the writer makes of an event, read back by the reader, is the same
/// event: its identity, text, times, rule, exclusions, revision and stamps
/// all come back. Stated for zones chrono-tz knows, a description and
/// location that are not empty text (the reader drops empty ones), a revision
/// that is not negative (the writer clamps it), and exclusions that are
/// written in a form that reads back.
pub proof fn lemma_record_roundtrip(
    e: Event,
    now: i64,
    rec: IcsEvent,
    calendar_id: Seq<char>,
    file_name: Seq<char>,
    back: Event,
)
    requires
        writable(e),
        e.start matches EventTime::Zoned(_, z) ==> (z@ == "UTC"@ || known_zone(z@)),
        e.end matches EventTime::Zoned(_, z) ==> (z@ == "UTC"@ || known_zone(z@)),
        e.description matches Some(d) ==> d@.len() > 0,
        e.location matches Some(l) ==> l@.len() > 0,
        e.sequence >= 0,
        forall|i: int| 0 <= i < e.exdates@.len() ==> exdate_reads_back(#[trigger] e.exdates@[i], e.start),
        record_for(e, now, rec),
        event_from_ics(rec, calendar_id, file_name, back),
    ensures
        back.uid@ == e.uid@,
        back.calendar_id@ == calendar_id,
        back.file_name@ == file_name,
        back.summary@ == e.summary@,
        opt_view(back.description) == opt_view(e.description),
        opt_view(back.location) == opt_view(e.location),
        crate::form::same_time(back.start, e.start),
        crate::form::same_time(back.end, e.end),
        opt_view(back.rrule) == opt_view(e.rrule),
        back.exdates@ == e.exdates@,
        back.sequence == e.sequence,
        back.created == e.created,
        back.last_modified == Some(
            match e.last_modified {
                Some(t) => t,
                None => now,
            },
        ),
{
    lemma_time_roundtrip(e.start, rec.start.unwrap(), back.start);
    lemma_time_roundtrip(e.end, rec.end.unwrap(), back.end);
    lemma_exdates_read_back(e.exdates@, e.start);
}

fn reading_ok(t: &EventTime) -> (r: bool)
    ensures
        r == t.reading().valid(),
{
    let dt = t.reading_exec();
    crate::date::is_valid_ymd(dt.date.year as i64, dt.date.month as i64, dt.date.day as i64) && dt.time.hour
        < 24 && dt.time.minute < 60 && dt.time.second < 60
}

fn stamp_ok(t: Option<i64>) -> (r: bool)
    ensures
        r == (t matches Some(v) ==> unix_fits(v as int)),
{
    match t {
        None => true,
        Some(v) => {
            let base = DateTime { date: Date { year: 1970, month: 1, day: 1 }, time: Time::midnight() };
            proof {
                lemma_day_number_bounds(base.date);
            }
            let first = Date { year: crate::date::MIN_YEAR, month: 1, day: 1 };
            let last = Date { year: crate::date::MAX_YEAR, month: 12, day: 31 };
            proof {
                lemma_day_number_bounds(first);
                lemma_day_number_bounds(last);
            }
            let e = base.instant();
            let sum: i128 = v as i128 + e as i128;
            (first.day_number() as i128) * 86400 <= sum && sum < ((last.day_number() + 1) as i128) * 86400
        },
    }
}

/// Whether an event can be written as iCalendar text: its readings and
/// excluded occurrences are real, and its stored times are ones chrono holds.
pub fn can_write(e: &Event) -> (r: bool)
    ensures
        r == (writable(*e) && stamps_fit(*e)),
{
    if !reading_ok(&e.start) || !reading_ok(&e.end) || !stamp_ok(e.created) || !stamp_ok(e.last_modified) {
        return false;
    }
    let mut i: usize = 0;
    while i < e.exdates.len()
        invariant
            i <= e.exdates@.len(),
            forall|k: int| 0 <= k < i ==> (#[trigger] e.exdates@[k]).valid(),
        decreases e.exdates.len() - i,
    {
        let x = e.exdates[i];
        if !(crate::date::is_valid_ymd(x.date.year as i64, x.date.month as i64, x.date.day as i64) && x.time.hour
            < 24 && x.time.minute < 60 && x.time.second < 60) {
            return false;
        }
        i = i + 1;
    }
    true
}

} // verus!
