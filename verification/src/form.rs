//! The event editor's form: what it shows for an event, and the event it
//! builds from what the user typed, or why it cannot.

use vstd::prelude::*;
use crate::date::{
    date_after, day_number, instant, lemma_date_after, lemma_day_number_bounds, max_day_number,
    Date, DateTime, Time,
};
use crate::editor::{non_empty, parse_time, parse_time_chars, parse_time_spec};
use crate::event::{
    duration_spec, epoch, forward_span, resolve, resolve_spec, shift_fits, shift_fits_exec, shift_spec,
    shift_time, unix_fits, wall_clock, Event, EventTime,
};
use crate::launch::EditScope;
use crate::expand::{wall_or_utc, wall_or_utc_exec};
use crate::recurrence::{
    parse_recurrence, rrule_text, Freq, Recurrence, RepeatEnd,
};
use crate::text::{
    opt_view, chars_of, decimal_digits, owned, parse_unsigned, parse_unsigned_exec, push_padded, push_str,
    str_equal, string_of, trim, trimmed, zero_padded,
};

verus! {

/// Why the form cannot be saved.
#[derive(Clone, Copy, Debug, PartialEq, Eq, Structural)]
pub enum FormError {
    /// An event needs a title.
    SummaryRequired,
    /// A time does not parse, or the end is not after the start.
    InvalidTimeRange,
}

impl FormError {
    /// The message id the interface shows for this error.
    pub fn message_id(self) -> (r: &'static str)
        ensures
            r@ == match self {
                FormError::SummaryRequired => "error-summary-required"@,
                FormError::InvalidTimeRange => "error-invalid-time-range"@,
            },
    {
        match self {
            FormError::SummaryRequired => "error-summary-required",
            FormError::InvalidTimeRange => "error-invalid-time-range",
        }
    }
}

/// The editor's state. Times are kept as typed, so that a half-typed time
/// need not parse on every keystroke.
pub struct Editor {
    /// The event being edited; `None` when creating one.
    pub original: Option<Event>,
    /// The instance of a series the editor was opened on, as a Unix time.
    pub occurrence: Option<i64>,
    pub calendar_id: String,
    pub summary: String,
    pub location: String,
    pub description: String,
    pub all_day: bool,
    pub start_date: Date,
    pub start_time: String,
    /// For an all-day event, the last day it covers.
    pub end_date: Date,
    pub end_time: String,
    pub freq: Freq,
    pub interval: String,
    pub repeat_end: RepeatEnd,
    pub count: String,
    pub until: Date,
    /// A rule the form cannot show, kept verbatim and written back as it was.
    pub custom_rrule: Option<String>,
    /// The start's zone when it is a foreign one; `None` means the viewer's.
    pub start_tz: Option<String>,
    /// The end's zone when it differs from the start's.
    pub end_tz: Option<String>,
    pub error: Option<String>,
    /// Which zone the zone picker is open for, if any.
    pub tz_picking: Option<TzField>,
    /// What has been typed into the zone picker's search.
    pub tz_query: String,
    /// Which date the date picker is open for, if any.
    pub picking: Option<DateField>,
    /// What the server last said of the attendees' availability, if asked.
    pub availability: Option<AvailabilityView>,
}

/// Which date field the date picker is attached to.
#[derive(Clone, Copy, Debug, PartialEq, Eq, Structural)]
pub enum DateField {
    Start,
    End,
    Until,
}

/// Which zone the zone picker is choosing.
#[derive(Clone, Copy, Debug, PartialEq, Eq, Structural)]
pub enum TzField {
    Start,
    /// The end's own zone, for an event that ends in another zone than it
    /// starts in.
    End,
}

/// The answer to "when are these people busy", as it is shown.
#[derive(Clone, Debug)]
pub enum AvailabilityView {
    /// The calendar belongs to no account, so there is no server to ask.
    NoAccount,
    /// The server does no scheduling; not the same as everyone being free.
    Unsupported,
    /// The request failed, for this reason.
    Failed(String),
    /// One answer per attendee, in the order they were asked about.
    Answers(Vec<AttendeeAvailability>),
}

/// One attendee's answer.
#[derive(Clone, Debug)]
pub struct AttendeeAvailability {
    pub email: String,
    /// `false` when the server would not say, which is never shown as free.
    pub answered: bool,
    /// Whether a busy period overlaps the slot asked about.
    pub busy: bool,
}

/// `hh:mm` with two digits each.
pub open spec fn clock_text(t: Time) -> Seq<char> {
    zero_padded(decimal_digits(t.hour as nat), 2) + ":"@ + zero_padded(decimal_digits(t.minute as nat), 2)
}

fn clock_text_exec(t: Time) -> (r: String)
    ensures
        r@ == clock_text(t),
{
    let mut out: Vec<char> = Vec::new();
    push_padded(&mut out, t.hour as u32, 2);
    push_str(&mut out, ":");
    push_padded(&mut out, t.minute as u32, 2);
    string_of(out.as_slice())
}

fn number_text(n: u32) -> (r: String)
    ensures
        r@ == decimal_digits(n as nat),
{
    let mut out: Vec<char> = Vec::new();
    push_padded(&mut out, n, 0);
    assert(zero_padded(decimal_digits(n as nat), 0) == decimal_digits(n as nat));
    string_of(out.as_slice())
}

/// The zone an event time names explicitly, when it is a foreign one: not
/// the viewer's, and not a UTC stamp.
pub open spec fn explicit_zone(t: EventTime, local: Seq<char>) -> Option<Seq<char>> {
    match t {
        EventTime::Zoned(_, tz) => if tz@ != local && tz@ != "UTC"@ {
            Some(tz@)
        } else {
            None
        },
        _ => None,
    }
}

/// The wall clock of an event time in `zone`: dates and floating times are
/// already wall clock; zoned times convert through their instant.
pub open spec fn wall_in(t: EventTime, zone: Seq<char>, local: Seq<char>) -> DateTime {
    match t {
        EventTime::Zoned(..) => wall_or_utc(zone, t.utc_spec(local)),
        _ => t.reading(),
    }
}

fn wall_in_exec(t: &EventTime, zone: &str, local: &str) -> (r: DateTime)
    requires
        t.valid(),
    ensures
        r == wall_in(*t, zone@, local@),
        r.valid(),
        instant(t.reading()) - 176400 < instant(r) < instant(t.reading()) + 176400,
{
    match t {
        EventTime::Zoned(..) => {
            let u = t.to_utc(local);
            wall_or_utc_exec(zone, u)
        },
        EventTime::Date(d) => DateTime { date: *d, time: Time::midnight() },
        EventTime::Floating(dt) => *dt,
    }
}

/// The zone of an event's end, counting a UTC stamp as the viewer's.
pub open spec fn end_zone_of(t: EventTime, local: Seq<char>) -> Seq<char> {
    match t {
        EventTime::Zoned(_, tz) => if tz@ != "UTC"@ {
            tz@
        } else {
            local
        },
        _ => local,
    }
}

/// A copy of an event, field by field.
pub fn copy_event(e: &Event) -> (r: Event)
    ensures
        same_event(r, *e),
{
    let mut exdates: Vec<DateTime> = Vec::new();
    let mut i: usize = 0;
    while i < e.exdates.len()
        invariant
            i <= e.exdates@.len(),
            exdates@ == e.exdates@.take(i as int),
        decreases e.exdates.len() - i,
    {
        exdates.push(e.exdates[i]);
        assert(e.exdates@.take(i + 1) =~= e.exdates@.take(i as int).push(e.exdates@[i as int]));
        i = i + 1;
    }
    assert(e.exdates@.take(e.exdates@.len() as int) =~= e.exdates@);
    Event {
        uid: e.uid.clone(),
        calendar_id: e.calendar_id.clone(),
        summary: e.summary.clone(),
        description: copy_opt(&e.description),
        location: copy_opt(&e.location),
        start: copy_time(&e.start),
        end: copy_time(&e.end),
        rrule: copy_opt(&e.rrule),
        exdates,
        sequence: e.sequence,
        created: e.created,
        last_modified: e.last_modified,
        file_name: e.file_name.clone(),
    }
}

fn copy_opt(o: &Option<String>) -> (r: Option<String>)
    ensures
        opt_view(r) == opt_view(*o),
{
    match o {
        Some(s) => Some(s.clone()),
        None => None,
    }
}

/// Two event times say the same thing.
pub open spec fn same_time(a: EventTime, b: EventTime) -> bool {
    match (a, b) {
        (EventTime::Date(x), EventTime::Date(y)) => x == y,
        (EventTime::Floating(x), EventTime::Floating(y)) => x == y,
        (EventTime::Zoned(x, p), EventTime::Zoned(y, q)) => x == y && p@ == q@,
        _ => false,
    }
}

fn copy_time(t: &EventTime) -> (r: EventTime)
    ensures
        same_time(r, *t),
{
    match t {
        EventTime::Date(d) => EventTime::Date(*d),
        EventTime::Floating(dt) => EventTime::Floating(*dt),
        EventTime::Zoned(dt, z) => EventTime::Zoned(*dt, z.clone()),
    }
}

/// Two events hold the same fields.
pub open spec fn same_event(a: Event, b: Event) -> bool {
    &&& a.uid@ == b.uid@
    &&& a.calendar_id@ == b.calendar_id@
    &&& a.summary@ == b.summary@
    &&& opt_view(a.description) == opt_view(b.description)
    &&& opt_view(a.location) == opt_view(b.location)
    &&& same_time(a.start, b.start)
    &&& same_time(a.end, b.end)
    &&& opt_view(a.rrule) == opt_view(b.rrule)
    &&& a.exdates@ == b.exdates@
    &&& a.sequence == b.sequence
    &&& a.created == b.created
    &&& a.last_modified == b.last_modified
    &&& a.file_name@ == b.file_name@
}

/// Whether the readings of an event lie among dates the form can show and
/// build back: a day of room after each.
pub open spec fn form_event_ok(e: Event) -> bool {
    &&& e.start.valid()
    &&& e.end.valid()
    &&& instant(e.start.reading()) + 40 * 86400 < (max_day_number() + 1) * 86400
    &&& instant(e.end.reading()) + 40 * 86400 < (max_day_number() + 1) * 86400
    &&& crate::date::min_day_number() * 86400 + 4 * 86400 <= instant(e.start.reading())
    &&& crate::date::min_day_number() * 86400 + 4 * 86400 <= instant(e.end.reading())
}

/// The zones the form shows an event in: the start's explicit zone, the
/// end's when it differs, and the zones the two ends are read in.
fn zones_of(event: &Event, local: &str) -> (r: (Option<String>, Option<String>, String, String))
    ensures
        opt_view(r.0) == explicit_zone(event.start, local@),
        r.2@ == match explicit_zone(event.start, local@) {
            Some(z) => z,
            None => local@,
        },
        opt_view(r.1) == if end_zone_of(event.end, local@) != r.2@ {
            Some(end_zone_of(event.end, local@))
        } else {
            None
        },
        r.3@ == match opt_view(r.1) {
            Some(z) => z,
            None => r.2@,
        },
{
    let start_tz: Option<String> = match &event.start {
        EventTime::Zoned(_, tz) => if !str_equal(tz.as_str(), local) && !str_equal(tz.as_str(), "UTC") {
            Some(tz.clone())
        } else {
            None
        },
        _ => None,
    };
    let start_zone: String = match &start_tz {
        Some(z) => z.clone(),
        None => owned(local),
    };
    let end_actual: String = match &event.end {
        EventTime::Zoned(_, tz) => if !str_equal(tz.as_str(), "UTC") {
            tz.clone()
        } else {
            owned(local)
        },
        _ => owned(local),
    };
    let end_tz: Option<String> = if !str_equal(end_actual.as_str(), start_zone.as_str()) {
        Some(end_actual)
    } else {
        None
    };
    let end_zone: String = match &end_tz {
        Some(z) => z.clone(),
        None => start_zone.clone(),
    };
    (start_tz, end_tz, start_zone, end_zone)
}

/// The repeat fields the form shows for an event's rule.
fn repeat_of(event: &Event) -> (r: (Freq, String, RepeatEnd, Option<String>))
    ensures
        match event.rrule {
            None => r.0 == Freq::Never && r.1@ == "1"@ && r.2 == RepeatEnd::Never && r.3 is None,
            Some(rule) => match parse_recurrence(rule@) {
                Some(rec) => r.0 == rec.freq && r.1@ == decimal_digits(rec.interval as nat) && r.2
                    == rec.end && r.3 is None,
                None => r.0 == Freq::Never && r.1@ == "1"@ && r.2 == RepeatEnd::Never && opt_view(r.3)
                    == Some(rule@),
            },
        },
{
    match &event.rrule {
        None => (Freq::Never, owned("1"), RepeatEnd::Never, None),
        Some(_) => match event.recurrence() {
            Some(rec) => (rec.freq, number_text(rec.interval as u32), rec.end, None),
            None => (Freq::Never, owned("1"), RepeatEnd::Never, copy_opt(&event.rrule)),
        },
    }
}


/// The zone the form's start fields are read in.
pub open spec fn form_start_zone(ed: Editor, local: Seq<char>) -> Seq<char> {
    match opt_view(ed.start_tz) {
        Some(z) => z,
        None => local,
    }
}

/// The zone the form's end fields are read in.
pub open spec fn form_end_zone(ed: Editor, local: Seq<char>) -> Seq<char> {
    match opt_view(ed.end_tz) {
        Some(z) => z,
        None => form_start_zone(ed, local),
    }
}

/// Why the form cannot be saved, if it cannot: a blank title; or, for a timed
/// event, a time that does not parse or an end that is not after the start,
/// compared as instants (a flight can land at an earlier wall-clock time than
/// it took off).
pub open spec fn form_error(ed: Editor, local: Seq<char>) -> Option<FormError> {
    if trim(ed.summary@).len() == 0 {
        Some(FormError::SummaryRequired)
    } else if ed.all_day {
        None
    } else {
        match (parse_time_spec(ed.start_time@), parse_time_spec(ed.end_time@)) {
            (Some(a), Some(b)) => if resolve_spec(
                DateTime { date: ed.end_date, time: b },
                form_end_zone(ed, local),
            ) <= resolve_spec(DateTime { date: ed.start_date, time: a }, form_start_zone(ed, local)) {
                Some(FormError::InvalidTimeRange)
            } else {
                None
            },
            _ => Some(FormError::InvalidTimeRange),
        }
    }
}

/// The later of two dates.
pub open spec fn later_date(a: Date, b: Date) -> Date {
    if day_number(a) < day_number(b) {
        b
    } else {
        a
    }
}

/// The repeat count the form's text gives: the number typed, at least one,
/// or ten when it is not a number.
pub open spec fn form_count(text: Seq<char>) -> u32 {
    match parse_unsigned(text, 0xffff_ffff) {
        Some(n) => if n >= 1 {
            n as u32
        } else {
            1
        },
        None => 10,
    }
}

/// The interval the form's text gives: the number typed, at least one, or
/// one when it is not a number.
pub open spec fn form_interval(text: Seq<char>) -> u16 {
    match parse_unsigned(text, 0xffff) {
        Some(n) => if n >= 1 {
            n as u16
        } else {
            1
        },
        None => 1,
    }
}

/// When the series the form describes stops.
pub open spec fn form_repeat_end(ed: Editor) -> RepeatEnd {
    match ed.repeat_end {
        RepeatEnd::After(_) => RepeatEnd::After(form_count(ed.count@)),
        RepeatEnd::On(_) => RepeatEnd::On(ed.until),
        RepeatEnd::Never => RepeatEnd::Never,
    }
}

/// The rule the form saves: a rule it could not show, verbatim; else the one
/// its repeat fields describe.
pub open spec fn form_rrule(ed: Editor) -> Option<Seq<char>> {
    match opt_view(ed.custom_rrule) {
        Some(raw) => Some(raw),
        None => rrule_text(
            Recurrence { freq: ed.freq, interval: form_interval(ed.interval@), end: form_repeat_end(ed) },
        ),
    }
}

/// Text with surrounding whitespace removed, or nothing when that leaves none.
pub open spec fn non_blank(s: Seq<char>) -> Option<Seq<char>> {
    if trim(s).len() > 0 {
        Some(trim(s))
    } else {
        None
    }
}

/// The dates the form holds can be saved: real, with a day after each.
pub open spec fn form_dates_ok(ed: Editor) -> bool {
    &&& ed.start_date.valid()
    &&& ed.end_date.valid()
    &&& day_number(ed.start_date) < max_day_number()
    &&& day_number(ed.end_date) < max_day_number()
}

/// `e` is the event the form describes, given that it can be saved.
pub open spec fn form_event(ed: Editor, local: Seq<char>, e: Event) -> bool {
    &&& e.calendar_id@ == ed.calendar_id@
    &&& e.summary@ == trim(ed.summary@)
    &&& opt_view(e.location) == non_blank(ed.location@)
    &&& opt_view(e.description) == non_blank(ed.description@)
    &&& if ed.all_day {
        &&& e.start == EventTime::Date(ed.start_date)
        &&& e.end == EventTime::Date(date_after(later_date(ed.end_date, ed.start_date), 1))
    } else {
        &&& e.start matches EventTime::Zoned(dt, z) && dt == (DateTime {
            date: ed.start_date,
            time: parse_time_spec(ed.start_time@).unwrap(),
        }) && z@ == form_start_zone(ed, local)
        &&& e.end matches EventTime::Zoned(dt, z) && dt == (DateTime {
            date: ed.end_date,
            time: parse_time_spec(ed.end_time@).unwrap(),
        }) && z@ == form_end_zone(ed, local)
    }
    &&& opt_view(e.rrule) == form_rrule(ed)
    &&& e.last_modified is Some
    &&& match ed.original {
        Some(o) => {
            &&& e.uid@ == o.uid@
            &&& e.file_name@ == o.file_name@
            &&& e.exdates@ == o.exdates@
            &&& e.created == o.created
            &&& e.sequence == if o.sequence < i32::MAX {
                o.sequence + 1
            } else {
                o.sequence as int
            }
        },
        None => {
            &&& exists|u: Seq<char>| e.uid@ == u + "@cosmic-calendar"@
            &&& e.file_name@ == e.uid@ + ".ics"@
            &&& e.exdates@.len() == 0
            &&& e.sequence == 0
            &&& e.created is Some
        },
    }
}

fn text_number(s: &String, max: u32) -> (r: Option<u32>)
    ensures
        match parse_unsigned(s@, max as int) {
            Some(v) => r == Some(v as u32) && 0 <= v <= max,
            None => r is None,
        },
{
    let v = chars_of(s.as_str());
    parse_unsigned_exec(v.as_slice(), max)
}


/// The zone the form shows an event's start in: its own when foreign, else
/// the viewer's.
pub open spec fn shown_start_zone(event: Event, local: Seq<char>) -> Seq<char> {
    match explicit_zone(event.start, local) {
        Some(z) => z,
        None => local,
    }
}

/// The end's own zone when it differs from the start's.
pub open spec fn shown_end_tz(event: Event, local: Seq<char>) -> Option<Seq<char>> {
    if end_zone_of(event.end, local) != shown_start_zone(event, local) {
        Some(end_zone_of(event.end, local))
    } else {
        None
    }
}

/// The zone the form shows an event's end in.
pub open spec fn shown_end_zone(event: Event, local: Seq<char>) -> Seq<char> {
    match shown_end_tz(event, local) {
        Some(z) => z,
        None => shown_start_zone(event, local),
    }
}

/// The form shows `event`, all but its dates and times: the fields as they
/// are, the foreign zones kept, and the repeat rule as the repeat fields, or
/// verbatim when they cannot show it.
pub open spec fn form_shows(r: Editor, event: Event, local: Seq<char>) -> bool {
    let start = wall_in(event.start, shown_start_zone(event, local), local);
    &&& r.original matches Some(o) && same_event(o, event)
    &&& r.calendar_id@ == event.calendar_id@
    &&& r.summary@ == event.summary@
    &&& r.location@ == match event.location {
        Some(l) => l@,
        None => Seq::empty(),
    }
    &&& r.description@ == match event.description {
        Some(d) => d@,
        None => Seq::empty(),
    }
    &&& r.all_day == (event.start is Date)
    &&& opt_view(r.start_tz) == explicit_zone(event.start, local)
    &&& opt_view(r.end_tz) == shown_end_tz(event, local)
    &&& match event.rrule {
        None => r.freq == Freq::Never && r.interval@ == "1"@ && r.repeat_end == RepeatEnd::Never
            && r.custom_rrule is None,
        Some(rule) => match parse_recurrence(rule@) {
            Some(rec) => r.freq == rec.freq && r.interval@ == decimal_digits(rec.interval as nat)
                && r.repeat_end == rec.end && r.custom_rrule is None,
            None => r.freq == Freq::Never && r.interval@ == "1"@ && r.repeat_end == RepeatEnd::Never
                && opt_view(r.custom_rrule) == Some(rule@),
        },
    }
    &&& r.count@ == match r.repeat_end {
        RepeatEnd::After(n) => decimal_digits(n as nat),
        _ => "10"@,
    }
    &&& r.until == match r.repeat_end {
        RepeatEnd::On(d) => d,
        _ => date_after(start.date, 30),
    }
}

/// The form's date and time fields show `start` and `end`; an all-day end is
/// shown as the last day covered, the day before the exclusive end.
pub open spec fn form_times(r: Editor, start: DateTime, end: DateTime) -> bool {
    &&& r.start_date == start.date
    &&& r.start_time@ == clock_text(start.time)
    &&& r.end_date == if r.all_day {
        date_after(end.date, -1)
    } else {
        end.date
    }
    &&& r.end_time@ == clock_text(end.time)
}


impl Editor {
    /// The form for a new event at `start`, lasting `duration` seconds.
    pub fn new(calendar_id: String, start: DateTime, all_day: bool, duration: i64) -> (r: Editor)
        requires
            start.valid(),
            crate::date::min_day_number() * 86400 <= instant(start) + duration < (max_day_number() + 1)
                * 86400,
            day_number(start.date) + 30 <= max_day_number(),
        ensures
            r.original is None,
            r.occurrence is None,
            r.calendar_id@ == calendar_id@,
            r.summary@.len() == 0,
            r.all_day == all_day,
            r.start_date == start.date,
            r.start_time@ == clock_text(start.time),
            ({
                let end = crate::date::datetime_at(instant(start) + duration);
                &&& r.end_date == end.date
                &&& r.end_time@ == clock_text(end.time)
            }),
            r.freq == Freq::Never,
            r.interval@ == "1"@,
            r.repeat_end == RepeatEnd::Never,
            r.count@ == "10"@,
            r.until == date_after(start.date, 30),
            r.custom_rrule is None,
            r.start_tz is None,
            r.end_tz is None,
            r.pickers_closed(),
    {
        proof {
            lemma_day_number_bounds(start.date);
        }
        let end = start.add_seconds(duration);
        proof {
            crate::date::lemma_datetime_at(end);
        }
        let until = start.date.add_days(30);
        proof {
            lemma_date_after(start.date, 30, until);
        }
        Editor {
            original: None,
            occurrence: None,
            calendar_id,
            summary: String::new(),
            location: String::new(),
            description: String::new(),
            all_day,
            start_date: start.date,
            start_time: clock_text_exec(start.time),
            end_date: end.date,
            end_time: clock_text_exec(end.time),
            freq: Freq::Never,
            interval: owned("1"),
            repeat_end: RepeatEnd::Never,
            count: owned("10"),
            until,
            custom_rrule: None,
            start_tz: None,
            end_tz: None,
            error: None,
            tz_picking: None,
            tz_query: String::new(),
            picking: None,
            availability: None,
        }
    }

    /// The form for the instance of a series that starts at Unix time `at`:
    /// its fields show the instance's own dates and times, not the series'
    /// first ones, read in the zones the fields show, and the instance is
    /// remembered so that saving can ask "this event or all events?".
    pub fn from_series_occurrence(master: &Event, at: i64, local: &str) -> (r: Editor)
        requires
            form_event_ok(*master),
            crate::date::min_day_number() * 86400 + 4 * 86400 <= at + epoch(),
            at + epoch() + forward_span(*master) + 180000 + 4 * 86400 < (max_day_number() + 1) * 86400,
        ensures
            form_shows(r, *master, local@),
            r.pickers_closed(),
            r.occurrence == Some(at),
            form_times(
                r,
                wall_or_utc(shown_start_zone(*master, local@), at as int),
                wall_or_utc(shown_end_zone(*master, local@), at + duration_spec(*master, local@)),
            ),
    {
        let mut editor = Editor::from_event(master, local);
        editor.occurrence = Some(at);
        let start_zone: String = match &editor.start_tz {
            Some(z) => z.clone(),
            None => owned(local),
        };
        let end_zone: String = match &editor.end_tz {
            Some(z) => z.clone(),
            None => start_zone.clone(),
        };
        let start = wall_or_utc_exec(start_zone.as_str(), at);
        let duration = master.duration(local);
        let end = wall_or_utc_exec(end_zone.as_str(), at + duration);
        editor.start_date = start.date;
        editor.start_time = clock_text_exec(start.time);
        editor.end_date = if editor.all_day {
            proof {
                let dn = day_number(end.date);
                let lo = crate::date::min_day_number();
                let secs = end.time.seconds();
                assert(dn - 1 >= lo) by (nonlinear_arith)
                    requires
                        dn * 86400 + secs > lo * 86400 + 3 * 86400,
                        0 <= secs < 86400,
                ;
            }
            let d = end.date.add_days(-1);
            proof {
                lemma_date_after(end.date, -1, d);
            }
            d
        } else {
            end.date
        };
        editor.end_time = clock_text_exec(end.time);
        editor
    }

    /// The form for an existing event, shown in the viewer's zone `local`
    /// unless the event names a foreign zone, which is kept and shown in its
    /// own wall clock. An all-day event shows the last day it covers.
    pub fn from_event(event: &Event, local: &str) -> (r: Editor)
        requires
            form_event_ok(*event),
        ensures
            form_shows(r, *event, local@),
            r.pickers_closed(),
            r.occurrence is None,
            form_times(
                r,
                wall_in(event.start, shown_start_zone(*event, local@), local@),
                wall_in(event.end, shown_end_zone(*event, local@), local@),
            ),
    {
        proof {
            lemma_day_number_bounds(event.start.reading().date);
            lemma_day_number_bounds(event.end.reading().date);
        }
        let (start_tz, end_tz, start_zone, end_zone) = zones_of(event, local);
        let start = wall_in_exec(&event.start, start_zone.as_str(), local);
        let end = wall_in_exec(&event.end, end_zone.as_str(), local);
        let (freq, interval, repeat_end, custom) = repeat_of(event);
        let all_day = event.is_all_day();
        let end_date = if all_day {
            proof {
                let dn = day_number(end.date);
                let lo = crate::date::min_day_number();
                let secs = end.time.seconds();
                assert(dn - 1 >= lo) by (nonlinear_arith)
                    requires
                        dn * 86400 + secs > lo * 86400 + 169200,
                        0 <= secs < 86400,
                ;
            }
            let d = end.date.add_days(-1);
            proof {
                lemma_date_after(end.date, -1, d);
            }
            d
        } else {
            end.date
        };
        let count = match repeat_end {
            RepeatEnd::After(n) => number_text(n),
            _ => owned("10"),
        };
        let until = match repeat_end {
            RepeatEnd::On(d) => d,
            _ => {
                let d = start.date.add_days(30);
                proof {
                    lemma_date_after(start.date, 30, d);
                }
                d
            },
        };
        Editor {
            original: Some(copy_event(event)),
            occurrence: None,
            calendar_id: event.calendar_id.clone(),
            summary: event.summary.clone(),
            location: match &event.location {
                Some(l) => l.clone(),
                None => String::new(),
            },
            description: match &event.description {
                Some(d) => d.clone(),
                None => String::new(),
            },
            all_day,
            start_date: start.date,
            start_time: clock_text_exec(start.time),
            end_date,
            end_time: clock_text_exec(end.time),
            freq,
            interval,
            repeat_end,
            count,
            until,
            custom_rrule: custom,
            start_tz,
            end_tz,
            error: None,
            tz_picking: None,
            tz_query: String::new(),
            picking: None,
            availability: None,
        }
    }

    /// The event the form describes, or why it cannot be saved. An edited
    /// event keeps its identity and file and gets a newer revision; a new one
    /// is drafted in the form's calendar.
    pub fn to_event(&self, local: &str) -> (r: Result<Event, FormError>)
        requires
            form_dates_ok(*self),
        ensures
            match r {
                Err(err) => form_error(*self, local@) == Some(err),
                Ok(e) => form_error(*self, local@) is None && form_event(*self, local@, e),
            },
    {
        proof {
            lemma_day_number_bounds(self.start_date);
            lemma_day_number_bounds(self.end_date);
        }
        let summary_chars = chars_of(self.summary.as_str());
        let summary = trimmed(summary_chars.as_slice());
        if summary.len() == 0 {
            return Err(FormError::SummaryRequired);
        }
        let (start, end) = if self.all_day {
            let last = if self.end_date.is_before(self.start_date) {
                self.start_date
            } else {
                self.end_date
            };
            let after = last.add_days(1);
            proof {
                lemma_date_after(later_date(self.end_date, self.start_date), 1, after);
            }
            (EventTime::Date(self.start_date), EventTime::Date(after))
        } else {
            let a = match parse_time(self.start_time.as_str()) {
                Some(t) => t,
                None => return Err(FormError::InvalidTimeRange),
            };
            let b = match parse_time(self.end_time.as_str()) {
                Some(t) => t,
                None => return Err(FormError::InvalidTimeRange),
            };
            let start_zone: String = match &self.start_tz {
                Some(z) => z.clone(),
                None => owned(local),
            };
            let end_zone: String = match &self.end_tz {
                Some(z) => z.clone(),
                None => start_zone.clone(),
            };
            let s = DateTime { date: self.start_date, time: a };
            let e = DateTime { date: self.end_date, time: b };
            if resolve(e, end_zone.as_str()) <= resolve(s, start_zone.as_str()) {
                return Err(FormError::InvalidTimeRange);
            }
            (EventTime::Zoned(s, start_zone), EventTime::Zoned(e, end_zone))
        };
        let rrule = match &self.custom_rrule {
            Some(raw) => Some(raw.clone()),
            None => {
                let interval: u16 = match text_number(&self.interval, 0xffff) {
                    Some(n) => if n >= 1 {
                        n as u16
                    } else {
                        1
                    },
                    None => 1,
                };
                let rec = Recurrence { freq: self.freq, interval, end: self.resolved_repeat_end() };
                rec.to_rrule()
            },
        };
        let base = match &self.original {
            Some(o) => copy_event(o),
            None => Event::draft(
                self.calendar_id.as_str(),
                DateTime { date: self.start_date, time: Time::midnight() },
                local,
            ),
        };
        let sequence = match &self.original {
            Some(_) => if base.sequence < i32::MAX {
                base.sequence + 1
            } else {
                base.sequence
            },
            None => base.sequence,
        };
        Ok(Event {
            uid: base.uid,
            calendar_id: self.calendar_id.clone(),
            summary: string_of(summary.as_slice()),
            description: non_empty(self.description.as_str()),
            location: non_empty(self.location.as_str()),
            start,
            end,
            rrule,
            exdates: base.exdates,
            sequence,
            created: base.created,
            last_modified: Some(crate::event::now_unix()),
            file_name: base.file_name,
        })
    }

    /// When the series the form describes stops, from the typed count or the
    /// picked date.
    fn resolved_repeat_end(&self) -> (r: RepeatEnd)
        ensures
            r == form_repeat_end(*self),
    {
        match self.repeat_end {
            RepeatEnd::After(_) => RepeatEnd::After(
                match text_number(&self.count, 0xffff_ffff) {
                    Some(n) => if n >= 1 {
                        n
                    } else {
                        1
                    },
                    None => 10,
                },
            ),
            RepeatEnd::On(_) => RepeatEnd::On(self.until),
            RepeatEnd::Never => RepeatEnd::Never,
        }
    }

    /// Whether the form is creating an event rather than editing one.
    pub fn is_new(&self) -> (r: bool)
        ensures
            r == (self.original is None),
    {
        self.original.is_none()
    }
}


/// Whether `b` holds the same form as `a`: every field an event is built
/// from, and the error shown.
pub open spec fn same_form(a: Editor, b: Editor) -> bool {
    &&& a.original == b.original
    &&& a.occurrence == b.occurrence
    &&& a.calendar_id == b.calendar_id
    &&& a.summary == b.summary
    &&& a.location == b.location
    &&& a.description == b.description
    &&& a.all_day == b.all_day
    &&& a.start_date == b.start_date
    &&& a.start_time == b.start_time
    &&& a.end_date == b.end_date
    &&& a.end_time == b.end_time
    &&& a.freq == b.freq
    &&& a.interval == b.interval
    &&& a.repeat_end == b.repeat_end
    &&& a.count == b.count
    &&& a.until == b.until
    &&& a.custom_rrule == b.custom_rrule
    &&& a.start_tz == b.start_tz
    &&& a.end_tz == b.end_tz
    &&& a.error == b.error
}

/// The same form with other dates: all but the start, end and until dates
/// and the repeat end.
pub open spec fn same_but_dates(a: Editor, b: Editor) -> bool {
    same_form(
        a,
        Editor {
            start_date: a.start_date,
            end_date: a.end_date,
            until: a.until,
            repeat_end: a.repeat_end,
            ..b
        },
    )
}

/// The same form with other zones: all but the start and end zones.
pub open spec fn same_but_zones(a: Editor, b: Editor) -> bool {
    same_form(a, Editor { start_tz: a.start_tz, end_tz: a.end_tz, ..b })
}

/// What the zone picker shows for an attendee's answer: the message id of
/// "unknown" when the server would not say, else of "busy" or "free".
pub open spec fn answer_word(a: AttendeeAvailability) -> Seq<char> {
    if !a.answered {
        "availability-unknown"@
    } else if a.busy {
        "availability-busy"@
    } else {
        "availability-free"@
    }
}

/// The position of the first answer about `email` in `answers` from `k`
/// on, or `answers.len()` when there is none.
pub open spec fn answer_index(answers: Seq<AttendeeAvailability>, email: Seq<char>, k: int) -> int
    decreases answers.len() - k,
{
    if k >= answers.len() {
        answers.len() as int
    } else if answers[k].email@ == email {
        k
    } else {
        answer_index(answers, email, k + 1)
    }
}

/// The repeat end the picker's `index` names: after the typed count (ten
/// when it is not a number), on the until date, or never.
pub open spec fn repeat_end_at(index: int, count: Seq<char>, until: Date) -> RepeatEnd {
    if index == 1 {
        RepeatEnd::After(
            match parse_unsigned(count, 0xffff_ffff) {
                Some(n) => n as u32,
                None => 10,
            },
        )
    } else if index == 2 {
        RepeatEnd::On(until)
    } else {
        RepeatEnd::Never
    }
}

/// The frequencies in the order the picker lists them.
pub open spec fn freq_at_spec(index: int) -> Option<Freq> {
    if index == 0 {
        Some(Freq::Never)
    } else if index == 1 {
        Some(Freq::Daily)
    } else if index == 2 {
        Some(Freq::Weekly)
    } else if index == 3 {
        Some(Freq::Monthly)
    } else if index == 4 {
        Some(Freq::Yearly)
    } else {
        None
    }
}

/// The frequency at `index` in the picker's list, if there is one.
pub fn freq_at(index: usize) -> (r: Option<Freq>)
    ensures
        r == freq_at_spec(index as int),
{
    match index {
        0 => Some(Freq::Never),
        1 => Some(Freq::Daily),
        2 => Some(Freq::Weekly),
        3 => Some(Freq::Monthly),
        4 => Some(Freq::Yearly),
        _ => None,
    }
}

impl Editor {
    /// No picker is open, nothing is typed into the zone search, and no
    /// availability has been asked for.
    pub open spec fn pickers_closed(self) -> bool {
        &&& self.tz_picking is None
        &&& self.tz_query@.len() == 0
        &&& self.picking is None
        &&& self.availability is None
    }

    /// Opens the zone picker for `field`, or closes it when it is open for
    /// that field already; the search starts empty either way.
    pub fn toggle_tz(&mut self, field: TzField)
        ensures
            same_form(*old(self), *final(self)),
            final(self).tz_picking == if old(self).tz_picking == Some(field) {
                None
            } else {
                Some(field)
            },
            final(self).tz_query@.len() == 0,
            final(self).picking == old(self).picking,
    {
        self.tz_picking = if self.tz_picking == Some(field) {
            None
        } else {
            Some(field)
        };
        self.tz_query = String::new();
    }

    /// Takes the zone picked for the field the picker is open for, when it
    /// names a zone that exists, and closes the picker.
    pub fn choose_tz(&mut self, name: &str)
        ensures
            same_but_zones(*old(self), *final(self)),
            match old(self).tz_picking {
                Some(TzField::Start) if crate::ics::known_zone(name@) => opt_view(final(self).start_tz)
                    == Some(name@) && final(self).end_tz == old(self).end_tz,
                Some(TzField::End) if crate::ics::known_zone(name@) => opt_view(final(self).end_tz)
                    == Some(name@) && final(self).start_tz == old(self).start_tz,
                _ => final(self).start_tz == old(self).start_tz && final(self).end_tz == old(
                    self,
                ).end_tz,
            },
            final(self).tz_picking is None,
            final(self).tz_query@.len() == 0,
            final(self).picking == old(self).picking,
    {
        match self.tz_picking {
            Some(TzField::Start) => {
                if crate::ics::zone_is_known(name) {
                    self.start_tz = Some(owned(name));
                }
            },
            Some(TzField::End) => {
                if crate::ics::zone_is_known(name) {
                    self.end_tz = Some(owned(name));
                }
            },
            None => {},
        }
        self.tz_picking = None;
        self.tz_query = String::new();
    }

    /// Sets the zone the picker is open for back to the viewer's, and closes
    /// the picker.
    pub fn clear_tz(&mut self)
        ensures
            same_but_zones(*old(self), *final(self)),
            match old(self).tz_picking {
                Some(TzField::Start) => final(self).start_tz is None && final(self).end_tz == old(
                    self,
                ).end_tz,
                Some(TzField::End) => final(self).end_tz is None && final(self).start_tz == old(
                    self,
                ).start_tz,
                None => final(self).start_tz == old(self).start_tz && final(self).end_tz == old(
                    self,
                ).end_tz,
            },
            final(self).tz_picking is None,
            final(self).tz_query@.len() == 0,
            final(self).picking == old(self).picking,
    {
        match self.tz_picking {
            Some(TzField::Start) => {
                self.start_tz = None;
            },
            Some(TzField::End) => {
                self.end_tz = None;
            },
            None => {},
        }
        self.tz_picking = None;
        self.tz_query = String::new();
    }

    /// Opens the date picker on `field`, or closes it when it is open on
    /// that field already.
    pub fn pick_date(&mut self, field: DateField)
        ensures
            same_form(*old(self), *final(self)),
            final(self).picking == if old(self).picking == Some(field) {
                None
            } else {
                Some(field)
            },
            final(self).tz_picking == old(self).tz_picking,
    {
        self.picking = if self.picking == Some(field) {
            None
        } else {
            Some(field)
        };
    }

    /// Puts the picked date into the field the picker is open on, and
    /// closes it. A new start keeps the event's length in days; a new until
    /// date also makes the series end on it.
    pub fn date_picked(&mut self, date: Date)
        requires
            date.valid(),
            old(self).picking == Some(DateField::Start) ==> {
                &&& old(self).start_date.valid()
                &&& old(self).end_date.valid()
                &&& day_number(date) + day_number(old(self).end_date) - day_number(old(self).start_date)
                    <= max_day_number()
            },
        ensures
            same_but_dates(*old(self), *final(self)),
            match old(self).picking {
                Some(DateField::Start) => {
                    let span = day_number(old(self).end_date) - day_number(old(self).start_date);
                    &&& final(self).start_date == date
                    &&& final(self).end_date == date_after(date, if span > 0 { span } else { 0 })
                    &&& final(self).until == old(self).until
                    &&& final(self).repeat_end == old(self).repeat_end
                },
                Some(DateField::End) => {
                    &&& final(self).start_date == old(self).start_date
                    &&& final(self).end_date == date
                    &&& final(self).until == old(self).until
                    &&& final(self).repeat_end == old(self).repeat_end
                },
                Some(DateField::Until) => {
                    &&& final(self).start_date == old(self).start_date
                    &&& final(self).end_date == old(self).end_date
                    &&& final(self).until == date
                    &&& final(self).repeat_end == RepeatEnd::On(date)
                },
                None => {
                    &&& final(self).start_date == old(self).start_date
                    &&& final(self).end_date == old(self).end_date
                    &&& final(self).until == old(self).until
                    &&& final(self).repeat_end == old(self).repeat_end
                },
            },
            final(self).picking is None,
            final(self).tz_picking == old(self).tz_picking,
    {
        match self.picking {
            Some(DateField::Start) => {
                proof {
                    lemma_day_number_bounds(self.start_date);
                    lemma_day_number_bounds(self.end_date);
                    lemma_day_number_bounds(date);
                }
                let span = self.end_date.day_number() - self.start_date.day_number();
                let keep = if span > 0 {
                    span
                } else {
                    0
                };
                let end = date.add_days(keep);
                proof {
                    lemma_date_after(date, keep as int, end);
                }
                self.start_date = date;
                self.end_date = end;
            },
            Some(DateField::End) => {
                self.end_date = date;
            },
            Some(DateField::Until) => {
                self.until = date;
                self.repeat_end = RepeatEnd::On(date);
            },
            None => {},
        }
        self.picking = None;
    }

    /// Sets how the series ends from the picker's `index`: 1 after the
    /// typed count, 2 on the until date, anything else never.
    pub fn choose_repeat_end(&mut self, index: usize)
        ensures
            same_form(*final(self), Editor { repeat_end: final(self).repeat_end, ..*old(self) }),
            final(self).repeat_end == repeat_end_at(index as int, old(self).count@, old(self).until),
            final(self).picking == old(self).picking,
            final(self).tz_picking == old(self).tz_picking,
    {
        self.repeat_end = if index == 1 {
            match text_number(&self.count, 0xffff_ffff) {
                Some(n) => RepeatEnd::After(n),
                None => RepeatEnd::After(10),
            }
        } else if index == 2 {
            RepeatEnd::On(self.until)
        } else {
            RepeatEnd::Never
        };
    }

    /// Sets the frequency to the one at `index` in the picker's list; an
    /// index past its end changes nothing.
    pub fn choose_freq(&mut self, index: usize)
        ensures
            same_form(*final(self), Editor { freq: final(self).freq, ..*old(self) }),
            final(self).freq == match freq_at_spec(index as int) {
                Some(f) => f,
                None => old(self).freq,
            },
            final(self).picking == old(self).picking,
            final(self).tz_picking == old(self).tz_picking,
    {
        match freq_at(index) {
            Some(f) => {
                self.freq = f;
            },
            None => {},
        }
    }

    /// What to show under an attendee's name: the message id of their
    /// answer, or `None` when availability was not asked, did not come back
    /// as answers, or says nothing of them.
    pub fn availability_for(&self, email: &str) -> (r: Option<&'static str>)
        ensures
            match self.availability {
                Some(AvailabilityView::Answers(answers)) => {
                    let k = answer_index(answers@, email@, 0);
                    match r {
                        Some(w) => k < answers@.len() && w@ == answer_word(answers@[k]),
                        None => k == answers@.len(),
                    }
                },
                _ => r is None,
            },
    {
        match &self.availability {
            Some(AvailabilityView::Answers(answers)) => {
                let mut k: usize = 0;
                while k < answers.len()
                    invariant
                        k <= answers@.len(),
                        self.availability == Some(AvailabilityView::Answers(*answers)),
                        answer_index(answers@, email@, 0) == answer_index(answers@, email@, k as int),
                    decreases answers.len() - k,
                {
                    let a = &answers[k];
                    if str_equal(a.email.as_str(), email) {
                        assert(answer_index(answers@, email@, k as int) == k);
                        let word = if !a.answered {
                            "availability-unknown"
                        } else if a.busy {
                            "availability-busy"
                        } else {
                            "availability-free"
                        };
                        assert(*a == answers@[k as int]);
                        assert(word@ == answer_word(answers@[k as int]));
                        assert(answer_index(answers@, email@, 0) == k);
                        return Some(word);
                    }
                    k = k + 1;
                }
                None
            },
            _ => None,
        }
    }
}


/// An edit of one instance written on its own: the edited event without
/// the series' rule and exclusions, kept in the master's calendar and file.
pub open spec fn override_of(master: Event, edited: Event, o: Event) -> bool {
    &&& o.rrule is None
    &&& o.exdates@.len() == 0
    &&& o.calendar_id@ == master.calendar_id@
    &&& o.file_name@ == master.file_name@
    &&& o.uid@ == edited.uid@
    &&& o.summary@ == edited.summary@
    &&& opt_view(o.description) == opt_view(edited.description)
    &&& opt_view(o.location) == opt_view(edited.location)
    &&& same_time(o.start, edited.start)
    &&& same_time(o.end, edited.end)
    &&& o.sequence == edited.sequence
    &&& o.created == edited.created
    &&& o.last_modified == edited.last_modified
}

/// The whole series after an edit of one instance: the edited event, but
/// starting where the master started moved by `shift`, and lasting `length`.
pub open spec fn series_of(master: Event, edited: Event, shift: int, length: int, o: Event) -> bool {
    &&& same_time(o.start, shift_spec(master.start, shift))
    &&& same_time(o.end, shift_spec(o.start, length))
    &&& o.uid@ == edited.uid@
    &&& o.calendar_id@ == edited.calendar_id@
    &&& o.summary@ == edited.summary@
    &&& opt_view(o.description) == opt_view(edited.description)
    &&& opt_view(o.location) == opt_view(edited.location)
    &&& opt_view(o.rrule) == opt_view(edited.rrule)
    &&& o.exdates@ == edited.exdates@
    &&& o.sequence == edited.sequence
    &&& o.created == edited.created
    &&& o.last_modified == edited.last_modified
    &&& o.file_name@ == edited.file_name@
}

/// How far the edit moved the instance it was made on (which started at the
/// wall-clock reading `at`), and how long the edited event lasts, both in
/// seconds on the wall clock of `local`.
pub open spec fn edit_shift(edited: Event, at: DateTime, local: Seq<char>) -> (int, int) {
    let s = instant(edited.start.local_spec(local));
    (s - instant(at), instant(edited.end.local_spec(local)) - s)
}

proof fn lemma_shifted_same(t: EventTime, delta: int, r: EventTime)
    requires
        r.reading() == shift_spec(t, delta).reading(),
        r is Date <==> t is Date,
        r is Floating <==> t is Floating,
        match t {
            EventTime::Zoned(_, z) => r matches EventTime::Zoned(_, y) && y@ == z@,
            _ => true,
        },
    ensures
        same_time(r, shift_spec(t, delta)),
        forall|x: int| shift_fits(r, x) == #[trigger] shift_fits(shift_spec(t, delta), x),
{
}

/// What saving an edit made on one instance of a series writes, by scope.
/// For this instance alone: the edited event as an instance of its own,
/// without the series' rule or exclusions, in the master's calendar and
/// file. For the whole series: the edited event, its start the master's
/// moved as far as the instance was moved, and its length the edited one;
/// `None` when the instance's time cannot be read in `local`, or the moved
/// series would leave the dates that can be held. The instance started at
/// Unix time `instance`.
pub fn scoped_edit(master: &Event, edited: &Event, instance: i64, local: &str, scope: EditScope) -> (r: Option<Event>)
    requires
        scope != EditScope::Following,
        master.start.reading().valid(),
        edited.start.valid(),
        edited.end.valid(),
    ensures
        scope == EditScope::This ==> (r matches Some(o) && override_of(*master, *edited, o)),
        scope == EditScope::All ==> match wall_clock(local@, instance as int) {
            None => r is None,
            Some(at) => {
                let (shift, length) = edit_shift(*edited, at, local@);
                if shift_fits(master.start, shift) && shift_fits(shift_spec(master.start, shift), length) {
                    (r matches Some(o) && series_of(*master, *edited, shift, length, o))
                } else {
                    r is None
                }
            },
        },
{
    match scope {
        EditScope::This => {
            let mut o = copy_event(edited);
            o.rrule = None;
            o.exdates = Vec::new();
            o.calendar_id = master.calendar_id.clone();
            o.file_name = master.file_name.clone();
            Some(o)
        },
        _ => {
            let at = match crate::event::wall_clock_in_zone(local, instance) {
                Some(a) => a,
                None => {
                    return None;
                },
            };
            let s = edited.start.naive_local(local);
            let e = edited.end.naive_local(local);
            proof {
                lemma_day_number_bounds(at.date);
                lemma_day_number_bounds(s.date);
                lemma_day_number_bounds(e.date);
            }
            let shift = s.instant() - at.instant();
            let length = e.instant() - s.instant();
            assert(edit_shift(*edited, at, local@) == (shift as int, length as int));
            if !shift_fits_exec(&master.start, shift) {
                return None;
            }
            let start = shift_time(&master.start, shift);
            proof {
                lemma_shifted_same(master.start, shift as int, start);
            }
            if !shift_fits_exec(&start, length) {
                return None;
            }
            let end = shift_time(&start, length);
            proof {
                lemma_shifted_same(start, length as int, end);
            }
            let mut o = copy_event(edited);
            o.start = start;
            o.end = end;
            Some(o)
        },
    }
}

} // verus!
