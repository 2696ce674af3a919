//! The rows of the rebuildable event index, a cache over the collections.
//!
//! The `.ics` files are the source of truth and the cache can be deleted at
//! any time; it exists so that moving between months does not mean reading
//! every file again. What the library decides is what a row holds for an
//! event and how an event comes back from a row, which events a range query
//! has to hand back, which files a refresh has to read again, and when the
//! cache is stale. The database itself is worked by the application.

use vstd::prelude::*;
use crate::collection::CalendarMeta;
use crate::date::{day_number, instant, lemma_day_number_bounds, max_day_number, min_day_number, DateTime, Time};
use crate::event::{duration_spec, epoch, epoch_exec, unix_fits, utc_seconds, Event, EventTime};
use crate::form::same_time;
use crate::ics::{ical_datetime, known_zone, parse_ical_datetime, reading_of, zone_is_known};
use crate::text::{
    chars_of, decimal_digits, first_index, is_digit, joined, lemma_signed_digits, lemma_split_joined,
    opt_view, owned, parse_i64, parse_i64_exec, push_i64, signed_digits, split_exec, split_on,
    str_equal, string_of, trim, trimmed, upper, upper_exec, views,
};

verus! {

/// The kind column of an all-day time.
pub const KIND_DATE: i64 = 0;

/// The kind column of a floating time.
pub const KIND_FLOATING: i64 = 1;

/// The kind column of a time in a zone.
pub const KIND_ZONED: i64 = 2;

/// The version of the row layout; a cache stamped with another is rebuilt.
pub const SCHEMA_VERSION: i64 = 2;

/// One row of the event index.
pub struct IndexRow {
    pub calendar_id: String,
    pub file_name: String,
    pub uid: String,
    pub summary: String,
    pub description: Option<String>,
    pub location: Option<String>,
    pub start_kind: i64,
    /// The start's reading, as seconds from 1970 read as UTC.
    pub start_naive: i64,
    pub start_tz: Option<String>,
    pub end_kind: i64,
    pub end_naive: i64,
    pub end_tz: Option<String>,
    pub rrule: Option<String>,
    /// The excluded occurrences' readings, as comma-separated seconds.
    pub exdates: String,
    pub sequence: i32,
    pub created: Option<i64>,
    pub modified: Option<i64>,
    /// The instants the event starts and ends, resolved in the viewer's zone.
    pub start_utc: i64,
    pub end_utc: i64,
    /// The latest instant the series can reach, when its rule bounds it.
    pub until_utc: Option<i64>,
}

/// `r` holds an event time as its kind, reading and zone columns.
pub open spec fn time_columns(t: EventTime, r: (i64, i64, Option<String>)) -> bool {
    &&& r.1 == utc_seconds(t.reading())
    &&& match t {
        EventTime::Date(_) => r.0 == KIND_DATE && r.2 is None,
        EventTime::Floating(_) => r.0 == KIND_FLOATING && r.2 is None,
        EventTime::Zoned(_, z) => r.0 == KIND_ZONED && opt_view(r.2) == Some(z@),
    }
}

fn seconds_of_reading(dt: DateTime) -> (r: i64)
    requires
        dt.valid(),
    ensures
        r == utc_seconds(dt),
        unix_fits(r as int),
{
    proof {
        lemma_day_number_bounds(dt.date);
    }
    dt.instant() - epoch_exec()
}

/// The kind, reading and zone columns of an event time.
pub fn split_time(t: &EventTime) -> (r: (i64, i64, Option<String>))
    requires
        t.reading().valid(),
    ensures
        time_columns(*t, r),
{
    match t {
        EventTime::Date(d) => (
            KIND_DATE,
            seconds_of_reading(DateTime { date: *d, time: Time::midnight() }),
            None,
        ),
        EventTime::Floating(dt) => (KIND_FLOATING, seconds_of_reading(*dt), None),
        EventTime::Zoned(dt, z) => (KIND_ZONED, seconds_of_reading(*dt), Some(z.clone())),
    }
}

fn unix_fits_exec(t: i64) -> (r: bool)
    ensures
        r == unix_fits(t as int),
{
    let first = crate::date::Date { year: crate::date::MIN_YEAR, month: 1, day: 1 };
    let last = crate::date::Date { year: crate::date::MAX_YEAR, month: 12, day: 31 };
    proof {
        lemma_day_number_bounds(first);
        lemma_day_number_bounds(last);
    }
    let lo: i64 = first.day_number() * 86400;
    let hi: i64 = (last.day_number() + 1) * 86400;
    let e = epoch_exec();
    let sum: i128 = t as i128 + e as i128;
    (lo as i128) <= sum && sum < (hi as i128)
}

fn reading_at(s: i64) -> (r: DateTime)
    requires
        unix_fits(s as int),
    ensures
        r == reading_of(s as int),
        r.valid(),
{
    let base = DateTime {
        date: crate::date::Date { year: 1970, month: 1, day: 1 },
        time: Time::midnight(),
    };
    proof {
        lemma_day_number_bounds(base.date);
    }
    let r = base.add_seconds(s);
    proof {
        crate::date::lemma_datetime_at(r);
    }
    r
}

/// `r` is the event time columns read back as: the reading the seconds name,
/// a date for the date kind, a time in the named zone for the zone kind (in
/// `UTC` when the zone is missing or unknown to chrono-tz), and a floating
/// time for any other kind. Seconds beyond what chrono holds read as the
/// current time, which is left unsaid.
pub open spec fn time_from_columns(kind: i64, naive: i64, tz: Option<String>, r: EventTime) -> bool {
    unix_fits(naive as int) ==> {
        let dt = reading_of(naive as int);
        if kind == KIND_DATE {
            r == EventTime::Date(dt.date)
        } else if kind == KIND_ZONED {
            r matches EventTime::Zoned(d, z) && d == dt && z@ == match tz {
                Some(name) => if known_zone(name@) {
                    name@
                } else {
                    "UTC"@
                },
                None => "UTC"@,
            }
        } else {
            r == EventTime::Floating(dt)
        }
    }
}

/// The event time kind, reading and zone columns read back as.
pub fn join_time(kind: i64, naive: i64, tz: Option<String>) -> (r: EventTime)
    ensures
        time_from_columns(kind, naive, tz, r),
        r.reading().valid(),
{
    let dt = if unix_fits_exec(naive) {
        reading_at(naive)
    } else {
        reading_at(crate::event::now_unix())
    };
    if kind == KIND_DATE {
        EventTime::Date(dt.date)
    } else if kind == KIND_ZONED {
        let zone = match tz {
            Some(name) => if zone_is_known(name.as_str()) {
                name
            } else {
                owned("UTC")
            },
            None => owned("UTC"),
        };
        EventTime::Zoned(dt, zone)
    } else {
        EventTime::Floating(dt)
    }
}

/// An event time read back from its columns is the same time, when it is a
/// real reading (at midnight, for a date) in a zone chrono-tz knows.
pub proof fn lemma_time_columns_roundtrip(t: EventTime, cols: (i64, i64, Option<String>), back: EventTime)
    requires
        t.reading().valid(),
        t matches EventTime::Zoned(_, z) ==> known_zone(z@),
        time_columns(t, cols),
        time_from_columns(cols.0, cols.1, cols.2, back),
    ensures
        same_time(back, t),
{
    crate::date::lemma_datetime_at(t.reading());
    lemma_day_number_bounds(t.reading().date);
}

/// How excluded occurrences are stored: each reading's seconds, joined by
/// commas.
pub open spec fn exdates_text(xs: Seq<DateTime>) -> Seq<char> {
    joined(xs.map_values(|x: DateTime| signed_digits(utc_seconds(x))), ',')
}

/// The readings a list of stored seconds reads back as: empty pieces, pieces
/// that are not numbers and seconds beyond what chrono holds are skipped.
pub open spec fn exdates_from(pieces: Seq<Seq<char>>) -> Seq<DateTime>
    decreases pieces.len(),
{
    if pieces.len() == 0 {
        Seq::empty()
    } else {
        exdates_from(pieces.drop_last()) + (if pieces.last().len() == 0 {
            Seq::empty()
        } else {
            match parse_i64(pieces.last()) {
                Some(v) => if unix_fits(v) {
                    seq![reading_of(v)]
                } else {
                    Seq::empty()
                },
                None => Seq::empty(),
            }
        })
    }
}

/// The stored form of excluded occurrences.
pub fn encode_exdates(xs: &Vec<DateTime>) -> (r: String)
    requires
        forall|i: int| 0 <= i < xs@.len() ==> (#[trigger] xs@[i]).valid(),
    ensures
        r@ == exdates_text(xs@),
{
    let mut out: Vec<char> = Vec::new();
    let mut i: usize = 0;
    while i < xs.len()
        invariant
            i <= xs@.len(),
            forall|j: int| 0 <= j < xs@.len() ==> (#[trigger] xs@[j]).valid(),
            out@ == joined(xs@.take(i as int).map_values(|x: DateTime| signed_digits(utc_seconds(x))), ','),
        decreases xs.len() - i,
    {
        let s = seconds_of_reading(xs[i]);
        let ghost before = xs@.take(i as int).map_values(|x: DateTime| signed_digits(utc_seconds(x)));
        let ghost after = xs@.take(i + 1).map_values(|x: DateTime| signed_digits(utc_seconds(x)));
        proof {
            assert(after.drop_last() =~= before);
            assert(after.last() == signed_digits(s as int));
            reveal_with_fuel(joined, 2);
        }
        if i > 0 {
            out.push(',');
        }
        push_i64(&mut out, s);
        proof {
            if i == 0 {
                assert(after =~= seq![signed_digits(s as int)]);
            }
        }
        assert(out@ =~= joined(after, ','));
        i = i + 1;
    }
    assert(xs@.take(xs@.len() as int) =~= xs@);
    string_of(out.as_slice())
}

/// Excluded occurrences read back from their stored form.
pub fn decode_exdates(text: &str) -> (r: Vec<DateTime>)
    ensures
        r@ == exdates_from(split_on(text@, ',')),
{
    let chars = chars_of(text);
    let pieces = split_exec(chars.as_slice(), ',');
    let ghost all = views(pieces@);
    let mut out: Vec<DateTime> = Vec::new();
    let mut i: usize = 0;
    while i < pieces.len()
        invariant
            i <= pieces@.len(),
            all == views(pieces@),
            out@ == exdates_from(all.take(i as int)),
        decreases pieces.len() - i,
    {
        assert(all.take(i + 1).drop_last() =~= all.take(i as int));
        assert(all.take(i + 1).last() == pieces@[i as int]@);
        if pieces[i].len() > 0 {
            match parse_i64_exec(pieces[i].as_slice()) {
                Some(v) => if unix_fits_exec(v) {
                    out.push(reading_at(v));
                },
                None => {},
            }
        }
        assert(out@ =~= exdates_from(all.take(i + 1)));
        i = i + 1;
    }
    assert(all.take(pieces@.len() as int) =~= all);
    out
}

/// Stored excluded occurrences read back as themselves.
pub proof fn lemma_exdates_roundtrip(xs: Seq<DateTime>)
    requires
        forall|i: int| 0 <= i < xs.len() ==> (#[trigger] xs[i]).valid(),
    ensures
        exdates_from(split_on(exdates_text(xs), ',')) == xs,
{
    let g = |x: DateTime| signed_digits(utc_seconds(x));
    let pieces = xs.map_values(g);
    if xs.len() == 0 {
        assert(pieces.len() == 0);
        assert(exdates_text(xs) =~= Seq::<char>::empty());
        assert(split_on(Seq::<char>::empty(), ',') =~= seq![Seq::<char>::empty()]);
        let one = seq![Seq::<char>::empty()];
        assert(one.drop_last() =~= Seq::<Seq<char>>::empty());
        assert(one.last().len() == 0);
        assert(exdates_from(one.drop_last()) =~= Seq::<DateTime>::empty());
        assert(exdates_from(one) =~= Seq::<DateTime>::empty());
    } else {
        assert forall|i: int| 0 <= i < pieces.len() implies !(#[trigger] pieces[i]).contains(',') by {
            let x = xs[i];
            lemma_day_number_bounds(x.date);
            lemma_signed_digits(utc_seconds(x));
            if pieces[i].contains(',') {
                let k = choose|k: int| 0 <= k < pieces[i].len() && pieces[i][k] == ',';
                assert(pieces[i][k] == '-' || is_digit(pieces[i][k]));
            }
        }
        lemma_split_joined(pieces, ',');
        lemma_pieces_read_back(xs);
    }
}

proof fn lemma_pieces_read_back(xs: Seq<DateTime>)
    requires
        forall|i: int| 0 <= i < xs.len() ==> (#[trigger] xs[i]).valid(),
    ensures
        exdates_from(xs.map_values(|x: DateTime| signed_digits(utc_seconds(x)))) == xs,
    decreases xs.len(),
{
    let g = |x: DateTime| signed_digits(utc_seconds(x));
    let pieces = xs.map_values(g);
    if xs.len() > 0 {
        let rest = xs.drop_last();
        assert forall|i: int| 0 <= i < rest.len() implies (#[trigger] rest[i]).valid() by {
            assert(rest[i] == xs[i]);
        }
        lemma_pieces_read_back(rest);
        assert(pieces.drop_last() =~= rest.map_values(g));
        let x = xs.last();
        assert(x.valid()) by {
            assert(xs[xs.len() - 1] == x);
        }
        lemma_day_number_bounds(x.date);
        lemma_signed_digits(utc_seconds(x));
        crate::date::lemma_datetime_at(x);
        assert(pieces.last() == signed_digits(utc_seconds(x)));
        assert(exdates_from(pieces) =~= rest + seq![x]);
        assert(xs =~= rest + seq![x]);
    } else {
        assert(pieces.len() == 0);
    }
}

/// The `UNTIL` a rule's parts give, read as an `EXDATE` value is: the parts
/// are looked at in order, and a part with no `=` before an `UNTIL` one, or
/// an `UNTIL` value that does not read, gives nothing.
pub open spec fn until_scan(parts: Seq<Seq<char>>) -> Option<DateTime>
    decreases parts.len(),
{
    if parts.len() == 0 {
        None
    } else {
        let p = parts[0];
        let k = first_index(p, '=');
        if k >= p.len() {
            None
        } else if upper(trim(p.take(k))) == "UNTIL"@ {
            ical_datetime(trim(p.skip(k + 1)))
        } else {
            until_scan(parts.drop_first())
        }
    }
}

/// The latest instant a series can reach: its `UNTIL` read as UTC, plus the
/// event's own length, since the last instance starts at `UNTIL` but may run
/// past it. Only `UNTIL` gives a cheap answer; a rule bounded by `COUNT`
/// counts as unbounded, so the series is always a candidate and expansion
/// sorts it out.
pub open spec fn series_until_spec(e: Event, local: Seq<char>) -> Option<int> {
    match e.rrule {
        None => None,
        Some(rule) => match until_scan(split_on(rule@, ';')) {
            Some(dt) => Some(utc_seconds(dt) + duration_spec(e, local)),
            None => None,
        },
    }
}

/// The latest instant a series can reach, or `None` when it is unbounded.
pub fn series_until(event: &Event, local: &str) -> (r: Option<i64>)
    requires
        event.start.valid(),
        event.end.valid(),
    ensures
        match series_until_spec(*event, local@) {
            Some(v) => r == Some(v as i64) && i64::MIN <= v <= i64::MAX,
            None => r is None,
        },
{
    let rule = match &event.rrule {
        Some(rule) => rule,
        None => return None,
    };
    let chars = chars_of(rule.as_str());
    let parts = split_exec(chars.as_slice(), ';');
    let ghost all = views(parts@);
    let mut i: usize = 0;
    assert(all.skip(0) =~= all);
    while i < parts.len()
        invariant
            i <= parts@.len(),
            event.start.valid(),
            event.end.valid(),
            event.rrule == Some(*rule),
            all == views(parts@),
            all == split_on(rule@, ';'),
            until_scan(all) == until_scan(all.skip(i as int)),
        decreases parts.len() - i,
    {
        let part = parts[i].as_slice();
        assert(all.skip(i as int)[0] == part@);
        assert(all.skip(i as int).drop_first() =~= all.skip(i + 1));
        let k = crate::text::find_char(part, '=');
        if k >= part.len() {
            return None;
        }
        let key = crate::text::sub_chars(part, 0, k);
        assert(key@ =~= part@.take(k as int));
        let key_trimmed = trimmed(key.as_slice());
        let key_upper = upper_exec(key_trimmed.as_slice());
        if crate::text::seq_is(key_upper.as_slice(), "UNTIL") {
            let value = crate::text::sub_chars(part, k + 1, part.len());
            assert(value@ =~= part@.skip(k + 1));
            let v = trimmed(value.as_slice());
            return match parse_ical_datetime(v.as_slice()) {
                Some(dt) => {
                    let duration = event.duration(local);
                    proof {
                        lemma_day_number_bounds(dt.date);
                        lemma_day_number_bounds(event.start.reading().date);
                        lemma_day_number_bounds(event.end.reading().date);
                    }
                    Some(seconds_of_reading(dt) + duration)
                },
                None => None,
            };
        }
        i = i + 1;
    }
    assert(all.skip(i as int) =~= Seq::<Seq<char>>::empty());
    None
}

/// `row` is what the index holds for `e`, resolved in the zone `local`.
pub open spec fn row_for(e: Event, local: Seq<char>, row: IndexRow) -> bool {
    &&& row.calendar_id@ == e.calendar_id@
    &&& row.file_name@ == e.file_name@
    &&& row.uid@ == e.uid@
    &&& row.summary@ == e.summary@
    &&& opt_view(row.description) == opt_view(e.description)
    &&& opt_view(row.location) == opt_view(e.location)
    &&& time_columns(e.start, (row.start_kind, row.start_naive, row.start_tz))
    &&& time_columns(e.end, (row.end_kind, row.end_naive, row.end_tz))
    &&& opt_view(row.rrule) == opt_view(e.rrule)
    &&& row.exdates@ == exdates_text(e.exdates@)
    &&& row.sequence == e.sequence
    &&& row.created == e.created
    &&& row.modified == e.last_modified
    &&& row.start_utc == e.start.utc_spec(local)
    &&& row.end_utc == e.end.utc_spec(local)
    &&& match series_until_spec(e, local) {
        Some(v) => row.until_utc == Some(v as i64) && i64::MIN <= v <= i64::MAX,
        None => row.until_utc is None,
    }
}

/// Whether an event can be indexed: its times and excluded occurrences are
/// real.
pub open spec fn indexable(e: Event) -> bool {
    &&& e.start.valid()
    &&& e.end.valid()
    &&& forall|i: int| 0 <= i < e.exdates@.len() ==> (#[trigger] e.exdates@[i]).valid()
}

fn copy_text(o: &Option<String>) -> (r: Option<String>)
    ensures
        opt_view(r) == opt_view(*o),
{
    match o {
        Some(s) => Some(s.clone()),
        None => None,
    }
}

/// What the index holds for an event, resolved in the zone named `local`.
pub fn row_of(event: &Event, local: &str) -> (r: IndexRow)
    requires
        indexable(*event),
    ensures
        row_for(*event, local@, r),
{
    let (start_kind, start_naive, start_tz) = split_time(&event.start);
    let (end_kind, end_naive, end_tz) = split_time(&event.end);
    IndexRow {
        calendar_id: event.calendar_id.clone(),
        file_name: event.file_name.clone(),
        uid: event.uid.clone(),
        summary: event.summary.clone(),
        description: copy_text(&event.description),
        location: copy_text(&event.location),
        start_kind,
        start_naive,
        start_tz,
        end_kind,
        end_naive,
        end_tz,
        rrule: copy_text(&event.rrule),
        exdates: encode_exdates(&event.exdates),
        sequence: event.sequence,
        created: event.created,
        modified: event.last_modified,
        start_utc: event.start.to_utc(local),
        end_utc: event.end.to_utc(local),
        until_utc: series_until(event, local),
    }
}

/// `e` is the event a row reads back as.
pub open spec fn event_from_row(row: IndexRow, e: Event) -> bool {
    &&& e.calendar_id@ == row.calendar_id@
    &&& e.file_name@ == row.file_name@
    &&& e.uid@ == row.uid@
    &&& e.summary@ == row.summary@
    &&& opt_view(e.description) == opt_view(row.description)
    &&& opt_view(e.location) == opt_view(row.location)
    &&& time_from_columns(row.start_kind, row.start_naive, row.start_tz, e.start)
    &&& time_from_columns(row.end_kind, row.end_naive, row.end_tz, e.end)
    &&& opt_view(e.rrule) == opt_view(row.rrule)
    &&& e.exdates@ == exdates_from(split_on(row.exdates@, ','))
    &&& e.sequence == row.sequence
    &&& e.created == row.created
    &&& e.last_modified == row.modified
}

/// The event a row reads back as.
pub fn event_of_row(row: &IndexRow) -> (r: Event)
    ensures
        event_from_row(*row, r),
{
    Event {
        uid: row.uid.clone(),
        calendar_id: row.calendar_id.clone(),
        summary: row.summary.clone(),
        description: copy_text(&row.description),
        location: copy_text(&row.location),
        start: join_time(row.start_kind, row.start_naive, copy_text(&row.start_tz)),
        end: join_time(row.end_kind, row.end_naive, copy_text(&row.end_tz)),
        rrule: copy_text(&row.rrule),
        exdates: decode_exdates(row.exdates.as_str()),
        sequence: row.sequence,
        created: row.created,
        last_modified: row.modified,
        file_name: row.file_name.clone(),
    }
}

/// An event read back from its row is the same event, when its zones are
/// ones chrono-tz knows and an all-day time is a date.
pub proof fn lemma_row_roundtrip(e: Event, local: Seq<char>, row: IndexRow, back: Event)
    requires
        indexable(e),
        e.start matches EventTime::Zoned(_, z) ==> known_zone(z@),
        e.end matches EventTime::Zoned(_, z) ==> known_zone(z@),
        row_for(e, local, row),
        event_from_row(row, back),
    ensures
        crate::form::same_event(back, e),
{
    lemma_time_columns_roundtrip(e.start, (row.start_kind, row.start_naive, row.start_tz), back.start);
    lemma_time_columns_roundtrip(e.end, (row.end_kind, row.end_naive, row.end_tz), back.end);
    lemma_exdates_roundtrip(e.exdates@);
}

/// Whether a row could overlap `[from, to)`: a one-off event that does, or a
/// series that starts before the window ends and is not known to have ended
/// before the window starts.
pub open spec fn is_candidate_spec(row: IndexRow, from: int, to: int) -> bool {
    match row.rrule {
        None => row.end_utc > from && row.start_utc < to,
        Some(_) => row.start_utc < to && (row.until_utc matches Some(u) ==> u > from),
    }
}

/// Whether a row could overlap `[from, to)`.
pub fn is_candidate(row: &IndexRow, from: i64, to: i64) -> (r: bool)
    ensures
        r == is_candidate_spec(*row, from as int, to as int),
{
    match &row.rrule {
        None => row.end_utc > from && row.start_utc < to,
        Some(_) => row.start_utc < to && match row.until_utc {
            Some(u) => u > from,
            None => true,
        },
    }
}

/// Whether `id` is one of `ids`.
pub open spec fn among(ids: Seq<String>, id: Seq<char>) -> bool {
    exists|j: int| 0 <= j < ids.len() && (#[trigger] ids[j])@ == id
}

/// The rows a range query hands back, in order: those of the listed
/// calendars that could overlap the window.
pub open spec fn selected(rows: Seq<IndexRow>, ids: Seq<String>, from: int, to: int) -> Seq<IndexRow>
    decreases rows.len(),
{
    if rows.len() == 0 {
        Seq::empty()
    } else {
        let r = rows.last();
        selected(rows.drop_last(), ids, from, to) + if among(ids, r.calendar_id@) && is_candidate_spec(r, from, to) {
            seq![r]
        } else {
            Seq::empty()
        }
    }
}

fn is_among(ids: &Vec<String>, id: &String) -> (r: bool)
    ensures
        r == among(ids@, id@),
{
    let mut i: usize = 0;
    while i < ids.len()
        invariant
            i <= ids@.len(),
            forall|j: int| 0 <= j < i ==> (#[trigger] ids@[j])@ != id@,
        decreases ids.len() - i,
    {
        if str_equal(ids[i].as_str(), id.as_str()) {
            return true;
        }
        i = i + 1;
    }
    false
}

/// Every event that could overlap `[from, to)` among the rows of the listed
/// calendars. A series is handed back whenever it could reach the window;
/// expanding it says whether it does.
pub fn candidates(rows: &Vec<IndexRow>, calendar_ids: &Vec<String>, from: i64, to: i64) -> (r: Vec<Event>)
    ensures
        r@.len() == selected(rows@, calendar_ids@, from as int, to as int).len(),
        forall|k: int| 0 <= k < r@.len() ==> event_from_row(
            selected(rows@, calendar_ids@, from as int, to as int)[k],
            #[trigger] r@[k],
        ),
{
    let mut out: Vec<Event> = Vec::new();
    if calendar_ids.len() == 0 {
        proof {
            lemma_nothing_selected(rows@, calendar_ids@, from as int, to as int);
        }
        return out;
    }
    let mut i: usize = 0;
    while i < rows.len()
        invariant
            i <= rows@.len(),
            out@.len() == selected(rows@.take(i as int), calendar_ids@, from as int, to as int).len(),
            forall|k: int| 0 <= k < out@.len() ==> event_from_row(
                selected(rows@.take(i as int), calendar_ids@, from as int, to as int)[k],
                #[trigger] out@[k],
            ),
        decreases rows.len() - i,
    {
        let ghost before = selected(rows@.take(i as int), calendar_ids@, from as int, to as int);
        assert(rows@.take(i + 1).drop_last() =~= rows@.take(i as int));
        assert(rows@.take(i + 1).last() == rows@[i as int]);
        let row = &rows[i];
        if is_among(calendar_ids, &row.calendar_id) && is_candidate(row, from, to) {
            let e = event_of_row(row);
            out.push(e);
            assert forall|k: int| 0 <= k < out@.len() implies event_from_row(
                selected(rows@.take(i + 1), calendar_ids@, from as int, to as int)[k],
                #[trigger] out@[k],
            ) by {
                if k < before.len() {
                    assert(selected(rows@.take(i + 1), calendar_ids@, from as int, to as int)[k] == before[k]);
                }
            }
        }
        i = i + 1;
    }
    assert(rows@.take(rows@.len() as int) =~= rows@);
    out
}

proof fn lemma_nothing_selected(rows: Seq<IndexRow>, ids: Seq<String>, from: int, to: int)
    requires
        ids.len() == 0,
    ensures
        selected(rows, ids, from, to).len() == 0,
    decreases rows.len(),
{
    if rows.len() > 0 {
        lemma_nothing_selected(rows.drop_last(), ids, from, to);
    }
}

/// The index never leaves out an event that overlaps the window: a one-off
/// event whose instants overlap `[from, to)` is a candidate, and so is a
/// series with an instance that starts at or after the series' start, no
/// later than its `UNTIL`, and overlaps the window.
pub proof fn lemma_overlapping_is_candidate(e: Event, local: Seq<char>, row: IndexRow, from: int, to: int, t: int)
    requires
        row_for(e, local, row),
        e.rrule is None ==> t == e.start.utc_spec(local),
        e.rrule matches Some(rule) ==> e.start.utc_spec(local) <= t && (until_scan(split_on(rule@, ';')) matches Some(u)
            ==> t <= utc_seconds(u)),
        t < to,
        e.rrule is None ==> e.end.utc_spec(local) > from,
        e.rrule is Some ==> t + duration_spec(e, local) > from,
    ensures
        is_candidate_spec(row, from, to),
{
    match e.rrule {
        None => {
            assert(row.rrule is None);
        },
        Some(rule) => {
            assert(row.rrule is Some);
            assert(row.start_utc < to);
            let scan = until_scan(split_on(rule@, ';'));
            match scan {
                Some(u) => {
                    assert(series_until_spec(e, local) == Some(utc_seconds(u) + duration_spec(e, local)));
                },
                None => {
                    assert(series_until_spec(e, local) is None);
                },
            }
        },
    }
}

/// A file of a collection, with what the index checks for changes.
pub struct FileStamp {
    pub name: String,
    pub mtime: i64,
    pub size: i64,
}

/// The modification time and size listed for a file, if it is listed.
pub open spec fn stamp_of(entries: Seq<FileStamp>, name: Seq<char>) -> Option<(i64, i64)>
    decreases entries.len(),
{
    if entries.len() == 0 {
        None
    } else if entries.last().name@ == name {
        Some((entries.last().mtime, entries.last().size))
    } else {
        stamp_of(entries.drop_last(), name)
    }
}

/// The indexed files that are gone from disk, in the index's order.
pub open spec fn removed_spec(indexed: Seq<FileStamp>, on_disk: Seq<FileStamp>) -> Seq<Seq<char>>
    decreases indexed.len(),
{
    if indexed.len() == 0 {
        Seq::empty()
    } else {
        removed_spec(indexed.drop_last(), on_disk) + if stamp_of(on_disk, indexed.last().name@) is None {
            seq![indexed.last().name@]
        } else {
            Seq::empty()
        }
    }
}

/// The files on disk that are new or changed since they were indexed, in the
/// disk's order.
pub open spec fn changed_spec(on_disk: Seq<FileStamp>, indexed: Seq<FileStamp>) -> Seq<Seq<char>>
    decreases on_disk.len(),
{
    if on_disk.len() == 0 {
        Seq::empty()
    } else {
        let f = on_disk.last();
        changed_spec(on_disk.drop_last(), indexed) + if stamp_of(indexed, f.name@) != Some((f.mtime, f.size)) {
            seq![f.name@]
        } else {
            Seq::empty()
        }
    }
}

fn stamp_lookup(entries: &Vec<FileStamp>, name: &String) -> (r: Option<(i64, i64)>)
    ensures
        r == stamp_of(entries@, name@),
{
    let mut i: usize = entries.len();
    assert(entries@.take(i as int) =~= entries@);
    while i > 0
        invariant
            i <= entries@.len(),
            stamp_of(entries@, name@) == stamp_of(entries@.take(i as int), name@),
        decreases i,
    {
        assert(entries@.take(i as int).drop_last() =~= entries@.take(i - 1));
        assert(entries@.take(i as int).last() == entries@[i - 1]);
        if str_equal(entries[i - 1].name.as_str(), name.as_str()) {
            return Some((entries[i - 1].mtime, entries[i - 1].size));
        }
        i = i - 1;
    }
    None
}

/// The indexed files that are gone from disk.
pub fn removed_files(indexed: &Vec<FileStamp>, on_disk: &Vec<FileStamp>) -> (r: Vec<String>)
    ensures
        r@.map_values(|s: String| s@) == removed_spec(indexed@, on_disk@),
{
    let mut out: Vec<String> = Vec::new();
    let mut i: usize = 0;
    while i < indexed.len()
        invariant
            i <= indexed@.len(),
            out@.map_values(|s: String| s@) == removed_spec(indexed@.take(i as int), on_disk@),
        decreases indexed.len() - i,
    {
        assert(indexed@.take(i + 1).drop_last() =~= indexed@.take(i as int));
        assert(indexed@.take(i + 1).last() == indexed@[i as int]);
        let ghost before = out@;
        if stamp_lookup(on_disk, &indexed[i].name).is_none() {
            out.push(indexed[i].name.clone());
            assert(out@.map_values(|s: String| s@) =~= before.map_values(|s: String| s@).push(indexed@[i as int].name@));
        }
        assert(out@.map_values(|s: String| s@) =~= removed_spec(indexed@.take(i + 1), on_disk@));
        i = i + 1;
    }
    assert(indexed@.take(indexed@.len() as int) =~= indexed@);
    out
}

/// The files on disk that are new or changed since they were indexed.
pub fn changed_files(on_disk: &Vec<FileStamp>, indexed: &Vec<FileStamp>) -> (r: Vec<String>)
    ensures
        r@.map_values(|s: String| s@) == changed_spec(on_disk@, indexed@),
{
    let mut out: Vec<String> = Vec::new();
    let mut i: usize = 0;
    while i < on_disk.len()
        invariant
            i <= on_disk@.len(),
            out@.map_values(|s: String| s@) == changed_spec(on_disk@.take(i as int), indexed@),
        decreases on_disk.len() - i,
    {
        assert(on_disk@.take(i + 1).drop_last() =~= on_disk@.take(i as int));
        assert(on_disk@.take(i + 1).last() == on_disk@[i as int]);
        let ghost before = out@;
        let f = &on_disk[i];
        let same = match stamp_lookup(indexed, &f.name) {
            Some((m, z)) => m == f.mtime && z == f.size,
            None => false,
        };
        if !same {
            out.push(f.name.clone());
            assert(out@.map_values(|s: String| s@) =~= before.map_values(|s: String| s@).push(on_disk@[i as int].name@));
        }
        assert(out@.map_values(|s: String| s@) =~= changed_spec(on_disk@.take(i + 1), indexed@));
        i = i + 1;
    }
    assert(on_disk@.take(on_disk@.len() as int) =~= on_disk@);
    out
}

/// What the index lists for a file after a refresh that drops the `removed`
/// files and reads the `changed` ones again: nothing for a dropped file, the
/// disk's stamp for one read again, and what it listed before for the rest.
pub open spec fn after_refresh(
    indexed: Seq<FileStamp>,
    on_disk: Seq<FileStamp>,
    removed: Seq<Seq<char>>,
    changed: Seq<Seq<char>>,
    name: Seq<char>,
) -> Option<(i64, i64)> {
    if removed.contains(name) {
        None
    } else if changed.contains(name) {
        stamp_of(on_disk, name)
    } else {
        stamp_of(indexed, name)
    }
}

/// Whether no two files share a name, as in one directory.
pub open spec fn names_unique(files: Seq<FileStamp>) -> bool {
    forall|i: int, j: int| 0 <= i < j < files.len() ==> (#[trigger] files[i]).name@ != (#[trigger] files[j]).name@
}

proof fn lemma_contains_concat(a: Seq<Seq<char>>, b: Seq<Seq<char>>, x: Seq<char>)
    ensures
        (a + b).contains(x) <==> (a.contains(x) || b.contains(x)),
{
    if (a + b).contains(x) {
        let k = choose|k: int| 0 <= k < (a + b).len() && (a + b)[k] == x;
        if k < a.len() {
            assert(a[k] == x);
        } else {
            assert(b[k - a.len()] == x);
        }
    }
    if a.contains(x) {
        let k = choose|k: int| 0 <= k < a.len() && a[k] == x;
        assert((a + b)[k] == x);
    }
    if b.contains(x) {
        let k = choose|k: int| 0 <= k < b.len() && b[k] == x;
        assert((a + b)[a.len() + k] == x);
    }
}

proof fn lemma_removed_contains(indexed: Seq<FileStamp>, on_disk: Seq<FileStamp>, name: Seq<char>)
    ensures
        removed_spec(indexed, on_disk).contains(name) <==> (stamp_of(indexed, name) is Some && stamp_of(
            on_disk,
            name,
        ) is None),
    decreases indexed.len(),
{
    if indexed.len() > 0 {
        let rest = indexed.drop_last();
        let f = indexed.last();
        lemma_removed_contains(rest, on_disk, name);
        let tail = if stamp_of(on_disk, f.name@) is None {
            seq![f.name@]
        } else {
            Seq::empty()
        };
        lemma_contains_concat(removed_spec(rest, on_disk), tail, name);
        if tail.contains(name) {
            assert(tail[0] == name);
        }
        if f.name@ == name && stamp_of(on_disk, name) is None {
            assert(tail[0] == name);
        }
    }
}

proof fn lemma_changed_contains(on_disk: Seq<FileStamp>, indexed: Seq<FileStamp>, name: Seq<char>)
    requires
        names_unique(on_disk),
    ensures
        changed_spec(on_disk, indexed).contains(name) <==> (stamp_of(on_disk, name) matches Some(s) && stamp_of(
            indexed,
            name,
        ) != Some(s)),
    decreases on_disk.len(),
{
    if on_disk.len() > 0 {
        let rest = on_disk.drop_last();
        let f = on_disk.last();
        assert(names_unique(rest)) by {
            assert forall|i: int, j: int| 0 <= i < j < rest.len() implies (#[trigger] rest[i]).name@
                != (#[trigger] rest[j]).name@ by {
                assert(rest[i] == on_disk[i] && rest[j] == on_disk[j]);
            }
        }
        lemma_changed_contains(rest, indexed, name);
        let tail = if stamp_of(indexed, f.name@) != Some((f.mtime, f.size)) {
            seq![f.name@]
        } else {
            Seq::empty()
        };
        lemma_contains_concat(changed_spec(rest, indexed), tail, name);
        if tail.contains(name) {
            assert(tail[0] == name);
        }
        if f.name@ == name {
            lemma_not_listed(rest, on_disk, name);
            if stamp_of(indexed, name) != Some((f.mtime, f.size)) {
                assert(tail[0] == name);
            }
        }
    }
}

proof fn lemma_not_listed(rest: Seq<FileStamp>, all: Seq<FileStamp>, name: Seq<char>)
    requires
        names_unique(all),
        all.len() > 0,
        rest == all.drop_last(),
        all.last().name@ == name,
    ensures
        stamp_of(rest, name) is None,
{
    if stamp_of(rest, name) is Some {
        let k = lemma_listed_at(rest, name);
        assert(all[k] == rest[k]);
        assert(all[all.len() - 1].name@ == name);
    }
}

proof fn lemma_listed_at(files: Seq<FileStamp>, name: Seq<char>) -> (k: int)
    requires
        stamp_of(files, name) is Some,
    ensures
        0 <= k < files.len(),
        files[k].name@ == name,
    decreases files.len(),
{
    if files.last().name@ == name {
        files.len() - 1
    } else {
        lemma_listed_at(files.drop_last(), name)
    }
}

/// After a refresh that drops the files gone from disk and reads again the
/// new and changed ones, the index lists exactly the files on disk, each with
/// its current modification time and size.
pub proof fn lemma_refresh_matches_disk(indexed: Seq<FileStamp>, on_disk: Seq<FileStamp>, name: Seq<char>)
    requires
        names_unique(on_disk),
    ensures
        after_refresh(
            indexed,
            on_disk,
            removed_spec(indexed, on_disk),
            changed_spec(on_disk, indexed),
            name,
        ) == stamp_of(on_disk, name),
{
    lemma_removed_contains(indexed, on_disk, name);
    lemma_changed_contains(on_disk, indexed, name);
}

/// A refresh with nothing changed on disk since the last one finds nothing
/// to drop and nothing to read again: once the index lists each file with
/// its stamp on disk (as `lemma_refresh_matches_disk` shows a refresh
/// leaves it), both lists are empty.
pub proof fn lemma_resync_finds_nothing(indexed: Seq<FileStamp>, on_disk: Seq<FileStamp>)
    requires
        names_unique(on_disk),
        forall|n: Seq<char>| #[trigger] stamp_of(indexed, n) == stamp_of(on_disk, n),
    ensures
        removed_spec(indexed, on_disk).len() == 0,
        changed_spec(on_disk, indexed).len() == 0,
{
    let removed = removed_spec(indexed, on_disk);
    if removed.len() > 0 {
        let x = removed[0];
        assert(removed.contains(x));
        lemma_removed_contains(indexed, on_disk, x);
        assert(stamp_of(indexed, x) == stamp_of(on_disk, x));
    }
    let changed = changed_spec(on_disk, indexed);
    if changed.len() > 0 {
        let x = changed[0];
        assert(changed.contains(x));
        lemma_changed_contains(on_disk, indexed, x);
        assert(stamp_of(indexed, x) == stamp_of(on_disk, x));
    }
}

/// The columns every query depends on.
pub open spec fn expected_columns() -> Seq<Seq<char>> {
    seq![
        "calendar_id"@,
        "file_name"@,
        "uid"@,
        "summary"@,
        "description"@,
        "location"@,
        "start_kind"@,
        "start_naive"@,
        "start_tz"@,
        "end_kind"@,
        "end_naive"@,
        "end_tz"@,
        "rrule"@,
        "exdates"@,
        "alarms"@,
        "sequence"@,
        "created"@,
        "modified"@,
        "start_utc"@,
        "end_utc"@,
        "until_utc"@,
    ]
}

fn expected_column(i: usize) -> (r: &'static str)
    requires
        i < 21,
    ensures
        r@ == expected_columns()[i as int],
{
    match i {
        0 => "calendar_id",
        1 => "file_name",
        2 => "uid",
        3 => "summary",
        4 => "description",
        5 => "location",
        6 => "start_kind",
        7 => "start_naive",
        8 => "start_tz",
        9 => "end_kind",
        10 => "end_naive",
        11 => "end_tz",
        12 => "rrule",
        13 => "exdates",
        14 => "alarms",
        15 => "sequence",
        16 => "created",
        17 => "modified",
        18 => "start_utc",
        19 => "end_utc",
        _ => "until_utc",
    }
}

/// Whether the live table has every column queries depend on; a missing
/// table, which has none, does not.
pub open spec fn has_expected_columns_spec(found: Seq<Seq<char>>) -> bool {
    found.len() > 0 && forall|i: int| 0 <= i < 21 ==> found.contains(#[trigger] expected_columns()[i])
}

fn contains_text(found: &Vec<String>, name: &str) -> (r: bool)
    ensures
        r == found@.map_values(|s: String| s@).contains(name@),
{
    let ghost all = found@.map_values(|s: String| s@);
    let mut i: usize = 0;
    while i < found.len()
        invariant
            i <= found@.len(),
            all == found@.map_values(|s: String| s@),
            forall|j: int| 0 <= j < i ==> all[j] != name@,
        decreases found.len() - i,
    {
        if str_equal(found[i].as_str(), name) {
            assert(all[i as int] == name@);
            return true;
        }
        i = i + 1;
    }
    false
}

/// Whether the live table has every column queries depend on.
pub fn has_expected_columns(found: &Vec<String>) -> (r: bool)
    ensures
        r == has_expected_columns_spec(found@.map_values(|s: String| s@)),
{
    let ghost all = found@.map_values(|s: String| s@);
    if found.len() == 0 {
        return false;
    }
    let mut i: usize = 0;
    while i < 21
        invariant
            i <= 21,
            all == found@.map_values(|s: String| s@),
            all.len() > 0,
            forall|j: int| 0 <= j < i ==> all.contains(#[trigger] expected_columns()[j]),
        decreases 21 - i,
    {
        if !contains_text(found, expected_column(i)) {
            return false;
        }
        i = i + 1;
    }
    true
}

/// Whether the cache must be rebuilt: its recorded version is not this
/// layout's, it was resolved in another zone, or the live table lacks a
/// column. The recorded version is not trusted alone: a half-applied upgrade
/// would otherwise fail on every query with no way back.
pub open spec fn stale_spec(
    stored_version: Option<Seq<char>>,
    stored_zone: Option<Seq<char>>,
    local: Seq<char>,
    found: Seq<Seq<char>>,
) -> bool {
    ||| match stored_version {
        Some(v) => parse_i64(v) != Some(SCHEMA_VERSION as int),
        None => true,
    }
    ||| stored_zone != Some(local)
    ||| !has_expected_columns_spec(found)
}

/// Whether the cache must be rebuilt, from the version and zone it recorded
/// and the columns its table has.
pub fn is_stale(
    stored_version: &Option<String>,
    stored_zone: &Option<String>,
    local: &str,
    found: &Vec<String>,
) -> (r: bool)
    ensures
        r == stale_spec(opt_view(*stored_version), opt_view(*stored_zone), local@, found@.map_values(|s: String| s@)),
{
    let version_ok = match stored_version {
        Some(v) => {
            let chars = chars_of(v.as_str());
            match parse_i64_exec(chars.as_slice()) {
                Some(n) => n == SCHEMA_VERSION,
                None => false,
            }
        },
        None => false,
    };
    let zone_ok = match stored_zone {
        Some(z) => str_equal(z.as_str(), local),
        None => false,
    };
    !version_ok || !zone_ok || !has_expected_columns(found)
}

/// The text of each string.
pub open spec fn texts(v: Seq<String>) -> Seq<Seq<char>> {
    v.map_values(|s: String| s@)
}

/// The ids of calendars.
pub open spec fn ids_of(present: Seq<CalendarMeta>) -> Seq<Seq<char>> {
    present.map_values(|c: CalendarMeta| c.id@)
}

/// The calendars the index knows of that are no longer present, whose rows
/// are to be dropped: exactly those known and not present.
pub fn missing_calendars(known: &Vec<String>, present: &Vec<CalendarMeta>) -> (r: Vec<String>)
    ensures
        forall|x: Seq<char>| #[trigger] texts(r@).contains(x) <==> (texts(known@).contains(x) && !ids_of(
            present@,
        ).contains(x)),
{
    let ghost ids = ids_of(present@);
    let mut out: Vec<String> = Vec::new();
    let mut i: usize = 0;
    while i < known.len()
        invariant
            i <= known@.len(),
            ids == ids_of(present@),
            forall|x: Seq<char>| #[trigger] texts(out@).contains(x) <==> (texts(known@.take(i as int)).contains(x)
                && !ids.contains(x)),
        decreases known.len() - i,
    {
        let mut found = false;
        let mut j: usize = 0;
        while j < present.len()
            invariant
                j <= present@.len(),
                ids == ids_of(present@),
                i < known@.len(),
                found <==> exists|m: int| 0 <= m < j && ids[m] == known@[i as int]@,
            decreases present.len() - j,
        {
            if str_equal(present[j].id.as_str(), known[i].as_str()) {
                assert(ids[j as int] == present@[j as int].id@);
                found = true;
            }
            j = j + 1;
        }
        let ghost name = known@[i as int]@;
        assert(found <==> ids.contains(name));
        let ghost before = out@;
        proof {
            assert(texts(known@.take(i + 1)) =~= texts(known@.take(i as int)) + seq![name]);
            lemma_contains_concat(texts(known@.take(i as int)), seq![name], name);
        }
        if !found {
            out.push(known[i].clone());
            proof {
                assert(texts(out@) =~= texts(before) + seq![name]);
            }
        }
        assert forall|x: Seq<char>| #[trigger] texts(out@).contains(x) <==> (texts(known@.take(i + 1)).contains(x)
            && !ids.contains(x)) by {
            lemma_contains_concat(texts(known@.take(i as int)), seq![name], x);
            lemma_contains_concat(texts(before), seq![name], x);
            if seq![name].contains(x) {
                assert(seq![name][0] == x);
            }
            if x == name {
                assert(seq![name][0] == x);
            }
        }
        i = i + 1;
    }
    assert(known@.take(known@.len() as int) =~= known@);
    out
}

} // verus!
