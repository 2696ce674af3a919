//! Expanding events into the occurrences that overlap a window of time.
//!
//! A repeating event is expanded on the wall clock of its start's zone, so a
//! weekly 09:00 meeting stays at 09:00 across a daylight-saving change. The
//! instants of the series come from the rrule crate; which of them show,
//! where they land on the viewer's clock, and how long each lasts is decided
//! here.

use vstd::prelude::*;
use chrono::TimeZone;
use crate::date::{
    datetime_at, instant, lemma_datetime_at, lemma_day_number_bounds, max_day_number,
    min_day_number, Date, DateTime, Time,
};
use crate::event::{
    duration_spec, epoch, forward_span, local_in_zone, local_match, unix_fits, utc_seconds,
    wall_clock, Event, EventTime, LocalMatch, Occurrence,
};

verus! {

/// The most instances one rule yields for one query: enough for any view,
/// few enough that a pathological rule cannot stall the interface.
pub const MAX_OCCURRENCES: u16 = 2000;

/// Room, in seconds, that zone offsets and the daylight-saving retry need
/// around the dates an expansion touches.
pub const MARGIN: i64 = 432_000;

/// The earliest instant a zone match names, if any.
pub open spec fn earliest(m: Option<LocalMatch>) -> Option<int> {
    match m {
        Some(LocalMatch::Single(t)) => Some(t as int),
        Some(LocalMatch::Ambiguous(t, _)) => Some(t as int),
        _ => None,
    }
}

/// What the rrule crate expands a rule to: the Unix times of the instances
/// from the start `dtstart` in the named zone, less the excluded ones, within
/// `[after, before]`, at most `limit` of them; `None` when the zone, the rule
/// or the start is refused.
pub uninterp spec fn rule_dates(
    rule: Seq<char>,
    zone: Seq<char>,
    dtstart: int,
    exdates: Seq<i64>,
    after: int,
    before: int,
    limit: int,
) -> Option<Seq<i64>>;

/// Expands a rule through the rrule crate: the zone is parsed from its name
/// (`str::parse::<chrono_tz::Tz>`), the rule with `str::parse::<RRule>`, then
/// `RRule::build`, `RRuleSet::exdate`, `after`, `before` and `all`. Claimed of
/// it: the result is a function of the arguments, and every instance it gives
/// is an instant a chrono date-time can hold.
#[verifier::external_body]
fn rule_instants(
    rule: &str,
    zone: &str,
    dtstart: i64,
    exdates: &[i64],
    after: i64,
    before: i64,
    limit: u16,
) -> (r: Option<Vec<i64>>)
    requires
        unix_fits(dtstart as int),
        unix_fits(after as int),
        unix_fits(before as int),
        forall|k: int| 0 <= k < exdates@.len() ==> unix_fits(#[trigger] exdates@[k] as int),
    ensures
        match r {
            Some(v) => rule_dates(rule@, zone@, dtstart as int, exdates@, after as int, before as int, limit as int) == Some(v@),
            None => rule_dates(rule@, zone@, dtstart as int, exdates@, after as int, before as int, limit as int) is None,
        },
        r matches Some(v) ==> forall|k: int| 0 <= k < v@.len() ==> unix_fits(#[trigger] v@[k] as int),
{
    let tz = rrule::Tz::Tz(zone.parse().ok()?);
    let parsed: rrule::RRule<rrule::Unvalidated> = rule.parse().ok()?;
    let mut set = parsed.build(tz.timestamp_opt(dtstart, 0).unwrap()).ok()?;
    for t in exdates {
        set = set.exdate(tz.timestamp_opt(*t, 0).unwrap());
    }
    let found = set.after(tz.timestamp_opt(after, 0).unwrap()).before(tz.timestamp_opt(before, 0).unwrap()).all(limit);
    let mut out = Vec::new();
    for d in found.dates {
        out.push(d.timestamp());
    }
    Some(out)
}

/// The wall clock in a zone at a Unix time, read as UTC when the zone
/// gives none.
pub open spec fn wall_or_utc(zone: Seq<char>, t: int) -> DateTime {
    match wall_clock(zone, t) {
        Some(w) => w,
        None => datetime_at(t + epoch()),
    }
}

/// The zone a repeat rule runs in: the start's own zone, else the viewer's.
pub open spec fn rule_zone(e: Event, local: Seq<char>) -> Seq<char> {
    match e.start {
        EventTime::Zoned(_, tz) => tz@,
        _ => local,
    }
}

/// Where an instance at Unix time `t` starts on the viewer's clock. Dates
/// and floating times repeat in the viewer's zone, and zoned instances are
/// moved into it, so either way this is the viewer's wall clock at `t`.
pub open spec fn instance_start(e: Event, t: int, local: Seq<char>) -> DateTime {
    wall_or_utc(local, t)
}

/// Whether an instance at `t` lasting `duration` seconds overlaps `[from, to)`.
pub open spec fn overlaps(t: int, duration: int, from: int, to: int) -> bool {
    t + duration > from && t < to
}

/// `o` is the occurrence of `e` starting at `start`, lasting `duration`
/// seconds, named by `rid`.
pub open spec fn occurrence_of(o: Occurrence, e: Event, start: DateTime, duration: int, rid: Option<i64>) -> bool {
    &&& o.uid@ == e.uid@
    &&& o.calendar_id@ == e.calendar_id@
    &&& o.summary@ == e.summary@
    &&& match (o.location, e.location) {
        (Some(a), Some(b)) => a@ == b@,
        (None, None) => true,
        _ => false,
    }
    &&& o.all_day == (e.start is Date)
    &&& o.start == start
    &&& o.end.valid()
    &&& instant(o.end) == instant(start) + duration
    &&& o.recurrence_id == rid
}

/// The occurrence of `event` at `start`, lasting `duration` seconds.
pub fn occurrence_at(event: &Event, start: DateTime, duration: i64, recurrence_id: Option<i64>) -> (r: Occurrence)
    requires
        start.valid(),
        min_day_number() * 86400 <= instant(start) + duration < (max_day_number() + 1) * 86400,
    ensures
        occurrence_of(r, *event, start, duration as int, recurrence_id),
{
    let location = match &event.location {
        Some(l) => Some(l.clone()),
        None => None,
    };
    Occurrence {
        uid: event.uid.clone(),
        calendar_id: event.calendar_id.clone(),
        summary: event.summary.clone(),
        location,
        all_day: event.is_all_day(),
        start,
        end: start.add_seconds(duration),
        recurrence_id,
    }
}

/// The wall clock in the named zone at `t`, as UTC when the zone gives none.
pub(crate) fn wall_or_utc_exec(zone: &str, t: i64) -> (r: DateTime)
    requires
        unix_fits(t as int),
    ensures
        r == wall_or_utc(zone@, t as int),
        r.valid(),
        t + epoch() - 86400 < instant(r) < t + epoch() + 86400,
{
    match crate::event::wall_clock_in_zone(zone, t) {
        Some(w) => w,
        None => {
            let base = DateTime { date: Date { year: 1970, month: 1, day: 1 }, time: Time::midnight() };
            proof {
                lemma_day_number_bounds(base.date);
            }
            let w = base.add_seconds(t);
            proof {
                lemma_datetime_at(w);
            }
            w
        },
    }
}

/// The bounds every expansion input keeps to: the window, widened by the
/// event's length and a few days either side, lies among real dates, and so
/// do the event's own readings and excluded dates.
pub open spec fn expand_fits(e: Event, from: int, to: int) -> bool {
    let s = instant(e.start.reading());
    let en = instant(e.end.reading());
    let span = if en >= s {
        en - s
    } else {
        s - en
    };
    &&& e.start.reading().valid()
    &&& e.end.reading().valid()
    &&& forall|k: int| 0 <= k < e.exdates@.len() ==> (#[trigger] e.exdates@[k]).valid()
    &&& min_day_number() * 86400 + MARGIN <= s
    &&& s + MARGIN < (max_day_number() + 1) * 86400
    &&& min_day_number() * 86400 + MARGIN <= en
    &&& en + MARGIN < (max_day_number() + 1) * 86400
    &&& unix_fits(from - span - MARGIN)
    &&& unix_fits(from + MARGIN)
    &&& unix_fits(to - MARGIN)
    &&& unix_fits(to + span + MARGIN)
}

/// The occurrences of `event` for the series instances `instants` that
/// overlap `[from, to)`, each lasting `duration` seconds and named by its
/// instant.
pub fn occurrences_of_instants(
    event: &Event,
    instants: &[i64],
    from: i64,
    to: i64,
    duration: i64,
    local: &str,
) -> (r: Vec<Occurrence>)
    requires
        0 < duration,
        unix_fits(from as int),
        unix_fits(to as int),
        unix_fits(from - duration - 86400),
        unix_fits(to + duration + 86400),
        forall|k: int| 0 <= k < instants@.len() ==> unix_fits(#[trigger] instants@[k] as int),
    ensures
        ({
            let kept = instants@.filter(|t: i64| overlaps(t as int, duration as int, from as int, to as int));
            &&& r@.len() == kept.len()
            &&& forall|i: int|
                0 <= i < r@.len() ==> occurrence_of(
                    #[trigger] r@[i],
                    *event,
                    instance_start(*event, kept[i] as int, local@),
                    duration as int,
                    Some(kept[i]),
                )
        }),
        forall|i: int| 0 <= i < r@.len() ==> (#[trigger] r@[i]).start.valid(),
{
    let ghost keep = |t: i64| overlaps(t as int, duration as int, from as int, to as int);
    assert(-200_000_000 <= min_day_number() && max_day_number() <= 200_000_000);
    assert(0 <= epoch() <= 100_000_000_000);
    assert(duration <= 40_000_000_000_000);
    let mut out: Vec<Occurrence> = Vec::new();
    let mut i: usize = 0;
    assert(instants@.take(0).filter(keep) =~= Seq::<i64>::empty()) by {
        reveal_with_fuel(Seq::filter, 1);
    }
    while i < instants.len()
        invariant
            i <= instants@.len(),
            keep == (|t: i64| overlaps(t as int, duration as int, from as int, to as int)),
            0 < duration,
            unix_fits(from as int),
            unix_fits(to as int),
            unix_fits(from - duration - 86400),
            unix_fits(to + duration + 86400),
            forall|k: int| 0 <= k < instants@.len() ==> unix_fits(#[trigger] instants@[k] as int),
            out@.len() == instants@.take(i as int).filter(keep).len(),
            forall|j: int|
                0 <= j < out@.len() ==> occurrence_of(
                    #[trigger] out@[j],
                    *event,
                    instance_start(*event, instants@.take(i as int).filter(keep)[j] as int, local@),
                    duration as int,
                    Some(instants@.take(i as int).filter(keep)[j]),
                ),
            forall|j: int| 0 <= j < out@.len() ==> (#[trigger] out@[j]).start.valid(),
        decreases instants.len() - i,
    {
        let t = instants[i];
        let ghost prev = instants@.take(i as int).filter(keep);
        assert(instants@.take(i + 1).drop_last() =~= instants@.take(i as int));
        assert(instants@.take(i + 1).filter(keep) == (if keep(t) {
            prev.push(t)
        } else {
            prev
        })) by {
            reveal_with_fuel(Seq::filter, 1);
        }
        assert(unix_fits(t as int));
        assert(-20_000_000_000_000 <= t <= 20_000_000_000_000) by {
            assert(-200_000_000 <= min_day_number() && max_day_number() <= 200_000_000);
            assert(0 <= epoch() <= 100_000_000_000);
        }
        if t + duration > from && t < to {
            let start = wall_or_utc_exec(local, t);
            let o = occurrence_at(event, start, duration, Some(t));
            out.push(o);
        }
        i = i + 1;
    }
    assert(instants@.take(instants@.len() as int) =~= instants@);
    out
}

/// The instants of the excluded dates, each read in `zone` at its earliest;
/// a date the zone skips is dropped.
pub open spec fn excluded(exdates: Seq<DateTime>, zone: Seq<char>) -> Seq<i64>
    decreases exdates.len(),
{
    if exdates.len() == 0 {
        Seq::empty()
    } else {
        let p = excluded(exdates.drop_last(), zone);
        match earliest(local_match(zone, instant(exdates.last()))) {
            Some(t) => p.push(t as i64),
            None => p,
        }
    }
}

/// The series instances a repeating event has near `[from, to)`: its rule
/// expanded from its start, read at its earliest in the rule zone, less its
/// excluded dates, from `duration` before the window to its end. `None` when
/// the start falls in a gap or the rule is refused.
pub open spec fn series_instants(e: Event, rule: Seq<char>, from: int, to: int, duration: int, local: Seq<char>) -> Option<Seq<i64>> {
    let zone = rule_zone(e, local);
    match earliest(local_match(zone, instant(e.start.reading()))) {
        None => None,
        Some(dtstart) => rule_dates(
            rule,
            zone,
            dtstart,
            excluded(e.exdates@, zone),
            from - duration,
            to,
            MAX_OCCURRENCES as int,
        ),
    }
}

/// The instances of `ts` that overlap `[from, to)` when lasting `duration`.
pub open spec fn kept_instants(ts: Seq<i64>, from: int, to: int, duration: int) -> Seq<i64> {
    ts.filter(|t: i64| overlaps(t as int, duration, from, to))
}

/// `os` are the occurrences of `e` at the instants `kept`, each lasting
/// `duration` and named by its instant, on the viewer's clock.
pub open spec fn series_occurrences(os: Seq<Occurrence>, e: Event, kept: Seq<i64>, duration: int, local: Seq<char>) -> bool {
    &&& os.len() == kept.len()
    &&& forall|i: int|
        0 <= i < os.len() ==> occurrence_of(
            #[trigger] os[i],
            e,
            instance_start(e, kept[i] as int, local),
            duration,
            Some(kept[i]),
        )
}

/// The start of `e` read at its earliest in `zone`.
fn start_instant(e: &Event, zone: &str) -> (r: Option<i64>)
    requires
        e.start.reading().valid(),
    ensures
        r matches Some(t) ==> t == earliest(local_match(zone@, instant(e.start.reading()))).unwrap() && unix_fits(t as int),
        r is None <==> earliest(local_match(zone@, instant(e.start.reading()))) is None,
{
    let reading = match &e.start {
        EventTime::Date(d) => DateTime { date: *d, time: Time::midnight() },
        EventTime::Floating(dt) => *dt,
        EventTime::Zoned(dt, _) => *dt,
    };
    match local_in_zone(zone, reading) {
        Some(LocalMatch::Single(t)) => Some(t),
        Some(LocalMatch::Ambiguous(t, _)) => Some(t),
        _ => None,
    }
}

/// The excluded dates' instants in `zone`.
fn excluded_exec(exdates: &Vec<DateTime>, zone: &str) -> (r: Vec<i64>)
    requires
        forall|k: int| 0 <= k < exdates@.len() ==> (#[trigger] exdates@[k]).valid(),
    ensures
        r@ == excluded(exdates@, zone@),
        forall|k: int| 0 <= k < r@.len() ==> unix_fits(#[trigger] r@[k] as int),
{
    let mut out: Vec<i64> = Vec::new();
    let mut i: usize = 0;
    assert(exdates@.take(0) =~= Seq::<DateTime>::empty());
    while i < exdates.len()
        invariant
            i <= exdates@.len(),
            forall|k: int| 0 <= k < exdates@.len() ==> (#[trigger] exdates@[k]).valid(),
            out@ == excluded(exdates@.take(i as int), zone@),
            forall|k: int| 0 <= k < out@.len() ==> unix_fits(#[trigger] out@[k] as int),
        decreases exdates.len() - i,
    {
        assert(exdates@.take(i + 1).drop_last() =~= exdates@.take(i as int));
        assert(exdates@.take(i + 1).last() == exdates@[i as int]);
        match local_in_zone(zone, exdates[i]) {
            Some(LocalMatch::Single(t)) => out.push(t),
            Some(LocalMatch::Ambiguous(t, _)) => out.push(t),
            _ => {},
        }
        i = i + 1;
    }
    assert(exdates@.take(exdates@.len() as int) =~= exdates@);
    out
}

proof fn lemma_bounds()
    ensures
        -200_000_000 <= min_day_number(),
        max_day_number() <= 200_000_000,
        0 <= epoch() <= 100_000_000_000,
{
}

/// The occurrences of a repeating event's instances that overlap
/// `[from, to)`, or `None` when the series cannot be expanded.
fn expand_rule(event: &Event, rule: &str, from: i64, to: i64, duration: i64, local: &str) -> (r: Option<Vec<Occurrence>>)
    requires
        expand_fits(*event, from as int, to as int),
        0 < duration <= forward_span(*event) + 180000,
    ensures
        match series_instants(*event, rule@, from as int, to as int, duration as int, local@) {
            Some(ts) => r matches Some(os) && series_occurrences(
                os@,
                *event,
                kept_instants(ts, from as int, to as int, duration as int),
                duration as int,
                local@,
            ),
            None => r is None,
        },
        r matches Some(os) ==> forall|i: int| 0 <= i < os@.len() ==> (#[trigger] os@[i]).start.valid(),
{
    proof {
        lemma_bounds();
    }
    let zone: &str = match &event.start {
        EventTime::Zoned(_, tz) => tz.as_str(),
        _ => local,
    };
    assert(zone@ == rule_zone(*event, local@));
    let dtstart = match start_instant(event, zone) {
        Some(t) => t,
        None => return None,
    };
    let ex = excluded_exec(&event.exdates, zone);
    let ts = match rule_instants(rule, zone, dtstart, ex.as_slice(), from - duration, to, MAX_OCCURRENCES) {
        Some(ts) => ts,
        None => return None,
    };
    Some(occurrences_of_instants(event, ts.as_slice(), from, to, duration, local))
}

/// Whether `e`, starting at Unix time `start` and lasting `duration`, shows
/// in `[from, to)` as a single occurrence.
pub open spec fn single_shows(e: Event, from: int, to: int, local: Seq<char>) -> bool {
    overlaps(e.start.utc_spec(local), duration_spec(e, local), from, to)
}

/// `os` are the occurrences of `e` that overlap `[from, to)` (Unix times), on
/// the wall clock of the zone named `local`: one per kept instance of its
/// series when it repeats and the series can be expanded, else its one
/// occurrence when it overlaps. Each starts at a real date and time.
pub open spec fn expanded(e: Event, from: int, to: int, local: Seq<char>, os: Seq<Occurrence>) -> bool {
    let d = duration_spec(e, local);
    let series = match e.rrule {
        Some(rule) => series_instants(e, rule@, from, to, d, local),
        None => None,
    };
    &&& match series {
        Some(ts) => series_occurrences(os, e, kept_instants(ts, from, to, d), d, local),
        None => if single_shows(e, from, to, local) {
            os.len() == 1 && occurrence_of(os[0], e, e.start.local_spec(local), d, None)
        } else {
            os.len() == 0
        },
    }
    &&& forall|i: int| 0 <= i < os.len() ==> (#[trigger] os[i]).start.valid()
}

/// The occurrences of `event` that overlap `[from, to)` (Unix times), on the
/// wall clock of the zone named `local`. A repeating event gives one per
/// instance of its series; an event that does not repeat, or whose rule
/// cannot be expanded, gives its one occurrence when it overlaps.
pub fn expand(event: &Event, from: i64, to: i64, local: &str) -> (r: Vec<Occurrence>)
    requires
        expand_fits(*event, from as int, to as int),
    ensures
        expanded(*event, from as int, to as int, local@, r@),
{
    proof {
        lemma_bounds();
    }
    let duration = event.duration(local);
    if let Some(rule) = &event.rrule {
        if let Some(os) = expand_rule(event, rule.as_str(), from, to, duration, local) {
            return os;
        }
    }
    let start_utc = event.start.to_utc(local);
    if start_utc + duration > from && start_utc < to {
        let start = event.start.naive_local(local);
        let mut out: Vec<Occurrence> = Vec::new();
        out.push(occurrence_at(event, start, duration, None));
        out
    } else {
        Vec::new()
    }
}

fn datetime_valid(dt: DateTime) -> (r: bool)
    ensures
        r == dt.valid(),
{
    crate::date::is_valid_ymd(dt.date.year as i64, dt.date.month as i64, dt.date.day as i64) && dt.time.hour
        < 24 && dt.time.minute < 60 && dt.time.second < 60
}

fn fits_unix(t: i128) -> (r: bool)
    requires
        -0x1_0000_0000_0000_0000 <= t <= 0x1_0000_0000_0000_0000,
    ensures
        r == unix_fits(t as int),
{
    proof {
        lemma_bounds();
    }
    let first = Date { year: crate::date::MIN_YEAR, month: 1, day: 1 };
    let last = Date { year: crate::date::MAX_YEAR, month: 12, day: 31 };
    proof {
        lemma_day_number_bounds(first);
        lemma_day_number_bounds(last);
    }
    let lo: i128 = (first.day_number() * 86400) as i128;
    let hi: i128 = ((last.day_number() + 1) * 86400) as i128;
    let d = Date { year: 1970, month: 1, day: 1 };
    let e: i128 = (d.day_number() * 86400) as i128;
    lo <= t + e && t + e < hi
}

/// Whether an event and a window keep to the bounds expansion works in:
/// real readings and excluded dates, with a few days of room around the
/// event and the window among the dates that exist.
pub fn fits_expansion(event: &Event, from: i64, to: i64) -> (r: bool)
    ensures
        r == expand_fits(*event, from as int, to as int),
{
    let a = event.start.reading_exec();
    let b = event.end.reading_exec();
    if !datetime_valid(a) || !datetime_valid(b) {
        return false;
    }
    let mut i: usize = 0;
    while i < event.exdates.len()
        invariant
            i <= event.exdates@.len(),
            forall|k: int| 0 <= k < i ==> (#[trigger] event.exdates@[k]).valid(),
        decreases event.exdates.len() - i,
    {
        if !datetime_valid(event.exdates[i]) {
            return false;
        }
        i = i + 1;
    }
    proof {
        lemma_bounds();
        lemma_day_number_bounds(a.date);
        lemma_day_number_bounds(b.date);
    }
    let first = Date { year: crate::date::MIN_YEAR, month: 1, day: 1 };
    let last = Date { year: crate::date::MAX_YEAR, month: 12, day: 31 };
    proof {
        lemma_day_number_bounds(first);
        lemma_day_number_bounds(last);
    }
    let lo: i64 = first.day_number() * 86400;
    let hi: i64 = (last.day_number() + 1) * 86400;
    let s = a.instant();
    let en = b.instant();
    let span: i64 = if en >= s {
        en - s
    } else {
        s - en
    };
    lo + MARGIN <= s && s + MARGIN < hi && lo + MARGIN <= en && en + MARGIN < hi && fits_unix(
        from as i128 - span as i128 - MARGIN as i128,
    ) && fits_unix(from as i128 + MARGIN as i128) && fits_unix(to as i128 - MARGIN as i128) && fits_unix(
        to as i128 + span as i128 + MARGIN as i128,
    )
}


/// Every occurrence of an expanded series starts at the viewer's wall clock
/// (zone `local`) at its instant, whatever zone the event's start was written
/// in: the reading `local` gives at that Unix time, or the UTC reading when
/// `local` names no zone.
pub proof fn lemma_series_on_viewer_clock(
    e: Event,
    from: int,
    to: int,
    local: Seq<char>,
    os: Seq<Occurrence>,
    i: int,
)
    requires
        expanded(e, from, to, local, os),
        e.rrule matches Some(rule) && series_instants(
            e,
            rule@,
            from,
            to,
            duration_spec(e, local),
            local,
        ) is Some,
        0 <= i < os.len(),
    ensures
        os[i].recurrence_id matches Some(t) && os[i].start == match wall_clock(local, t as int) {
            Some(w) => w,
            None => datetime_at(t + epoch()),
        },
{
    let d = duration_spec(e, local);
    let ts = series_instants(e, e.rrule.unwrap()@, from, to, d, local).unwrap();
    let kept = kept_instants(ts, from, to, d);
    assert(occurrence_of(os[i], e, instance_start(e, kept[i] as int, local), d, Some(kept[i])));
}

/// A series instance shows where a one-off event at the same instant shows:
/// for any zoned time `x` that falls on the instance's Unix time, the
/// occurrence starts at `x`'s reading on the viewer's clock.
pub proof fn lemma_series_matches_single(
    e: Event,
    from: int,
    to: int,
    local: Seq<char>,
    os: Seq<Occurrence>,
    i: int,
    x: EventTime,
)
    requires
        expanded(e, from, to, local, os),
        e.rrule matches Some(rule) && series_instants(
            e,
            rule@,
            from,
            to,
            duration_spec(e, local),
            local,
        ) is Some,
        0 <= i < os.len(),
        x is Zoned,
        os[i].recurrence_id matches Some(t) && x.utc_spec(local) == t,
    ensures
        os[i].start == x.local_spec(local),
{
    lemma_series_on_viewer_clock(e, from, to, local, os, i);
}


/// Every occurrence of an expanded series is an instance that overlaps the
/// window: its instant `t` starts before `to`, and it ends, `duration_spec`
/// seconds later, after `from`. It lasts exactly that long on the clock.
pub proof fn lemma_series_in_window(
    e: Event,
    from: int,
    to: int,
    local: Seq<char>,
    os: Seq<Occurrence>,
    i: int,
)
    requires
        expanded(e, from, to, local, os),
        e.rrule matches Some(rule) && series_instants(
            e,
            rule@,
            from,
            to,
            duration_spec(e, local),
            local,
        ) is Some,
        0 <= i < os.len(),
    ensures
        os[i].recurrence_id matches Some(t) && t < to && t + duration_spec(e, local) > from,
        instant(os[i].end) == instant(os[i].start) + duration_spec(e, local),
{
    broadcast use vstd::seq_lib::group_filter_ensures;
    let d = duration_spec(e, local);
    let ts = series_instants(e, e.rrule.unwrap()@, from, to, d, local).unwrap();
    let kept = kept_instants(ts, from, to, d);
    assert(occurrence_of(os[i], e, instance_start(e, kept[i] as int, local), d, Some(kept[i])));
    assert(overlaps(kept[i] as int, d, from, to));
}

} // verus!
