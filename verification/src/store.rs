//! What the store decides once events are loaded: where a local day begins,
//! the order occurrences are listed in, and which days each one touches.

use vstd::prelude::*;
use crate::date::{
    date_after, day_number, instant, lemma_date_after, lemma_day_number_bounds, max_day_number,
    min_day_number, Date, DateTime, Time,
};
use crate::event::{epoch, local_in_zone, local_match, unix_fits, Event, LocalMatch, Occurrence};
use crate::collection::CalendarMeta;
use crate::expand::{expand, expand_fits, expanded, fits_expansion};
use crate::index::{candidates, event_from_row, selected, IndexRow};

verus! {

/// The Unix time a local day starts at in the named zone: midnight read at
/// its earliest, or as UTC when midnight falls in a gap or the zone is
/// unknown.
pub open spec fn day_start_spec(date: Date, zone: Seq<char>) -> int {
    let midnight = DateTime { date, time: Time { hour: 0, minute: 0, second: 0 } };
    match local_match(zone, instant(midnight)) {
        Some(LocalMatch::Single(t)) => t as int,
        Some(LocalMatch::Ambiguous(t, _)) => t as int,
        _ => instant(midnight) - epoch(),
    }
}

/// When the local day `date` starts, as a Unix time, in the zone named
/// `zone`.
pub fn day_start_utc(date: Date, zone: &str) -> (r: i64)
    requires
        date.valid(),
    ensures
        r == day_start_spec(date, zone@),
        unix_fits(r as int),
{
    let midnight = DateTime { date, time: Time::midnight() };
    proof {
        lemma_day_number_bounds(date);
    }
    match local_in_zone(zone, midnight) {
        Some(LocalMatch::Single(t)) => t,
        Some(LocalMatch::Ambiguous(t, _)) => t,
        _ => {
            let d = Date { year: 1970, month: 1, day: 1 };
            midnight.instant() - d.day_number() * 86400
        },
    }
}

/// Whether text `a` sorts strictly before `b`, character by character.
pub open spec fn text_lt(a: Seq<char>, b: Seq<char>) -> bool
    decreases a.len(),
{
    if a.len() == 0 {
        b.len() > 0
    } else if b.len() == 0 {
        false
    } else if a[0] != b[0] {
        (a[0] as u32) < (b[0] as u32)
    } else {
        text_lt(a.drop_first(), b.drop_first())
    }
}

/// Whether occurrence `a` is listed strictly before `b`: all-day first, then
/// by start, then by title.
pub open spec fn listed_before(a: Occurrence, b: Occurrence) -> bool {
    if a.all_day != b.all_day {
        a.all_day
    } else if instant(a.start) != instant(b.start) {
        instant(a.start) < instant(b.start)
    } else {
        text_lt(a.summary@, b.summary@)
    }
}

/// Where `x` goes among `s`: before the first it is listed before, so that
/// equal keys keep their order.
pub open spec fn listing_pos(s: Seq<Occurrence>, x: Occurrence) -> int
    decreases s.len(),
{
    if s.len() == 0 {
        0
    } else if listed_before(x, s[0]) {
        0
    } else {
        1 + listing_pos(s.drop_first(), x)
    }
}

/// The occurrences in listing order, equal keys in their given order.
pub open spec fn listing(s: Seq<Occurrence>) -> Seq<Occurrence>
    decreases s.len(),
{
    if s.len() == 0 {
        Seq::empty()
    } else {
        let p = listing(s.drop_last());
        p.insert(listing_pos(p, s.last()), s.last())
    }
}

pub(crate) fn text_lt_exec(a: &[char], b: &[char]) -> (r: bool)
    ensures
        r == text_lt(a@, b@),
{
    let mut i: usize = 0;
    assert(a@.skip(0) =~= a@ && b@.skip(0) =~= b@);
    while i < a.len() && i < b.len() && a[i] == b[i]
        invariant
            i <= a@.len(),
            i <= b@.len(),
            text_lt(a@, b@) == text_lt(a@.skip(i as int), b@.skip(i as int)),
        decreases a.len() - i,
    {
        assert(a@.skip(i as int).drop_first() =~= a@.skip(i + 1));
        assert(b@.skip(i as int).drop_first() =~= b@.skip(i + 1));
        i = i + 1;
    }
    if i >= a.len() {
        i < b.len()
    } else if i >= b.len() {
        false
    } else {
        (a[i] as u32) < (b[i] as u32)
    }
}

fn listed_before_exec(a: &Occurrence, b: &Occurrence) -> (r: bool)
    requires
        a.start.valid(),
        b.start.valid(),
    ensures
        r == listed_before(*a, *b),
{
    if a.all_day != b.all_day {
        return a.all_day;
    }
    proof {
        lemma_day_number_bounds(a.start.date);
        lemma_day_number_bounds(b.start.date);
    }
    let x = a.start.instant();
    let y = b.start.instant();
    if x != y {
        return x < y;
    }
    let sa = crate::text::chars_of(a.summary.as_str());
    let sb = crate::text::chars_of(b.summary.as_str());
    text_lt_exec(sa.as_slice(), sb.as_slice())
}

/// Lists occurrences all-day first, then by start, then by title; the sort is
/// stable, so equal keys keep the order they came in.
pub fn sort_occurrences(occs: Vec<Occurrence>) -> (r: Vec<Occurrence>)
    requires
        forall|k: int| 0 <= k < occs@.len() ==> (#[trigger] occs@[k]).start.valid(),
    ensures
        r@ == listing(occs@),
{
    let mut out: Vec<Occurrence> = Vec::new();
    let mut rest = occs;
    let ghost all = rest@;
    let mut i: usize = 0;
    assert(all.skip(0) =~= all);
    assert(all.take(0) =~= Seq::<Occurrence>::empty());
    let count: usize = rest.len();
    assert(all.len() == count);
    while rest.len() > 0
        invariant
            all.len() <= usize::MAX,
            i + rest@.len() == all.len(),
            rest@ == all.skip(i as int),
            out@ == listing(all.take(i as int)),
            forall|k: int| 0 <= k < all.len() ==> (#[trigger] all[k]).start.valid(),
            forall|k: int| 0 <= k < out@.len() ==> (#[trigger] out@[k]).start.valid(),
        decreases rest.len(),
    {
        let x = rest.remove(0);
        assert(x == all[i as int]);
        let mut p: usize = 0;
        assert(out@.skip(0) =~= out@);
        while p < out.len() && !listed_before_exec(&x, &out[p])
            invariant
                p <= out@.len(),
                x.start.valid(),
                forall|k: int| 0 <= k < out@.len() ==> (#[trigger] out@[k]).start.valid(),
                listing_pos(out@, x) == p + listing_pos(out@.skip(p as int), x),
            decreases out.len() - p,
        {
            assert(out@.skip(p as int).drop_first() =~= out@.skip(p + 1));
            p = p + 1;
        }
        assert(all.take(i + 1).drop_last() =~= all.take(i as int));
        assert(all.take(i + 1).last() == x);
        let ghost before = out@;
        out.insert(p, x);
        assert forall|k: int| 0 <= k < out@.len() implies (#[trigger] out@[k]).start.valid() by {
            if k < p {
                assert(out@[k] == before[k]);
            } else if k > p {
                assert(out@[k] == before[k - 1]);
            }
        }
        i = i + 1;
        assert(rest@ =~= all.skip(i as int));
    }
    assert(all.take(all.len() as int) =~= all);
    out
}

/// The first and last day an occurrence touches, as day numbers. The end is
/// exclusive: one ending at midnight does not touch the day that begins then.
pub open spec fn touched_days(o: Occurrence) -> (int, int) {
    let last = if o.end.time == (Time { hour: 0, minute: 0, second: 0 }) {
        day_number(o.end.date) - 1
    } else {
        day_number(o.end.date)
    };
    (day_number(o.start.date), last)
}

/// The occurrences, by their position, that each day of `[from, to)` holds:
/// one list per day, in order. A multi-day occurrence belongs to every day it
/// touches within the window.
pub open spec fn day_lists(occs: Seq<Occurrence>, from: Date, to: Date) -> Seq<Seq<usize>> {
    Seq::new(
        (day_number(to) - day_number(from)) as nat,
        |k: int| day_members(occs, day_number(from) + k, day_number(from)),
    )
}

/// The positions of the occurrences on day number `d`, for a window starting
/// at day number `start`.
pub open spec fn day_members(occs: Seq<Occurrence>, d: int, start: int) -> Seq<usize>
    decreases occs.len(),
{
    if occs.len() == 0 {
        Seq::empty()
    } else {
        let p = day_members(occs.drop_last(), d, start);
        let (first, last) = touched_days(occs.last());
        let begin = if first > start {
            first
        } else {
            start
        };
        if begin <= d && d <= last {
            p.push((occs.len() - 1) as usize)
        } else {
            p
        }
    }
}

/// Adds position `i` to the lists of days `begin..=last` that fall among the
/// `n` days from day number `start`.
fn add_to_days(days: &mut Vec<Vec<usize>>, i: usize, begin: i64, last: i64, start: i64, n: i64)
    requires
        -200_000_000 <= start <= begin,
        start <= 200_000_000,
        -400_000_000 <= last <= 400_000_000,
        0 <= n <= 400_000_000,
        old(days)@.len() == n,
    ensures
        final(days)@.len() == n,
        forall|j: int|
            0 <= j < n ==> (#[trigger] final(days)@[j])@ == if begin <= start + j && start + j <= last {
                old(days)@[j]@.push(i)
            } else {
                old(days)@[j]@
            },
{
    let ghost old_days = days@;
    let mut d: i64 = begin;
    while d <= last && d < start + n
        invariant
            start <= begin <= d,
            -200_000_000 <= start <= 200_000_000,
            -400_000_000 <= last <= 400_000_000,
            0 <= n <= 400_000_000,
            days@.len() == n,
            old_days.len() == n,
            forall|j: int|
                0 <= j < n ==> (#[trigger] days@[j])@ == if begin <= start + j && start + j < d && start
                    + j <= last {
                    old_days[j]@.push(i)
                } else {
                    old_days[j]@
                },
        decreases start + n - d,
    {
        let j = (d - start) as usize;
        let ghost before = days@;
        let mut list = days.remove(j);
        list.push(i);
        days.insert(j, list);
        assert forall|t: int| 0 <= t < n implies (#[trigger] days@[t])@ == if begin <= start + t && start
            + t < d + 1 && start + t <= last {
            old_days[t]@.push(i)
        } else {
            old_days[t]@
        } by {
            if t != j {
                assert(days@[t] == before[t]);
            }
        }
        d = d + 1;
    }
}

/// Groups occurrences by the days of `[from, to)` they touch: the result
/// holds one list per day, each the positions of that day's occurrences in
/// the order given. Days no occurrence touches hold empty lists.
pub fn occurrences_by_day(occs: &[Occurrence], from: Date, to: Date) -> (r: Vec<Vec<usize>>)
    requires
        from.valid(),
        to.valid(),
        day_number(from) <= day_number(to),
        forall|k: int| 0 <= k < occs@.len() ==> (#[trigger] occs@[k]).valid(),
    ensures
        r@.len() == day_number(to) - day_number(from),
        forall|k: int| 0 <= k < r@.len() ==> (#[trigger] r@[k])@ == day_members(occs@, day_number(from) + k, day_number(from)),
{
    proof {
        lemma_day_number_bounds(from);
        lemma_day_number_bounds(to);
    }
    let start = from.day_number();
    let n = to.day_number() - start;
    let mut days: Vec<Vec<usize>> = Vec::new();
    let mut k: i64 = 0;
    while k < n
        invariant
            0 <= k <= n,
            n == day_number(to) - day_number(from),
            days@.len() == k,
            forall|j: int| 0 <= j < k ==> (#[trigger] days@[j])@ == Seq::<usize>::empty(),
        decreases n - k,
    {
        days.push(Vec::new());
        k = k + 1;
    }
    let mut i: usize = 0;
    assert(occs@.take(0) =~= Seq::<Occurrence>::empty());
    while i < occs.len()
        invariant
            i <= occs@.len(),
            n == day_number(to) - day_number(from),
            start == day_number(from),
            -200_000_000 <= start <= 200_000_000,
            0 <= n <= 400_000_000,
            days@.len() == n,
            forall|k: int| 0 <= k < occs@.len() ==> (#[trigger] occs@[k]).valid(),
            forall|j: int| 0 <= j < n ==> (#[trigger] days@[j])@ == day_members(occs@.take(i as int), start + j, start as int),
        decreases occs.len() - i,
    {
        let o = &occs[i];
        proof {
            lemma_day_number_bounds(o.start.date);
            lemma_day_number_bounds(o.end.date);
        }
        let first = o.start.date.day_number();
        let end_day = o.end.date.day_number();
        let last = if o.end.time.hour == 0 && o.end.time.minute == 0 && o.end.time.second == 0 {
            end_day - 1
        } else {
            end_day
        };
        let begin = if first > start {
            first
        } else {
            start
        };
        assert(occs@.take(i + 1).drop_last() =~= occs@.take(i as int));
        assert(occs@.take(i + 1).last() == *o);
        add_to_days(&mut days, i, begin, last, start, n);
        assert forall|j: int| 0 <= j < n implies (#[trigger] days@[j])@ == day_members(
            occs@.take(i + 1),
            start + j,
            start as int,
        ) by {
            assert(touched_days(*o) == (first as int, last as int));
        }
        i = i + 1;
    }
    assert(occs@.take(occs@.len() as int) =~= occs@);
    days
}

/// Whether two occurrences are the same instance of the same event.
pub open spec fn same_instance(a: Occurrence, b: Occurrence) -> bool {
    a.calendar_id@ == b.calendar_id@ && a.uid@ == b.uid@ && a.recurrence_id == b.recurrence_id
}

/// Whether an occurrence of another event than `uid` overlaps `[start, end)`.
pub open spec fn clashes(o: Occurrence, uid: Seq<char>, start: DateTime, end: DateTime) -> bool {
    o.uid@ != uid && instant(o.start) < instant(end) && instant(o.end) > instant(start)
}

/// The clashing occurrences, each instance counted once, in order.
pub open spec fn clashing(s: Seq<Occurrence>, uid: Seq<char>, start: DateTime, end: DateTime) -> Seq<Occurrence>
    decreases s.len(),
{
    if s.len() == 0 {
        Seq::empty()
    } else {
        let p = clashing(s.drop_last(), uid, start, end);
        let o = s.last();
        if clashes(o, uid, start, end) && !(exists|i: int| 0 <= i < p.len() && same_instance(#[trigger] p[i], o)) {
            p.push(o)
        } else {
            p
        }
    }
}

/// How many other events overlap the slot `[start, end)` of the event `uid`,
/// among the occurrences of the days it spans. An occurrence listed under
/// several days counts once.
pub fn clash_count(occs: &Vec<Occurrence>, uid: &str, start: DateTime, end: DateTime) -> (r: usize)
    requires
        start.valid(),
        end.valid(),
        forall|k: int| 0 <= k < occs@.len() ==> (#[trigger] occs@[k]).start.valid() && occs@[k].end.valid(),
    ensures
        r == clashing(occs@, uid@, start, end).len(),
{
    proof {
        lemma_day_number_bounds(start.date);
        lemma_day_number_bounds(end.date);
    }
    let mut counted: Vec<usize> = Vec::new();
    let ghost mut seen: Seq<Occurrence> = Seq::empty();
    let mut i: usize = 0;
    while i < occs.len()
        invariant
            i <= occs@.len(),
            start.valid(),
            end.valid(),
            forall|k: int| 0 <= k < occs@.len() ==> (#[trigger] occs@[k]).start.valid() && occs@[k].end.valid(),
            seen == clashing(occs@.take(i as int), uid@, start, end),
            counted@.len() == seen.len(),
            forall|k: int| 0 <= k < counted@.len() ==> (#[trigger] counted@[k]) < i && occs@[counted@[k] as int]
                == seen[k],
        decreases occs.len() - i,
    {
        let o = &occs[i];
        assert(occs@.take(i + 1).drop_last() =~= occs@.take(i as int));
        assert(occs@.take(i + 1).last() == occs@[i as int]);
        proof {
            lemma_day_number_bounds(o.start.date);
            lemma_day_number_bounds(o.end.date);
        }
        let hit = !crate::text::str_equal(o.uid.as_str(), uid) && o.start.instant() < end.instant()
            && o.end.instant() > start.instant();
        if hit {
            let mut dup = false;
            let mut j: usize = 0;
            while j < counted.len()
                invariant
                    j <= counted@.len(),
                    counted@.len() == seen.len(),
                    i < occs@.len(),
                    *o == occs@[i as int],
                    forall|k: int| 0 <= k < counted@.len() ==> (#[trigger] counted@[k]) < i && occs@[counted@[k] as int]
                        == seen[k],
                    dup <==> exists|m: int| 0 <= m < j && same_instance(#[trigger] seen[m], occs@[i as int]),
                decreases counted.len() - j,
            {
                let ci = counted[j];
                assert(occs@[ci as int] == seen[j as int]);
                let c = &occs[ci];
                let same_rid = match (c.recurrence_id, o.recurrence_id) {
                    (Some(a), Some(b)) => a == b,
                    (None, None) => true,
                    _ => false,
                };
                if crate::text::str_equal(c.calendar_id.as_str(), o.calendar_id.as_str()) && crate::text::str_equal(
                    c.uid.as_str(),
                    o.uid.as_str(),
                ) && same_rid {
                    assert(same_instance(seen[j as int], occs@[i as int]));
                    dup = true;
                } else {
                    assert(!same_instance(seen[j as int], occs@[i as int]));
                }
                j = j + 1;
            }
            if !dup {
                counted.push(i);
                proof {
                    seen = seen.push(occs@[i as int]);
                }
            }
        }
        i = i + 1;
    }
    assert(occs@.take(occs@.len() as int) =~= occs@);
    counted.len()
}

/// Blocks of occurrences, one after another.
pub open spec fn flatten(blocks: Seq<Seq<Occurrence>>) -> Seq<Occurrence>
    decreases blocks.len(),
{
    if blocks.len() == 0 {
        Seq::empty()
    } else {
        flatten(blocks.drop_last()) + blocks.last()
    }
}

/// `blocks` are the occurrences each event gives in `[from, to)`, in the
/// events' order; an event outside the bounds expansion works in gives none.
pub open spec fn events_expand_to(
    events: Seq<Event>,
    from: int,
    to: int,
    local: Seq<char>,
    blocks: Seq<Seq<Occurrence>>,
) -> bool {
    &&& blocks.len() == events.len()
    &&& forall|i: int| 0 <= i < events.len() ==> if expand_fits(#[trigger] events[i], from, to) {
        expanded(events[i], from, to, local, blocks[i])
    } else {
        blocks[i].len() == 0
    }
}

proof fn lemma_flatten_valid(blocks: Seq<Seq<Occurrence>>)
    requires
        forall|i: int, k: int| 0 <= i < blocks.len() && 0 <= k < blocks[i].len() ==> (#[trigger] blocks[i][k]).start.valid(),
    ensures
        forall|k: int| 0 <= k < flatten(blocks).len() ==> (#[trigger] flatten(blocks)[k]).start.valid(),
    decreases blocks.len(),
{
    if blocks.len() > 0 {
        let rest = blocks.drop_last();
        assert forall|i: int, k: int| 0 <= i < rest.len() && 0 <= k < rest[i].len() implies (#[trigger] rest[i][k]).start.valid() by {
            assert(rest[i] == blocks[i]);
        }
        lemma_flatten_valid(rest);
        let f = flatten(rest);
        let l = blocks.last();
        assert forall|k: int| 0 <= k < flatten(blocks).len() implies (#[trigger] flatten(blocks)[k]).start.valid() by {
            if k < f.len() {
                assert(flatten(blocks)[k] == f[k]);
            } else {
                assert(flatten(blocks)[k] == l[k - f.len()]);
                assert(blocks[blocks.len() - 1] == l);
            }
        }
    }
}

/// Every occurrence the events give in `[from, to)` (Unix times), on the
/// wall clock of the zone named `local`, in listing order: all-day first,
/// then by start, then by title.
pub fn occurrences_of_events(events: &Vec<Event>, from: i64, to: i64, local: &str) -> (r: Vec<Occurrence>)
    ensures
        exists|blocks: Seq<Seq<Occurrence>>| #[trigger] events_expand_to(events@, from as int, to as int, local@, blocks)
            && r@ == listing(flatten(blocks)),
{
    let mut all: Vec<Occurrence> = Vec::new();
    let ghost mut blocks: Seq<Seq<Occurrence>> = Seq::empty();
    let mut i: usize = 0;
    while i < events.len()
        invariant
            i <= events@.len(),
            blocks.len() == i,
            forall|j: int| 0 <= j < i ==> if expand_fits(#[trigger] events@[j], from as int, to as int) {
                expanded(events@[j], from as int, to as int, local@, blocks[j])
            } else {
                blocks[j].len() == 0
            },
            forall|j: int, k: int| 0 <= j < blocks.len() && 0 <= k < blocks[j].len() ==> (#[trigger] blocks[j][k]).start.valid(),
            all@ == flatten(blocks),
        decreases events.len() - i,
    {
        let ghost before = blocks;
        if fits_expansion(&events[i], from, to) {
            let mut os = expand(&events[i], from, to, local);
            proof {
                blocks = blocks.push(os@);
                assert(blocks.drop_last() =~= before);
            }
            all.append(&mut os);
        } else {
            proof {
                blocks = blocks.push(Seq::empty());
                assert(blocks.drop_last() =~= before);
                assert(flatten(before) + Seq::<Occurrence>::empty() =~= flatten(before));
            }
        }
        assert forall|j: int| 0 <= j < i + 1 implies if expand_fits(#[trigger] events@[j], from as int, to as int) {
            expanded(events@[j], from as int, to as int, local@, blocks[j])
        } else {
            blocks[j].len() == 0
        } by {
            if j < i {
                assert(blocks[j] == before[j]);
            }
        }
        assert forall|j: int, k: int| 0 <= j < blocks.len() && 0 <= k < blocks[j].len() implies (#[trigger] blocks[j][k]).start.valid() by {
            if j < i {
                assert(blocks[j] == before[j]);
            }
        }
        i = i + 1;
    }
    proof {
        lemma_flatten_valid(blocks);
    }
    let r = sort_occurrences(all);
    assert(events_expand_to(events@, from as int, to as int, local@, blocks));
    r
}

/// The ids of the calendars not hidden, in order.
pub fn visible_ids(calendars: &Vec<CalendarMeta>, hidden: &Vec<String>) -> (r: Vec<String>)
    ensures
        forall|x: Seq<char>| #[trigger] crate::index::texts(r@).contains(x) <==> (crate::index::ids_of(
            calendars@,
        ).contains(x) && !crate::index::texts(hidden@).contains(x)),
{
    let ids: Vec<String> = {
        let mut v: Vec<String> = Vec::new();
        let mut i: usize = 0;
        while i < calendars.len()
            invariant
                i <= calendars@.len(),
                crate::index::texts(v@) == crate::index::ids_of(calendars@.take(i as int)),
            decreases calendars.len() - i,
        {
            v.push(calendars[i].id.clone());
            assert(crate::index::ids_of(calendars@.take(i + 1)) =~= crate::index::ids_of(calendars@.take(i as int)).push(
                calendars@[i as int].id@,
            ));
            assert(crate::index::texts(v@) =~= crate::index::ids_of(calendars@.take(i + 1)));
            i = i + 1;
        }
        assert(calendars@.take(calendars@.len() as int) =~= calendars@);
        v
    };
    let hidden_meta = metas_of(hidden);
    let r = crate::index::missing_calendars(&ids, &hidden_meta);
    r
}

fn metas_of(ids: &Vec<String>) -> (r: Vec<CalendarMeta>)
    ensures
        crate::index::ids_of(r@) == crate::index::texts(ids@),
{
    let mut v: Vec<CalendarMeta> = Vec::new();
    let mut i: usize = 0;
    while i < ids.len()
        invariant
            i <= ids@.len(),
            crate::index::ids_of(v@) == crate::index::texts(ids@.take(i as int)),
        decreases ids.len() - i,
    {
        v.push(
            CalendarMeta {
                id: ids[i].clone(),
                name: String::new(),
                color: crate::color::default_calendar_color(),
                path: String::new(),
                read_only: true,
            },
        );
        assert(crate::index::texts(ids@.take(i + 1)) =~= crate::index::texts(ids@.take(i as int)).push(ids@[i as int]@));
        assert(crate::index::ids_of(v@) =~= crate::index::texts(ids@.take(i + 1)));
        i = i + 1;
    }
    assert(ids@.take(ids@.len() as int) =~= ids@);
    v
}

/// `r` is what a read of the local days `[from, to)` gives: the rows of the
/// calendars not hidden (`visible`) that could overlap the window, read back
/// as `events`, expanded into `blocks`, in listing order.
pub open spec fn read_window(
    rows: Seq<IndexRow>,
    calendars: Seq<CalendarMeta>,
    hidden: Seq<String>,
    from: int,
    to: int,
    local: Seq<char>,
    visible: Seq<String>,
    events: Seq<Event>,
    blocks: Seq<Seq<Occurrence>>,
    r: Seq<Occurrence>,
) -> bool {
    let rows_shown = selected(rows, visible, from, to);
    &&& forall|x: Seq<char>| #[trigger] crate::index::texts(visible).contains(x) <==> (crate::index::ids_of(
        calendars,
    ).contains(x) && !crate::index::texts(hidden).contains(x))
    &&& events.len() == rows_shown.len()
    &&& forall|k: int| 0 <= k < events.len() ==> event_from_row(rows_shown[k], #[trigger] events[k])
    &&& events_expand_to(events, from, to, local, blocks)
    &&& r == listing(flatten(blocks))
}

/// Every occurrence in the local days `[from, to)`, read in the zone named
/// `local`, of the calendars not hidden: the index rows that could overlap
/// the window are read back and expanded, and the occurrences listed all-day
/// first, then by start, then by title.
pub fn occurrences_in(
    rows: &Vec<IndexRow>,
    calendars: &Vec<CalendarMeta>,
    hidden: &Vec<String>,
    from: Date,
    to: Date,
    local: &str,
) -> (r: Vec<Occurrence>)
    requires
        from.valid(),
        to.valid(),
    ensures
        exists|visible: Seq<String>, events: Seq<Event>, blocks: Seq<Seq<Occurrence>>| #[trigger] read_window(
            rows@,
            calendars@,
            hidden@,
            day_start_spec(from, local@),
            day_start_spec(to, local@),
            local@,
            visible,
            events,
            blocks,
            r@,
        ),
{
    let visible = visible_ids(calendars, hidden);
    let from_utc = day_start_utc(from, local);
    let to_utc = day_start_utc(to, local);
    let events = candidates(rows, &visible, from_utc, to_utc);
    let r = occurrences_of_events(&events, from_utc, to_utc, local);
    let ghost blocks = choose|blocks: Seq<Seq<Occurrence>>| #[trigger] events_expand_to(
        events@,
        from_utc as int,
        to_utc as int,
        local@,
        blocks,
    ) && r@ == listing(flatten(blocks));
    assert(read_window(
        rows@,
        calendars@,
        hidden@,
        day_start_spec(from, local@),
        day_start_spec(to, local@),
        local@,
        visible@,
        events@,
        blocks,
        r@,
    ));
    r
}


/// The position of the first calendar in `cs` from `k` on that `pick`
/// accepts, or `cs.len()` when none does.
pub open spec fn first_from(cs: Seq<CalendarMeta>, pick: spec_fn(CalendarMeta) -> bool, k: int) -> int
    decreases cs.len() - k,
{
    if k >= cs.len() {
        cs.len() as int
    } else if pick(cs[k]) {
        k
    } else {
        first_from(cs, pick, k + 1)
    }
}

/// Whether a calendar has the id `id`.
pub open spec fn has_id(id: Seq<char>) -> spec_fn(CalendarMeta) -> bool {
    |c: CalendarMeta| c.id@ == id
}

/// Whether a calendar can be written.
pub open spec fn writable_calendar() -> spec_fn(CalendarMeta) -> bool {
    |c: CalendarMeta| !c.read_only
}

/// The calendar at the first position `pick` accepts, if any.
pub open spec fn first_pick(cs: Seq<CalendarMeta>, pick: spec_fn(CalendarMeta) -> bool) -> Option<CalendarMeta> {
    let k = first_from(cs, pick, 0);
    if k < cs.len() {
        Some(cs[k])
    } else {
        None
    }
}

/// The calendar with the id `id`.
pub fn calendar<'a>(calendars: &'a Vec<CalendarMeta>, id: &str) -> (r: Option<&'a CalendarMeta>)
    ensures
        match r {
            Some(c) => first_pick(calendars@, has_id(id@)) == Some(*c),
            None => first_pick(calendars@, has_id(id@)) is None,
        },
{
    let mut k: usize = 0;
    while k < calendars.len()
        invariant
            k <= calendars@.len(),
            first_from(calendars@, has_id(id@), 0) == first_from(calendars@, has_id(id@), k as int),
        decreases calendars.len() - k,
    {
        if crate::text::str_equal(calendars[k].id.as_str(), id) {
            return Some(&calendars[k]);
        }
        k = k + 1;
    }
    None
}

/// The calendar new events land in unless another is picked: the first one
/// that can be written.
pub fn default_calendar(calendars: &Vec<CalendarMeta>) -> (r: Option<&CalendarMeta>)
    ensures
        match r {
            Some(c) => first_pick(calendars@, writable_calendar()) == Some(*c),
            None => first_pick(calendars@, writable_calendar()) is None,
        },
{
    let mut k: usize = 0;
    while k < calendars.len()
        invariant
            k <= calendars@.len(),
            first_from(calendars@, writable_calendar(), 0) == first_from(
                calendars@,
                writable_calendar(),
                k as int,
            ),
        decreases calendars.len() - k,
    {
        if !calendars[k].read_only {
            return Some(&calendars[k]);
        }
        k = k + 1;
    }
    None
}

/// Whether two listings of the calendars show the same thing: the same
/// calendars in the same order, with the same names and colours.
pub open spec fn same_listing(a: Seq<CalendarMeta>, b: Seq<CalendarMeta>) -> bool {
    &&& a.len() == b.len()
    &&& forall|i: int|
        0 <= i < a.len() ==> {
            &&& (#[trigger] a[i]).id@ == b[i].id@
            &&& a[i].name@ == b[i].name@
            &&& a[i].color == b[i].color
        }
}

/// Whether a rescan found the calendars changed, so that the view has to be
/// drawn again.
pub fn calendars_changed(found: &Vec<CalendarMeta>, known: &Vec<CalendarMeta>) -> (r: bool)
    ensures
        r == !same_listing(found@, known@),
{
    if found.len() != known.len() {
        return true;
    }
    let mut i: usize = 0;
    while i < found.len()
        invariant
            i <= found@.len(),
            found@.len() == known@.len(),
            forall|j: int|
                0 <= j < i ==> {
                    &&& (#[trigger] found@[j]).id@ == known@[j].id@
                    &&& found@[j].name@ == known@[j].name@
                    &&& found@[j].color == known@[j].color
                },
        decreases found.len() - i,
    {
        let a = &found[i];
        let b = &known[i];
        if !crate::text::str_equal(a.id.as_str(), b.id.as_str()) || !crate::text::str_equal(
            a.name.as_str(),
            b.name.as_str(),
        ) || a.color.0 != b.color.0 || a.color.1 != b.color.1 || a.color.2 != b.color.2 {
            return true;
        }
        i = i + 1;
    }
    false
}


/// The calendars that can be written, in their order: those the editor
/// offers to file an event in.
pub open spec fn writable_only(s: Seq<CalendarMeta>) -> Seq<CalendarMeta>
    decreases s.len(),
{
    if s.len() == 0 {
        Seq::empty()
    } else {
        let p = writable_only(s.drop_last());
        if !s.last().read_only {
            p.push(s.last())
        } else {
            p
        }
    }
}

/// The writable calendars of a prefix are a prefix of those of the whole.
proof fn lemma_writable_prefix(s: Seq<CalendarMeta>, j: int, k: int)
    requires
        0 <= j <= k <= s.len(),
    ensures
        writable_only(s.take(j)).len() <= writable_only(s.take(k)).len(),
        forall|i: int|
            0 <= i < writable_only(s.take(j)).len() ==> #[trigger] writable_only(s.take(k))[i]
                == writable_only(s.take(j))[i],
    decreases k - j,
{
    if j < k {
        lemma_writable_prefix(s, j, k - 1);
        assert(s.take(k).drop_last() =~= s.take(k - 1));
    }
}

/// The writable calendar at `index` in the editor's list of them.
pub fn nth_writable(calendars: &Vec<CalendarMeta>, index: usize) -> (r: Option<&CalendarMeta>)
    ensures
        match r {
            Some(c) => index < writable_only(calendars@).len() && *c == writable_only(calendars@)[index as int],
            None => index >= writable_only(calendars@).len(),
        },
{
    let ghost s = calendars@;
    let mut seen: usize = 0;
    let mut i: usize = 0;
    assert(s.take(0) =~= Seq::<CalendarMeta>::empty());
    while i < calendars.len()
        invariant
            s == calendars@,
            i <= s.len(),
            seen == writable_only(s.take(i as int)).len(),
            seen <= index,
        decreases calendars.len() - i,
    {
        assert(s.take(i + 1).drop_last() =~= s.take(i as int));
        assert(s.take(i + 1).last() == s[i as int]);
        if !calendars[i].read_only {
            if seen == index {
                proof {
                    lemma_writable_prefix(s, i + 1, s.len() as int);
                    assert(s.take(s.len() as int) =~= s);
                    assert(writable_only(s.take(i + 1))[index as int] == s[i as int]);
                }
                return Some(&calendars[i]);
            }
            seen = seen + 1;
        }
        i = i + 1;
    }
    assert(s.take(s.len() as int) =~= s);
    None
}


/// No element of `s` comes before one ahead of it, by `before`.
pub open spec fn in_order_by<T>(s: Seq<T>, before: spec_fn(T, T) -> bool) -> bool {
    forall|i: int, j: int| 0 <= i < j < s.len() ==> !before(#[trigger] s[j], #[trigger] s[i])
}

/// Inserting `x` at the first place whose element it comes before keeps a
/// sequence in order, given that nothing comes before `x` and after that
/// element at once, and that element does not come before `x`.
pub(crate) proof fn lemma_insert_in_order<T>(p: Seq<T>, x: T, pos: int, before: spec_fn(T, T) -> bool)
    requires
        in_order_by(p, before),
        0 <= pos <= p.len(),
        forall|k: int| 0 <= k < pos ==> !before(x, #[trigger] p[k]),
        pos < p.len() ==> before(x, p[pos]),
        pos < p.len() ==> !before(p[pos], x),
        forall|k: int| pos < k < p.len() && #[trigger] before(p[k], x) ==> before(p[k], p[pos]),
    ensures
        in_order_by(p.insert(pos, x), before),
{
    let q = p.insert(pos, x);
    assert forall|i: int, j: int| 0 <= i < j < q.len() implies !before(#[trigger] q[j], #[trigger] q[i]) by {
        if j < pos {
            assert(q[i] == p[i] && q[j] == p[j]);
        } else if j == pos {
            assert(q[i] == p[i] && q[j] == x);
        } else if i < pos {
            assert(q[i] == p[i] && q[j] == p[j - 1]);
        } else if i == pos {
            assert(q[i] == x && q[j] == p[j - 1]);
            if j - 1 > pos && before(p[j - 1], x) {
                assert(before(p[j - 1], p[pos]));
            }
        } else {
            assert(q[i] == p[i - 1] && q[j] == p[j - 1]);
        }
    }
}

/// `text_lt` is a strict order: never both ways.
pub(crate) proof fn lemma_text_lt_asymmetric(a: Seq<char>, b: Seq<char>)
    ensures
        !(text_lt(a, b) && text_lt(b, a)),
    decreases a.len(),
{
    if a.len() > 0 && b.len() > 0 && a[0] == b[0] {
        lemma_text_lt_asymmetric(a.drop_first(), b.drop_first());
    }
}

/// `text_lt` is transitive.
pub(crate) proof fn lemma_text_lt_transitive(a: Seq<char>, b: Seq<char>, c: Seq<char>)
    requires
        text_lt(a, b),
        text_lt(b, c),
    ensures
        text_lt(a, c),
    decreases a.len(),
{
    if a.len() > 0 && a[0] == b[0] && b[0] == c[0] {
        lemma_text_lt_transitive(a.drop_first(), b.drop_first(), c.drop_first());
    }
}

/// Where `x` goes among `s`: after everything it is not listed before, and
/// before the element it is listed before.
proof fn lemma_listing_pos(s: Seq<Occurrence>, x: Occurrence)
    ensures
        0 <= listing_pos(s, x) <= s.len(),
        forall|k: int| 0 <= k < listing_pos(s, x) ==> !listed_before(x, #[trigger] s[k]),
        listing_pos(s, x) < s.len() ==> listed_before(x, s[listing_pos(s, x)]),
    decreases s.len(),
{
    if s.len() > 0 && !listed_before(x, s[0]) {
        lemma_listing_pos(s.drop_first(), x);
        assert forall|k: int| 0 <= k < listing_pos(s, x) implies !listed_before(x, #[trigger] s[k]) by {
            if k > 0 {
                assert(s[k] == s.drop_first()[k - 1]);
            }
        }
    }
}

/// The listing order is a strict order: never both ways, and transitive.
proof fn lemma_listed_before_order(a: Occurrence, b: Occurrence, c: Occurrence)
    ensures
        !(listed_before(a, b) && listed_before(b, a)),
        listed_before(a, b) && listed_before(b, c) ==> listed_before(a, c),
{
    lemma_text_lt_asymmetric(a.summary@, b.summary@);
    if listed_before(a, b) && listed_before(b, c) && a.all_day == b.all_day && b.all_day == c.all_day
        && instant(a.start) == instant(b.start) && instant(b.start) == instant(c.start) {
        lemma_text_lt_transitive(a.summary@, b.summary@, c.summary@);
    }
}

/// The day's listing is in order and holds what it was given: all-day
/// occurrences first, then by start, then by title, none lost or added.
pub proof fn lemma_listing_sorted(s: Seq<Occurrence>)
    ensures
        in_order_by(listing(s), |a: Occurrence, b: Occurrence| listed_before(a, b)),
        listing(s).to_multiset() == s.to_multiset(),
    decreases s.len(),
{
    let before = |a: Occurrence, b: Occurrence| listed_before(a, b);
    if s.len() == 0 {
        assert(listing(s) =~= s);
    } else {
        let p = listing(s.drop_last());
        let x = s.last();
        lemma_listing_sorted(s.drop_last());
        lemma_listing_pos(p, x);
        let pos = listing_pos(p, x);
        if pos < p.len() {
            lemma_listed_before_order(x, p[pos], x);
            lemma_listed_before_order(p[pos], x, p[pos]);
        }
        assert forall|k: int| pos < k < p.len() && #[trigger] before(p[k], x) implies before(p[k], p[pos]) by {
            lemma_listed_before_order(p[k], x, p[pos]);
        }
        lemma_insert_in_order(p, x, pos, before);
        vstd::seq_lib::to_multiset_insert(p, pos, x);
        vstd::seq_lib::to_multiset_build(s.drop_last(), x);
        assert(s.drop_last().push(x) =~= s);
    }
}

} // verus!
