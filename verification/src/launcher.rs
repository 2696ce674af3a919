//! Searching events from the desktop launcher: what a query matches, the
//! order the results come in, and how each is described. The plugin protocol
//! itself, lines of JSON on standard input and output, is the application's.

use vstd::prelude::*;
use crate::calendar::{format_time, time_text};
use crate::config::Config;
use crate::date::{date_after, day_number, lemma_date_after, lemma_day_number_bounds, max_day_number, min_day_number, Date};
use crate::event::{copy_occurrence, Occurrence};
use crate::text::{chars_of, lowercase, opt_view, owned, string_of, sub_chars, to_lowercase, trim, trimmed};

verus! {

/// How far before today a search looks, in days.
pub const PAST_DAYS: i64 = 30;

/// How far after today a search looks, in days.
pub const FUTURE_DAYS: i64 = 180;

/// How many results one query returns.
pub const MAX_RESULTS: usize = 12;

/// The days a search looks through: from a month before today to half a year
/// after it. A one-letter query should not expand a year of repeats.
pub fn search_window(today: Date) -> (r: (Date, Date))
    requires
        today.valid(),
        min_day_number() + 30 <= day_number(today) <= max_day_number() - 180,
    ensures
        r.0 == date_after(today, -30),
        r.1 == date_after(today, 180),
        r.0.valid(),
        r.1.valid(),
{
    let from = today.add_days(-PAST_DAYS);
    let to = today.add_days(FUTURE_DAYS);
    proof {
        lemma_date_after(today, -30, from);
        lemma_date_after(today, 180, to);
    }
    (from, to)
}

/// `s` with every leading `cal ` removed: the launcher strips its plugin
/// prefix, and both forms are taken.
pub open spec fn strip_prefix(s: Seq<char>) -> Seq<char>
    decreases s.len(),
{
    if s.len() >= 4 && s[0] == 'c' && s[1] == 'a' && s[2] == 'l' && s[3] == ' ' {
        strip_prefix(s.skip(4))
    } else {
        s
    }
}

/// What a query searches for: trimmed, its prefix dropped, trimmed again and
/// lowercased.
pub open spec fn needle_of(query: Seq<char>) -> Seq<char> {
    lowercase(trim(strip_prefix(trim(query))))
}

/// What a query searches for.
pub fn search_needle(query: &str) -> (r: String)
    ensures
        r@ == needle_of(query@),
{
    let all = chars_of(query);
    let t = trimmed(all.as_slice());
    let mut i: usize = 0;
    assert(t@.skip(0) =~= t@);
    while i < t.len() && t.len() - i >= 4 && t[i] == 'c' && t[i + 1] == 'a' && t[i + 2] == 'l' && t[i + 3] == ' '
        invariant
            i <= t@.len(),
            strip_prefix(t@) == strip_prefix(t@.skip(i as int)),
        decreases t.len() - i,
    {
        assert(t@.skip(i as int).skip(4) =~= t@.skip(i + 4));
        i = i + 4;
    }
    let rest = sub_chars(t.as_slice(), i, t.len());
    assert(rest@ =~= t@.skip(i as int));
    let inner = trimmed(rest.as_slice());
    let text = string_of(inner.as_slice());
    to_lowercase(text.as_str())
}

/// Whether `needle` occurs in `hay`.
pub open spec fn has_text(hay: Seq<char>, needle: Seq<char>) -> bool {
    exists|i: int| 0 <= i && i + needle.len() <= hay.len() && #[trigger] hay.subrange(i, i + needle.len()) == needle
}

fn has_text_exec(hay: &[char], needle: &[char]) -> (r: bool)
    ensures
        r == has_text(hay@, needle@),
{
    if needle.len() > hay.len() {
        return false;
    }
    let mut i: usize = 0;
    let last = hay.len() - needle.len();
    assert(hay@.len() <= usize::MAX);
    while i <= last
        invariant
            last == hay@.len() - needle@.len(),
            needle@.len() <= hay@.len(),
            i <= hay@.len() - needle@.len() + 1,
            forall|k: int| 0 <= k < i ==> #[trigger] hay@.subrange(k, k + needle@.len()) != needle@,
        decreases hay.len() - i,
    {
        let mut j: usize = 0;
        let mut same = true;
        while same && j < needle.len()
            invariant
                j <= needle@.len(),
                i <= last,
                i + needle@.len() <= hay@.len(),
                hay@.len() <= usize::MAX,
                last == hay@.len() - needle@.len(),
                forall|m: int| 0 <= m < j ==> hay@[i + m] == needle@[m],
                !same ==> j < needle@.len() && hay@[i + j] != needle@[j as int],
            decreases needle.len() - j + if same { 1int } else { 0int },
        {
            let k = i + j;
            if hay[k] == needle[j] {
                j = j + 1;
            } else {
                same = false;
            }
        }
        if j == needle.len() {
            assert(hay@.subrange(i as int, i + needle@.len()) =~= needle@);
            return true;
        }
        assert(hay@.subrange(i as int, i + needle@.len())[j as int] != needle@[j as int]);
        i = i + 1;
    }
    false
}

/// Whether an occurrence matches: its title or its place holds the needle,
/// case aside.
pub open spec fn matches_needle(o: Occurrence, needle: Seq<char>) -> bool {
    ||| has_text(lowercase(o.summary@), needle)
    ||| (o.location matches Some(l) && has_text(lowercase(l@), needle))
}

fn matches_exec(o: &Occurrence, needle: &[char]) -> (r: bool)
    ensures
        r == matches_needle(*o, needle@),
{
    let title = to_lowercase(o.summary.as_str());
    let title_chars = chars_of(title.as_str());
    if has_text_exec(title_chars.as_slice(), needle) {
        return true;
    }
    match &o.location {
        Some(l) => {
            let place = to_lowercase(l.as_str());
            let place_chars = chars_of(place.as_str());
            has_text_exec(place_chars.as_slice(), needle)
        },
        None => false,
    }
}

/// How many days an occurrence starts from today, either way.
pub open spec fn distance(o: Occurrence, today: Date) -> int {
    let d = day_number(o.start.date) - day_number(today);
    if d < 0 {
        -d
    } else {
        d
    }
}

/// Where `x` goes among `s`, ordered by distance from today: after every
/// one no farther, so that equal distances keep their order.
pub open spec fn nearest_pos(s: Seq<Occurrence>, x: Occurrence, today: Date) -> int
    decreases s.len(),
{
    if s.len() == 0 {
        0
    } else if distance(x, today) < distance(s[0], today) {
        0
    } else {
        1 + nearest_pos(s.drop_first(), x, today)
    }
}

/// Occurrences nearest to today first, equal distances in their given order.
pub open spec fn nearest_first(s: Seq<Occurrence>, today: Date) -> Seq<Occurrence>
    decreases s.len(),
{
    if s.len() == 0 {
        Seq::empty()
    } else {
        let p = nearest_first(s.drop_last(), today);
        p.insert(nearest_pos(p, s.last(), today), s.last())
    }
}

/// The matching occurrences, in order.
pub open spec fn matching(s: Seq<Occurrence>, needle: Seq<char>) -> Seq<Occurrence>
    decreases s.len(),
{
    if s.len() == 0 {
        Seq::empty()
    } else {
        matching(s.drop_last(), needle) + if matches_needle(s.last(), needle) {
            seq![s.last()]
        } else {
            Seq::empty()
        }
    }
}

/// Whether two occurrences belong to one event.
pub open spec fn same_event_of(a: Occurrence, b: Occurrence) -> bool {
    a.calendar_id@ == b.calendar_id@ && a.uid@ == b.uid@
}

/// Whether an occurrence of the same event as `x` is among `s`.
pub open spec fn event_listed(s: Seq<Occurrence>, x: Occurrence) -> bool {
    exists|i: int| 0 <= i < s.len() && same_event_of(#[trigger] s[i], x)
}

/// The first occurrence of each event, in order: a daily standup should not
/// fill the results with itself.
pub open spec fn first_of_each(s: Seq<Occurrence>) -> Seq<Occurrence>
    decreases s.len(),
{
    if s.len() == 0 {
        Seq::empty()
    } else {
        first_of_each(s.drop_last()) + if event_listed(s.drop_last(), s.last()) {
            Seq::empty()
        } else {
            seq![s.last()]
        }
    }
}

/// What a search shows: the matching occurrences nearest to today first, one
/// per event, at most `limit` of them.
pub open spec fn results_spec(s: Seq<Occurrence>, needle: Seq<char>, today: Date, limit: nat) -> Seq<Occurrence> {
    let found = first_of_each(nearest_first(matching(s, needle), today));
    if found.len() > limit {
        found.take(limit as int)
    } else {
        found
    }
}

fn distance_exec(o: &Occurrence, today: Date) -> (r: i64)
    requires
        o.start.date.valid(),
        today.valid(),
    ensures
        r == distance(*o, today),
{
    proof {
        lemma_day_number_bounds(o.start.date);
        lemma_day_number_bounds(today);
    }
    let d = o.start.date.day_number() - today.day_number();
    if d < 0 {
        -d
    } else {
        d
    }
}

fn same_event_exec(a: &Occurrence, b: &Occurrence) -> (r: bool)
    ensures
        r == same_event_of(*a, *b),
{
    crate::text::str_equal(a.calendar_id.as_str(), b.calendar_id.as_str()) && crate::text::str_equal(
        a.uid.as_str(),
        b.uid.as_str(),
    )
}

proof fn lemma_listed_firsts(s: Seq<Occurrence>, x: Occurrence)
    ensures
        event_listed(s, x) <==> event_listed(first_of_each(s), x),
    decreases s.len(),
{
    if s.len() > 0 {
        let rest = s.drop_last();
        let l = s.last();
        let f = first_of_each(rest);
        lemma_listed_firsts(rest, x);
        lemma_listed_firsts(rest, l);
        let tail = if event_listed(rest, l) {
            Seq::<Occurrence>::empty()
        } else {
            seq![l]
        };
        let all = f + tail;
        assert(first_of_each(s) == all);
        if event_listed(s, x) {
            let i = choose|i: int| 0 <= i < s.len() && same_event_of(#[trigger] s[i], x);
            if i < rest.len() {
                assert(rest[i] == s[i]);
                assert(event_listed(rest, x));
                let j = choose|j: int| 0 <= j < f.len() && same_event_of(#[trigger] f[j], x);
                assert(all[j] == f[j]);
            } else {
                assert(s[i] == l);
                if event_listed(rest, l) {
                    let k = choose|k: int| 0 <= k < rest.len() && same_event_of(#[trigger] rest[k], l);
                    assert(same_event_of(rest[k], x));
                    assert(event_listed(rest, x));
                    let j = choose|j: int| 0 <= j < f.len() && same_event_of(#[trigger] f[j], x);
                    assert(all[j] == f[j]);
                } else {
                    assert(all[f.len() as int] == l);
                }
            }
        }
        if event_listed(all, x) {
            let j = choose|j: int| 0 <= j < all.len() && same_event_of(#[trigger] all[j], x);
            if j < f.len() {
                assert(f[j] == all[j]);
                assert(event_listed(f, x));
                let i = choose|i: int| 0 <= i < rest.len() && same_event_of(#[trigger] rest[i], x);
                assert(s[i] == rest[i]);
            } else {
                assert(all[j] == l);
                assert(s[s.len() - 1] == l);
            }
        }
    }
}

/// What the launcher shows for `needle`: the matching occurrences nearest to
/// today first, one per event, at most `MAX_RESULTS` of them.
pub fn search_results(occs: &Vec<Occurrence>, needle: &str, today: Date) -> (r: Vec<Occurrence>)
    requires
        today.valid(),
        forall|k: int| 0 <= k < occs@.len() ==> (#[trigger] occs@[k]).start.date.valid(),
    ensures
        r@ == results_spec(occs@, needle@, today, MAX_RESULTS as nat),
{
    find_occurrences(occs, needle, today, MAX_RESULTS)
}

/// The occurrences whose title or place holds `needle`, case aside: nearest
/// to today first, equal distances in their given order, one per event (the
/// nearest), at most `limit` of them.
pub fn find_occurrences(occs: &Vec<Occurrence>, needle: &str, today: Date, limit: usize) -> (r: Vec<Occurrence>)
    requires
        today.valid(),
        forall|k: int| 0 <= k < occs@.len() ==> (#[trigger] occs@[k]).start.date.valid(),
    ensures
        r@ == results_spec(occs@, needle@, today, limit as nat),
{
    let needle_chars = chars_of(needle);
    // The matching occurrences, in order.
    let mut found: Vec<Occurrence> = Vec::new();
    let mut i: usize = 0;
    while i < occs.len()
        invariant
            i <= occs@.len(),
            needle_chars@ == needle@,
            found@ == matching(occs@.take(i as int), needle@),
            forall|k: int| 0 <= k < occs@.len() ==> (#[trigger] occs@[k]).start.date.valid(),
            forall|k: int| 0 <= k < found@.len() ==> (#[trigger] found@[k]).start.date.valid(),
        decreases occs.len() - i,
    {
        assert(occs@.take(i + 1).drop_last() =~= occs@.take(i as int));
        assert(occs@.take(i + 1).last() == occs@[i as int]);
        if matches_exec(&occs[i], needle_chars.as_slice()) {
            let ghost before = found@;
            found.push(copy_occurrence(&occs[i]));
            assert(found@ =~= before + seq![occs@[i as int]]);
        } else {
            assert(found@ =~= found@ + Seq::<Occurrence>::empty());
        }
        i = i + 1;
    }
    assert(occs@.take(occs@.len() as int) =~= occs@);
    // Nearest to today first, a stable insertion.
    let mut sorted: Vec<Occurrence> = Vec::new();
    let mut j: usize = 0;
    while j < found.len()
        invariant
            j <= found@.len(),
            today.valid(),
            sorted@ == nearest_first(found@.take(j as int), today),
            forall|k: int| 0 <= k < found@.len() ==> (#[trigger] found@[k]).start.date.valid(),
            forall|k: int| 0 <= k < sorted@.len() ==> (#[trigger] sorted@[k]).start.date.valid(),
        decreases found.len() - j,
    {
        let x = copy_occurrence(&found[j]);
        let dx = distance_exec(&x, today);
        let mut p: usize = 0;
        assert(sorted@.skip(0) =~= sorted@);
        while p < sorted.len() && !(dx < distance_exec(&sorted[p], today))
            invariant
                p <= sorted@.len(),
                today.valid(),
                x.start.date.valid(),
                dx == distance(x, today),
                forall|k: int| 0 <= k < sorted@.len() ==> (#[trigger] sorted@[k]).start.date.valid(),
                nearest_pos(sorted@, x, today) == p + nearest_pos(sorted@.skip(p as int), x, today),
            decreases sorted.len() - p,
        {
            assert(sorted@.skip(p as int).drop_first() =~= sorted@.skip(p + 1));
            p = p + 1;
        }
        assert(found@.take(j + 1).drop_last() =~= found@.take(j as int));
        assert(found@.take(j + 1).last() == found@[j as int]);
        let ghost before = sorted@;
        sorted.insert(p, x);
        assert forall|k: int| 0 <= k < sorted@.len() implies (#[trigger] sorted@[k]).start.date.valid() by {
            if k < p {
                assert(sorted@[k] == before[k]);
            } else if k > p {
                assert(sorted@[k] == before[k - 1]);
            }
        }
        j = j + 1;
    }
    assert(found@.take(found@.len() as int) =~= found@);
    // One per event, the first kept.
    let mut firsts: Vec<Occurrence> = Vec::new();
    let mut m: usize = 0;
    while m < sorted.len()
        invariant
            m <= sorted@.len(),
            firsts@ == first_of_each(sorted@.take(m as int)),
        decreases sorted.len() - m,
    {
        let ghost prefix = sorted@.take(m as int);
        assert(sorted@.take(m + 1).drop_last() =~= prefix);
        assert(sorted@.take(m + 1).last() == sorted@[m as int]);
        let mut seen = false;
        let mut q: usize = 0;
        while q < firsts.len()
            invariant
                q <= firsts@.len(),
                m < sorted@.len(),
                seen <==> exists|w: int| 0 <= w < q && same_event_of(#[trigger] firsts@[w], sorted@[m as int]),
            decreases firsts.len() - q,
        {
            if same_event_exec(&firsts[q], &sorted[m]) {
                seen = true;
            }
            q = q + 1;
        }
        proof {
            lemma_listed_firsts(prefix, sorted@[m as int]);
        }
        if !seen {
            let ghost before = firsts@;
            firsts.push(copy_occurrence(&sorted[m]));
            assert(firsts@ =~= before + seq![sorted@[m as int]]);
        } else {
            assert(firsts@ =~= firsts@ + Seq::<Occurrence>::empty());
        }
        m = m + 1;
    }
    assert(sorted@.take(sorted@.len() as int) =~= sorted@);
    if firsts.len() > limit {
        firsts.truncate(limit);
    }
    firsts
}

/// The name a result is shown under: its title, or a placeholder for an
/// untitled event.
pub fn display_name(o: &Occurrence) -> (r: String)
    ensures
        r@ == if trim(o.summary@).len() == 0 {
            "(No title)"@
        } else {
            o.summary@
        },
{
    let all = chars_of(o.summary.as_str());
    let t = trimmed(all.as_slice());
    if t.len() == 0 {
        owned("(No title)")
    } else {
        o.summary.clone()
    }
}

/// Which day a result falls on, as words where there are some.
#[derive(Clone, Copy, Debug, PartialEq, Eq, Structural)]
pub enum DayWord {
    Today,
    Tomorrow,
    Yesterday,
    /// Any other day; shown as its short weekday, day and month name.
    On(Date),
}

/// How a result is described under its name: the day, the start time unless
/// it is all-day, and the place when it has one.
pub struct Description {
    pub day: DayWord,
    pub time: Option<String>,
    pub location: Option<String>,
}

/// The words for the day an occurrence starts, seen from `today`.
pub open spec fn day_word(o: Occurrence, today: Date) -> DayWord {
    let d = day_number(o.start.date) - day_number(today);
    if d == 0 {
        DayWord::Today
    } else if d == 1 {
        DayWord::Tomorrow
    } else if d == -1 {
        DayWord::Yesterday
    } else {
        DayWord::On(o.start.date)
    }
}

/// How a result is described: the day in words, the start time unless the
/// occurrence is all-day, and its place unless that is empty. The weekday
/// and month names are the interface's to localise.
pub fn describe(o: &Occurrence, today: Date, config: &Config) -> (r: Description)
    requires
        o.start.valid(),
        today.valid(),
    ensures
        r.day == day_word(*o, today),
        opt_view(r.time) == if o.all_day {
            None
        } else {
            Some(time_text(o.start.time, config.time_24h))
        },
        opt_view(r.location) == match o.location {
            Some(l) => if l@.len() > 0 {
                Some(l@)
            } else {
                None
            },
            None => None,
        },
{
    proof {
        lemma_day_number_bounds(o.start.date);
        lemma_day_number_bounds(today);
    }
    let d = o.start.date.day_number() - today.day_number();
    let day = if d == 0 {
        DayWord::Today
    } else if d == 1 {
        DayWord::Tomorrow
    } else if d == -1 {
        DayWord::Yesterday
    } else {
        DayWord::On(o.start.date)
    };
    let time = if o.all_day {
        None
    } else {
        Some(format_time(o.start.time, config))
    };
    let location = match &o.location {
        Some(l) => if !l.as_str().is_empty() {
            Some(l.clone())
        } else {
            None
        },
        None => None,
    };
    Description { day, time, location }
}

/// What the in-app search looks for: the query trimmed and lowercased.
pub fn query_needle(query: &str) -> (r: String)
    ensures
        r@ == lowercase(trim(query@)),
{
    let all = chars_of(query);
    let t = trimmed(all.as_slice());
    let text = string_of(t.as_slice());
    to_lowercase(text.as_str())
}

/// How many results the in-app search shows.
pub const APP_RESULTS: usize = 50;

/// The days the in-app search looks through: half a year back, a year ahead.
pub fn app_search_window(today: Date) -> (r: (Date, Date))
    requires
        today.valid(),
        min_day_number() + 180 <= day_number(today) <= max_day_number() - 365,
    ensures
        r.0 == date_after(today, -180),
        r.1 == date_after(today, 365),
{
    let from = today.add_days(-180);
    let to = today.add_days(365);
    proof {
        lemma_date_after(today, -180, from);
        lemma_date_after(today, 365, to);
    }
    (from, to)
}


proof fn lemma_nearest_pos(s: Seq<Occurrence>, x: Occurrence, today: Date)
    ensures
        0 <= nearest_pos(s, x, today) <= s.len(),
        forall|k: int| 0 <= k < nearest_pos(s, x, today) ==> distance(x, today) >= distance(#[trigger] s[k], today),
        nearest_pos(s, x, today) < s.len() ==> distance(x, today) < distance(s[nearest_pos(s, x, today)], today),
    decreases s.len(),
{
    if s.len() > 0 && distance(x, today) >= distance(s[0], today) {
        lemma_nearest_pos(s.drop_first(), x, today);
        assert forall|k: int| 0 <= k < nearest_pos(s, x, today) implies distance(x, today) >= distance(#[trigger] s[k], today) by {
            if k > 0 {
                assert(s[k] == s.drop_first()[k - 1]);
            }
        }
    }
}

/// Results come nearest to today first, and ordering them loses or adds
/// none.
pub proof fn lemma_nearest_first_sorted(s: Seq<Occurrence>, today: Date)
    ensures
        crate::store::in_order_by(
            nearest_first(s, today),
            |a: Occurrence, b: Occurrence| distance(a, today) < distance(b, today),
        ),
        nearest_first(s, today).to_multiset() == s.to_multiset(),
    decreases s.len(),
{
    let before = |a: Occurrence, b: Occurrence| distance(a, today) < distance(b, today);
    if s.len() == 0 {
        assert(nearest_first(s, today) =~= s);
    } else {
        let p = nearest_first(s.drop_last(), today);
        let x = s.last();
        lemma_nearest_first_sorted(s.drop_last(), today);
        lemma_nearest_pos(p, x, today);
        let pos = nearest_pos(p, x, today);
        crate::store::lemma_insert_in_order(p, x, pos, before);
        vstd::seq_lib::to_multiset_insert(p, pos, x);
        vstd::seq_lib::to_multiset_build(s.drop_last(), x);
        assert(s.drop_last().push(x) =~= s);
    }
}


/// What the launcher lists for a query: nothing when the query holds no
/// needle, else the search results for its needle.
pub fn search(query: &str, occs: &Vec<Occurrence>, today: Date) -> (r: Vec<Occurrence>)
    requires
        today.valid(),
        forall|k: int| 0 <= k < occs@.len() ==> (#[trigger] occs@[k]).start.date.valid(),
    ensures
        r@ == if needle_of(query@).len() == 0 {
            Seq::empty()
        } else {
            results_spec(occs@, needle_of(query@), today, MAX_RESULTS as nat)
        },
{
    let needle = search_needle(query);
    if needle.as_str().is_empty() {
        return Vec::new();
    }
    search_results(occs, needle.as_str(), today)
}

/// What the in-app search lists for a query: nothing when the query is
/// blank, else the occurrences matching it, at most `APP_RESULTS`.
pub fn app_search(query: &str, occs: &Vec<Occurrence>, today: Date) -> (r: Vec<Occurrence>)
    requires
        today.valid(),
        forall|k: int| 0 <= k < occs@.len() ==> (#[trigger] occs@[k]).start.date.valid(),
    ensures
        r@ == if lowercase(trim(query@)).len() == 0 {
            Seq::empty()
        } else {
            results_spec(occs@, lowercase(trim(query@)), today, APP_RESULTS as nat)
        },
{
    let needle = query_needle(query);
    if needle.as_str().is_empty() {
        return Vec::new();
    }
    find_occurrences(occs, needle.as_str(), today, APP_RESULTS)
}

} // verus!
