//! What the panel applet shows at a glance: the occurrences still ahead in
//! the coming week, the tooltip over its icon, and the heading of each day.

use vstd::prelude::*;
use crate::calendar::{format_time, time_text};
use crate::config::Config;
use crate::date::{day_number, instant, lemma_day_number_bounds, Date, DateTime};
use crate::event::{copy_occurrence, Occurrence};
use crate::text::{chars_of, push_all, push_str, string_of};

verus! {

/// How many days ahead the applet looks.
pub const HORIZON_DAYS: i64 = 7;

/// How many rows the applet lists at most.
pub const MAX_LISTED: usize = 12;

/// Whether an occurrence is still worth listing at `now`: an all-day one is
/// for the whole day, a timed one until it has ended.
pub open spec fn still_ahead(o: Occurrence, now: DateTime) -> bool {
    o.all_day || instant(o.end) > instant(now)
}

/// The occurrences of `s` still ahead at `now`, in their order.
pub open spec fn ahead(s: Seq<Occurrence>, now: DateTime) -> Seq<Occurrence>
    decreases s.len(),
{
    if s.len() == 0 {
        Seq::empty()
    } else {
        let p = ahead(s.drop_last(), now);
        if still_ahead(s.last(), now) {
            p.push(s.last())
        } else {
            p
        }
    }
}

/// At most the first `MAX_LISTED` of `s`.
pub open spec fn capped(s: Seq<Occurrence>) -> Seq<Occurrence> {
    if s.len() > MAX_LISTED {
        s.take(MAX_LISTED as int)
    } else {
        s
    }
}

/// What the applet lists from the week's occurrences, already in listing
/// order: those not yet over, at most `MAX_LISTED` of them.
pub fn upcoming(occurrences: &Vec<Occurrence>, now: DateTime) -> (r: Vec<Occurrence>)
    requires
        now.valid(),
        forall|k: int| 0 <= k < occurrences@.len() ==> (#[trigger] occurrences@[k]).end.valid(),
    ensures
        r@ == capped(ahead(occurrences@, now)),
{
    let mut out: Vec<Occurrence> = Vec::new();
    let ghost s = occurrences@;
    proof {
        lemma_day_number_bounds(now.date);
    }
    let at = now.instant();
    let mut i: usize = 0;
    assert(s.take(0) =~= Seq::<Occurrence>::empty());
    while i < occurrences.len()
        invariant
            s == occurrences@,
            i <= s.len(),
            at == instant(now),
            forall|k: int| 0 <= k < s.len() ==> (#[trigger] s[k]).end.valid(),
            out@ == capped(ahead(s.take(i as int), now)),
        decreases occurrences.len() - i,
    {
        let o = &occurrences[i];
        assert(s.take(i + 1).drop_last() =~= s.take(i as int));
        assert(s.take(i + 1).last() == s[i as int]);
        let ghost p = ahead(s.take(i as int), now);
        proof {
            lemma_day_number_bounds(o.end.date);
        }
        let keep = o.all_day || o.end.instant() > at;
        if keep {
            if out.len() < MAX_LISTED {
                out.push(copy_occurrence(o));
                assert(p.len() <= MAX_LISTED);
                assert(p.push(s[i as int]).len() <= MAX_LISTED || p.push(s[i as int]).take(
                    MAX_LISTED as int,
                ) =~= out@);
            } else {
                assert(p.push(s[i as int]).take(MAX_LISTED as int) =~= p.take(MAX_LISTED as int));
            }
        }
        i = i + 1;
    }
    assert(s.take(s.len() as int) =~= s);
    out
}

/// The tooltip over the applet's icon, from what it lists: the next
/// occurrence's title, after its start time unless it is all-day. `None`
/// when nothing is coming up, which the interface words in its language.
pub fn tooltip(upcoming: &Vec<Occurrence>, config: &Config) -> (r: Option<String>)
    requires
        upcoming@.len() > 0 ==> upcoming@[0].start.time.valid(),
    ensures
        match r {
            None => upcoming@.len() == 0,
            Some(t) => upcoming@.len() > 0 && t@ == tooltip_text(upcoming@[0], config.time_24h),
        },
{
    if upcoming.len() == 0 {
        return None;
    }
    let next = &upcoming[0];
    if next.all_day {
        return Some(next.summary.clone());
    }
    let time = format_time(next.start.time, config);
    let mut out = chars_of(time.as_str());
    push_str(&mut out, " · ");
    let title = chars_of(next.summary.as_str());
    push_all(&mut out, title.as_slice());
    proof {
        reveal_strlit(" · ");
    }
    Some(string_of(out.as_slice()))
}

/// The tooltip's text for the next occurrence.
pub open spec fn tooltip_text(next: Occurrence, h24: bool) -> Seq<char> {
    if next.all_day {
        next.summary@
    } else {
        time_text(next.start.time, h24) + " · "@ + next.summary@
    }
}

/// How a day's group is headed in the applet: in words for today and
/// tomorrow, otherwise by the date itself, which the interface formats.
#[derive(Clone, Copy, Debug, PartialEq, Eq, Structural)]
pub enum DayHeading {
    Today,
    Tomorrow,
    On(Date),
}

/// The heading for `date`, seen from `today`.
pub open spec fn heading_of(date: Date, today: Date) -> DayHeading {
    let d = day_number(date) - day_number(today);
    if d == 0 {
        DayHeading::Today
    } else if d == 1 {
        DayHeading::Tomorrow
    } else {
        DayHeading::On(date)
    }
}

/// The heading for the group of `date`, seen from `today`.
pub fn day_heading(date: Date, today: Date) -> (r: DayHeading)
    requires
        date.valid(),
        today.valid(),
    ensures
        r == heading_of(date, today),
{
    proof {
        lemma_day_number_bounds(date);
        lemma_day_number_bounds(today);
    }
    let d = date.day_number() - today.day_number();
    if d == 0 {
        DayHeading::Today
    } else if d == 1 {
        DayHeading::Tomorrow
    } else {
        DayHeading::On(date)
    }
}


/// Nothing the applet lists has ended: each occurrence in the list is
/// all-day or ends after `now`.
pub proof fn lemma_upcoming_not_over(s: Seq<Occurrence>, now: DateTime)
    ensures
        forall|i: int| 0 <= i < capped(ahead(s, now)).len() ==> still_ahead(#[trigger] capped(ahead(s, now))[i], now),
{
    lemma_ahead_all(s, now);
    let a = ahead(s, now);
    assert forall|i: int| 0 <= i < capped(a).len() implies still_ahead(#[trigger] capped(a)[i], now) by {
        assert(capped(a)[i] == a[i]);
    }
}

proof fn lemma_ahead_all(s: Seq<Occurrence>, now: DateTime)
    ensures
        forall|i: int| 0 <= i < ahead(s, now).len() ==> still_ahead(#[trigger] ahead(s, now)[i], now),
    decreases s.len(),
{
    if s.len() > 0 {
        lemma_ahead_all(s.drop_last(), now);
        let p = ahead(s.drop_last(), now);
        if still_ahead(s.last(), now) {
            assert forall|i: int| 0 <= i < ahead(s, now).len() implies still_ahead(#[trigger] ahead(s, now)[i], now) by {
                if i < p.len() {
                    assert(ahead(s, now)[i] == p[i]);
                }
            }
        }
    }
}

} // verus!
