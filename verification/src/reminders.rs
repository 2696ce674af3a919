//! Which reminders are due: the decision, kept apart from delivering them so
//! that it depends on nothing but the clock it is handed.
//!
//! A reminder is one alarm on one occurrence. It fires once its trigger has
//! passed, at most five minutes late, and never twice.

use vstd::prelude::*;
use crate::date::{instant, lemma_day_number_bounds, max_day_number, min_day_number, DateTime};
use crate::event::Occurrence;
use crate::text::str_equal;

verus! {

/// How late, in seconds, a reminder may still fire: enough to survive a
/// suspend or a slow start without replaying the morning's alarms.
pub const GRACE_SECS: i64 = 300;

/// Identifies one alarm on one occurrence. The occurrence's own start is part
/// of it, so two instances of a series are two reminders.
#[derive(Clone, Debug, PartialEq, Eq)]
pub struct ReminderId {
    pub uid: String,
    pub calendar_id: String,
    pub start: DateTime,
    /// The alarm's offset from the start, in seconds.
    pub offset_secs: i64,
}

/// What identifies a reminder, as plain values.
pub open spec fn id_view(id: ReminderId) -> (Seq<char>, Seq<char>, DateTime, i64) {
    (id.uid@, id.calendar_id@, id.start, id.offset_secs)
}

/// A reminder ready to show.
#[derive(Clone, Debug)]
pub struct Reminder {
    pub id: ReminderId,
    pub summary: String,
    pub location: Option<String>,
    pub start: DateTime,
    pub all_day: bool,
    /// Seconds from the moment it fires until the event starts.
    pub lead_secs: i64,
}

/// Remembers which reminders have been shown.
pub struct Scheduler {
    fired: Vec<ReminderId>,
}

/// The longest span, in seconds, that a duration can hold.
pub const MAX_DURATION_SECS: i64 = 9_223_372_036_854_775;

/// The alarms that apply to an occurrence: its own, or else the default lead
/// before its start, if one is set.
pub open spec fn effective_alarms(own: Seq<i64>, default_lead: Option<i64>) -> Seq<i64> {
    if own.len() > 0 {
        own
    } else {
        match default_lead {
            Some(lead) => seq![(-lead) as i64],
            None => Seq::empty(),
        }
    }
}

/// Every (occurrence, alarm) pair to consider, occurrence by occurrence.
pub open spec fn candidates(alarms: Seq<Seq<i64>>, default_lead: Option<i64>, k: int) -> Seq<
    (int, i64),
>
    decreases k,
{
    if k <= 0 {
        Seq::empty()
    } else {
        candidates(alarms, default_lead, k - 1) + effective_alarms(alarms[k - 1], default_lead).map_values(
            |a: i64| (k - 1, a),
        )
    }
}

/// The identity of alarm `a` on occurrence `o`.
pub open spec fn reminder_id_of(o: Occurrence, a: i64) -> (Seq<char>, Seq<char>, DateTime, i64) {
    (o.uid@, o.calendar_id@, o.start, a)
}

/// Whether an alarm triggering at `trigger` may fire at `now`: its trigger has
/// passed, by no more than the grace.
pub open spec fn in_window(trigger: int, now: int) -> bool {
    trigger <= now && now - trigger <= GRACE_SECS
}

/// The fired set and the candidates that fire, after considering `cs` in
/// order: a candidate fires when it is in its window and not fired yet.
pub open spec fn fire_all(
    fired: Seq<(Seq<char>, Seq<char>, DateTime, i64)>,
    cs: Seq<(int, i64)>,
    occs: Seq<Occurrence>,
    now: int,
) -> (Seq<(Seq<char>, Seq<char>, DateTime, i64)>, Seq<(int, i64)>)
    decreases cs.len(),
{
    if cs.len() == 0 {
        (fired, Seq::empty())
    } else {
        let (f, out) = fire_all(fired, cs.drop_last(), occs, now);
        let c = cs.last();
        let o = occs[c.0];
        let id = reminder_id_of(o, c.1);
        if in_window(instant(o.start) + c.1, now) && !f.contains(id) {
            (f.push(id), out.push(c))
        } else {
            (f, out)
        }
    }
}

/// Whether `r` is the reminder for alarm `a` of `o`, fired at `now`.
pub open spec fn reminder_of(r: Reminder, o: Occurrence, a: i64, now: int) -> bool {
    &&& id_view(r.id) == reminder_id_of(o, a)
    &&& r.summary@ == o.summary@
    &&& match (r.location, o.location) {
        (Some(x), Some(y)) => x@ == y@,
        (None, None) => true,
        _ => false,
    }
    &&& r.start == o.start
    &&& r.all_day == o.all_day
    &&& r.lead_secs == instant(o.start) - now
}

/// The inputs `due` can work with: real date-times, alarm offsets a duration
/// can hold, and triggers on dates that exist.
pub open spec fn due_inputs_ok(
    occs: Seq<Occurrence>,
    alarms: Seq<Seq<i64>>,
    now: DateTime,
    default_lead: Option<i64>,
) -> bool {
    &&& now.valid()
    &&& alarms.len() == occs.len()
    &&& (default_lead matches Some(l) ==> -MAX_DURATION_SECS <= l <= MAX_DURATION_SECS)
    &&& forall|k: int| 0 <= k < occs.len() ==> (#[trigger] occs[k]).start.valid()
    &&& forall|k: int, j: int|
        0 <= k < occs.len() && 0 <= j < effective_alarms(alarms[k], default_lead).len() ==> {
            let a = #[trigger] effective_alarms(alarms[k], default_lead)[j];
            &&& -MAX_DURATION_SECS <= a <= MAX_DURATION_SECS
            &&& min_day_number() * 86400 <= instant(occs[k].start) + a < (max_day_number() + 1)
                * 86400
        }
}

impl Scheduler {
    /// The reminders shown so far.
    pub closed spec fn fired_ids(&self) -> Seq<(Seq<char>, Seq<char>, DateTime, i64)> {
        self.fired@.map_values(|id: ReminderId| id_view(id))
    }

    /// No reminder is remembered twice.
    pub closed spec fn wf(&self) -> bool {
        self.fired_ids().no_duplicates()
    }

    pub fn new() -> (s: Scheduler)
        ensures
            s.wf(),
            s.fired_ids() == Seq::<(Seq<char>, Seq<char>, DateTime, i64)>::empty(),
    {
        let s = Scheduler { fired: Vec::new() };
        assert(s.fired_ids() =~= Seq::<(Seq<char>, Seq<char>, DateTime, i64)>::empty());
        s
    }

    /// Whether a reminder with this identity has been shown.
    fn has_fired(&self, uid: &str, calendar_id: &str, start: DateTime, offset: i64) -> (r: bool)
        ensures
            r == self.fired_ids().contains((uid@, calendar_id@, start, offset)),
    {
        let ghost want = (uid@, calendar_id@, start, offset);
        let mut i: usize = 0;
        while i < self.fired.len()
            invariant
                i <= self.fired@.len(),
                want == (uid@, calendar_id@, start, offset),
                forall|j: int| 0 <= j < i ==> self.fired_ids()[j] != want,
            decreases self.fired.len() - i,
        {
            let id = &self.fired[i];
            assert(self.fired_ids()[i as int] == id_view(self.fired@[i as int]));
            if str_equal(id.uid.as_str(), uid) && str_equal(id.calendar_id.as_str(), calendar_id)
                && id.start == start && id.offset_secs == offset {
                assert(self.fired_ids()[i as int] == want);
                return true;
            }
            assert(self.fired_ids()[i as int] != want);
            i = i + 1;
        }
        false
    }

    /// The reminders whose trigger has passed, at most `GRACE_SECS` ago, and
    /// which have not been shown yet; they are remembered as shown. `alarms`
    /// holds each occurrence's own alarm offsets in seconds; an occurrence
    /// without any uses `default_lead` seconds before its start, if set.
    pub fn due(
        &mut self,
        occurrences: &[Occurrence],
        alarms: &[Vec<i64>],
        now: DateTime,
        default_lead: Option<i64>,
    ) -> (r: Vec<Reminder>)
        requires
            old(self).wf(),
            due_inputs_ok(
                occurrences@,
                alarms@.map_values(|v: Vec<i64>| v@),
                now,
                default_lead,
            ),
        ensures
            final(self).wf(),
            ({
                let cs = candidates(
                    alarms@.map_values(|v: Vec<i64>| v@),
                    default_lead,
                    occurrences@.len() as int,
                );
                let (f, out) = fire_all(old(self).fired_ids(), cs, occurrences@, instant(now));
                &&& final(self).fired_ids() == f
                &&& r@.len() == out.len()
                &&& forall|i: int|
                    0 <= i < r@.len() ==> reminder_of(
                        #[trigger] r@[i],
                        occurrences@[out[i].0],
                        out[i].1,
                        instant(now),
                    )
            }),
    {
        let ghost al = alarms@.map_values(|v: Vec<i64>| v@);
        let ghost start_ids = self.fired_ids();
        let ghost nowi = instant(now);
        proof {
            lemma_day_number_bounds(now.date);
        }
        let now_secs = now.instant();
        let mut out: Vec<Reminder> = Vec::new();
        let mut k: usize = 0;
        while k < occurrences.len()
            invariant
                k <= occurrences@.len(),
                al == alarms@.map_values(|v: Vec<i64>| v@),
                due_inputs_ok(occurrences@, al, now, default_lead),
                now_secs == nowi,
                nowi == instant(now),
                self.wf(),
                ({
                    let (f, fo) = fire_all(start_ids, candidates(al, default_lead, k as int), occurrences@, nowi);
                    &&& self.fired_ids() == f
                    &&& out@.len() == fo.len()
                    &&& forall|i: int|
                        0 <= i < out@.len() ==> reminder_of(
                            #[trigger] out@[i],
                            occurrences@[fo[i].0],
                            fo[i].1,
                            nowi,
                        )
                }),
            decreases occurrences.len() - k,
        {
            let o = &occurrences[k];
            assert(alarms@[k as int]@ == al[k as int]);
            let own = &alarms[k];
            let mut list: Vec<i64> = Vec::new();
            if own.len() > 0 {
                let mut t: usize = 0;
                while t < own.len()
                    invariant
                        t <= own@.len(),
                        list@ == own@.take(t as int),
                    decreases own.len() - t,
                {
                    list.push(own[t]);
                    assert(own@.take(t + 1) =~= own@.take(t as int).push(own@[t as int]));
                    t = t + 1;
                }
                assert(own@.take(own@.len() as int) =~= own@);
            } else {
                match default_lead {
                    Some(lead) => {
                        list.push(-lead);
                    },
                    None => {},
                }
            }
            assert(list@ =~= effective_alarms(al[k as int], default_lead));
            let ghost eff = list@;
            let ghost base = candidates(al, default_lead, k as int);
            proof {
                lemma_day_number_bounds(o.start.date);
            }
            let start_secs = o.start.instant();
            let mut j: usize = 0;
            assert(eff.map_values(|a: i64| (k as int, a)).take(0) =~= Seq::<(int, i64)>::empty());
            assert(base + Seq::<(int, i64)>::empty() =~= base);
            while j < list.len()
                invariant
                    k < occurrences@.len(),
                    j <= list@.len(),
                    list@ == eff,
                    eff == effective_alarms(al[k as int], default_lead),
                    base == candidates(al, default_lead, k as int),
                    al == alarms@.map_values(|v: Vec<i64>| v@),
                    due_inputs_ok(occurrences@, al, now, default_lead),
                    *o == occurrences@[k as int],
                    start_secs == instant(o.start),
                    now_secs == nowi,
                    nowi == instant(now),
                    self.wf(),
                    ({
                        let (f, fo) = fire_all(
                            start_ids,
                            base + eff.map_values(|a: i64| (k as int, a)).take(j as int),
                            occurrences@,
                            nowi,
                        );
                        &&& self.fired_ids() == f
                        &&& out@.len() == fo.len()
                        &&& forall|i: int|
                            0 <= i < out@.len() ==> reminder_of(
                                #[trigger] out@[i],
                                occurrences@[fo[i].0],
                                fo[i].1,
                                nowi,
                            )
                    }),
                decreases list.len() - j,
            {
                let a = list[j];
                let ghost prefix = base + eff.map_values(|a: i64| (k as int, a)).take(j as int);
                let ghost next = base + eff.map_values(|a: i64| (k as int, a)).take(j + 1);
                assert(next =~= prefix.push((k as int, a)));
                assert(next.drop_last() =~= prefix);
                let ghost before_ids = self.fired_ids();
                let ghost before_out = out@;
                assert(-MAX_DURATION_SECS <= a <= MAX_DURATION_SECS && min_day_number() * 86400
                    <= start_secs + a < (max_day_number() + 1) * 86400) by {
                    assert(eff[j as int] == a);
                }
                assert(-200_000_000 <= min_day_number() && max_day_number() <= 200_000_000);
                let trigger = start_secs + a;
                if !(trigger > now_secs || now_secs - trigger > GRACE_SECS) {
                    if !self.has_fired(o.uid.as_str(), o.calendar_id.as_str(), o.start, a) {
                        let id = ReminderId {
                            uid: o.uid.clone(),
                            calendar_id: o.calendar_id.clone(),
                            start: o.start,
                            offset_secs: a,
                        };
                        let loc = match &o.location {
                            Some(l) => Some(l.clone()),
                            None => None,
                        };
                        let rem = Reminder {
                            id: copy_id(&id),
                            summary: o.summary.clone(),
                            location: loc,
                            start: o.start,
                            all_day: o.all_day,
                            lead_secs: start_secs - now_secs,
                        };
                        self.fired.push(id);
                        out.push(rem);
                        proof {
                            assert(self.fired_ids() =~= before_ids.push(
                                reminder_id_of(*o, a),
                            ));
                            assert(self.fired_ids().no_duplicates());
                        }
                    }
                }
                j = j + 1;
            }
            assert(eff.map_values(|a: i64| (k as int, a)).take(list@.len() as int) =~= eff.map_values(
                |a: i64| (k as int, a),
            ));
            k = k + 1;
        }
        out
    }

    /// Forgets reminders of occurrences that started before `cutoff`, so
    /// the memory does not grow for the life of the process.
    pub fn forget_before(&mut self, cutoff: DateTime)
        requires
            old(self).wf(),
            cutoff.valid(),
            forall|i: int| 0 <= i < old(self).fired_ids().len() ==> (#[trigger] old(self).fired_ids()[i]).2.valid(),
        ensures
            final(self).wf(),
            final(self).fired_ids() == old(self).fired_ids().filter(
                |id: (Seq<char>, Seq<char>, DateTime, i64)| instant(id.2) >= instant(cutoff),
            ),
    {
        let ghost keep = |id: (Seq<char>, Seq<char>, DateTime, i64)| instant(id.2) >= instant(cutoff);
        let ghost all = self.fired_ids();
        proof {
            lemma_day_number_bounds(cutoff.date);
        }
        let cut = cutoff.instant();
        let mut kept: Vec<ReminderId> = Vec::new();
        let mut i: usize = 0;
        let mut old_fired: Vec<ReminderId> = Vec::new();
        std::mem::swap(&mut old_fired, &mut self.fired);
        assert(old_fired@.map_values(|id: ReminderId| id_view(id)) == all);
        assert(all.take(0).filter(keep) =~= Seq::<(Seq<char>, Seq<char>, DateTime, i64)>::empty()) by {
            reveal_with_fuel(Seq::filter, 1);
        }
        while i < old_fired.len()
            invariant
                i <= old_fired@.len(),
                old_fired@.map_values(|id: ReminderId| id_view(id)) == all,
                all.no_duplicates(),
                cut == instant(cutoff),
                keep == (|id: (Seq<char>, Seq<char>, DateTime, i64)| instant(id.2) >= instant(cutoff)),
                forall|t: int| 0 <= t < all.len() ==> (#[trigger] all[t]).2.valid(),
                kept@.map_values(|id: ReminderId| id_view(id)) == all.take(i as int).filter(keep),
            decreases old_fired.len() - i,
        {
            let id = &old_fired[i];
            assert(all[i as int] == id_view(*id));
            assert(all.take(i + 1).drop_last() =~= all.take(i as int));
            assert(all.take(i + 1).last() == all[i as int]);
            proof {
                lemma_day_number_bounds(id.start.date);
            }
            let ghost before = kept@;
            let ghost prev = all.take(i as int).filter(keep);
            assert(all.take(i + 1).filter(keep) == (if keep(all[i as int]) {
                prev.push(all[i as int])
            } else {
                prev
            })) by {
                reveal_with_fuel(Seq::filter, 1);
            }
            if id.start.instant() >= cut {
                kept.push(copy_id(id));
                assert(kept@.map_values(|id: ReminderId| id_view(id)) =~= before.map_values(
                    |id: ReminderId| id_view(id),
                ).push(all[i as int]));
            }
            i = i + 1;
        }
        assert(all.take(all.len() as int) =~= all);
        proof {
            lemma_filter_no_duplicates(all, keep);
        }
        self.fired = kept;
    }

    /// How many shown reminders are remembered.
    pub fn remembered(&self) -> (r: usize)
        ensures
            r == self.fired_ids().len(),
    {
        self.fired.len()
    }
}

/// A copy of a reminder's identity.
fn copy_id(id: &ReminderId) -> (r: ReminderId)
    ensures
        id_view(r) == id_view(*id),
{
    ReminderId {
        uid: id.uid.clone(),
        calendar_id: id.calendar_id.clone(),
        start: id.start,
        offset_secs: id.offset_secs,
    }
}

proof fn lemma_filter_no_duplicates<A>(s: Seq<A>, p: spec_fn(A) -> bool)
    requires
        s.no_duplicates(),
    ensures
        s.filter(p).no_duplicates(),
    decreases s.len(),
{
    reveal_with_fuel(Seq::filter, 1);
    if s.len() > 0 {
        let t = s.drop_last();
        assert forall|i: int, j: int| 0 <= i < t.len() && 0 <= j < t.len() && i != j implies t[i]
            != t[j] by {
            assert(t[i] == s[i] && t[j] == s[j]);
        }
        lemma_filter_no_duplicates(t, p);
        if p(s.last()) {
            let f = t.filter(p);
            if f.contains(s.last()) {
                t.lemma_filter_contains_rev(p, s.last());
                let k = choose|k: int| 0 <= k < t.len() && t[k] == s.last();
                assert(s[k] == s[s.len() - 1]);
            }
            let g = f.push(s.last());
            assert forall|i: int, j: int| 0 <= i < g.len() && 0 <= j < g.len() && i != j implies g[i]
                != g[j] by {
                if i < f.len() && j < f.len() {
                } else if i < f.len() {
                    assert(f.contains(f[i]));
                } else if j < f.len() {
                    assert(f.contains(f[j]));
                }
            }
        }
    }
}

impl Default for Scheduler {
    fn default() -> (s: Self)
        ensures
            s.wf(),
            s.fired_ids() == Seq::<(Seq<char>, Seq<char>, DateTime, i64)>::empty(),
    {
        Scheduler::new()
    }
}

/// The identities of the reminders fired for candidates `out`.
pub open spec fn ids_of(out: Seq<(int, i64)>, occs: Seq<Occurrence>) -> Seq<
    (Seq<char>, Seq<char>, DateTime, i64),
> {
    out.map_values(|c: (int, i64)| reminder_id_of(occs[c.0], c.1))
}

/// What firing does: the fired set grows by exactly the reminders that
/// fire, none of which had fired before, each within its window.
pub proof fn lemma_fire_all(
    fired: Seq<(Seq<char>, Seq<char>, DateTime, i64)>,
    cs: Seq<(int, i64)>,
    occs: Seq<Occurrence>,
    now: int,
)
    ensures
        fire_all(fired, cs, occs, now).0 == fired + ids_of(fire_all(fired, cs, occs, now).1, occs),
        forall|i: int|
            0 <= i < fire_all(fired, cs, occs, now).1.len() ==> {
                let c = #[trigger] fire_all(fired, cs, occs, now).1[i];
                &&& !fired.contains(reminder_id_of(occs[c.0], c.1))
                &&& in_window(instant(occs[c.0].start) + c.1, now)
            },
        fired.no_duplicates() ==> fire_all(fired, cs, occs, now).0.no_duplicates(),
    decreases cs.len(),
{
    if cs.len() > 0 {
        lemma_fire_all(fired, cs.drop_last(), occs, now);
        let (f, out) = fire_all(fired, cs.drop_last(), occs, now);
        let c = cs.last();
        let id = reminder_id_of(occs[c.0], c.1);
        if in_window(instant(occs[c.0].start) + c.1, now) && !f.contains(id) {
            assert(ids_of(out.push(c), occs) =~= ids_of(out, occs).push(id));
            assert(f.push(id) =~= fired + ids_of(out.push(c), occs));
            assert(!fired.contains(id)) by {
                if fired.contains(id) {
                    let k = choose|k: int| 0 <= k < fired.len() && fired[k] == id;
                    assert(f[k] == id);
                }
            }
            if fired.no_duplicates() {
                assert forall|a: int, b: int|
                    0 <= a < f.len() + 1 && 0 <= b < f.len() + 1 && a != b implies f.push(id)[a]
                    != f.push(id)[b] by {
                    if a == f.len() {
                        assert(f.contains(f[b]));
                    } else if b == f.len() {
                        assert(f.contains(f[a]));
                    }
                }
            }
        }
    }
}

/// A reminder never fires twice: nothing a later round fires was fired by an
/// earlier one.
pub proof fn lemma_never_twice(
    fired: Seq<(Seq<char>, Seq<char>, DateTime, i64)>,
    first: Seq<(int, i64)>,
    first_occs: Seq<Occurrence>,
    first_now: int,
    second: Seq<(int, i64)>,
    second_occs: Seq<Occurrence>,
    second_now: int,
)
    ensures
        ({
            let (f1, out1) = fire_all(fired, first, first_occs, first_now);
            let (f2, out2) = fire_all(f1, second, second_occs, second_now);
            forall|i: int, j: int|
                0 <= i < out1.len() && 0 <= j < out2.len() ==> #[trigger] ids_of(out1, first_occs)[i]
                    != #[trigger] ids_of(out2, second_occs)[j]
        }),
{
    let (f1, out1) = fire_all(fired, first, first_occs, first_now);
    lemma_fire_all(fired, first, first_occs, first_now);
    lemma_fire_all(f1, second, second_occs, second_now);
    let (f2, out2) = fire_all(f1, second, second_occs, second_now);
    assert forall|i: int, j: int|
        0 <= i < out1.len() && 0 <= j < out2.len() implies #[trigger] ids_of(out1, first_occs)[i]
            != #[trigger] ids_of(out2, second_occs)[j] by {
        let c = out2[j];
        assert(!f1.contains(reminder_id_of(second_occs[c.0], c.1)));
        assert(f1[fired.len() + i] == ids_of(out1, first_occs)[i]);
    }
}

} // verus!
