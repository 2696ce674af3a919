//! Persisted settings: which view shows, which calendars are hidden, and the
//! per-calendar overrides of the app-wide reminder and duration defaults.

use vstd::prelude::*;
use crate::date::{weekday_from_number, weekday_of_number, Weekday};
use crate::ics::known_zone;
use crate::text::{chars_of, first_index, lemma_first_index, lemma_first_index_at, owned, str_equal, string_of, trim, trimmed};

verus! {

/// Which grid the main area shows.
#[derive(Clone, Copy, Debug, Default, PartialEq, Eq, Structural)]
pub enum ViewKind {
    #[default]
    Month,
    Week,
    Day,
    /// A flat list of the next month of events.
    Agenda,
    /// Twelve mini months, each day tinted by how busy it is.
    Year,
    /// The task list; not a date range.
    Tasks,
}

/// Days the agenda view lists from its anchor.
pub const AGENDA_DAYS: i64 = 30;

impl ViewKind {
    /// Whether this view is anchored to a date range the user can page through.
    pub fn is_dated(self) -> (r: bool)
        ensures
            r == (self != ViewKind::Tasks),
    {
        !matches!(self, ViewKind::Tasks)
    }

    /// How many days this view steps by when paging; 0 for the views that
    /// page by calendar months or not at all.
    pub fn page_days(self) -> (r: i64)
        ensures
            r == page_days_of(self),
    {
        match self {
            ViewKind::Month => 0,
            ViewKind::Week => 7,
            ViewKind::Day => 1,
            ViewKind::Agenda => AGENDA_DAYS,
            ViewKind::Year => 0,
            ViewKind::Tasks => 0,
        }
    }
}

pub open spec fn page_days_of(v: ViewKind) -> i64 {
    match v {
        ViewKind::Week => 7,
        ViewKind::Day => 1,
        ViewKind::Agenda => AGENDA_DAYS,
        _ => 0,
    }
}

/// Per-calendar overrides of the two app-wide defaults.
#[derive(Debug)]
pub struct CalendarDefaults {
    pub calendar_id: String,
    /// Minutes before the event to remind; 0 means "use the app-wide setting".
    pub reminder_minutes: u32,
    /// How long a new event in this calendar lasts, in minutes; 0 means an hour.
    pub duration_minutes: u32,
}

/// One override as plain values: calendar, reminder minutes, duration minutes.
pub type DefaultsView = (Seq<char>, u32, u32);

pub open spec fn defaults_view(d: CalendarDefaults) -> DefaultsView {
    (d.calendar_id@, d.reminder_minutes, d.duration_minutes)
}

/// The text of each string.
pub open spec fn ids_of(v: Seq<String>) -> Seq<Seq<char>> {
    v.map_values(|s: String| s@)
}

/// The calendar of each override.
pub open spec fn default_ids(ds: Seq<DefaultsView>) -> Seq<Seq<char>> {
    ds.map_values(|d: DefaultsView| d.0)
}

/// Hidden calendars after toggling `c`: its first entry removed, or `c`
/// appended when it was not hidden.
pub open spec fn toggled(ids: Seq<Seq<char>>, c: Seq<char>) -> Seq<Seq<char>> {
    if ids.contains(c) {
        ids.remove(first_index(ids, c))
    } else {
        ids.push(c)
    }
}

/// The first override for calendar `id`, if any.
pub open spec fn lookup_defaults(ds: Seq<DefaultsView>, id: Seq<char>) -> Option<DefaultsView> {
    let i = first_index(default_ids(ds), id);
    if i < ds.len() {
        Some(ds[i])
    } else {
        None
    }
}

/// Whether an override belongs to a calendar other than `id`.
pub open spec fn other_calendar(id: Seq<char>) -> spec_fn(DefaultsView) -> bool {
    |d: DefaultsView| d.0 != id
}

/// Overrides after setting calendar `id` to `(reminder, duration)`: every
/// entry for `id` dropped, and a fresh one appended unless both are 0.
pub open spec fn with_defaults(
    ds: Seq<DefaultsView>,
    id: Seq<char>,
    reminder: u32,
    duration: u32,
) -> Seq<DefaultsView> {
    let kept = ds.filter(other_calendar(id));
    if reminder > 0 || duration > 0 {
        kept.push((id, reminder, duration))
    } else {
        kept
    }
}

/// Persisted settings.
#[derive(Debug)]
pub struct Config {
    /// The view restored at startup.
    pub view: ViewKind,
    /// 0 = Monday … 6 = Sunday.
    pub first_day_of_week: u8,
    /// Calendars the user has unticked in the sidebar.
    pub hidden_calendars: Vec<String>,
    pub show_week_numbers: bool,
    /// 24-hour clock rather than am/pm.
    pub time_24h: bool,
    /// Minutes before an event to remind, for events with no alarm of their
    /// own; 0 means none.
    pub default_reminder_minutes: u32,
    /// A second hour gutter's zone name; empty means off.
    pub secondary_timezone: String,
    /// Grid drags round to this many minutes: 5, 10, or 15.
    pub snap_minutes: u8,
    /// Birthdays from the address books, shown as all-day entries.
    pub show_birthdays: bool,
    /// Per-calendar overrides.
    pub calendar_defaults: Vec<CalendarDefaults>,
}

impl Config {
    pub open spec fn hidden(self) -> Seq<Seq<char>> {
        ids_of(self.hidden_calendars@)
    }

    pub open spec fn defaults(self) -> Seq<DefaultsView> {
        self.calendar_defaults@.map_values(|d: CalendarDefaults| defaults_view(d))
    }

    /// The first day of the week the user chose.
    pub open spec fn first_weekday_spec(self) -> Weekday {
        if 1 <= self.first_day_of_week <= 6 {
            weekday_of_number(self.first_day_of_week as int)
        } else {
            Weekday::Mon
        }
    }

    /// The drag snap step.
    pub open spec fn snap_spec(self) -> i64 {
        if self.snap_minutes == 5 || self.snap_minutes == 10 {
            self.snap_minutes as i64
        } else {
            15
        }
    }

    /// The app-wide reminder lead in minutes, when one is set.
    pub open spec fn default_reminder_spec(self) -> Option<i64> {
        if self.default_reminder_minutes > 0 {
            Some(self.default_reminder_minutes as i64)
        } else {
            None
        }
    }

    /// The reminder lead in minutes for events in calendar `id`.
    pub open spec fn reminder_for_spec(self, id: Seq<char>) -> Option<i64> {
        match lookup_defaults(self.defaults(), id) {
            Some(d) if d.1 > 0 => Some(d.1 as i64),
            _ => self.default_reminder_spec(),
        }
    }

    /// How long a new event in calendar `id` lasts, in minutes.
    pub open spec fn duration_for_spec(self, id: Seq<char>) -> i64 {
        match lookup_defaults(self.defaults(), id) {
            Some(d) if d.2 > 0 => d.2 as i64,
            _ => 60,
        }
    }

    /// The settings as shipped: month view, Monday first, 24-hour clock,
    /// 15-minute snapping, birthdays on, nothing hidden, no reminders.
    pub open spec fn is_default(self) -> bool {
        &&& self.view == ViewKind::Month
        &&& self.first_day_of_week == 0
        &&& self.hidden_calendars@.len() == 0
        &&& !self.show_week_numbers
        &&& self.time_24h
        &&& self.default_reminder_minutes == 0
        &&& self.secondary_timezone@.len() == 0
        &&& self.snap_minutes == 15
        &&& self.show_birthdays
        &&& self.calendar_defaults@.len() == 0
    }

    /// Everything but the hidden list is the same in `self` and `other`.
    pub open spec fn same_but_hidden(self, other: Config) -> bool {
        &&& self.view == other.view
        &&& self.first_day_of_week == other.first_day_of_week
        &&& self.show_week_numbers == other.show_week_numbers
        &&& self.time_24h == other.time_24h
        &&& self.default_reminder_minutes == other.default_reminder_minutes
        &&& self.secondary_timezone == other.secondary_timezone
        &&& self.snap_minutes == other.snap_minutes
        &&& self.show_birthdays == other.show_birthdays
        &&& self.calendar_defaults == other.calendar_defaults
    }

    /// Everything but the overrides is the same in `self` and `other`.
    pub open spec fn same_but_defaults(self, other: Config) -> bool {
        &&& self.view == other.view
        &&& self.first_day_of_week == other.first_day_of_week
        &&& self.hidden_calendars == other.hidden_calendars
        &&& self.show_week_numbers == other.show_week_numbers
        &&& self.time_24h == other.time_24h
        &&& self.default_reminder_minutes == other.default_reminder_minutes
        &&& self.secondary_timezone == other.secondary_timezone
        &&& self.snap_minutes == other.snap_minutes
        &&& self.show_birthdays == other.show_birthdays
    }
}

impl Default for Config {
    fn default() -> (c: Self)
        ensures
            c.is_default(),
    {
        Config {
            view: ViewKind::Month,
            first_day_of_week: 0,
            hidden_calendars: Vec::new(),
            show_week_numbers: false,
            time_24h: true,
            default_reminder_minutes: 0,
            secondary_timezone: String::new(),
            snap_minutes: 15,
            show_birthdays: true,
            calendar_defaults: Vec::new(),
        }
    }
}

impl Config {
    /// The first day of the week; out-of-range settings mean Monday.
    pub fn first_weekday(&self) -> (r: Weekday)
        ensures
            r == self.first_weekday_spec(),
    {
        if 1 <= self.first_day_of_week && self.first_day_of_week <= 6 {
            weekday_from_number(self.first_day_of_week)
        } else {
            Weekday::Mon
        }
    }

    /// The zone of the second hour column, when one is set and names a zone
    /// that exists: the setting trimmed.
    pub fn secondary_tz(&self) -> (r: Option<String>)
        ensures
            r matches Some(z) ==> z@ == trim(self.secondary_timezone@) && known_zone(z@),
            r is None <==> (trim(self.secondary_timezone@).len() == 0 || !known_zone(
                trim(self.secondary_timezone@),
            )),
    {
        let all = chars_of(self.secondary_timezone.as_str());
        let t = trimmed(all.as_slice());
        if t.len() == 0 {
            return None;
        }
        let name = string_of(t.as_slice());
        if crate::ics::zone_is_known(name.as_str()) {
            Some(name)
        } else {
            None
        }
    }

    /// The drag snap step, guarded against a hand-edited config.
    pub fn snap(&self) -> (r: i64)
        ensures
            r == self.snap_spec(),
    {
        match self.snap_minutes {
            5 | 10 => self.snap_minutes as i64,
            _ => 15,
        }
    }

    /// The position of `calendar_id` among the hidden calendars.
    fn hidden_position(&self, calendar_id: &str) -> (r: usize)
        ensures
            r == first_index(self.hidden(), calendar_id@),
    {
        let mut i: usize = 0;
        while i < self.hidden_calendars.len()
            invariant
                i <= self.hidden_calendars@.len(),
                forall|j: int| 0 <= j < i ==> self.hidden()[j] != calendar_id@,
            decreases self.hidden_calendars.len() - i,
        {
            if str_equal(self.hidden_calendars[i].as_str(), calendar_id) {
                proof {
                    lemma_first_index_at(self.hidden(), calendar_id@, i as int);
                }
                return i;
            }
            i = i + 1;
        }
        proof {
            lemma_first_index_at(self.hidden(), calendar_id@, i as int);
        }
        i
    }

    pub fn is_hidden(&self, calendar_id: &str) -> (r: bool)
        ensures
            r == self.hidden().contains(calendar_id@),
    {
        proof {
            lemma_first_index(self.hidden(), calendar_id@);
        }
        self.hidden_position(calendar_id) < self.hidden_calendars.len()
    }

    /// Hides a shown calendar, or shows a hidden one.
    pub fn toggle_calendar(&mut self, calendar_id: &str)
        ensures
            final(self).hidden() == toggled(old(self).hidden(), calendar_id@),
            final(self).same_but_hidden(*old(self)),
    {
        proof {
            lemma_first_index(self.hidden(), calendar_id@);
        }
        let pos = self.hidden_position(calendar_id);
        if pos < self.hidden_calendars.len() {
            self.hidden_calendars.remove(pos);
            assert(self.hidden() =~= old(self).hidden().remove(pos as int));
        } else {
            self.hidden_calendars.push(owned(calendar_id));
            assert(self.hidden() =~= old(self).hidden().push(calendar_id@));
        }
    }

    /// The app-wide reminder lead in minutes, or `None` when disabled.
    pub fn default_reminder(&self) -> (r: Option<i64>)
        ensures
            r == self.default_reminder_spec(),
    {
        if self.default_reminder_minutes > 0 {
            Some(self.default_reminder_minutes as i64)
        } else {
            None
        }
    }

    fn defaults_position(&self, calendar_id: &str) -> (r: usize)
        ensures
            r == first_index(default_ids(self.defaults()), calendar_id@),
    {
        let ghost ids = default_ids(self.defaults());
        let mut i: usize = 0;
        while i < self.calendar_defaults.len()
            invariant
                i <= self.calendar_defaults@.len(),
                ids == default_ids(self.defaults()),
                forall|j: int| 0 <= j < i ==> ids[j] != calendar_id@,
            decreases self.calendar_defaults.len() - i,
        {
            if str_equal(self.calendar_defaults[i].calendar_id.as_str(), calendar_id) {
                proof {
                    lemma_first_index_at(ids, calendar_id@, i as int);
                }
                return i;
            }
            i = i + 1;
        }
        proof {
            lemma_first_index_at(ids, calendar_id@, i as int);
        }
        i
    }

    /// The overrides for `calendar_id`, if it has any.
    pub fn defaults_for(&self, calendar_id: &str) -> (r: Option<&CalendarDefaults>)
        ensures
            match r {
                Some(d) => lookup_defaults(self.defaults(), calendar_id@) == Some(defaults_view(*d)),
                None => lookup_defaults(self.defaults(), calendar_id@) is None,
            },
    {
        let i = self.defaults_position(calendar_id);
        if i < self.calendar_defaults.len() {
            Some(&self.calendar_defaults[i])
        } else {
            None
        }
    }

    /// The reminder lead in minutes for events in `calendar_id`: the
    /// calendar's own if it sets one, otherwise the app-wide default.
    pub fn reminder_for(&self, calendar_id: &str) -> (r: Option<i64>)
        ensures
            r == self.reminder_for_spec(calendar_id@),
    {
        match self.defaults_for(calendar_id) {
            Some(d) => {
                if d.reminder_minutes > 0 {
                    Some(d.reminder_minutes as i64)
                } else {
                    self.default_reminder()
                }
            },
            None => self.default_reminder(),
        }
    }

    /// How long a new event in `calendar_id` lasts, in minutes: an hour
    /// unless the calendar says otherwise.
    pub fn duration_for(&self, calendar_id: &str) -> (r: i64)
        ensures
            r == self.duration_for_spec(calendar_id@),
    {
        match self.defaults_for(calendar_id) {
            Some(d) => {
                if d.duration_minutes > 0 {
                    d.duration_minutes as i64
                } else {
                    60
                }
            },
            None => 60,
        }
    }

    /// Replaces one calendar's overrides, dropping the entry entirely when
    /// both are back to "use the app-wide value".
    pub fn set_defaults_for(&mut self, calendar_id: &str, reminder: u32, duration: u32)
        ensures
            final(self).defaults() == with_defaults(
                old(self).defaults(),
                calendar_id@,
                reminder,
                duration,
            ),
            final(self).same_but_defaults(*old(self)),
    {
        let mut old_list: Vec<CalendarDefaults> = Vec::new();
        std::mem::swap(&mut old_list, &mut self.calendar_defaults);
        let ghost o = old_list@.map_values(|d: CalendarDefaults| defaults_view(d));
        let ghost pred = other_calendar(calendar_id@);
        assert(o == old(self).defaults());
        for d in it: old_list
            invariant
                it.seq() == old_list@,
                o == old_list@.map_values(|d: CalendarDefaults| defaults_view(d)),
                self.defaults() == o.take(it.index() as int).filter(pred),
                self.same_but_defaults(*old(self)),
                pred == other_calendar(calendar_id@),
        {
            let ghost i = it.index() as int;
            proof {
                reveal_with_fuel(Seq::filter, 1);
                assert(o.take(i + 1).drop_last() =~= o.take(i));
                assert(o.take(i + 1).last() == defaults_view(d));
            }
            if !str_equal(d.calendar_id.as_str(), calendar_id) {
                self.calendar_defaults.push(d);
                assert(self.defaults() =~= o.take(i + 1).filter(pred));
            } else {
                assert(self.defaults() =~= o.take(i + 1).filter(pred));
            }
        }
        assert(o.take(old_list@.len() as int) =~= o);
        if reminder > 0 || duration > 0 {
            self.calendar_defaults.push(
                CalendarDefaults {
                    calendar_id: owned(calendar_id),
                    reminder_minutes: reminder,
                    duration_minutes: duration,
                },
            );
            assert(self.defaults() =~= o.filter(pred).push((calendar_id@, reminder, duration)));
        }
    }

    /// The hidden calendars, each once.
    pub fn hidden_set(&self) -> (r: Vec<String>)
        ensures
            ids_of(r@).no_duplicates(),
            ids_of(r@).to_set() == self.hidden().to_set(),
    {
        let mut out: Vec<String> = Vec::new();
        let mut i: usize = 0;
        while i < self.hidden_calendars.len()
            invariant
                i <= self.hidden_calendars@.len(),
                ids_of(out@).no_duplicates(),
                ids_of(out@).to_set() == self.hidden().take(i as int).to_set(),
            decreases self.hidden_calendars.len() - i,
        {
            let c = self.hidden_calendars[i].as_str();
            let mut seen = false;
            let mut j: usize = 0;
            while j < out.len()
                invariant
                    j <= out@.len(),
                    seen == ids_of(out@).take(j as int).contains(c@),
                decreases out.len() - j,
            {
                let ghost prev = ids_of(out@).take(j as int);
                let ghost next = ids_of(out@).take(j + 1);
                assert(next =~= prev.push(ids_of(out@)[j as int]));
                if str_equal(out[j].as_str(), c) {
                    seen = true;
                    assert(next[j as int] == c@);
                } else {
                    proof {
                        if next.contains(c@) {
                            let k = choose|k: int| 0 <= k < next.len() && next[k] == c@;
                            assert(prev[k] == c@);
                        }
                        if prev.contains(c@) {
                            let k = choose|k: int| 0 <= k < prev.len() && prev[k] == c@;
                            assert(next[k] == c@);
                        }
                    }
                }
                j = j + 1;
            }
            assert(ids_of(out@).take(out@.len() as int) =~= ids_of(out@));
            let ghost before = ids_of(out@);
            assert(self.hidden().take(i + 1) =~= self.hidden().take(i as int).push(c@));
            if !seen {
                out.push(owned(c));
                assert(ids_of(out@) =~= before.push(c@));
                proof {
                    before.lemma_push_to_set_commute(c@);
                }
            } else {
                assert(before.to_set().insert(c@) =~= before.to_set());
            }
            proof {
                self.hidden().take(i as int).lemma_push_to_set_commute(c@);
            }
            i = i + 1;
        }
        assert(self.hidden().take(self.hidden_calendars@.len() as int) =~= self.hidden());
        out
    }
}

/// Toggling a calendar that was not hidden, twice, leaves the hidden list as
/// it was.
pub proof fn lemma_toggle_twice_restores(ids: Seq<Seq<char>>, c: Seq<char>)
    requires
        !ids.contains(c),
    ensures
        toggled(toggled(ids, c), c) == ids,
{
    let t = ids.push(c);
    assert(t.contains(c)) by {
        assert(t[ids.len() as int] == c);
    }
    lemma_first_index_at(t, c, ids.len() as int);
    assert(t.remove(ids.len() as int) =~= ids);
}

/// On a hidden list without repeats, toggling flips whether the calendar is
/// hidden, and the list stays without repeats.
pub proof fn lemma_toggle_flips(ids: Seq<Seq<char>>, c: Seq<char>)
    requires
        ids.no_duplicates(),
    ensures
        toggled(ids, c).contains(c) == !ids.contains(c),
        toggled(ids, c).no_duplicates(),
{
    lemma_first_index(ids, c);
    if ids.contains(c) {
        let i = first_index(ids, c);
        let t = ids.remove(i);
        if t.contains(c) {
            let k = choose|k: int| 0 <= k < t.len() && t[k] == c;
            if k < i {
                assert(ids[k] == c);
            } else {
                assert(ids[k + 1] == c);
            }
        }
        assert forall|a: int, b: int| 0 <= a < t.len() && 0 <= b < t.len() && a != b implies t[a]
            != t[b] by {
            let a2 = if a < i { a } else { a + 1 };
            let b2 = if b < i { b } else { b + 1 };
            assert(t[a] == ids[a2] && t[b] == ids[b2]);
        }
    } else {
        let t = ids.push(c);
        assert(t[ids.len() as int] == c);
        assert forall|a: int, b: int| 0 <= a < t.len() && 0 <= b < t.len() && a != b implies t[a]
            != t[b] by {
            if a < ids.len() && b < ids.len() {
                assert(t[a] == ids[a] && t[b] == ids[b]);
            } else if a < ids.len() {
                assert(t[a] == ids[a]);
            } else if b < ids.len() {
                assert(t[b] == ids[b]);
            }
        }
    }
}


proof fn lemma_lookup_push(ds: Seq<DefaultsView>, x: DefaultsView, k: Seq<char>)
    ensures
        lookup_defaults(ds.push(x), k) == match lookup_defaults(ds, k) {
            Some(v) => Some(v),
            None => if x.0 == k {
                Some(x)
            } else {
                None
            },
        },
{
    let ids = default_ids(ds);
    let ids2 = default_ids(ds.push(x));
    assert(ids2 =~= ids.push(x.0));
    lemma_first_index(ids, k);
    lemma_first_index(ids2, k);
    let i = first_index(ids, k);
    if i < ids.len() {
        assert(ids2[i] == k);
        assert forall|j: int| 0 <= j < i implies ids2[j] != k by {
            assert(ids2[j] == ids[j]);
        }
        lemma_first_index_at(ids2, k, i);
    } else {
        assert forall|j: int| 0 <= j < ids.len() implies ids2[j] != k by {
            assert(ids2[j] == ids[j]);
            assert(!ids.contains(k));
            if ids[j] == k {
                assert(ids.contains(k));
            }
        }
        if x.0 == k {
            lemma_first_index_at(ids2, k, ids.len() as int);
        } else {
            lemma_first_index_at(ids2, k, ids2.len() as int);
        }
    }
}

proof fn lemma_lookup_filter(ds: Seq<DefaultsView>, id: Seq<char>, other: Seq<char>)
    requires
        other != id,
    ensures
        lookup_defaults(ds.filter(other_calendar(id)), other) == lookup_defaults(
            ds,
            other,
        ),
    decreases ds.len(),
{
    let pred = other_calendar(id);
    reveal_with_fuel(Seq::filter, 1);
    if ds.len() > 0 {
        let init = ds.drop_last();
        let x = ds.last();
        assert(ds =~= init.push(x));
        lemma_lookup_filter(init, id, other);
        lemma_lookup_push(init, x, other);
        if pred(x) {
            assert(ds.filter(pred) == init.filter(pred).push(x));
            lemma_lookup_push(init.filter(pred), x, other);
        } else {
            assert(ds.filter(pred) == init.filter(pred));
        }
    } else {
        assert(ds.filter(pred) =~= ds);
    }
}

/// After setting a calendar's overrides, looking them up gives what was set
/// (nothing when both were 0), every other calendar's overrides are as they
/// were, and the calendar has at most one entry.
pub proof fn lemma_set_defaults_lookup(
    ds: Seq<DefaultsView>,
    id: Seq<char>,
    reminder: u32,
    duration: u32,
    other: Seq<char>,
)
    requires
        other != id,
    ensures
        lookup_defaults(with_defaults(ds, id, reminder, duration), id) == if reminder > 0
            || duration > 0 {
            Some((id, reminder, duration))
        } else {
            None
        },
        lookup_defaults(with_defaults(ds, id, reminder, duration), other) == lookup_defaults(
            ds,
            other,
        ),
        forall|i: int, j: int|
            0 <= i < j < with_defaults(ds, id, reminder, duration).len() ==> !(with_defaults(
                ds,
                id,
                reminder,
                duration,
            )[i].0 == id && with_defaults(ds, id, reminder, duration)[j].0 == id),
{
    let pred = other_calendar(id);
    let kept = ds.filter(pred);
    broadcast use vstd::seq_lib::group_filter_ensures;
    assert(forall|i: int| 0 <= i < kept.len() ==> kept[i].0 != id);
    let kids = default_ids(kept);
    assert(!kids.contains(id)) by {
        if kids.contains(id) {
            let k = choose|k: int| 0 <= k < kids.len() && kids[k] == id;
            assert(kept[k].0 == id);
        }
    }
    lemma_first_index(kids, id);
    lemma_lookup_filter(ds, id, other);
    if reminder > 0 || duration > 0 {
        lemma_lookup_push(kept, (id, reminder, duration), id);
        lemma_lookup_push(kept, (id, reminder, duration), other);
    }
}


/// A calendar whose overrides set no reminder of their own (none at all, or
/// only ones whose reminder is 0, meaning "use the app-wide value") gets the
/// app-wide reminder: `default_reminder_minutes` when it is positive, and no
/// reminder otherwise.
pub proof fn lemma_reminder_without_own(c: Config, id: Seq<char>)
    requires
        forall|i: int|
            0 <= i < c.calendar_defaults@.len() && (#[trigger] c.calendar_defaults@[i]).calendar_id@
                == id ==> c.calendar_defaults@[i].reminder_minutes == 0,
    ensures
        c.reminder_for_spec(id) == if c.default_reminder_minutes > 0 {
            Some(c.default_reminder_minutes as i64)
        } else {
            None::<i64>
        },
{
    let ds = c.defaults();
    let ids = default_ids(ds);
    lemma_first_index(ids, id);
    let i = first_index(ids, id);
    if i < ds.len() {
        assert(ids[i] == id);
        assert(ds[i] == defaults_view(c.calendar_defaults@[i]));
        assert(c.calendar_defaults@[i].calendar_id@ == id);
    }
}

/// After setting a calendar's overrides to `(reminder, duration)`, its
/// reminder is `reminder` when that is positive; with `reminder` 0 it falls
/// back to the app-wide reminder, whatever `duration` is.
pub proof fn lemma_reminder_after_set(
    before: Config,
    after: Config,
    id: Seq<char>,
    reminder: u32,
    duration: u32,
)
    requires
        after.defaults() == with_defaults(before.defaults(), id, reminder, duration),
        after.same_but_defaults(before),
    ensures
        after.reminder_for_spec(id) == if reminder > 0 {
            Some(reminder as i64)
        } else if before.default_reminder_minutes > 0 {
            Some(before.default_reminder_minutes as i64)
        } else {
            None::<i64>
        },
{
    let other = id.push('x');
    assert(other.len() != id.len());
    lemma_set_defaults_lookup(before.defaults(), id, reminder, duration, other);
}

} // verus!
