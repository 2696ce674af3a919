//! The settings page: what each dropdown offers, how its entries are
//! labelled, which entry the current value selects, and what picking one
//! changes in the settings.

use vstd::prelude::*;
use crate::config::{lookup_defaults, with_defaults, Config};
use crate::text::{chars_of, string_of, trim, trimmed};

verus! {

/// Lead times offered for the app-wide reminder, in minutes; `0` turns it off.
pub open spec fn reminder_minutes() -> Seq<u32> {
    seq![0u32, 5, 10, 15, 30, 60, 120, 1440]
}

/// Snap steps offered for grid drags, in minutes.
pub open spec fn snap_minutes() -> Seq<u8> {
    seq![5u8, 10, 15]
}

/// Lead times offered for one calendar's reminder; `0` defers to the
/// app-wide setting.
pub open spec fn calendar_reminder_minutes() -> Seq<u32> {
    seq![0u32, 5, 10, 15, 30, 60, 1440]
}

/// Event lengths offered for one calendar; `0` means the usual hour.
pub open spec fn calendar_duration_minutes() -> Seq<u32> {
    seq![0u32, 15, 30, 45, 60, 90, 120]
}

/// The app-wide reminder choices.
pub fn reminder_choices() -> (r: Vec<u32>)
    ensures
        r@ == reminder_minutes(),
{
    let mut v: Vec<u32> = Vec::new();
    v.push(0);
    v.push(5);
    v.push(10);
    v.push(15);
    v.push(30);
    v.push(60);
    v.push(120);
    v.push(1440);
    assert(v@ =~= reminder_minutes());
    v
}

/// The snap choices.
pub fn snap_choices() -> (r: Vec<u8>)
    ensures
        r@ == snap_minutes(),
{
    let mut v: Vec<u8> = Vec::new();
    v.push(5);
    v.push(10);
    v.push(15);
    assert(v@ =~= snap_minutes());
    v
}

/// One calendar's reminder choices.
pub fn calendar_reminder_choices() -> (r: Vec<u32>)
    ensures
        r@ == calendar_reminder_minutes(),
{
    let mut v: Vec<u32> = Vec::new();
    v.push(0);
    v.push(5);
    v.push(10);
    v.push(15);
    v.push(30);
    v.push(60);
    v.push(1440);
    assert(v@ =~= calendar_reminder_minutes());
    v
}

/// One calendar's duration choices.
pub fn calendar_duration_choices() -> (r: Vec<u32>)
    ensures
        r@ == calendar_duration_minutes(),
{
    let mut v: Vec<u32> = Vec::new();
    v.push(0);
    v.push(15);
    v.push(30);
    v.push(45);
    v.push(60);
    v.push(90);
    v.push(120);
    assert(v@ =~= calendar_duration_minutes());
    v
}

/// How a dropdown entry is worded: a message id, and the number it shows
/// when it shows one.
#[derive(Clone, Copy, Debug, PartialEq, Eq)]
pub struct ChoiceLabel {
    pub id: &'static str,
    pub count: Option<u32>,
}

/// The wording of a lead time: off (or, for a calendar, "as the app-wide
/// setting"), the day before, minutes under an hour, else whole hours.
pub open spec fn lead_label(minutes: u32, zero_id: Seq<char>) -> (Seq<char>, Option<u32>) {
    if minutes == 0 {
        (zero_id, None)
    } else if minutes == 1440 {
        ("reminder-day-before"@, None)
    } else if minutes < 60 {
        ("reminder-minutes"@, Some(minutes))
    } else {
        ("reminder-hours"@, Some((minutes / 60) as u32))
    }
}

/// The wording of an event length: the usual hour, minutes under an hour,
/// whole hours, else minutes.
pub open spec fn length_label(minutes: u32) -> (Seq<char>, Option<u32>) {
    if minutes == 0 {
        ("calendar-duration-default"@, None)
    } else if minutes < 60 {
        ("duration-minutes"@, Some(minutes))
    } else if minutes % 60 == 0 {
        ("duration-hours"@, Some((minutes / 60) as u32))
    } else {
        ("duration-minutes"@, Some(minutes))
    }
}

pub open spec fn label_view(l: ChoiceLabel) -> (Seq<char>, Option<u32>) {
    (l.id@, l.count)
}

fn lead(minutes: u32, zero_id: &'static str) -> (r: ChoiceLabel)
    ensures
        label_view(r) == lead_label(minutes, zero_id@),
{
    if minutes == 0 {
        ChoiceLabel { id: zero_id, count: None }
    } else if minutes == 1440 {
        ChoiceLabel { id: "reminder-day-before", count: None }
    } else if minutes < 60 {
        ChoiceLabel { id: "reminder-minutes", count: Some(minutes) }
    } else {
        ChoiceLabel { id: "reminder-hours", count: Some(minutes / 60) }
    }
}

/// How an app-wide reminder choice is worded.
pub fn reminder_label(minutes: u32) -> (r: ChoiceLabel)
    ensures
        label_view(r) == lead_label(minutes, "reminder-none"@),
{
    lead(minutes, "reminder-none")
}

/// How a calendar's reminder choice is worded.
pub fn calendar_reminder_label(minutes: u32) -> (r: ChoiceLabel)
    ensures
        label_view(r) == lead_label(minutes, "calendar-default-inherit"@),
{
    lead(minutes, "calendar-default-inherit")
}

/// How a calendar's duration choice is worded.
pub fn duration_label(minutes: u32) -> (r: ChoiceLabel)
    ensures
        label_view(r) == length_label(minutes),
{
    if minutes == 0 {
        ChoiceLabel { id: "calendar-duration-default", count: None }
    } else if minutes < 60 {
        ChoiceLabel { id: "duration-minutes", count: Some(minutes) }
    } else if minutes % 60 == 0 {
        ChoiceLabel { id: "duration-hours", count: Some(minutes / 60) }
    } else {
        ChoiceLabel { id: "duration-minutes", count: Some(minutes) }
    }
}

/// The first position of `value` in `s` from `k` on, or `s.len()`.
pub open spec fn position_from(s: Seq<u32>, value: int, k: int) -> int
    decreases s.len() - k,
{
    if k >= s.len() {
        s.len() as int
    } else if s[k] == value {
        k
    } else {
        position_from(s, value, k + 1)
    }
}

/// The entry a dropdown shows as selected: the first holding `value`.
pub fn selected(choices: &Vec<u32>, value: u32) -> (r: Option<usize>)
    ensures
        match r {
            Some(i) => i == position_from(choices@, value as int, 0) && i < choices@.len(),
            None => position_from(choices@, value as int, 0) == choices@.len(),
        },
{
    let mut k: usize = 0;
    while k < choices.len()
        invariant
            k <= choices@.len(),
            position_from(choices@, value as int, 0) == position_from(choices@, value as int, k as int),
        decreases choices.len() - k,
    {
        if choices[k] == value {
            return Some(k);
        }
        k = k + 1;
    }
    None
}

/// The snap entry shown as selected: the one equal to the step in force.
pub fn snap_selected(config: &Config) -> (r: Option<usize>)
    ensures
        r == match config.snap_spec() {
            5 => Some(0usize),
            10 => Some(1usize),
            15 => Some(2usize),
            _ => None,
        },
{
    let step = config.snap();
    if step == 5 {
        Some(0)
    } else if step == 10 {
        Some(1)
    } else if step == 15 {
        Some(2)
    } else {
        None
    }
}

/// The first day of the week the dropdown's `index` picks: the index itself,
/// at most Sunday's 6; an index too large for a byte reads as Monday's 0.
pub open spec fn first_day_at(index: int) -> u8 {
    if index > 255 {
        0
    } else if index > 6 {
        6
    } else {
        index as u8
    }
}

/// Whether `b` holds the settings of `a` but for what `field` names: 0 the
/// first day of the week, 1 the default reminder, 2 the snap, 3 the
/// secondary zone.
pub open spec fn same_but(a: Config, b: Config, field: int) -> bool {
    &&& a.view == b.view
    &&& (field != 0 ==> a.first_day_of_week == b.first_day_of_week)
    &&& a.hidden_calendars == b.hidden_calendars
    &&& a.show_week_numbers == b.show_week_numbers
    &&& a.time_24h == b.time_24h
    &&& (field != 1 ==> a.default_reminder_minutes == b.default_reminder_minutes)
    &&& (field != 3 ==> a.secondary_timezone == b.secondary_timezone)
    &&& (field != 2 ==> a.snap_minutes == b.snap_minutes)
    &&& a.show_birthdays == b.show_birthdays
    &&& a.calendar_defaults == b.calendar_defaults
}

impl Config {
    /// Sets the first day of the week from the dropdown's `index`.
    pub fn choose_first_day(&mut self, index: usize)
        ensures
            same_but(*old(self), *final(self), 0),
            final(self).first_day_of_week == first_day_at(index as int),
    {
        self.first_day_of_week = if index > 255 {
            0
        } else if index > 6 {
            6
        } else {
            index as u8
        };
    }

    /// Sets the app-wide reminder to the choice at `index`; an index past
    /// the list changes nothing. Whether anything was set.
    pub fn choose_default_reminder(&mut self, index: usize) -> (r: bool)
        ensures
            same_but(*old(self), *final(self), 1),
            r == (index < reminder_minutes().len()),
            final(self).default_reminder_minutes == if r {
                reminder_minutes()[index as int]
            } else {
                old(self).default_reminder_minutes
            },
    {
        let choices = reminder_choices();
        if index < choices.len() {
            self.default_reminder_minutes = choices[index];
            true
        } else {
            false
        }
    }

    /// Sets the snap step to the choice at `index`; an index past the list
    /// changes nothing. Whether anything was set.
    pub fn choose_snap(&mut self, index: usize) -> (r: bool)
        ensures
            same_but(*old(self), *final(self), 2),
            r == (index < snap_minutes().len()),
            final(self).snap_minutes == if r {
                snap_minutes()[index as int]
            } else {
                old(self).snap_minutes
            },
    {
        let choices = snap_choices();
        if index < choices.len() {
            self.snap_minutes = choices[index];
            true
        } else {
            false
        }
    }

    /// Sets one calendar's reminder to the choice at `index`, keeping its
    /// duration; an index past the list changes nothing. Whether anything
    /// was set.
    pub fn choose_calendar_reminder(&mut self, calendar_id: &str, index: usize) -> (r: bool)
        ensures
            r == (index < calendar_reminder_minutes().len()),
            r ==> final(self).defaults() == with_defaults(
                old(self).defaults(),
                calendar_id@,
                calendar_reminder_minutes()[index as int],
                match lookup_defaults(old(self).defaults(), calendar_id@) {
                    Some(d) => d.2,
                    None => 0,
                },
            ),
            r ==> final(self).same_but_defaults(*old(self)),
            !r ==> *final(self) == *old(self),
    {
        let choices = calendar_reminder_choices();
        if index >= choices.len() {
            return false;
        }
        let duration = match self.defaults_for(calendar_id) {
            Some(d) => d.duration_minutes,
            None => 0,
        };
        self.set_defaults_for(calendar_id, choices[index], duration);
        true
    }

    /// Sets one calendar's event length to the choice at `index`, keeping
    /// its reminder; an index past the list changes nothing. Whether
    /// anything was set.
    pub fn choose_calendar_duration(&mut self, calendar_id: &str, index: usize) -> (r: bool)
        ensures
            r == (index < calendar_duration_minutes().len()),
            r ==> final(self).defaults() == with_defaults(
                old(self).defaults(),
                calendar_id@,
                match lookup_defaults(old(self).defaults(), calendar_id@) {
                    Some(d) => d.1,
                    None => 0,
                },
                calendar_duration_minutes()[index as int],
            ),
            r ==> final(self).same_but_defaults(*old(self)),
            !r ==> *final(self) == *old(self),
    {
        let choices = calendar_duration_choices();
        if index >= choices.len() {
            return false;
        }
        let reminder = match self.defaults_for(calendar_id) {
            Some(d) => d.reminder_minutes,
            None => 0,
        };
        self.set_defaults_for(calendar_id, reminder, choices[index]);
        true
    }

    /// Takes the secondary zone as typed: blank turns it off, a zone name
    /// that exists sets it (trimmed), and anything else, such as a name
    /// half typed, changes nothing. Whether anything was set.
    pub fn choose_secondary_tz(&mut self, text: &str) -> (r: bool)
        ensures
            same_but(*old(self), *final(self), 3),
            r == (trim(text@).len() == 0 || crate::ics::known_zone(trim(text@))),
            final(self).secondary_timezone@ == if trim(text@).len() == 0 {
                Seq::empty()
            } else if crate::ics::known_zone(trim(text@)) {
                trim(text@)
            } else {
                old(self).secondary_timezone@
            },
    {
        let all = chars_of(text);
        let t = trimmed(all.as_slice());
        if t.len() == 0 {
            self.secondary_timezone = String::new();
            return true;
        }
        let name = string_of(t.as_slice());
        if crate::ics::zone_is_known(name.as_str()) {
            self.secondary_timezone = name;
            true
        } else {
            false
        }
    }
}

} // verus!
