//! What the event and task editors decide about what the user typed: times
//! in the forms people write them, optional fields, and which label a choice
//! carries.

use vstd::prelude::*;
use crate::date::Time;
use crate::recurrence::Freq;
use crate::text::{
    all_digits, chars_of, decimal_value, find_char, first_index, is_digit, lower_ascii,
    parse_unsigned, parse_unsigned_exec, string_of, sub_chars, to_ascii_lower, trim, trimmed,
};

verus! {

/// `s` ends with the two characters `a`, `b`.
pub open spec fn ends_with2(s: Seq<char>, a: char, b: char) -> bool {
    s.len() >= 2 && s[s.len() - 2] == a && s[s.len() - 1] == b
}

/// The digits part of a typed time, whether it was `pm`, and whether it had
/// an am/pm marker at all.
pub open spec fn meridiem_split(lower: Seq<char>) -> (Seq<char>, bool, bool) {
    if ends_with2(lower, 'p', 'm') {
        (trim(lower.take(lower.len() - 2)), true, true)
    } else if ends_with2(lower, 'a', 'm') {
        (trim(lower.take(lower.len() - 2)), false, true)
    } else {
        (lower, false, false)
    }
}

/// Hour and minute as typed: `h:m`, four digits `hhmm`, or a bare hour.
pub open spec fn hour_minute(body: Seq<char>) -> Option<(int, int)> {
    let k = first_index(body, ':');
    if k < body.len() {
        match (
            parse_unsigned(trim(body.take(k)), 0xffff_ffff),
            parse_unsigned(trim(body.skip(k + 1)), 0xffff_ffff),
        ) {
            (Some(h), Some(m)) => Some((h, m)),
            _ => None,
        }
    } else if body.len() == 4 && all_digits(body) {
        match (
            parse_unsigned(body.take(2), 0xffff_ffff),
            parse_unsigned(body.skip(2), 0xffff_ffff),
        ) {
            (Some(h), Some(m)) => Some((h, m)),
            _ => None,
        }
    } else {
        match parse_unsigned(trim(body), 0xffff_ffff) {
            Some(h) => Some((h, 0)),
            None => None,
        }
    }
}

/// The 24-hour hour for a typed hour and meridiem.
pub open spec fn clock_hour(h: int, pm: bool, marked: bool) -> int {
    if !marked {
        h
    } else if h == 12 && !pm {
        0
    } else if h == 12 && pm {
        12
    } else if pm && h < 12 {
        h + 12
    } else {
        h
    }
}

/// The time a user's text names, if it names one.
pub open spec fn parse_time_spec(input: Seq<char>) -> Option<Time> {
    let s = trim(input);
    if s.len() == 0 {
        None
    } else {
        let (body, pm, marked) = meridiem_split(lower_ascii(s));
        match hour_minute(body) {
            Some((h, m)) => {
                let hh = clock_hour(h, pm, marked);
                if hh < 24 && m < 60 {
                    Some(Time { hour: hh as u8, minute: m as u8, second: 0 })
                } else {
                    None
                }
            },
            None => None,
        }
    }
}

fn lower_exec(v: &[char]) -> (r: Vec<char>)
    ensures
        r@ == lower_ascii(v@),
{
    let mut r: Vec<char> = Vec::new();
    let mut i: usize = 0;
    while i < v.len()
        invariant
            i <= v@.len(),
            r@ == lower_ascii(v@.take(i as int)),
        decreases v.len() - i,
    {
        r.push(to_ascii_lower(v[i]));
        assert(lower_ascii(v@.take(i + 1)) =~= lower_ascii(v@.take(i as int)).push(
            crate::text::ascii_lower(v@[i as int]),
        ));
        i = i + 1;
    }
    assert(v@.take(v@.len() as int) =~= v@);
    r
}

fn hour_minute_exec(body: &[char]) -> (r: Option<(u32, u32)>)
    ensures
        match hour_minute(body@) {
            Some((h, m)) => r == Some((h as u32, m as u32)) && 0 <= h <= 0xffff_ffff && 0 <= m
                <= 0xffff_ffff,
            None => r is None,
        },
{
    let k = find_char(body, ':');
    if k < body.len() {
        let hs = sub_chars(body, 0, k);
        let ms = sub_chars(body, k + 1, body.len());
        assert(hs@ =~= body@.take(k as int));
        assert(ms@ =~= body@.skip(k + 1));
        let h = parse_unsigned_exec(trimmed(hs.as_slice()).as_slice(), 0xffff_ffff);
        let m = parse_unsigned_exec(trimmed(ms.as_slice()).as_slice(), 0xffff_ffff);
        match (h, m) {
            (Some(h), Some(m)) => Some((h, m)),
            _ => None,
        }
    } else {
        let mut digits = body.len() == 4;
        let mut i: usize = 0;
        while digits && i < body.len()
            invariant
                i <= body@.len(),
                digits ==> body@.len() == 4,
                digits ==> forall|j: int| 0 <= j < i ==> is_digit(#[trigger] body@[j]),
                !digits ==> !(body@.len() == 4 && all_digits(body@)),
            decreases body.len() - i,
        {
            if !('0' <= body[i] && body[i] <= '9') {
                digits = false;
                assert(!is_digit(body@[i as int]));
            }
            i = i + 1;
        }
        if digits {
            let hs = sub_chars(body, 0, 2);
            let ms = sub_chars(body, 2, 4);
            assert(hs@ =~= body@.take(2));
            assert(ms@ =~= body@.skip(2));
            let h = parse_unsigned_exec(hs.as_slice(), 0xffff_ffff);
            let m = parse_unsigned_exec(ms.as_slice(), 0xffff_ffff);
            match (h, m) {
                (Some(h), Some(m)) => Some((h, m)),
                _ => None,
            }
        } else {
            match parse_unsigned_exec(trimmed(body).as_slice(), 0xffff_ffff) {
                Some(h) => Some((h, 0)),
                None => None,
            }
        }
    }
}

/// Parses the forms a user is likely to type: `9:30`, `09:30`, `0930`, `9`,
/// with an optional `am`/`pm`.
pub fn parse_time(input: &str) -> (r: Option<Time>)
    ensures
        r == parse_time_spec(input@),
        r matches Some(t) ==> t.valid(),
{
    let all = chars_of(input);
    parse_time_chars(all.as_slice())
}

/// `parse_time` on text held as characters.
pub fn parse_time_chars(input: &[char]) -> (r: Option<Time>)
    ensures
        r == parse_time_spec(input@),
        r matches Some(t) ==> t.valid(),
{
    let s = trimmed(input);
    if s.len() == 0 {
        return None;
    }
    let lower = lower_exec(s.as_slice());
    let n = lower.len();
    let (body, pm, marked) = if n >= 2 && lower[n - 2] == 'p' && lower[n - 1] == 'm' {
        let head = sub_chars(lower.as_slice(), 0, n - 2);
        assert(head@ =~= lower@.take(n - 2));
        (trimmed(head.as_slice()), true, true)
    } else if n >= 2 && lower[n - 2] == 'a' && lower[n - 1] == 'm' {
        let head = sub_chars(lower.as_slice(), 0, n - 2);
        assert(head@ =~= lower@.take(n - 2));
        (trimmed(head.as_slice()), false, true)
    } else {
        (lower, false, false)
    };
    assert((body@, pm, marked) == meridiem_split(lower_ascii(s@)));
    match hour_minute_exec(body.as_slice()) {
        Some((h, m)) => {
            let hh = if !marked {
                h
            } else if h == 12 && !pm {
                0
            } else if h == 12 && pm {
                12
            } else if pm && h < 12 {
                h + 12
            } else {
                h
            };
            Time::from_hms(hh, m, 0)
        },
        None => None,
    }
}

/// Text trimmed of whitespace, or `None` when nothing is left.
pub fn non_empty(s: &str) -> (r: Option<String>)
    ensures
        match r {
            Some(t) => trim(s@).len() > 0 && t@ == trim(s@),
            None => trim(s@).len() == 0,
        },
{
    let all = chars_of(s);
    let t = trimmed(all.as_slice());
    if t.len() == 0 {
        None
    } else {
        Some(string_of(t.as_slice()))
    }
}

/// A typed due time, where blank is legitimate and means "no particular
/// time": `Some(None)` for blank, `Some(Some(t))` for a time, `None` for text
/// that is neither.
pub fn parse_optional_time(input: &str) -> (r: Option<Option<Time>>)
    ensures
        r == if trim(input@).len() == 0 {
            Some(None)
        } else {
            match parse_time_spec(input@) {
                Some(t) => Some(Some(t)),
                None => None,
            }
        },
{
    let all = chars_of(input);
    let t = trimmed(all.as_slice());
    if t.len() == 0 {
        return Some(None);
    }
    match parse_time(input) {
        Some(t) => Some(Some(t)),
        None => None,
    }
}

/// The message id of a repeat frequency's label.
pub fn freq_label(freq: Freq) -> (r: &'static str)
    ensures
        r@ == freq_label_id(freq),
{
    match freq {
        Freq::Never => "repeat-never",
        Freq::Daily => "repeat-daily",
        Freq::Weekly => "repeat-weekly",
        Freq::Monthly => "repeat-monthly",
        Freq::Yearly => "repeat-yearly",
    }
}

pub open spec fn freq_label_id(freq: Freq) -> Seq<char> {
    match freq {
        Freq::Never => "repeat-never"@,
        Freq::Daily => "repeat-daily"@,
        Freq::Weekly => "repeat-weekly"@,
        Freq::Monthly => "repeat-monthly"@,
        Freq::Yearly => "repeat-yearly"@,
    }
}

/// A task's progress.
#[derive(Clone, Copy, Debug, PartialEq, Eq, Structural)]
pub enum TodoStatus {
    NeedsAction,
    InProcess,
    Completed,
    Cancelled,
}

pub open spec fn status_label_id(status: TodoStatus) -> Seq<char> {
    match status {
        TodoStatus::NeedsAction => "status-needs-action"@,
        TodoStatus::InProcess => "status-in-process"@,
        TodoStatus::Completed => "status-completed"@,
        TodoStatus::Cancelled => "status-cancelled"@,
    }
}

/// The message id of a task status's label.
pub fn status_label(status: TodoStatus) -> (r: &'static str)
    ensures
        r@ == status_label_id(status),
{
    match status {
        TodoStatus::NeedsAction => "status-needs-action",
        TodoStatus::InProcess => "status-in-process",
        TodoStatus::Completed => "status-completed",
        TodoStatus::Cancelled => "status-cancelled",
    }
}

/// Which dropdown bucket a raw 0–9 priority falls in: none, high, medium or
/// low, named by the value the bucket writes.
pub open spec fn priority_bucket(priority: u8) -> u8 {
    if priority == 0 {
        0
    } else if 1 <= priority <= 4 {
        1
    } else if priority == 5 {
        5
    } else {
        9
    }
}

pub fn bucket(priority: u8) -> (r: u8)
    ensures
        r == priority_bucket(priority),
{
    match priority {
        0 => 0,
        1..=4 => 1,
        5 => 5,
        _ => 9,
    }
}

pub open spec fn priority_label_id(priority: u8) -> Seq<char> {
    if priority == 0 {
        "priority-none"@
    } else if 1 <= priority <= 4 {
        "priority-high"@
    } else if priority == 5 {
        "priority-medium"@
    } else {
        "priority-low"@
    }
}

/// The message id of a priority's label.
pub fn priority_label(priority: u8) -> (r: &'static str)
    ensures
        r@ == priority_label_id(priority),
{
    match priority {
        0 => "priority-none",
        1..=4 => "priority-high",
        5 => "priority-medium",
        _ => "priority-low",
    }
}

} // verus!
