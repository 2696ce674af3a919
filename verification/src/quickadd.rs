//! Quick-add: one line such as "lunch with Maria Thu 13:00 at Kolonaki" read
//! as an event, by a fixed grammar in English and Greek.
//!
//! After the summary words, in any order: a weekday, `today` / `tomorrow`
//! (or their Greek), or a day-first numeric date; a time or a time range; a
//! location after `at`, `@` or a Greek preposition, unless what follows is a
//! time. No time means all day, no date means today, and every word that is
//! none of these belongs to the summary, in the order it was typed.

use vstd::prelude::*;
use crate::date::{
    date_after, day_number, instant, lemma_date_after, lemma_day_number_bounds, max_day_number,
    valid_ymd, weekday_index, weekday_number, Date, DateTime, Time, Weekday,
};
use crate::editor::{ends_with2, parse_time_chars, parse_time_spec};
use crate::event::{Event, EventTime};
use crate::text::{
    chars_of, find_char, join_from, joined, lemma_first_index, lowercase, parse_i32,
    parse_i32_exec, parse_unsigned, parse_unsigned_exec, seq_is, split_exec, split_on, string_of,
    sub_chars, to_lowercase, views, words, words_of,
};

verus! {

/// What a line of quick-add text reads as.
#[derive(Clone, Debug, PartialEq)]
pub struct Parsed {
    pub summary: String,
    pub date: Date,
    /// `None` means all day.
    pub start: Option<Time>,
    pub end: Option<Time>,
    pub location: Option<String>,
}

/// The words that introduce a location.
pub open spec fn is_preposition(w: Seq<char>) -> bool {
    w == "at"@ || w == "@"@ || w == "στο"@ || w == "στη"@ || w == "στον"@ || w == "στην"@ || w
        == "σε"@
}

fn is_preposition_exec(w: &[char]) -> (r: bool)
    ensures
        r == is_preposition(w@),
{
    seq_is(w, "at") || seq_is(w, "@") || seq_is(w, "στο") || seq_is(w, "στη") || seq_is(w, "στον")
        || seq_is(w, "στην") || seq_is(w, "σε")
}

/// The position of the first hyphen or en dash at or after `i`, or the length.
pub open spec fn dash_from(s: Seq<char>, i: int) -> int
    decreases s.len() - i,
{
    if i >= s.len() {
        s.len() as int
    } else if i >= 0 && (s[i] == '-' || s[i] == '–') {
        i
    } else {
        dash_from(s, i + 1)
    }
}

/// A time, or a `from-to` range of two. A bare number is not read as a time
/// here: only one with a colon or an am/pm marker.
pub open spec fn time_range(lower: Seq<char>) -> Option<(Time, Option<Time>)> {
    let k = dash_from(lower, 0);
    if k < lower.len() {
        match (parse_time_spec(lower.take(k)), parse_time_spec(lower.skip(k + 1))) {
            (Some(from), Some(to)) => Some((from, Some(to))),
            _ => None,
        }
    } else if !lower.contains(':') && !ends_with2(lower, 'a', 'm') && !ends_with2(lower, 'p', 'm') {
        None
    } else {
        match parse_time_spec(lower) {
            Some(t) => Some((t, None)),
            None => None,
        }
    }
}

/// The weekday a word names, in English or Greek, in full or short.
pub open spec fn weekday_named(w: Seq<char>) -> Option<Weekday> {
    if w == "monday"@ || w == "mon"@ || w == "δευτέρα"@ || w == "δευτερα"@ || w == "δευ"@ {
        Some(Weekday::Mon)
    } else if w == "tuesday"@ || w == "tue"@ || w == "τρίτη"@ || w == "τριτη"@ || w == "τρι"@ {
        Some(Weekday::Tue)
    } else if w == "wednesday"@ || w == "wed"@ || w == "τετάρτη"@ || w == "τεταρτη"@ || w
        == "τετ"@ {
        Some(Weekday::Wed)
    } else if w == "thursday"@ || w == "thu"@ || w == "πέμπτη"@ || w == "πεμπτη"@ || w
        == "πεμ"@ {
        Some(Weekday::Thu)
    } else if w == "friday"@ || w == "fri"@ || w == "παρασκευή"@ || w == "παρασκευη"@ || w
        == "παρ"@ {
        Some(Weekday::Fri)
    } else if w == "saturday"@ || w == "sat"@ || w == "σάββατο"@ || w == "σαββατο"@ || w
        == "σαβ"@ {
        Some(Weekday::Sat)
    } else if w == "sunday"@ || w == "sun"@ || w == "κυριακή"@ || w == "κυριακη"@ || w
        == "κυρ"@ {
        Some(Weekday::Sun)
    } else {
        None
    }
}

fn weekday_named_exec(w: &[char]) -> (r: Option<Weekday>)
    ensures
        r == weekday_named(w@),
{
    if seq_is(w, "monday") || seq_is(w, "mon") || seq_is(w, "δευτέρα") || seq_is(w, "δευτερα")
        || seq_is(w, "δευ") {
        Some(Weekday::Mon)
    } else if seq_is(w, "tuesday") || seq_is(w, "tue") || seq_is(w, "τρίτη") || seq_is(w, "τριτη")
        || seq_is(w, "τρι") {
        Some(Weekday::Tue)
    } else if seq_is(w, "wednesday") || seq_is(w, "wed") || seq_is(w, "τετάρτη") || seq_is(
        w,
        "τεταρτη",
    ) || seq_is(w, "τετ") {
        Some(Weekday::Wed)
    } else if seq_is(w, "thursday") || seq_is(w, "thu") || seq_is(w, "πέμπτη") || seq_is(
        w,
        "πεμπτη",
    ) || seq_is(w, "πεμ") {
        Some(Weekday::Thu)
    } else if seq_is(w, "friday") || seq_is(w, "fri") || seq_is(w, "παρασκευή") || seq_is(
        w,
        "παρασκευη",
    ) || seq_is(w, "παρ") {
        Some(Weekday::Fri)
    } else if seq_is(w, "saturday") || seq_is(w, "sat") || seq_is(w, "σάββατο") || seq_is(
        w,
        "σαββατο",
    ) || seq_is(w, "σαβ") {
        Some(Weekday::Sat)
    } else if seq_is(w, "sunday") || seq_is(w, "sun") || seq_is(w, "κυριακή") || seq_is(
        w,
        "κυριακη",
    ) || seq_is(w, "κυρ") {
        Some(Weekday::Sun)
    } else {
        None
    }
}

/// A day-first numeric date, `d/m` or `d/m/y`. Without a year it is this
/// year's, or next year's when this year's has already passed.
pub open spec fn numeric_date(lower: Seq<char>, today: Date) -> Option<Date> {
    let p = split_on(lower, '/');
    if p.len() < 2 || p.len() > 3 {
        None
    } else {
        match (parse_unsigned(p[0], 0xffff_ffff), parse_unsigned(p[1], 0xffff_ffff)) {
            (Some(day), Some(month)) => {
                let year = if p.len() == 3 {
                    parse_i32(p[2])
                } else {
                    Some(today.year as int)
                };
                match year {
                    Some(y) => {
                        if !valid_ymd(y, month, day) {
                            None
                        } else if p.len() == 2 && day_number(
                            Date { year: y as i32, month: month as u8, day: day as u8 },
                        ) < day_number(today) {
                            if valid_ymd(y + 1, month, day) {
                                Some(Date { year: (y + 1) as i32, month: month as u8, day: day as u8 })
                            } else {
                                None
                            }
                        } else {
                            Some(Date { year: y as i32, month: month as u8, day: day as u8 })
                        }
                    },
                    None => None,
                }
            },
            _ => None,
        }
    }
}

/// The day a word names, relative to `today`: a weekday is the next such day,
/// today included.
pub open spec fn date_word(lower: Seq<char>, today: Date) -> Option<Date> {
    if lower == "today"@ || lower == "σήμερα"@ || lower == "σημερα"@ {
        Some(today)
    } else if lower == "tomorrow"@ || lower == "αύριο"@ || lower == "αυριο"@ {
        Some(date_after(today, 1))
    } else {
        match weekday_named(lower) {
            Some(w) => Some(
                date_after(today, (weekday_number(w) + 7 - weekday_index(today)) % 7),
            ),
            None => numeric_date(lower, today),
        }
    }
}

/// What has been read so far: the summary words, and the fields found.
pub struct QuickDraft {
    pub summary: Seq<Seq<char>>,
    pub date: Option<Date>,
    pub start: Option<Time>,
    pub end: Option<Time>,
    pub location: Option<Seq<char>>,
}

pub open spec fn blank_draft() -> QuickDraft {
    QuickDraft { summary: Seq::empty(), date: None, start: None, end: None, location: None }
}

/// Whether the word at `i` opens a location that takes the rest of the line:
/// a preposition with words after it, unless it is `at` / `@` before a time.
pub open spec fn takes_rest(tokens: Seq<Seq<char>>, lowers: Seq<Seq<char>>, i: int) -> bool {
    &&& is_preposition(lowers[i])
    &&& i + 1 < tokens.len()
    &&& (parse_time_spec(tokens[i + 1]) is None || (lowers[i] != "at"@ && lowers[i] != "@"@))
}

/// One word read into the draft: a time first, then a date, and otherwise
/// summary, a stray preposition aside.
pub open spec fn read_word(acc: QuickDraft, token: Seq<char>, lower: Seq<char>, today: Date) -> QuickDraft {
    match time_range(lower) {
        Some((from, to)) => QuickDraft { start: Some(from), end: to, ..acc },
        None => match date_word(lower, today) {
            Some(d) => QuickDraft { date: Some(d), ..acc },
            None => if is_preposition(lower) {
                acc
            } else {
                QuickDraft { summary: acc.summary.push(token), ..acc }
            },
        },
    }
}

/// The words from `i` on, read into `acc`.
pub open spec fn read_from(
    tokens: Seq<Seq<char>>,
    lowers: Seq<Seq<char>>,
    today: Date,
    i: int,
    acc: QuickDraft,
) -> QuickDraft
    decreases tokens.len() - i,
{
    if i < 0 || i >= tokens.len() {
        acc
    } else if takes_rest(tokens, lowers, i) {
        QuickDraft { location: Some(joined(tokens.skip(i + 1), ' ')), ..acc }
    } else {
        read_from(tokens, lowers, today, i + 1, read_word(acc, tokens[i], lowers[i], today))
    }
}

/// The reading of a line's words (with their lowercase forms), when it has a
/// summary.
pub open spec fn quick_parse(tokens: Seq<Seq<char>>, lowers: Seq<Seq<char>>, today: Date) -> Option<
    QuickDraft,
> {
    let d = read_from(tokens, lowers, today, 0, blank_draft());
    if d.summary.len() == 0 {
        None
    } else {
        Some(d)
    }
}

/// Each word in lowercase.
pub open spec fn lowered(ws: Seq<Seq<char>>) -> Seq<Seq<char>> {
    ws.map_values(|w: Seq<char>| lowercase(w))
}

/// `p` is what the draft `d` gives: the summary words joined by spaces, and
/// today when no date was named.
pub open spec fn parsed_from(p: Parsed, d: QuickDraft, today: Date) -> bool {
    &&& p.summary@ == joined(d.summary, ' ')
    &&& p.date == (match d.date {
        Some(x) => x,
        None => today,
    })
    &&& p.start == d.start
    &&& p.end == d.end
    &&& match (p.location, d.location) {
        (Some(a), Some(b)) => a@ == b,
        (None, None) => true,
        _ => false,
    }
}

impl Parsed {
    /// A date that can be held, and times of day that exist.
    pub open spec fn valid(self) -> bool {
        &&& self.date.valid()
        &&& (self.start matches Some(t) ==> t.valid())
        &&& (self.end matches Some(t) ==> t.valid())
    }
}

fn dash_index(v: &[char]) -> (r: usize)
    ensures
        r == dash_from(v@, 0),
{
    let mut i: usize = 0;
    while i < v.len() && v[i] != '-' && v[i] != '–'
        invariant
            i <= v@.len(),
            dash_from(v@, 0) == dash_from(v@, i as int),
        decreases v.len() - i,
    {
        i = i + 1;
    }
    i
}

fn time_range_exec(lower: &[char]) -> (r: Option<(Time, Option<Time>)>)
    ensures
        r == time_range(lower@),
        r matches Some((from, to)) ==> from.valid() && (to matches Some(t) ==> t.valid()),
{
    let k = dash_index(lower);
    if k < lower.len() {
        let a = sub_chars(lower, 0, k);
        let b = sub_chars(lower, k + 1, lower.len());
        assert(a@ =~= lower@.take(k as int));
        assert(b@ =~= lower@.skip(k + 1));
        match (parse_time_chars(a.as_slice()), parse_time_chars(b.as_slice())) {
            (Some(from), Some(to)) => Some((from, Some(to))),
            _ => None,
        }
    } else {
        proof {
            lemma_first_index(lower@, ':');
        }
        let colon = find_char(lower, ':') < lower.len();
        let n = lower.len();
        let am = n >= 2 && lower[n - 2] == 'a' && lower[n - 1] == 'm';
        let pm = n >= 2 && lower[n - 2] == 'p' && lower[n - 1] == 'm';
        if !colon && !am && !pm {
            None
        } else {
            match parse_time_chars(lower) {
                Some(t) => Some((t, None)),
                None => None,
            }
        }
    }
}

fn numeric_date_exec(lower: &[char], today: Date) -> (r: Option<Date>)
    requires
        today.valid(),
    ensures
        r == numeric_date(lower@, today),
        r matches Some(d) ==> d.valid(),
{
    let p = split_exec(lower, '/');
    let ghost ps = split_on(lower@, '/');
    if p.len() < 2 || p.len() > 3 {
        return None;
    }
    assert(p@[0]@ == ps[0] && p@[1]@ == ps[1]);
    let day = parse_unsigned_exec(p[0].as_slice(), 0xffff_ffff);
    let month = parse_unsigned_exec(p[1].as_slice(), 0xffff_ffff);
    match (day, month) {
        (Some(day), Some(month)) => {
            let year: Option<i32> = if p.len() == 3 {
                assert(p@[2]@ == ps[2]);
                parse_i32_exec(p[2].as_slice())
            } else {
                Some(today.year)
            };
            match year {
                Some(y) => {
                    match Date::from_ymd(y as i64, month as i64, day as i64) {
                        None => None,
                        Some(date) => {
                            if p.len() == 2 && date.is_before(today) {
                                Date::from_ymd(y as i64 + 1, month as i64, day as i64)
                            } else {
                                Some(date)
                            }
                        },
                    }
                },
                None => None,
            }
        },
        _ => None,
    }
}

fn date_word_exec(lower: &[char], today: Date) -> (r: Option<Date>)
    requires
        today.valid(),
        day_number(today) + 6 <= max_day_number(),
    ensures
        r == date_word(lower@, today),
        r matches Some(d) ==> d.valid(),
{
    if seq_is(lower, "today") || seq_is(lower, "σήμερα") || seq_is(lower, "σημερα") {
        return Some(today);
    }
    proof {
        lemma_day_number_bounds(today);
    }
    if seq_is(lower, "tomorrow") || seq_is(lower, "αύριο") || seq_is(lower, "αυριο") {
        let d = today.add_days(1);
        proof {
            lemma_date_after(today, 1, d);
        }
        return Some(d);
    }
    match weekday_named_exec(lower) {
        Some(w) => {
            let now = today.weekday().num_days_from_monday();
            let ahead = (w.num_days_from_monday() + 7 - now) % 7;
            let d = today.add_days(ahead as i64);
            proof {
                lemma_date_after(today, ahead as int, d);
            }
            Some(d)
        },
        None => numeric_date_exec(lower, today),
    }
}

/// The fields read so far, before any location.
struct Reading {
    summary: Vec<Vec<char>>,
    date: Option<Date>,
    start: Option<Time>,
    end: Option<Time>,
}

impl Reading {
    spec fn draft(&self) -> QuickDraft {
        QuickDraft {
            summary: views(self.summary@),
            date: self.date,
            start: self.start,
            end: self.end,
            location: None,
        }
    }

    spec fn ok(&self) -> bool {
        &&& (self.date matches Some(x) ==> x.valid())
        &&& (self.start matches Some(t) ==> t.valid())
        &&& (self.end matches Some(t) ==> t.valid())
    }

    /// Reads one word that does not open a location.
    fn read(&mut self, token: &[char], lower: &[char], today: Date)
        requires
            old(self).ok(),
            today.valid(),
            day_number(today) + 6 <= max_day_number(),
        ensures
            final(self).ok(),
            final(self).draft() == read_word(old(self).draft(), token@, lower@, today),
    {
        match time_range_exec(lower) {
            Some((from, to)) => {
                self.start = Some(from);
                self.end = to;
            },
            None => match date_word_exec(lower, today) {
                Some(d) => {
                    self.date = Some(d);
                },
                None => {
                    if !is_preposition_exec(lower) {
                        let word = sub_chars(token, 0, token.len());
                        assert(word@ =~= token@);
                        let ghost before = self.summary@;
                        self.summary.push(word);
                        assert(views(self.summary@) =~= views(before).push(token@));
                    }
                },
            },
        }
    }
}

fn takes_rest_exec(tokens: &Vec<Vec<char>>, lowers: &Vec<Vec<char>>, i: usize) -> (r: bool)
    requires
        i < tokens@.len(),
        lowers@.len() == tokens@.len(),
    ensures
        r == takes_rest(views(tokens@), views(lowers@), i as int),
{
    let lower = lowers[i].as_slice();
    assert(lower@ == views(lowers@)[i as int]);
    if is_preposition_exec(lower) && i < tokens.len() - 1 {
        assert(tokens@[i + 1]@ == views(tokens@)[i + 1]);
        let next_time = parse_time_chars(tokens[i + 1].as_slice());
        next_time.is_none() || (!seq_is(lower, "at") && !seq_is(lower, "@"))
    } else {
        false
    }
}

/// Reads a line already split into words, given each word's lowercase form.
pub fn parse_words(tokens: &Vec<Vec<char>>, lowers: &Vec<Vec<char>>, today: Date) -> (r: Option<
    Parsed,
>)
    requires
        lowers@.len() == tokens@.len(),
        today.valid(),
        day_number(today) + 6 <= max_day_number(),
    ensures
        match quick_parse(views(tokens@), views(lowers@), today) {
            Some(d) => r matches Some(p) && parsed_from(p, d, today) && p.valid(),
            None => r is None,
        },
{
    let ghost tv = views(tokens@);
    let ghost lv = views(lowers@);
    let ghost goal = read_from(tv, lv, today, 0, blank_draft());
    let mut reading = Reading { summary: Vec::new(), date: None, start: None, end: None };
    let mut location: Option<Vec<char>> = None;
    let n = tokens.len();
    let mut i: usize = 0;
    assert(reading.draft() == blank_draft()) by {
        assert(views(reading.summary@) =~= Seq::<Seq<char>>::empty());
    }
    while i < n && location.is_none()
        invariant
            n == tokens@.len(),
            n == lowers@.len(),
            tv == views(tokens@),
            lv == views(lowers@),
            i <= n,
            today.valid(),
            day_number(today) + 6 <= max_day_number(),
            reading.ok(),
            location is None ==> goal == read_from(tv, lv, today, i as int, reading.draft()),
            location matches Some(loc) ==> goal == (QuickDraft {
                location: Some(loc@),
                ..reading.draft()
            }),
        decreases n - i,
    {
        if takes_rest_exec(tokens, lowers, i) {
            let rest = join_from(tokens, i + 1, ' ');
            location = Some(rest);
        } else {
            assert(tokens@[i as int]@ == tv[i as int]);
            assert(lowers@[i as int]@ == lv[i as int]);
            reading.read(tokens[i].as_slice(), lowers[i].as_slice(), today);
        }
        i = i + 1;
    }
    if reading.summary.len() == 0 {
        return None;
    }
    let joined_words = join_from(&reading.summary, 0, ' ');
    assert(views(reading.summary@).skip(0) =~= views(reading.summary@));
    let loc = match location {
        Some(l) => Some(string_of(l.as_slice())),
        None => None,
    };
    let day = match reading.date {
        Some(d) => d,
        None => today,
    };
    Some(
        Parsed {
            summary: string_of(joined_words.as_slice()),
            date: day,
            start: reading.start,
            end: reading.end,
            location: loc,
        },
    )
}

/// Reads a line of quick-add text, relative to `today`.
pub fn parse(input: &str, today: Date) -> (r: Option<Parsed>)
    requires
        today.valid(),
        day_number(today) + 6 <= max_day_number(),
    ensures
        match quick_parse(words(input@), lowered(words(input@)), today) {
            Some(d) => r matches Some(p) && parsed_from(p, d, today) && p.valid(),
            None => r is None,
        },
{
    let all = chars_of(input);
    let tokens = words_of(all.as_slice());
    let mut lowers: Vec<Vec<char>> = Vec::new();
    let mut i: usize = 0;
    while i < tokens.len()
        invariant
            i <= tokens@.len(),
            views(lowers@) == lowered(views(tokens@)).take(i as int),
        decreases tokens.len() - i,
    {
        let word = string_of(tokens[i].as_slice());
        let low = to_lowercase(word.as_str());
        let low_chars = chars_of(low.as_str());
        let ghost before = lowers@;
        lowers.push(low_chars);
        assert(views(lowers@) =~= views(before).push(lowercase(tokens@[i as int]@)));
        assert(lowered(views(tokens@)).take(i + 1) =~= lowered(views(tokens@)).take(i as int).push(
            lowercase(tokens@[i as int]@),
        ));
        i = i + 1;
    }
    assert(lowered(views(tokens@)).take(tokens@.len() as int) =~= lowered(views(tokens@)));
    parse_words(&tokens, &lowers, today)
}

/// Whether the parsed times make a span whose end a date can hold.
pub open spec fn span_fits(p: Parsed) -> bool {
    match p.start {
        None => day_number(p.date) < max_day_number(),
        Some(s) => ends_after(p) || instant(DateTime { date: p.date, time: s }) + 3600 < (
        max_day_number() + 1) * 86400,
    }
}

/// Whether an end time was given that comes after the start.
pub open spec fn ends_after(p: Parsed) -> bool {
    p.start matches Some(s) && p.end matches Some(e) && e.seconds() > s.seconds()
}

impl Parsed {
    /// Start and end as wall-clock date-times. All day is midnight to the
    /// next midnight; a start with no later end lasts an hour.
    pub fn span(&self) -> (r: (DateTime, DateTime))
        requires
            self.valid(),
            span_fits(*self),
        ensures
            r.0.valid(),
            r.1.valid(),
            match self.start {
                None => r.0 == (DateTime { date: self.date, time: Time { hour: 0, minute: 0, second: 0 } })
                    && instant(r.1) == instant(r.0) + 86400,
                Some(s) => r.0 == (DateTime { date: self.date, time: s }) && if ends_after(*self) {
                    r.1 == (DateTime { date: self.date, time: self.end.unwrap() })
                } else {
                    instant(r.1) == instant(r.0) + 3600
                },
            },
    {
        proof {
            lemma_day_number_bounds(self.date);
        }
        match self.start {
            None => {
                let begin = DateTime { date: self.date, time: Time::midnight() };
                (begin, begin.add_seconds(86400))
            },
            Some(s) => {
                let begin = DateTime { date: self.date, time: s };
                match self.end {
                    Some(e) => {
                        let es = (e.hour as u32) * 3600 + (e.minute as u32) * 60 + e.second as u32;
                        let ss = (s.hour as u32) * 3600 + (s.minute as u32) * 60 + s.second as u32;
                        if es > ss {
                            (begin, DateTime { date: self.date, time: e })
                        } else {
                            (begin, begin.add_seconds(3600))
                        }
                    },
                    None => (begin, begin.add_seconds(3600)),
                }
            },
        }
    }

    /// Whether no time was given.
    pub fn all_day(&self) -> (r: bool)
        ensures
            r == self.start is None,
    {
        self.start.is_none()
    }
}

/// A weekday word names the next day with that weekday, today included: at
/// most six days ahead, and on that weekday.
pub proof fn lemma_weekday_is_next(today: Date, w: Weekday)
    requires
        today.valid(),
        day_number(today) + 6 <= max_day_number(),
    ensures
        ({
            let ahead = (weekday_number(w) + 7 - weekday_index(today)) % 7;
            let d = date_after(today, ahead);
            &&& d.valid()
            &&& 0 <= day_number(d) - day_number(today) <= 6
            &&& weekday_index(d) == weekday_number(w)
            &&& (weekday_number(w) == weekday_index(today) ==> d == today)
        }),
{
    let ahead = (weekday_number(w) + 7 - weekday_index(today)) % 7;
    let t = weekday_index(today);
    let n = day_number(today);
    assert(0 <= ahead < 7);
    crate::date::lemma_day_number_bounds(today);
    crate::date::lemma_date_after_valid(today, ahead);
    let d = date_after(today, ahead);
    let f = weekday_number(w);
    assert((n + (f + 7 - n % 7) % 7) % 7 == f) by (nonlinear_arith)
        requires
            0 <= f < 7,
    {
        vstd::arithmetic::div_mod::lemma_fundamental_div_mod(n, 7);
        let a = n % 7;
        let q = n / 7;
        if f >= a {
            vstd::arithmetic::div_mod::lemma_fundamental_div_mod_converse(f + 7 - a, 7, 1, f - a);
            vstd::arithmetic::div_mod::lemma_fundamental_div_mod_converse(n + (f - a), 7, q, f);
        } else {
            vstd::arithmetic::div_mod::lemma_fundamental_div_mod_converse(f + 7 - a, 7, 0, f + 7 - a);
            vstd::arithmetic::div_mod::lemma_fundamental_div_mod_converse(n + (f + 7 - a), 7, q + 1, f);
        }
    }
    if f == t {
        lemma_date_after(today, 0, today);
    }
}

/// A day-first date without a year never lands in the past: one already
/// gone this year is next year's.
pub proof fn lemma_numeric_date_not_past(lower: Seq<char>, today: Date)
    requires
        today.valid(),
        split_on(lower, '/').len() == 2,
        numeric_date(lower, today) is Some,
    ensures
        day_number(numeric_date(lower, today).unwrap()) >= day_number(today),
        numeric_date(lower, today).unwrap().valid(),
{
    let p = split_on(lower, '/');
    let day = parse_unsigned(p[0], 0xffff_ffff).unwrap();
    let month = parse_unsigned(p[1], 0xffff_ffff).unwrap();
    let y = today.year as int;
    let first = Date { year: y as i32, month: month as u8, day: day as u8 };
    if day_number(first) < day_number(today) {
        let next = Date { year: (y + 1) as i32, month: month as u8, day: day as u8 };
        assert(numeric_date(lower, today) == Some(next));
        crate::date::lemma_year_monotone(y + 1, y + 1);
        lemma_later_year_later_day(today, next);
    }
}

proof fn lemma_later_year_later_day(a: Date, b: Date)
    requires
        a.valid(),
        b.valid(),
        a.year < b.year,
    ensures
        day_number(a) < day_number(b),
{
    crate::date::lemma_year_monotone(a.year + 1, b.year as int);
    crate::date::lemma_year_step(a.year as int);
}

/// `e` is the event a quick-add line becomes in the calendar `calendar_id`,
/// in the zone named `local`: a fresh draft with the line's title and place,
/// all-day on its date when it names no time, else from its start to its
/// end, or for an hour.
pub open spec fn quick_event_of(p: Parsed, calendar_id: Seq<char>, local: Seq<char>, e: Event) -> bool {
    &&& exists|u: Seq<char>| e.uid@ == u + "@cosmic-calendar"@
    &&& e.file_name@ == e.uid@ + ".ics"@
    &&& e.calendar_id@ == calendar_id
    &&& e.summary@ == p.summary@
    &&& crate::text::opt_view(e.location) == crate::text::opt_view(p.location)
    &&& e.description is None
    &&& e.rrule is None
    &&& e.exdates@.len() == 0
    &&& e.sequence == 0
    &&& match p.start {
        None => e.start == EventTime::Date(p.date) && e.end == EventTime::Date(date_after(p.date, 1)),
        Some(s) => {
            &&& e.start matches EventTime::Zoned(dt, z) && dt == (DateTime { date: p.date, time: s }) && z@ == local
            &&& e.end matches EventTime::Zoned(en, z) && z@ == local && if ends_after(p) {
                en == (DateTime { date: p.date, time: p.end.unwrap() })
            } else {
                instant(en) == instant(DateTime { date: p.date, time: s }) + 3600
            }
        },
    }
}

/// The event a quick-add line becomes in the calendar `calendar_id`, in the
/// zone named `local`.
pub fn quick_event(p: &Parsed, calendar_id: &str, local: &str) -> (r: Event)
    requires
        p.valid(),
        day_number(p.date) < max_day_number(),
    ensures
        quick_event_of(*p, calendar_id@, local@, r),
{
    proof {
        lemma_day_number_bounds(p.date);
    }
    let (start, end) = p.span();
    let mut e = Event::draft(calendar_id, start, local);
    e.summary = p.summary.clone();
    e.location = match &p.location {
        Some(l) => Some(l.clone()),
        None => None,
    };
    if p.all_day() {
        proof {
            let dn = day_number(end.date);
            let secs = end.time.seconds();
            let d0 = day_number(p.date);
            assert(dn == d0 + 1 && secs == 0) by (nonlinear_arith)
                requires
                    dn * 86400 + secs == d0 * 86400 + 86400,
                    0 <= secs < 86400,
            ;
            lemma_date_after(p.date, 1, end.date);
        }
        e.start = EventTime::Date(start.date);
        e.end = EventTime::Date(end.date);
    } else {
        e.end = EventTime::Zoned(end, crate::text::owned(local));
    }
    e
}


/// Whether `w` reads, relative to `today`, as a day within the coming week
/// (today included) whose weekday is number `n` (Monday 0 to Sunday 6).
pub open spec fn names_weekday(w: Seq<char>, today: Date, n: int) -> bool {
    match date_word(w, today) {
        Some(d) => weekday_index(d) == n && 0 <= day_number(d) - day_number(today) <= 6,
        None => false,
    }
}

/// A word that names weekday `wd` and is none of the words for today or
/// tomorrow reads as the coming day with that weekday.
proof fn lemma_named_day(today: Date, w: Seq<char>, wd: Weekday)
    requires
        today.valid(),
        day_number(today) + 6 <= max_day_number(),
        weekday_named(w) == Some(wd),
        w != "today"@ && w != "σήμερα"@ && w != "σημερα"@ && w != "tomorrow"@ && w != "αύριο"@
            && w != "αυριο"@,
    ensures
        names_weekday(w, today, weekday_number(wd)),
{
    lemma_weekday_is_next(today, wd);
}

/// The lengths of the day words, and the letters that tell apart those of
/// equal length.
proof fn lemma_day_word_letters()
    ensures
        "today"@.len() == 5,
        "σήμερα"@.len() == 6,
        "σημερα"@.len() == 6,
        "tomorrow"@.len() == 8,
        "αύριο"@.len() == 5,
        "αυριο"@.len() == 5,
        "monday"@.len() == 6,
        "mon"@.len() == 3,
        "δευτέρα"@.len() == 7,
        "δευτερα"@.len() == 7,
        "δευ"@.len() == 3,
        "tuesday"@.len() == 7,
        "tue"@.len() == 3,
        "τρίτη"@.len() == 5,
        "τριτη"@.len() == 5,
        "τρι"@.len() == 3,
        "wednesday"@.len() == 9,
        "wed"@.len() == 3,
        "τετάρτη"@.len() == 7,
        "τεταρτη"@.len() == 7,
        "τετ"@.len() == 3,
        "thursday"@.len() == 8,
        "thu"@.len() == 3,
        "πέμπτη"@.len() == 6,
        "πεμπτη"@.len() == 6,
        "πεμ"@.len() == 3,
        "friday"@.len() == 6,
        "fri"@.len() == 3,
        "παρασκευή"@.len() == 9,
        "παρασκευη"@.len() == 9,
        "παρ"@.len() == 3,
        "saturday"@.len() == 8,
        "sat"@.len() == 3,
        "σάββατο"@.len() == 7,
        "σαββατο"@.len() == 7,
        "σαβ"@.len() == 3,
        "sunday"@.len() == 6,
        "sun"@.len() == 3,
        "κυριακή"@.len() == 7,
        "κυριακη"@.len() == 7,
        "κυρ"@.len() == 3,
        "fri"@[0] == 'f',
        "friday"@[0] == 'f',
        "mon"@[0] == 'm',
        "monday"@[0] == 'm',
        "sat"@[0] == 's',
        "sat"@[1] == 'a',
        "saturday"@[0] == 's',
        "sun"@[0] == 's',
        "sun"@[1] == 'u',
        "sunday"@[0] == 's',
        "thu"@[0] == 't',
        "thu"@[1] == 'h',
        "thursday"@[0] == 't',
        "thursday"@[1] == 'h',
        "today"@[0] == 't',
        "tomorrow"@[0] == 't',
        "tomorrow"@[1] == 'o',
        "tue"@[0] == 't',
        "tue"@[1] == 'u',
        "tuesday"@[0] == 't',
        "wed"@[0] == 'w',
        "wednesday"@[0] == 'w',
        "αυριο"@[0] == 'α',
        "αύριο"@[0] == 'α',
        "δευ"@[0] == 'δ',
        "δευτέρα"@[0] == 'δ',
        "δευτερα"@[0] == 'δ',
        "κυρ"@[0] == 'κ',
        "κυριακή"@[0] == 'κ',
        "κυριακη"@[0] == 'κ',
        "πέμπτη"@[0] == 'π',
        "παρ"@[0] == 'π',
        "παρ"@[1] == 'α',
        "παρασκευή"@[0] == 'π',
        "παρασκευη"@[0] == 'π',
        "πεμ"@[0] == 'π',
        "πεμ"@[1] == 'ε',
        "πεμπτη"@[0] == 'π',
        "σάββατο"@[0] == 'σ',
        "σήμερα"@[0] == 'σ',
        "σαβ"@[0] == 'σ',
        "σαββατο"@[0] == 'σ',
        "σημερα"@[0] == 'σ',
        "τετ"@[0] == 'τ',
        "τετ"@[1] == 'ε',
        "τετάρτη"@[0] == 'τ',
        "τεταρτη"@[0] == 'τ',
        "τρίτη"@[0] == 'τ',
        "τρι"@[0] == 'τ',
        "τρι"@[1] == 'ρ',
        "τριτη"@[0] == 'τ',
{
    reveal_strlit("today");
    reveal_strlit("σήμερα");
    reveal_strlit("σημερα");
    reveal_strlit("tomorrow");
    reveal_strlit("αύριο");
    reveal_strlit("αυριο");
    reveal_strlit("monday");
    reveal_strlit("mon");
    reveal_strlit("δευτέρα");
    reveal_strlit("δευτερα");
    reveal_strlit("δευ");
    reveal_strlit("tuesday");
    reveal_strlit("tue");
    reveal_strlit("τρίτη");
    reveal_strlit("τριτη");
    reveal_strlit("τρι");
    reveal_strlit("wednesday");
    reveal_strlit("wed");
    reveal_strlit("τετάρτη");
    reveal_strlit("τεταρτη");
    reveal_strlit("τετ");
    reveal_strlit("thursday");
    reveal_strlit("thu");
    reveal_strlit("πέμπτη");
    reveal_strlit("πεμπτη");
    reveal_strlit("πεμ");
    reveal_strlit("friday");
    reveal_strlit("fri");
    reveal_strlit("παρασκευή");
    reveal_strlit("παρασκευη");
    reveal_strlit("παρ");
    reveal_strlit("saturday");
    reveal_strlit("sat");
    reveal_strlit("σάββατο");
    reveal_strlit("σαββατο");
    reveal_strlit("σαβ");
    reveal_strlit("sunday");
    reveal_strlit("sun");
    reveal_strlit("κυριακή");
    reveal_strlit("κυριακη");
    reveal_strlit("κυρ");
}

/// The words for Monday read as Monday.
proof fn lemma_monday_words(today: Date)
    requires
        today.valid(),
        day_number(today) + 6 <= max_day_number(),
    ensures
        names_weekday("monday"@, today, 0),
        names_weekday("mon"@, today, 0),
        names_weekday("δευτέρα"@, today, 0),
        names_weekday("δευτερα"@, today, 0),
        names_weekday("δευ"@, today, 0),
{
    lemma_day_word_letters();
    lemma_named_day(today, "monday"@, Weekday::Mon);
    lemma_named_day(today, "mon"@, Weekday::Mon);
    lemma_named_day(today, "δευτέρα"@, Weekday::Mon);
    lemma_named_day(today, "δευτερα"@, Weekday::Mon);
    lemma_named_day(today, "δευ"@, Weekday::Mon);
}

/// The words for Tuesday read as Tuesday.
proof fn lemma_tuesday_words(today: Date)
    requires
        today.valid(),
        day_number(today) + 6 <= max_day_number(),
    ensures
        names_weekday("tuesday"@, today, 1),
        names_weekday("tue"@, today, 1),
        names_weekday("τρίτη"@, today, 1),
        names_weekday("τριτη"@, today, 1),
        names_weekday("τρι"@, today, 1),
{
    lemma_day_word_letters();
    lemma_named_day(today, "tuesday"@, Weekday::Tue);
    lemma_named_day(today, "tue"@, Weekday::Tue);
    lemma_named_day(today, "τρίτη"@, Weekday::Tue);
    lemma_named_day(today, "τριτη"@, Weekday::Tue);
    lemma_named_day(today, "τρι"@, Weekday::Tue);
}

/// The words for Wednesday read as Wednesday.
proof fn lemma_wednesday_words(today: Date)
    requires
        today.valid(),
        day_number(today) + 6 <= max_day_number(),
    ensures
        names_weekday("wednesday"@, today, 2),
        names_weekday("wed"@, today, 2),
        names_weekday("τετάρτη"@, today, 2),
        names_weekday("τεταρτη"@, today, 2),
        names_weekday("τετ"@, today, 2),
{
    lemma_day_word_letters();
    lemma_named_day(today, "wednesday"@, Weekday::Wed);
    lemma_named_day(today, "wed"@, Weekday::Wed);
    lemma_named_day(today, "τετάρτη"@, Weekday::Wed);
    lemma_named_day(today, "τεταρτη"@, Weekday::Wed);
    lemma_named_day(today, "τετ"@, Weekday::Wed);
}

/// The words for Thursday read as Thursday.
proof fn lemma_thursday_words(today: Date)
    requires
        today.valid(),
        day_number(today) + 6 <= max_day_number(),
    ensures
        names_weekday("thursday"@, today, 3),
        names_weekday("thu"@, today, 3),
        names_weekday("πέμπτη"@, today, 3),
        names_weekday("πεμπτη"@, today, 3),
        names_weekday("πεμ"@, today, 3),
{
    lemma_day_word_letters();
    lemma_named_day(today, "thursday"@, Weekday::Thu);
    lemma_named_day(today, "thu"@, Weekday::Thu);
    lemma_named_day(today, "πέμπτη"@, Weekday::Thu);
    lemma_named_day(today, "πεμπτη"@, Weekday::Thu);
    lemma_named_day(today, "πεμ"@, Weekday::Thu);
}

/// The words for Friday read as Friday.
proof fn lemma_friday_words(today: Date)
    requires
        today.valid(),
        day_number(today) + 6 <= max_day_number(),
    ensures
        names_weekday("friday"@, today, 4),
        names_weekday("fri"@, today, 4),
        names_weekday("παρασκευή"@, today, 4),
        names_weekday("παρασκευη"@, today, 4),
        names_weekday("παρ"@, today, 4),
{
    lemma_day_word_letters();
    lemma_named_day(today, "friday"@, Weekday::Fri);
    lemma_named_day(today, "fri"@, Weekday::Fri);
    lemma_named_day(today, "παρασκευή"@, Weekday::Fri);
    lemma_named_day(today, "παρασκευη"@, Weekday::Fri);
    lemma_named_day(today, "παρ"@, Weekday::Fri);
}

/// The words for Saturday read as Saturday.
proof fn lemma_saturday_words(today: Date)
    requires
        today.valid(),
        day_number(today) + 6 <= max_day_number(),
    ensures
        names_weekday("saturday"@, today, 5),
        names_weekday("sat"@, today, 5),
        names_weekday("σάββατο"@, today, 5),
        names_weekday("σαββατο"@, today, 5),
        names_weekday("σαβ"@, today, 5),
{
    lemma_day_word_letters();
    lemma_named_day(today, "saturday"@, Weekday::Sat);
    lemma_named_day(today, "sat"@, Weekday::Sat);
    lemma_named_day(today, "σάββατο"@, Weekday::Sat);
    lemma_named_day(today, "σαββατο"@, Weekday::Sat);
    lemma_named_day(today, "σαβ"@, Weekday::Sat);
}

/// The words for Sunday read as Sunday.
proof fn lemma_sunday_words(today: Date)
    requires
        today.valid(),
        day_number(today) + 6 <= max_day_number(),
    ensures
        names_weekday("sunday"@, today, 6),
        names_weekday("sun"@, today, 6),
        names_weekday("κυριακή"@, today, 6),
        names_weekday("κυριακη"@, today, 6),
        names_weekday("κυρ"@, today, 6),
{
    lemma_day_word_letters();
    lemma_named_day(today, "sunday"@, Weekday::Sun);
    lemma_named_day(today, "sun"@, Weekday::Sun);
    lemma_named_day(today, "κυριακή"@, Weekday::Sun);
    lemma_named_day(today, "κυριακη"@, Weekday::Sun);
    lemma_named_day(today, "κυρ"@, Weekday::Sun);
}

/// Every weekday word, English or Greek, full or short, with or without the
/// accent, names the weekday it spells: the date it reads as falls on that
/// weekday, within six days from today.
pub proof fn lemma_weekday_words(today: Date)
    requires
        today.valid(),
        day_number(today) + 6 <= max_day_number(),
    ensures
        names_weekday("monday"@, today, 0),
        names_weekday("mon"@, today, 0),
        names_weekday("δευτέρα"@, today, 0),
        names_weekday("δευτερα"@, today, 0),
        names_weekday("δευ"@, today, 0),
        names_weekday("tuesday"@, today, 1),
        names_weekday("tue"@, today, 1),
        names_weekday("τρίτη"@, today, 1),
        names_weekday("τριτη"@, today, 1),
        names_weekday("τρι"@, today, 1),
        names_weekday("wednesday"@, today, 2),
        names_weekday("wed"@, today, 2),
        names_weekday("τετάρτη"@, today, 2),
        names_weekday("τεταρτη"@, today, 2),
        names_weekday("τετ"@, today, 2),
        names_weekday("thursday"@, today, 3),
        names_weekday("thu"@, today, 3),
        names_weekday("πέμπτη"@, today, 3),
        names_weekday("πεμπτη"@, today, 3),
        names_weekday("πεμ"@, today, 3),
        names_weekday("friday"@, today, 4),
        names_weekday("fri"@, today, 4),
        names_weekday("παρασκευή"@, today, 4),
        names_weekday("παρασκευη"@, today, 4),
        names_weekday("παρ"@, today, 4),
        names_weekday("saturday"@, today, 5),
        names_weekday("sat"@, today, 5),
        names_weekday("σάββατο"@, today, 5),
        names_weekday("σαββατο"@, today, 5),
        names_weekday("σαβ"@, today, 5),
        names_weekday("sunday"@, today, 6),
        names_weekday("sun"@, today, 6),
        names_weekday("κυριακή"@, today, 6),
        names_weekday("κυριακη"@, today, 6),
        names_weekday("κυρ"@, today, 6),
{
    lemma_monday_words(today);
    lemma_tuesday_words(today);
    lemma_wednesday_words(today);
    lemma_thursday_words(today);
    lemma_friday_words(today);
    lemma_saturday_words(today);
    lemma_sunday_words(today);
}


/// `w` reads, relative to `today`, as the day `n` days on.
pub open spec fn names_day_ahead(w: Seq<char>, today: Date, n: int) -> bool {
    match date_word(w, today) {
        Some(d) => d.valid() && day_number(d) == day_number(today) + n,
        None => false,
    }
}

/// "today" and "σήμερα" (with or without the accent) read as today;
/// "tomorrow" and "αύριο" (with or without the accent) read as the day after.
pub proof fn lemma_relative_words(today: Date)
    requires
        today.valid(),
        day_number(today) + 6 <= max_day_number(),
    ensures
        names_day_ahead("today"@, today, 0),
        names_day_ahead("σήμερα"@, today, 0),
        names_day_ahead("σημερα"@, today, 0),
        names_day_ahead("tomorrow"@, today, 1),
        names_day_ahead("αύριο"@, today, 1),
        names_day_ahead("αυριο"@, today, 1),
{
    lemma_day_word_letters();
    lemma_day_number_bounds(today);
    crate::date::lemma_date_after_valid(today, 1);
}

} // verus!
