//! Repeat rules: the subset of iCalendar `RRULE` the editor can express, and
//! its text form. Rules with parts the editor cannot round-trip (`BYDAY`,
//! `BYSETPOS`, …) deliberately fail to parse, so an unsupported rule is kept
//! verbatim rather than silently simplified.

use vstd::prelude::*;
use chrono::Datelike;
use crate::date::{valid_ymd, Date};
use crate::text::{
    all_digits, byte_len, byte_prefix, chars_of, decimal_digits, decimal_value, find_char,
    first_index, is_boundary, non_empty_piece, parse_unsigned, parse_unsigned_exec, push_all,
    push_padded, push_str, seq_is, split_on, string_of, sub_chars, trim, trimmed, upper,
    upper_exec, zero_padded, lemma_split_on_len, is_digit, joined, lemma_ascii_byte_len,
    lemma_decimal_digits, lemma_filter_keeps_all, lemma_key_value, lemma_split_joined,
    lemma_trim_id, lemma_upper_id, lemma_zero_padded, is_white_space,
};

verus! {

/// How often an event repeats, as far as the built-in editor can express it.
#[derive(Clone, Copy, Debug, Default, PartialEq, Eq, Structural)]
pub enum Freq {
    #[default]
    Never,
    Daily,
    Weekly,
    Monthly,
    Yearly,
}

/// When a repeating event stops.
#[derive(Clone, Copy, Debug, PartialEq, Eq, Structural)]
pub enum RepeatEnd {
    Never,
    After(u32),
    On(Date),
}

/// The subset of `RRULE` the editor understands.
#[derive(Clone, Copy, Debug, PartialEq, Eq, Structural)]
pub struct Recurrence {
    pub freq: Freq,
    pub interval: u16,
    pub end: RepeatEnd,
}

/// The `FREQ` value for a frequency, `None` for one that does not repeat.
pub open spec fn ical_name(f: Freq) -> Option<Seq<char>> {
    match f {
        Freq::Never => None,
        Freq::Daily => Some("DAILY"@),
        Freq::Weekly => Some("WEEKLY"@),
        Freq::Monthly => Some("MONTHLY"@),
        Freq::Yearly => Some("YEARLY"@),
    }
}

/// The frequency an uppercase `FREQ` value names, among those the editor has.
pub open spec fn freq_named(s: Seq<char>) -> Option<Freq> {
    if s == "DAILY"@ {
        Some(Freq::Daily)
    } else if s == "WEEKLY"@ {
        Some(Freq::Weekly)
    } else if s == "MONTHLY"@ {
        Some(Freq::Monthly)
    } else if s == "YEARLY"@ {
        Some(Freq::Yearly)
    } else {
        None
    }
}

/// A year as `{:04}` writes it: zero-padded to four characters, sign included.
pub open spec fn year_text(y: int) -> Seq<char> {
    if y < 0 {
        seq!['-'] + zero_padded(decimal_digits((-y) as nat), 3)
    } else {
        zero_padded(decimal_digits(y as nat), 4)
    }
}

/// The `RRULE` parts after `FREQ` that say when the series stops.
pub open spec fn end_text(e: RepeatEnd) -> Seq<char> {
    match e {
        RepeatEnd::Never => Seq::empty(),
        RepeatEnd::After(n) => ";COUNT="@ + decimal_digits(n as nat),
        RepeatEnd::On(d) => ";UNTIL="@ + year_text(d.year as int) + zero_padded(
            decimal_digits(d.month as nat),
            2,
        ) + zero_padded(decimal_digits(d.day as nat), 2) + "T235959Z"@,
    }
}

/// The `RRULE` value for a recurrence, `None` when it does not repeat.
pub open spec fn rrule_text(r: Recurrence) -> Option<Seq<char>> {
    match ical_name(r.freq) {
        None => None,
        Some(name) => Some(
            "FREQ="@ + name + (if r.interval > 1 {
                ";INTERVAL="@ + decimal_digits(r.interval as nat)
            } else {
                Seq::empty()
            }) + end_text(r.end),
        ),
    }
}

/// The date an 8-digit `YYYYMMDD` text spells, as year, month and day.
pub open spec fn eight_digit_date(s: Seq<char>) -> Option<(int, int, int)> {
    if s.len() == 8 && all_digits(s) {
        Some(
            (
                decimal_value(s.take(4)),
                decimal_value(s.subrange(4, 6)),
                decimal_value(s.subrange(6, 8)),
            ),
        )
    } else {
        None
    }
}

/// What chrono's `NaiveDate::parse_from_str(s, "%Y%m%d")` gives for a text
/// that is not eight ASCII digits.
pub uninterp spec fn compact_date(s: Seq<char>) -> Option<Date>;

/// What `NaiveDate::parse_from_str(s, "%Y%m%d")` gives: for eight ASCII digits,
/// the date they spell if it is one and nothing otherwise; for any other
/// text, the named result.
pub open spec fn until_date(s: Seq<char>) -> Option<Date> {
    match eight_digit_date(s) {
        Some((y, m, d)) => if valid_ymd(y, m, d) {
            Some(Date { year: y as i32, month: m as u8, day: d as u8 })
        } else {
            None
        },
        None => compact_date(s),
    }
}

/// Reads a `YYYYMMDD` date through chrono's `NaiveDate::parse_from_str` with
/// the format `%Y%m%d`. Claimed of it: for exactly eight ASCII digits it
/// returns the date they spell when that is a valid date and `None` when it
/// is not (chrono reads an unsigned `%Y` as four digits, then two each for
/// `%m` and `%d`, requires the input to be used up, and then checks the date);
/// for other texts the result is a function of the text alone, left unsaid
/// beyond that any date it returns is one chrono can hold.
#[verifier::external_body]
pub(crate) fn parse_compact_date(s: &str) -> (r: Option<Date>)
    ensures
        r == until_date(s@),
        eight_digit_date(s@) is None ==> r == compact_date(s@),
        r matches Some(d) ==> d.valid(),
{
    chrono::NaiveDate::parse_from_str(s, "%Y%m%d").ok().map(
        |d| Date { year: d.year(), month: d.month() as u8, day: d.day() as u8 },
    )
}

/// The leading characters of an `UNTIL` value that hold its first eight bytes.
pub open spec fn until_prefix(v: Seq<char>) -> Seq<char> {
    if byte_len(v) <= 8 {
        v
    } else {
        v.take(choose|i: int| 0 <= i <= v.len() && byte_len(#[trigger] v.take(i)) == 8)
    }
}

/// Progress through a rule's parts.
#[derive(Clone, Copy)]
pub enum Scan {
    Going { freq: Option<Freq>, interval: u16, end: RepeatEnd },
    /// A part the editor cannot represent, or one that does not parse.
    Rejected,
    /// An `UNTIL` value whose eighth byte falls inside a character.
    SlicesAChar,
}

/// The state before any part is read.
pub open spec fn scan_start() -> Scan {
    Scan::Going { freq: None, interval: 1, end: RepeatEnd::Never }
}

/// Reads one `KEY=VALUE` part.
pub open spec fn step(state: Scan, part: Seq<char>) -> Scan {
    match state {
        Scan::Going { freq, interval, end } => {
            let k = first_index(part, '=');
            if k >= part.len() {
                Scan::Rejected
            } else {
                let key = upper(trim(part.take(k)));
                let value = part.skip(k + 1);
                if key == "FREQ"@ {
                    match freq_named(upper(trim(value))) {
                        Some(f) => Scan::Going { freq: Some(f), interval, end },
                        None => Scan::Rejected,
                    }
                } else if key == "INTERVAL"@ {
                    match parse_unsigned(trim(value), 0xffff) {
                        Some(n) => Scan::Going { freq, interval: n as u16, end },
                        None => Scan::Rejected,
                    }
                } else if key == "COUNT"@ {
                    match parse_unsigned(trim(value), 0xffff_ffff) {
                        Some(n) => Scan::Going { freq, interval, end: RepeatEnd::After(n as u32) },
                        None => Scan::Rejected,
                    }
                } else if key == "UNTIL"@ {
                    let v = trim(value);
                    if byte_len(v) > 8 && !is_boundary(v, 8) {
                        Scan::SlicesAChar
                    } else {
                        match until_date(until_prefix(v)) {
                            Some(d) => Scan::Going { freq, interval, end: RepeatEnd::On(d) },
                            None => Scan::Rejected,
                        }
                    }
                } else if key == "WKST"@ {
                    state
                } else {
                    Scan::Rejected
                }
            }
        },
        _ => state,
    }
}

/// Reads the parts in order, stopping at the first that is rejected.
pub open spec fn scan(parts: Seq<Seq<char>>) -> Scan
    decreases parts.len(),
{
    if parts.len() == 0 {
        scan_start()
    } else {
        step(scan(parts.drop_last()), parts.last())
    }
}

/// A rule's non-empty `;`-separated parts.
pub open spec fn rule_parts(rule: Seq<char>) -> Seq<Seq<char>> {
    split_on(trim(rule), ';').filter(non_empty_piece())
}

/// The recurrence a rule parses to, if the editor can represent it.
pub open spec fn parse_recurrence(rule: Seq<char>) -> Option<Recurrence> {
    match scan(rule_parts(rule)) {
        Scan::Going { freq: Some(f), interval, end } => Some(
            Recurrence { freq: f, interval: if interval >= 1 { interval } else { 1 }, end },
        ),
        _ => None,
    }
}

impl Freq {
    /// The `FREQ` value, or `None` for a frequency that does not repeat.
    pub fn as_ical(self) -> (r: Option<&'static str>)
        ensures
            match r {
                Some(s) => ical_name(self) == Some(s@),
                None => ical_name(self) is None,
            },
    {
        match self {
            Freq::Never => None,
            Freq::Daily => Some("DAILY"),
            Freq::Weekly => Some("WEEKLY"),
            Freq::Monthly => Some("MONTHLY"),
            Freq::Yearly => Some("YEARLY"),
        }
    }
}

impl Default for Recurrence {
    fn default() -> (r: Recurrence)
        ensures
            r == (Recurrence { freq: Freq::Never, interval: 1, end: RepeatEnd::Never }),
    {
        Recurrence { freq: Freq::Never, interval: 1, end: RepeatEnd::Never }
    }
}

fn push_year(out: &mut Vec<char>, y: i32)
    ensures
        final(out)@ == old(out)@ + year_text(y as int),
{
    if y < 0 {
        let ghost start = out@;
        out.push('-');
        let n: u32 = (-(y as i64)) as u32;
        push_padded(out, n, 3);
        assert(out@ =~= start + year_text(y as int));
    } else {
        push_padded(out, y as u32, 4);
    }
}

impl Recurrence {
    /// Renders to an `RRULE` value, or `None` when the event does not repeat.
    pub fn to_rrule(self) -> (r: Option<String>)
        ensures
            match r {
                Some(s) => rrule_text(self) == Some(s@),
                None => rrule_text(self) is None,
            },
    {
        let name = match self.freq.as_ical() {
            Some(n) => n,
            None => return None,
        };
        let mut out: Vec<char> = Vec::new();
        push_str(&mut out, "FREQ=");
        push_str(&mut out, name);
        let ghost head = out@;
        if self.interval > 1 {
            push_str(&mut out, ";INTERVAL=");
            push_padded(&mut out, self.interval as u32, 0);
            assert(zero_padded(decimal_digits(self.interval as nat), 0) == decimal_digits(
                self.interval as nat,
            ));
        }
        let ghost mid = out@;
        match self.end {
            RepeatEnd::Never => {},
            RepeatEnd::After(n) => {
                push_str(&mut out, ";COUNT=");
                push_padded(&mut out, n, 0);
                assert(zero_padded(decimal_digits(n as nat), 0) == decimal_digits(n as nat));
            },
            RepeatEnd::On(d) => {
                push_str(&mut out, ";UNTIL=");
                push_year(&mut out, d.year);
                push_padded(&mut out, d.month as u32, 2);
                push_padded(&mut out, d.day as u32, 2);
                push_str(&mut out, "T235959Z");
            },
        }
        let s = string_of(out.as_slice());
        assert(s@ =~= rrule_text(self)->0);
        Some(s)
    }
}


/// Reads one part of a rule.
fn step_exec(state: Scan, part: &[char]) -> (r: Scan)
    ensures
        r == step(state, part@),
{
    let (freq, interval, end) = match state {
        Scan::Going { freq, interval, end } => (freq, interval, end),
        _ => return state,
    };
    let k = find_char(part, '=');
    if k >= part.len() {
        return Scan::Rejected;
    }
    let raw_key = sub_chars(part, 0, k);
    let key = upper_exec(trimmed(raw_key.as_slice()).as_slice());
    let value = sub_chars(part, k + 1, part.len());
    assert(value@ =~= part@.skip(k + 1));
    assert(raw_key@ =~= part@.take(k as int));
    if seq_is(key.as_slice(), "FREQ") {
        let v = upper_exec(trimmed(value.as_slice()).as_slice());
        let f = if seq_is(v.as_slice(), "DAILY") {
            Freq::Daily
        } else if seq_is(v.as_slice(), "WEEKLY") {
            Freq::Weekly
        } else if seq_is(v.as_slice(), "MONTHLY") {
            Freq::Monthly
        } else if seq_is(v.as_slice(), "YEARLY") {
            Freq::Yearly
        } else {
            return Scan::Rejected;
        };
        Scan::Going { freq: Some(f), interval, end }
    } else if seq_is(key.as_slice(), "INTERVAL") {
        let v = trimmed(value.as_slice());
        match parse_unsigned_exec(v.as_slice(), 0xffff) {
            Some(n) => Scan::Going { freq, interval: n as u16, end },
            None => Scan::Rejected,
        }
    } else if seq_is(key.as_slice(), "COUNT") {
        let v = trimmed(value.as_slice());
        match parse_unsigned_exec(v.as_slice(), 0xffff_ffff) {
            Some(n) => Scan::Going { freq, interval, end: RepeatEnd::After(n) },
            None => Scan::Rejected,
        }
    } else if seq_is(key.as_slice(), "UNTIL") {
        let v = trimmed(value.as_slice());
        match byte_prefix(v.as_slice(), 8) {
            None => Scan::SlicesAChar,
            Some(i) => {
                proof {
                    lemma_until_prefix(v@, i as int);
                }
                let pre = sub_chars(v.as_slice(), 0, i);
                assert(pre@ =~= v@.take(i as int));
                let text = string_of(pre.as_slice());
                match parse_compact_date(text.as_str()) {
                    Some(d) => Scan::Going { freq, interval, end: RepeatEnd::On(d) },
                    None => Scan::Rejected,
                }
            },
        }
    } else if seq_is(key.as_slice(), "WKST") {
        state
    } else {
        Scan::Rejected
    }
}

proof fn lemma_until_prefix(v: Seq<char>, i: int)
    requires
        0 <= i <= v.len(),
        byte_len(v.take(i)) == 8 || (i == v.len() && byte_len(v) <= 8),
    ensures
        is_boundary(v, 8) || byte_len(v) <= 8,
        until_prefix(v) == v.take(i),
{
    if byte_len(v.take(i)) == 8 && i < v.len() {
        crate::text::lemma_byte_len_take_monotone(v, i, v.len() as int);
        assert(v.take(v.len() as int) =~= v);
    }
    if byte_len(v) <= 8 {
        if i < v.len() {
            crate::text::lemma_byte_len_take_monotone(v, i, v.len() as int);
            assert(v.take(v.len() as int) =~= v);
        }
        assert(v.take(i) =~= v);
    } else {
        let j = choose|j: int| 0 <= j <= v.len() && byte_len(#[trigger] v.take(j)) == 8;
        assert(byte_len(v.take(i)) == 8);
        if j < i {
            crate::text::lemma_byte_len_take_monotone(v, j, i);
        } else if i < j {
            crate::text::lemma_byte_len_take_monotone(v, i, j);
        }
    }
}

impl Recurrence {
    /// Parses an `RRULE` value, or `None` when it uses parts the editor
    /// cannot represent.
    pub fn parse(rule: &str) -> (r: Option<Recurrence>)
        ensures
            r == parse_recurrence(rule@),
    {
        let all = chars_of(rule);
        let t = trimmed(all.as_slice());
        let ghost pred = non_empty_piece();
        let mut cur: Vec<char> = Vec::new();
        let mut state = Scan::Going { freq: None, interval: 1, end: RepeatEnd::Never };
        let mut i: usize = 0;
        assert(t@.take(0) =~= Seq::<char>::empty());
        assert(split_on(t@.take(0), ';').drop_last() =~= Seq::<Seq<char>>::empty());
        assert(Seq::<Seq<char>>::empty().filter(pred) =~= Seq::<Seq<char>>::empty()) by {
            reveal_with_fuel(Seq::filter, 1);
        }
        while i < t.len()
            invariant
                i <= t@.len(),
                t@ == trim(rule@),
                pred == non_empty_piece(),
                cur@ == split_on(t@.take(i as int), ';').last(),
                state == scan(split_on(t@.take(i as int), ';').drop_last().filter(pred)),
            decreases t.len() - i,
        {
            let ghost pieces = split_on(t@.take(i as int), ';');
            proof {
                lemma_split_on_len(t@.take(i as int), ';');
            }
            assert(t@.take(i + 1).drop_last() =~= t@.take(i as int));
            if t[i] == ';' {
                proof {
                    reveal_with_fuel(Seq::filter, 1);
                    assert(pieces =~= pieces.drop_last().push(pieces.last()));
                    assert(split_on(t@.take(i + 1), ';') == pieces.push(Seq::<char>::empty()));
                    assert(pieces.push(Seq::<char>::empty()).drop_last() =~= pieces);
                    assert(pieces.drop_last().push(pieces.last()).drop_last() =~= pieces.drop_last());
                }
                if cur.len() > 0 {
                    proof {
                        assert(pieces.filter(pred) == pieces.drop_last().filter(pred).push(cur@));
                        assert(pieces.drop_last().filter(pred).push(cur@).drop_last() =~= pieces.drop_last().filter(pred));
                    }
                    state = step_exec(state, cur.as_slice());
                } else {
                    assert(pieces.filter(pred) == pieces.drop_last().filter(pred));
                }
                cur = Vec::new();
            } else {
                proof {
                    let next = pieces.update(pieces.len() - 1, pieces.last().push(t@[i as int]));
                    assert(split_on(t@.take(i + 1), ';') == next);
                    assert(next.drop_last() =~= pieces.drop_last());
                }
                cur.push(t[i]);
            }
            i = i + 1;
        }
        let ghost pieces = split_on(t@, ';');
        assert(t@.take(t@.len() as int) =~= t@);
        proof {
            lemma_split_on_len(t@, ';');
            reveal_with_fuel(Seq::filter, 1);
            assert(pieces =~= pieces.drop_last().push(pieces.last()));
        }
        if cur.len() > 0 {
            proof {
                assert(pieces.filter(pred) == pieces.drop_last().filter(pred).push(cur@));
                assert(pieces.drop_last().filter(pred).push(cur@).drop_last() =~= pieces.drop_last().filter(pred));
            }
            state = step_exec(state, cur.as_slice());
        } else {
            assert(pieces.filter(pred) == pieces.drop_last().filter(pred));
        }
        assert(state == scan(rule_parts(rule@)));
        match state {
            Scan::Going { freq: Some(f), interval, end } => Some(
                Recurrence { freq: f, interval: if interval >= 1 { interval } else { 1 }, end },
            ),
            _ => None,
        }
    }
}


proof fn lemma_keys_revealed()
    ensures
        "FREQ"@ =~= seq!['F', 'R', 'E', 'Q'],
        "INTERVAL"@ =~= seq!['I', 'N', 'T', 'E', 'R', 'V', 'A', 'L'],
        "COUNT"@ =~= seq!['C', 'O', 'U', 'N', 'T'],
        "UNTIL"@ =~= seq!['U', 'N', 'T', 'I', 'L'],
        "WKST"@ =~= seq!['W', 'K', 'S', 'T'],
        "DAILY"@ =~= seq!['D', 'A', 'I', 'L', 'Y'],
        "WEEKLY"@ =~= seq!['W', 'E', 'E', 'K', 'L', 'Y'],
        "MONTHLY"@ =~= seq!['M', 'O', 'N', 'T', 'H', 'L', 'Y'],
        "YEARLY"@ =~= seq!['Y', 'E', 'A', 'R', 'L', 'Y'],
        "FREQ="@ =~= seq!['F', 'R', 'E', 'Q', '='],
        ";INTERVAL="@ =~= seq![';', 'I', 'N', 'T', 'E', 'R', 'V', 'A', 'L', '='],
        ";COUNT="@ =~= seq![';', 'C', 'O', 'U', 'N', 'T', '='],
        ";UNTIL="@ =~= seq![';', 'U', 'N', 'T', 'I', 'L', '='],
        "T235959Z"@ =~= seq!['T', '2', '3', '5', '9', '5', '9', 'Z'],
{
    reveal_strlit("FREQ");
    reveal_strlit("INTERVAL");
    reveal_strlit("COUNT");
    reveal_strlit("UNTIL");
    reveal_strlit("WKST");
    reveal_strlit("DAILY");
    reveal_strlit("WEEKLY");
    reveal_strlit("MONTHLY");
    reveal_strlit("YEARLY");
    reveal_strlit("FREQ=");
    reveal_strlit(";INTERVAL=");
    reveal_strlit(";COUNT=");
    reveal_strlit(";UNTIL=");
    reveal_strlit("T235959Z");
}

/// A key of the rule grammar, as written: uppercase, no spaces, no `=`.
proof fn lemma_plain_key(key: Seq<char>)
    requires
        key.len() > 0,
        forall|i: int| 0 <= i < key.len() ==> 'A' <= #[trigger] key[i] <= 'Z',
    ensures
        trim(key) == key,
        upper(key) == key,
        !key.contains('='),
        !key.contains(';'),
{
    assert(key.last() == key[key.len() - 1]);
    lemma_trim_id(key);
    lemma_upper_id(key);
    if key.contains('=') {
        let k = choose|k: int| 0 <= k < key.len() && key[k] == '=';
        assert('A' <= key[k] <= 'Z');
    }
    if key.contains(';') {
        let k = choose|k: int| 0 <= k < key.len() && key[k] == ';';
        assert('A' <= key[k] <= 'Z');
    }
}

/// The part naming a frequency.
pub open spec fn freq_part(f: Freq) -> Seq<char> {
    "FREQ"@ + seq!['='] + ical_name(f)->0
}

/// The part giving an interval.
pub open spec fn interval_part(n: nat) -> Seq<char> {
    "INTERVAL"@ + seq!['='] + decimal_digits(n)
}

/// The part that says when the series stops.
pub open spec fn end_part(e: RepeatEnd) -> Seq<char> {
    match e {
        RepeatEnd::After(n) => "COUNT"@ + seq!['='] + decimal_digits(n as nat),
        RepeatEnd::On(d) => "UNTIL"@ + seq!['='] + until_value(d),
        RepeatEnd::Never => Seq::empty(),
    }
}

/// The `UNTIL` value written for a date.
pub open spec fn until_value(d: Date) -> Seq<char> {
    date_digits(d) + "T235959Z"@
}

/// A date's `YYYYMMDD` digits.
pub open spec fn date_digits(d: Date) -> Seq<char> {
    year_text(d.year as int) + zero_padded(decimal_digits(d.month as nat), 2) + zero_padded(
        decimal_digits(d.day as nat),
        2,
    )
}

proof fn lemma_step_freq(freq: Option<Freq>, interval: u16, end: RepeatEnd, f: Freq)
    requires
        f != Freq::Never,
    ensures
        step(Scan::Going { freq, interval, end }, freq_part(f)) == (Scan::Going {
            freq: Some(f),
            interval,
            end,
        }),
        !freq_part(f).contains(';'),
        freq_part(f).len() > 0,
{
    lemma_keys_revealed();
    let key = "FREQ"@;
    let name = ical_name(f)->0;
    lemma_plain_key(key);
    lemma_plain_key(name);
    lemma_key_value(key, name);
    let p = freq_part(f);
    if p.contains(';') {
        let k = choose|k: int| 0 <= k < p.len() && p[k] == ';';
        if k < 4 {
            assert(p[k] == key[k]);
        } else if k > 4 {
            assert(p[k] == name[k - 5]);
        }
    }
}

proof fn lemma_digits_value_part(n: nat, max: int)
    requires
        n <= max,
    ensures
        trim(decimal_digits(n)) == decimal_digits(n),
        parse_unsigned(decimal_digits(n), max) == Some(n as int),
        !decimal_digits(n).contains(';'),
{
    let v = decimal_digits(n);
    lemma_decimal_digits(n);
    assert(is_digit(v[0]));
    assert(is_digit(v[v.len() - 1]));
    assert(v.last() == v[v.len() - 1]);
    lemma_trim_id(v);
    if v.contains(';') {
        let k = choose|k: int| 0 <= k < v.len() && v[k] == ';';
        assert(is_digit(v[k]));
    }
}

proof fn lemma_step_interval(freq: Option<Freq>, interval: u16, end: RepeatEnd, n: u16)
    ensures
        step(Scan::Going { freq, interval, end }, interval_part(n as nat)) == (Scan::Going {
            freq,
            interval: n,
            end,
        }),
        !interval_part(n as nat).contains(';'),
        interval_part(n as nat).len() > 0,
{
    lemma_keys_revealed();
    let key = "INTERVAL"@;
    let v = decimal_digits(n as nat);
    lemma_plain_key(key);
    lemma_key_value(key, v);
    lemma_digits_value_part(n as nat, 0xffff);
    let p = interval_part(n as nat);
    if p.contains(';') {
        let k = choose|k: int| 0 <= k < p.len() && p[k] == ';';
        if k < 8 {
            assert(p[k] == key[k]);
        } else if k > 8 {
            assert(p[k] == v[k - 9]);
        }
    }
}

proof fn lemma_step_count(freq: Option<Freq>, interval: u16, end: RepeatEnd, n: u32)
    ensures
        step(Scan::Going { freq, interval, end }, end_part(RepeatEnd::After(n))) == (
        Scan::Going { freq, interval, end: RepeatEnd::After(n) }),
        !end_part(RepeatEnd::After(n)).contains(';'),
        end_part(RepeatEnd::After(n)).len() > 0,
{
    lemma_keys_revealed();
    let key = "COUNT"@;
    let v = decimal_digits(n as nat);
    lemma_plain_key(key);
    lemma_key_value(key, v);
    lemma_digits_value_part(n as nat, 0xffff_ffff);
    let p = end_part(RepeatEnd::After(n));
    if p.contains(';') {
        let k = choose|k: int| 0 <= k < p.len() && p[k] == ';';
        if k < 5 {
            assert(p[k] == key[k]);
        } else if k > 5 {
            assert(p[k] == v[k - 6]);
        }
    }
}

proof fn lemma_date_digits(d: Date)
    requires
        d.valid(),
        0 <= d.year <= 9999,
    ensures
        date_digits(d).len() == 8,
        all_digits(date_digits(d)),
        eight_digit_date(date_digits(d)) == Some((d.year as int, d.month as int, d.day as int)),
{
    let y = year_text(d.year as int);
    let m = zero_padded(decimal_digits(d.month as nat), 2);
    let dd = zero_padded(decimal_digits(d.day as nat), 2);
    lemma_decimal_digits(d.year as nat);
    lemma_decimal_digits(d.month as nat);
    lemma_decimal_digits(d.day as nat);
    lemma_zero_padded(decimal_digits(d.year as nat), 4);
    lemma_zero_padded(decimal_digits(d.month as nat), 2);
    lemma_zero_padded(decimal_digits(d.day as nat), 2);
    let s = date_digits(d);
    assert(s =~= y + m + dd);
    assert forall|i: int| 0 <= i < s.len() implies is_digit(#[trigger] s[i]) by {
        if i < 4 {
            assert(s[i] == y[i]);
        } else if i < 6 {
            assert(s[i] == m[i - 4]);
        } else {
            assert(s[i] == dd[i - 6]);
        }
    }
    assert(s.take(4) =~= y);
    assert(s.subrange(4, 6) =~= m);
    assert(s.subrange(6, 8) =~= dd);
}

proof fn lemma_until_value(d: Date)
    requires
        d.valid(),
        0 <= d.year <= 9999,
    ensures
        trim(until_value(d)) == until_value(d),
        byte_len(until_value(d)) > 8,
        crate::text::is_boundary(until_value(d), 8),
        until_prefix(until_value(d)) == date_digits(d),
        !until_value(d).contains(';'),
{
    reveal_strlit("T235959Z");
    let v = until_value(d);
    let dd = date_digits(d);
    lemma_date_digits(d);
    assert(v.len() == 16);
    assert(is_digit(v[0])) by {
        assert(v[0] == dd[0]);
    }
    assert(v.last() == 'Z');
    lemma_trim_id(v);
    assert forall|i: int| 0 <= i < v.len() implies (#[trigger] v[i] as u32) < 128 by {
        if i < 8 {
            assert(v[i] == dd[i]);
            assert(is_digit(dd[i]));
        }
    }
    lemma_ascii_byte_len(v);
    assert(v.take(8) =~= dd);
    assert forall|i: int| 0 <= i < v.take(8).len() implies (#[trigger] v.take(8)[i] as u32)
        < 128 by {
        assert(v.take(8)[i] == v[i]);
    }
    lemma_ascii_byte_len(v.take(8));
    assert(crate::text::is_boundary(v, 8));
    let j = choose|j: int| 0 <= j <= v.len() && byte_len(#[trigger] v.take(j)) == 8;
    assert forall|i: int| 0 <= i < v.take(j).len() implies (#[trigger] v.take(j)[i] as u32)
        < 128 by {
        assert(v.take(j)[i] == v[i]);
    }
    lemma_ascii_byte_len(v.take(j));
    if v.contains(';') {
        let k = choose|k: int| 0 <= k < v.len() && v[k] == ';';
        if k < 8 {
            assert(v[k] == dd[k]);
            assert(is_digit(dd[k]));
        }
    }
}

#[verifier::spinoff_prover]
#[verifier::rlimit(40)]
proof fn lemma_step_until(freq: Option<Freq>, interval: u16, end: RepeatEnd, d: Date)
    requires
        d.valid(),
        0 <= d.year <= 9999,
    ensures
        step(Scan::Going { freq, interval, end }, end_part(RepeatEnd::On(d))) == (Scan::Going {
            freq,
            interval,
            end: RepeatEnd::On(d),
        }),
        !end_part(RepeatEnd::On(d)).contains(';'),
        end_part(RepeatEnd::On(d)).len() > 0,
{
    lemma_keys_revealed();
    let key = "UNTIL"@;
    let v = until_value(d);
    lemma_plain_key(key);
    lemma_key_value(key, v);
    lemma_until_value(d);
    lemma_date_digits(d);
    let p = end_part(RepeatEnd::On(d));
    if p.contains(';') {
        let k = choose|k: int| 0 <= k < p.len() && p[k] == ';';
        if k < 5 {
            assert(p[k] == key[k]);
        } else if k > 5 {
            assert(p[k] == v[k - 6]);
        }
    }
}


proof fn lemma_last_not_space(r: Recurrence)
    requires
        r.freq != Freq::Never,
        r.end matches RepeatEnd::On(d) ==> d.valid() && 0 <= d.year <= 9999,
    ensures
        r.end !is Never ==> end_part(r.end).len() > 0 && !is_white_space(end_part(r.end).last()),
        interval_part(r.interval as nat).len() > 0 && !is_white_space(
            interval_part(r.interval as nat).last(),
        ),
        freq_part(r.freq).len() > 0 && !is_white_space(freq_part(r.freq).last()),
        freq_part(r.freq)[0] == 'F',
{
    lemma_keys_revealed();
    lemma_decimal_digits(r.interval as nat);
    let iv = decimal_digits(r.interval as nat);
    assert(interval_part(r.interval as nat).last() == iv[iv.len() - 1]);
    assert(is_digit(iv[iv.len() - 1]));
    match r.end {
        RepeatEnd::After(n) => {
            lemma_decimal_digits(n as nat);
            let v = decimal_digits(n as nat);
            assert(end_part(r.end).last() == v[v.len() - 1]);
            assert(is_digit(v[v.len() - 1]));
        },
        RepeatEnd::On(d) => {
            assert(end_part(r.end).last() == 'Z');
        },
        RepeatEnd::Never => {},
    }
}

/// Reading back what `to_rrule` wrote gives the same recurrence, for every
/// recurrence that repeats, with an interval of at least one, and (when it
/// ends on a date) a date whose year has four digits.
#[verifier::spinoff_prover]
#[verifier::rlimit(80)]
pub proof fn lemma_rrule_roundtrip(r: Recurrence)
    requires
        r.freq != Freq::Never,
        r.interval >= 1,
        r.end matches RepeatEnd::On(d) ==> d.valid() && 0 <= d.year <= 9999,
    ensures
        rrule_text(r) is Some,
        parse_recurrence(rrule_text(r)->0) == Some(r),
{
    lemma_keys_revealed();
    let start = scan_start();
    let p1 = freq_part(r.freq);
    let p2 = interval_part(r.interval as nat);
    let p3 = end_part(r.end);
    lemma_step_freq(None, 1, RepeatEnd::Never, r.freq);
    lemma_step_interval(Some(r.freq), 1, RepeatEnd::Never, r.interval);
    let after_interval = if r.interval > 1 {
        Scan::Going { freq: Some(r.freq), interval: r.interval, end: RepeatEnd::Never }
    } else {
        Scan::Going { freq: Some(r.freq), interval: 1, end: RepeatEnd::Never }
    };
    match r.end {
        RepeatEnd::After(n) => {
            lemma_step_count(Some(r.freq), r.interval, RepeatEnd::Never, n);
            lemma_step_count(Some(r.freq), 1, RepeatEnd::Never, n);
        },
        RepeatEnd::On(d) => {
            lemma_step_until(Some(r.freq), r.interval, RepeatEnd::Never, d);
            lemma_step_until(Some(r.freq), 1, RepeatEnd::Never, d);
        },
        RepeatEnd::Never => {},
    }
    lemma_last_not_space(r);
    let ps0 = seq![p1];
    let ps1 = if r.interval > 1 {
        ps0.push(p2)
    } else {
        ps0
    };
    let ps = if r.end !is Never {
        ps1.push(p3)
    } else {
        ps1
    };
    let t = rrule_text(r)->0;
    reveal_with_fuel(joined, 3);
    assert(joined(ps0, ';') == p1);
    assert(ps1.drop_last() =~= ps0 || r.interval <= 1);
    assert(ps.drop_last() =~= ps1 || r.end is Never);
    assert(t =~= joined(ps, ';'));
    assert(t.len() > 0);
    assert(t[0] == 'F');
    assert(!is_white_space(t.last()));
    lemma_trim_id(t);
    assert forall|i: int| 0 <= i < ps.len() implies !(#[trigger] ps[i]).contains(';') && ps[i].len()
        > 0 by {
        if i == 0 {
            assert(ps[i] == p1);
        } else if i == 1 && r.interval > 1 {
            assert(ps[i] == p2);
        } else {
            assert(ps[i] == p3);
        }
    }
    lemma_split_joined(ps, ';');
    lemma_filter_keeps_all(ps, crate::text::non_empty_piece());
    assert(rule_parts(t) == ps);
    reveal_with_fuel(scan, 4);
    assert(ps0.drop_last() =~= Seq::<Seq<char>>::empty());
    assert(scan(ps0) == step(start, p1));
    assert(scan(ps1) == after_interval);
}

} // verus!
