//! Calendar dates and wall-clock times in the proleptic Gregorian calendar,
//! over the range of years a calendar date can hold.

use vstd::prelude::*;

verus! {

/// Earliest year a date can hold.
pub const MIN_YEAR: i32 = -262143;

/// Latest year a date can hold.
pub const MAX_YEAR: i32 = 262142;

/// A calendar day.
#[derive(Clone, Copy, Debug, PartialEq, Eq, Structural)]
pub struct Date {
    pub year: i32,
    /// 1 = January … 12 = December.
    pub month: u8,
    pub day: u8,
}

/// A day of the week.
#[derive(Clone, Copy, Debug, PartialEq, Eq, Structural)]
pub enum Weekday {
    Mon,
    Tue,
    Wed,
    Thu,
    Fri,
    Sat,
    Sun,
}

pub open spec fn is_leap(y: int) -> bool {
    y % 4 == 0 && (y % 100 != 0 || y % 400 == 0)
}

/// Days in month `m` (1–12) of year `y`.
pub open spec fn month_days(y: int, m: int) -> int {
    if m == 2 {
        if is_leap(y) {
            29
        } else {
            28
        }
    } else if m == 4 || m == 6 || m == 9 || m == 11 {
        30
    } else {
        31
    }
}

pub open spec fn year_in_range(y: int) -> bool {
    MIN_YEAR <= y <= MAX_YEAR
}

/// Whether year, month and day name a day a date can hold.
pub open spec fn valid_ymd(y: int, m: int, d: int) -> bool {
    year_in_range(y) && 1 <= m <= 12 && 1 <= d <= month_days(y, m)
}

impl Date {
    pub open spec fn valid(self) -> bool {
        valid_ymd(self.year as int, self.month as int, self.day as int)
    }
}

/// Days from 1 January of year 1 to 1 January of year `y`.
pub open spec fn days_before_year(y: int) -> int {
    365 * (y - 1) + (y - 1) / 4 - (y - 1) / 100 + (y - 1) / 400
}

/// Days from 1 January to the first of month `m` in year `y`.
pub open spec fn days_before_month(y: int, m: int) -> int {
    let base: int = if m == 1 {
        0
    } else if m == 2 {
        31
    } else if m == 3 {
        59
    } else if m == 4 {
        90
    } else if m == 5 {
        120
    } else if m == 6 {
        151
    } else if m == 7 {
        181
    } else if m == 8 {
        212
    } else if m == 9 {
        243
    } else if m == 10 {
        273
    } else if m == 11 {
        304
    } else {
        334
    };
    if m > 2 && is_leap(y) {
        base + 1
    } else {
        base
    }
}

/// Days since 1 January of year 1 (which is day 0, a Monday).
pub open spec fn day_number(d: Date) -> int {
    days_before_year(d.year as int) + days_before_month(d.year as int, d.month as int) + d.day - 1
}

/// The day number of the earliest date.
pub open spec fn min_day_number() -> int {
    day_number(Date { year: MIN_YEAR, month: 1, day: 1 })
}

/// The day number of the latest date.
pub open spec fn max_day_number() -> int {
    day_number(Date { year: MAX_YEAR, month: 12, day: 31 })
}

/// 0 for Monday through 6 for Sunday.
pub open spec fn weekday_index(d: Date) -> int {
    day_number(d) % 7
}

pub open spec fn weekday_number(w: Weekday) -> int {
    match w {
        Weekday::Mon => 0,
        Weekday::Tue => 1,
        Weekday::Wed => 2,
        Weekday::Thu => 3,
        Weekday::Fri => 4,
        Weekday::Sat => 5,
        Weekday::Sun => 6,
    }
}

pub open spec fn weekday_of_number(n: int) -> Weekday {
    if n == 0 {
        Weekday::Mon
    } else if n == 1 {
        Weekday::Tue
    } else if n == 2 {
        Weekday::Wed
    } else if n == 3 {
        Weekday::Thu
    } else if n == 4 {
        Weekday::Fri
    } else if n == 5 {
        Weekday::Sat
    } else {
        Weekday::Sun
    }
}

proof fn lemma_floor_step(y: int, k: int)
    requires
        k > 0,
    ensures
        y / k - (y - 1) / k == if y % k == 0 {
            1int
        } else {
            0int
        },
{
    vstd::arithmetic::div_mod::lemma_fundamental_div_mod(y, k);
    let q = y / k;
    let r = y % k;
    assert(0 <= r < k) by {
        vstd::arithmetic::div_mod::lemma_mod_bound(y, k);
    }
    assert(y == q * k + r) by (nonlinear_arith)
        requires
            y == k * q + r,
    ;
    if r == 0 {
        assert(y - 1 == (q - 1) * k + (k - 1)) by (nonlinear_arith)
            requires
                y == q * k + r,
                r == 0,
        ;
        vstd::arithmetic::div_mod::lemma_fundamental_div_mod_converse_div(y - 1, k, q - 1, k - 1);
    } else {
        assert(y - 1 == q * k + (r - 1));
        vstd::arithmetic::div_mod::lemma_fundamental_div_mod_converse_div(y - 1, k, q, r - 1);
    }
}

/// A year adds 365 days, 366 in a leap year.
pub proof fn lemma_year_step(y: int)
    ensures
        days_before_year(y + 1) == days_before_year(y) + 365 + if is_leap(y) {
            1int
        } else {
            0int
        },
{
    lemma_floor_step(y, 4);
    lemma_floor_step(y, 100);
    lemma_floor_step(y, 400);
    assert(y % 4 == 0 ==> (y % 100 == 0 <== y % 400 == 0)) by {
        if y % 400 == 0 {
            vstd::arithmetic::div_mod::lemma_fundamental_div_mod(y, 400);
            let q = y / 400;
            assert(y == 100 * (4 * q)) by (nonlinear_arith)
                requires
                    y == 400 * q + y % 400,
                    y % 400 == 0,
            ;
            vstd::arithmetic::div_mod::lemma_fundamental_div_mod_converse_mod(y, 100, 4 * q, 0);
        }
    }
    assert(y % 100 == 0 ==> y % 4 == 0) by {
        if y % 100 == 0 {
            vstd::arithmetic::div_mod::lemma_fundamental_div_mod(y, 100);
            let q = y / 100;
            assert(y == (25 * q) * 4 + 0) by (nonlinear_arith)
                requires
                    y == 100 * q + y % 100,
                    y % 100 == 0,
            ;
            vstd::arithmetic::div_mod::lemma_fundamental_div_mod_converse_mod(y, 4, 25 * q, 0);
        }
    }
}

/// The day after `d`.
pub open spec fn next_date(d: Date) -> Date {
    if (d.day as int) < month_days(d.year as int, d.month as int) {
        Date { day: (d.day + 1) as u8, ..d }
    } else if d.month < 12 {
        Date { month: (d.month + 1) as u8, day: 1, ..d }
    } else {
        Date { year: (d.year + 1) as i32, month: 1, day: 1 }
    }
}

proof fn lemma_next_date(d: Date)
    requires
        d.valid(),
        d != (Date { year: MAX_YEAR, month: 12, day: 31 }),
    ensures
        next_date(d).valid(),
        day_number(next_date(d)) == day_number(d) + 1,
{
    if !((d.day as int) < month_days(d.year as int, d.month as int)) && d.month >= 12 {
        lemma_year_step(d.year as int);
    }
}

/// The day before `d`.
pub open spec fn prev_date(d: Date) -> Date {
    if d.day > 1 {
        Date { day: (d.day - 1) as u8, ..d }
    } else if d.month > 1 {
        Date {
            month: (d.month - 1) as u8,
            day: month_days(d.year as int, d.month - 1) as u8,
            ..d
        }
    } else {
        Date { year: (d.year - 1) as i32, month: 12, day: 31 }
    }
}

proof fn lemma_prev_date(d: Date)
    requires
        d.valid(),
        d != (Date { year: MIN_YEAR, month: 1, day: 1 }),
    ensures
        prev_date(d).valid(),
        next_date(prev_date(d)) == d,
        day_number(prev_date(d)) == day_number(d) - 1,
{
    if d.day <= 1 && d.month <= 1 {
        lemma_year_step(d.year - 1);
    }
}

/// Day numbers of valid dates lie in the representable range.
pub proof fn lemma_day_number_bounds(d: Date)
    requires
        d.valid(),
    ensures
        min_day_number() <= day_number(d) <= max_day_number(),
{
    let lo = Date { year: MIN_YEAR, month: 1, day: 1 };
    let hi = Date { year: MAX_YEAR, month: 12, day: 31 };
    lemma_year_monotone(MIN_YEAR as int, d.year as int);
    lemma_year_monotone(d.year as int, MAX_YEAR as int);
    lemma_year_step(d.year as int);
    lemma_year_step(MAX_YEAR as int);
}

/// Later years start later.
pub proof fn lemma_year_monotone(a: int, b: int)
    requires
        a <= b,
    ensures
        days_before_year(a) + 365 * (b - a) <= days_before_year(b),
    decreases b - a,
{
    if a < b {
        lemma_year_monotone(a + 1, b);
        lemma_year_step(a);
    }
}

/// Distinct valid dates have distinct day numbers.
pub proof fn lemma_day_number_injective(a: Date, b: Date)
    requires
        a.valid(),
        b.valid(),
        day_number(a) == day_number(b),
    ensures
        a == b,
{
    if a.year < b.year {
        lemma_year_monotone(a.year + 1, b.year as int);
        lemma_year_step(a.year as int);
        assert(false);
    } else if b.year < a.year {
        lemma_year_monotone(b.year + 1, a.year as int);
        lemma_year_step(b.year as int);
        assert(false);
    }
}

pub fn floor_div(a: i64, b: i64) -> (r: i64)
    requires
        b > 0,
    ensures
        r == a / b,
{
    proof {
        vstd::arithmetic::div_mod::lemma_fundamental_div_mod(a as int, b as int);
        vstd::arithmetic::div_mod::lemma_mod_bound(a as int, b as int);
        let q = a as int / b as int;
        let r = a as int % b as int;
        assert(i64::MIN <= q <= i64::MAX) by (nonlinear_arith)
            requires
                a == b * q + r,
                0 <= r < b,
                b >= 1,
                i64::MIN <= a <= i64::MAX,
        ;
    }
    a.checked_div_euclid(b).unwrap()
}

pub fn is_leap_year(y: i32) -> (r: bool)
    ensures
        r == is_leap(y as int),
{
    let y = y as i64;
    (y.checked_rem_euclid(4).unwrap() == 0) && (y.checked_rem_euclid(100).unwrap() != 0
        || y.checked_rem_euclid(400).unwrap() == 0)
}

/// Days in month `month` (1–12) of `year`.
pub fn month_length(year: i32, month: u8) -> (r: u8)
    requires
        1 <= month <= 12,
    ensures
        r == month_days(year as int, month as int),
{
    if month == 2 {
        if is_leap_year(year) {
            29
        } else {
            28
        }
    } else if month == 4 || month == 6 || month == 9 || month == 11 {
        30
    } else {
        31
    }
}

/// Whether year, month and day name a calendar day.
pub fn is_valid_ymd(year: i64, month: i64, day: i64) -> (r: bool)
    ensures
        r == valid_ymd(year as int, month as int, day as int),
{
    if year < MIN_YEAR as i64 || year > MAX_YEAR as i64 || month < 1 || month > 12 || day < 1 {
        return false;
    }
    day <= month_length(year as i32, month as u8) as i64
}

impl Date {
    /// The date for year, month and day, if it is one.
    pub fn from_ymd(year: i64, month: i64, day: i64) -> (r: Option<Date>)
        ensures
            r is Some <==> valid_ymd(year as int, month as int, day as int),
            r matches Some(d) ==> d.year == year && d.month == month && d.day == day && d.valid(),
    {
        if is_valid_ymd(year, month, day) {
            Some(Date { year: year as i32, month: month as u8, day: day as u8 })
        } else {
            None
        }
    }

    /// Days since 1 January of year 1.
    pub fn day_number(self) -> (r: i64)
        requires
            self.valid(),
        ensures
            r == day_number(self),
    {
        let y = self.year as i64 - 1;
        let base = 365 * y + floor_div(y, 4) - floor_div(y, 100) + floor_div(y, 400);
        let m = self.month;
        let before: i64 = if m == 1 {
            0
        } else if m == 2 {
            31
        } else if m == 3 {
            59
        } else if m == 4 {
            90
        } else if m == 5 {
            120
        } else if m == 6 {
            151
        } else if m == 7 {
            181
        } else if m == 8 {
            212
        } else if m == 9 {
            243
        } else if m == 10 {
            273
        } else if m == 11 {
            304
        } else {
            334
        };
        let before = if m > 2 && is_leap_year(self.year) {
            before + 1
        } else {
            before
        };
        base + before + self.day as i64 - 1
    }

    /// The day after this one.
    pub fn succ(self) -> (r: Date)
        requires
            self.valid(),
            day_number(self) < max_day_number(),
        ensures
            r.valid(),
            r == next_date(self),
            day_number(r) == day_number(self) + 1,
    {
        proof {
            lemma_next_date(self);
        }
        if self.day < month_length(self.year, self.month) {
            Date { day: self.day + 1, ..self }
        } else if self.month < 12 {
            Date { month: self.month + 1, day: 1, ..self }
        } else {
            Date { year: self.year + 1, month: 1, day: 1 }
        }
    }

    /// The day before this one.
    pub fn pred(self) -> (r: Date)
        requires
            self.valid(),
            day_number(self) > min_day_number(),
        ensures
            r.valid(),
            r == prev_date(self),
            day_number(r) == day_number(self) - 1,
    {
        proof {
            lemma_prev_date(self);
        }
        if self.day > 1 {
            Date { day: self.day - 1, ..self }
        } else if self.month > 1 {
            Date { month: self.month - 1, day: month_length(self.year, self.month - 1), ..self }
        } else {
            Date { year: self.year - 1, month: 12, day: 31 }
        }
    }

    /// The date `n` days later (earlier for negative `n`).
    pub fn add_days(self, n: i64) -> (r: Date)
        requires
            self.valid(),
            min_day_number() <= day_number(self) + n <= max_day_number(),
        ensures
            r.valid(),
            day_number(r) == day_number(self) + n,
        decreases if n >= 0 { n as int } else { -n },
    {
        let mut d = self;
        let mut k: i64 = n;
        while k > 0
            invariant
                d.valid(),
                day_number(d) + k == day_number(self) + n,
                day_number(d) + k <= max_day_number(),
                k >= 0 || k == n,
            decreases k,
        {
            d = d.succ();
            k = k - 1;
        }
        while k < 0
            invariant
                d.valid(),
                day_number(d) + k == day_number(self) + n,
                min_day_number() <= day_number(d) + k,
                k <= 0,
            decreases -k,
        {
            d = d.pred();
            k = k + 1;
        }
        d
    }

    /// The day of the week.
    pub fn weekday(self) -> (r: Weekday)
        requires
            self.valid(),
        ensures
            weekday_number(r) == weekday_index(self),
    {
        let n = self.day_number().checked_rem_euclid(7).unwrap();
        weekday_from_number(n as u8)
    }

    /// Whether this date comes before `other`.
    pub fn is_before(self, other: Date) -> (r: bool)
        requires
            self.valid(),
            other.valid(),
        ensures
            r == (day_number(self) < day_number(other)),
    {
        self.day_number() < other.day_number()
    }
}

/// The weekday with index `n` (0 = Monday).
pub fn weekday_from_number(n: u8) -> (w: Weekday)
    requires
        n < 7,
    ensures
        weekday_number(w) == n,
        w == weekday_of_number(n as int),
{
    if n == 0 {
        Weekday::Mon
    } else if n == 1 {
        Weekday::Tue
    } else if n == 2 {
        Weekday::Wed
    } else if n == 3 {
        Weekday::Thu
    } else if n == 4 {
        Weekday::Fri
    } else if n == 5 {
        Weekday::Sat
    } else {
        Weekday::Sun
    }
}

impl Weekday {
    /// 0 for Monday through 6 for Sunday.
    pub fn num_days_from_monday(self) -> (r: u8)
        ensures
            r == weekday_number(self),
    {
        match self {
            Weekday::Mon => 0,
            Weekday::Tue => 1,
            Weekday::Wed => 2,
            Weekday::Thu => 3,
            Weekday::Fri => 4,
            Weekday::Sat => 5,
            Weekday::Sun => 6,
        }
    }

    /// The next day of the week, Sunday wrapping to Monday.
    pub fn succ(self) -> (r: Weekday)
        ensures
            weekday_number(r) == (weekday_number(self) + 1) % 7,
    {
        match self {
            Weekday::Mon => Weekday::Tue,
            Weekday::Tue => Weekday::Wed,
            Weekday::Wed => Weekday::Thu,
            Weekday::Thu => Weekday::Fri,
            Weekday::Fri => Weekday::Sat,
            Weekday::Sat => Weekday::Sun,
            Weekday::Sun => Weekday::Mon,
        }
    }
}


/// A wall-clock time of day, to the second.
#[derive(Clone, Copy, Debug, PartialEq, Eq, Structural)]
pub struct Time {
    pub hour: u8,
    pub minute: u8,
    pub second: u8,
}

impl Time {
    pub open spec fn valid(self) -> bool {
        self.hour < 24 && self.minute < 60 && self.second < 60
    }

    /// Seconds since midnight.
    pub open spec fn seconds(self) -> int {
        self.hour * 3600 + self.minute * 60 + self.second
    }

    /// The time for hour, minute and second, if they name one.
    pub fn from_hms(hour: u32, minute: u32, second: u32) -> (r: Option<Time>)
        ensures
            r is Some <==> (hour < 24 && minute < 60 && second < 60),
            r matches Some(t) ==> t.hour == hour && t.minute == minute && t.second == second
                && t.valid(),
    {
        if hour < 24 && minute < 60 && second < 60 {
            Some(Time { hour: hour as u8, minute: minute as u8, second: second as u8 })
        } else {
            None
        }
    }

    /// Midnight.
    pub fn midnight() -> (r: Time)
        ensures
            r == (Time { hour: 0, minute: 0, second: 0 }),
    {
        Time { hour: 0, minute: 0, second: 0 }
    }
}


/// The valid date `n` days after `d` (before, for negative `n`).
pub open spec fn date_after(d: Date, n: int) -> Date {
    choose|r: Date| r.valid() && day_number(r) == day_number(d) + n
}

/// `date_after` is the date with that day number.
pub proof fn lemma_date_after(d: Date, n: int, r: Date)
    requires
        r.valid(),
        day_number(r) == day_number(d) + n,
    ensures
        date_after(d, n) == r,
{
    let c = date_after(d, n);
    assert(c.valid() && day_number(c) == day_number(d) + n);
    lemma_day_number_injective(c, r);
}

/// A date and a wall-clock time on it.
#[derive(Clone, Copy, Debug, PartialEq, Eq, Structural)]
pub struct DateTime {
    pub date: Date,
    pub time: Time,
}

/// Seconds since midnight on 1 January of year 1.
pub open spec fn instant(dt: DateTime) -> int {
    day_number(dt.date) * 86400 + dt.time.seconds()
}

impl DateTime {
    pub open spec fn valid(self) -> bool {
        self.date.valid() && self.time.valid()
    }

    /// Seconds since midnight on 1 January of year 1.
    pub fn instant(self) -> (r: i64)
        requires
            self.valid(),
        ensures
            r == instant(self),
    {
        proof {
            lemma_day_number_bounds(self.date);
        }
        self.date.day_number() * 86400 + (self.time.hour as i64) * 3600 + (self.time.minute as i64)
            * 60 + self.time.second as i64
    }

    /// The moment `secs` seconds later (earlier, for negative `secs`).
    pub fn add_seconds(self, secs: i64) -> (r: DateTime)
        requires
            self.valid(),
            min_day_number() * 86400 <= instant(self) + secs < (max_day_number() + 1) * 86400,
        ensures
            r.valid(),
            instant(r) == instant(self) + secs,
    {
        proof {
            lemma_day_number_bounds(self.date);
        }
        let within = (self.time.hour as i64) * 3600 + (self.time.minute as i64) * 60
            + self.time.second as i64;
        let total = within + secs;
        let days = floor_div(total, 86400);
        let rem = total - days * 86400;
        proof {
            vstd::arithmetic::div_mod::lemma_fundamental_div_mod(total as int, 86400);
            vstd::arithmetic::div_mod::lemma_mod_bound(total as int, 86400);
        }
        assert(0 <= rem < 86400);
        let date = self.date.add_days(days);
        let hour = (rem / 3600) as u8;
        let minute = ((rem % 3600) / 60) as u8;
        let second = (rem % 60) as u8;
        let r = DateTime { date, time: Time { hour, minute, second } };
        assert(r.time.seconds() == rem);
        r
    }
}

/// The valid date-time at instant `i`.
pub open spec fn datetime_at(i: int) -> DateTime {
    choose|dt: DateTime| dt.valid() && instant(dt) == i
}

/// Distinct valid date-times are distinct instants.
pub proof fn lemma_instant_injective(a: DateTime, b: DateTime)
    requires
        a.valid(),
        b.valid(),
        instant(a) == instant(b),
    ensures
        a == b,
{
    let da = day_number(a.date);
    let db = day_number(b.date);
    let sa = a.time.seconds();
    let sb = b.time.seconds();
    assert(da == db) by (nonlinear_arith)
        requires
            da * 86400 + sa == db * 86400 + sb,
            0 <= sa < 86400,
            0 <= sb < 86400,
    ;
    lemma_day_number_injective(a.date, b.date);
}

/// `datetime_at` names the date-time with that instant.
pub proof fn lemma_datetime_at(dt: DateTime)
    requires
        dt.valid(),
    ensures
        datetime_at(instant(dt)) == dt,
{
    let c = datetime_at(instant(dt));
    assert(c.valid() && instant(c) == instant(dt));
    lemma_instant_injective(c, dt);
}

impl Date {
    /// The day before this one, unless this is the earliest date.
    pub fn pred_opt(self) -> (r: Option<Date>)
        requires
            self.valid(),
        ensures
            r is Some <==> day_number(self) > min_day_number(),
            r matches Some(p) ==> p.valid() && p == prev_date(self) && day_number(p) == day_number(
                self,
            ) - 1,
    {
        proof {
            lemma_day_number_bounds(self);
            if self == (Date { year: MIN_YEAR, month: 1, day: 1 }) {
            } else {
                lemma_prev_date(self);
                lemma_day_number_bounds(prev_date(self));
            }
        }
        if self.year == MIN_YEAR && self.month == 1 && self.day == 1 {
            None
        } else {
            Some(self.pred())
        }
    }
}

/// Every day number in range names a valid date.
pub proof fn lemma_date_exists(n: int)
    requires
        min_day_number() <= n <= max_day_number(),
    ensures
        exists|d: Date| d.valid() && day_number(d) == n,
    decreases n - min_day_number(),
{
    if n == min_day_number() {
        let d = Date { year: MIN_YEAR, month: 1, day: 1 };
        assert(d.valid() && day_number(d) == n);
    } else {
        lemma_date_exists(n - 1);
        let d = choose|d: Date| d.valid() && day_number(d) == n - 1;
        lemma_day_number_bounds(d);
        if d == (Date { year: MAX_YEAR, month: 12, day: 31 }) {
            assert(false);
        }
        lemma_next_date(d);
        assert(next_date(d).valid() && day_number(next_date(d)) == n);
    }
}

/// `date_after` names the valid date at that distance, when there is one.
pub proof fn lemma_date_after_valid(d: Date, k: int)
    requires
        min_day_number() <= day_number(d) + k <= max_day_number(),
    ensures
        date_after(d, k).valid(),
        day_number(date_after(d, k)) == day_number(d) + k,
{
    lemma_date_exists(day_number(d) + k);
}

} // verus!
