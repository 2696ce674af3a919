//! What a launch asks for: the command line read into a request, and the
//! small vocabularies the window's actions speak (edit scopes, invitation
//! answers, local addresses).

use vstd::prelude::*;
use chrono::Datelike;
use crate::date::{valid_ymd, Date};
use crate::text::{all_digits, chars_of, decimal_value, seq_is, string_of, sub_chars};

verus! {

/// What a second launch asks a running instance to do.
#[derive(Clone, Copy, Debug, PartialEq, Eq, Structural)]
pub struct SlateTask {
    pub date: Option<Date>,
    pub new_event: bool,
}

/// What the command line asked for.
#[derive(Clone, Debug)]
pub struct Flags {
    /// Open on this date rather than today.
    pub initial_date: Option<Date>,
    /// `.ics` files to import on start-up.
    pub import: Vec<String>,
    /// Open the editor on a blank event once the window is up.
    pub new_event: bool,
    /// What to ask an already-running instance, or `None` when raising its
    /// window is the whole request. Build flags with `Flags::new`, which
    /// derives it from the other fields.
    pub task: Option<SlateTask>,
}

impl Flags {
    /// Flags from the parts of a request. A launch that names no date, no
    /// new event and no import asks a running instance for nothing.
    pub fn new(initial_date: Option<Date>, import: Vec<String>, new_event: bool) -> (r: Flags)
        ensures
            r.initial_date == initial_date,
            r.import@ == import@,
            r.new_event == new_event,
            r.task == if initial_date is Some || new_event || import@.len() > 0 {
                Some(SlateTask { date: initial_date, new_event })
            } else {
                None
            },
    {
        let task = if initial_date.is_some() || new_event || import.len() > 0 {
            Some(SlateTask { date: initial_date, new_event })
        } else {
            None
        };
        Flags { initial_date, import, new_event, task }
    }

    /// The request for a running instance, if there is one.
    pub fn action(&self) -> (r: Option<SlateTask>)
        ensures
            r == self.task,
    {
        self.task
    }

    /// The paths to import, which travel beside the request.
    pub fn args(&self) -> (r: Vec<String>)
        ensures
            r@.len() == self.import@.len(),
            forall|i: int| 0 <= i < r@.len() ==> (#[trigger] r@[i])@ == self.import@[i]@,
    {
        let mut out: Vec<String> = Vec::new();
        let mut i: usize = 0;
        while i < self.import.len()
            invariant
                i <= self.import@.len(),
                out@.len() == i,
                forall|j: int| 0 <= j < i ==> (#[trigger] out@[j])@ == self.import@[j]@,
            decreases self.import.len() - i,
        {
            out.push(self.import[i].clone());
            i = i + 1;
        }
        out
    }
}

/// What chrono reads a date text as, when it is not in the exact
/// `YYYY-MM-DD` shape.
pub uninterp spec fn iso_date(s: Seq<char>) -> Option<Date>;

/// The year, month and day a text spells when it is exactly four ASCII
/// digits, `-`, two digits, `-` and two digits.
pub open spec fn dashed_date(s: Seq<char>) -> Option<(int, int, int)> {
    if s.len() == 10 && s[4] == '-' && s[7] == '-' && all_digits(s.take(4)) && all_digits(
        s.subrange(5, 7),
    ) && all_digits(s.subrange(8, 10)) {
        Some((decimal_value(s.take(4)), decimal_value(s.subrange(5, 7)), decimal_value(s.subrange(8, 10))))
    } else {
        None
    }
}

/// What `str::parse::<chrono::NaiveDate>` gives: for a `YYYY-MM-DD` text,
/// the date it spells if there is one and nothing otherwise; for any other
/// text, the named result.
pub open spec fn iso_date_of(s: Seq<char>) -> Option<Date> {
    match dashed_date(s) {
        Some((y, m, d)) => if valid_ymd(y, m, d) {
            Some(Date { year: y as i32, month: m as u8, day: d as u8 })
        } else {
            None
        },
        None => iso_date(s),
    }
}

/// Reads an ISO `YYYY-MM-DD` date through `str::parse::<chrono::NaiveDate>`.
/// Claimed of it: for a text of exactly four digits, `-`, two digits, `-`
/// and two digits it returns the date they spell when that is a valid date
/// and `None` when it is not (chrono reads an unsigned year of up to four
/// digits, then up to two each for month and day, requires the input to be
/// used up, and then checks the date); for other texts the result is a
/// function of the text alone, and a date it gives is a real one.
#[verifier::external_body]
fn parse_iso_date(s: &str) -> (r: Option<Date>)
    ensures
        r == iso_date_of(s@),
        dashed_date(s@) is None ==> r == iso_date(s@),
        r matches Some(d) ==> d.valid(),
{
    match s.parse::<chrono::NaiveDate>() {
        Ok(d) => Some(Date { year: d.year(), month: d.month() as u8, day: d.day() as u8 }),
        Err(_) => None,
    }
}

/// Today's date on the local clock, through `chrono::Local::now`. Claimed of
/// it only that it is a real date: it is the clock's.
#[verifier::external_body]
fn local_today() -> (r: Date)
    ensures
        r.valid(),
{
    let d = chrono::Local::now().date_naive();
    Date { year: d.year(), month: d.month() as u8, day: d.day() as u8 }
}

/// How one argument reads: `--date=` with its value, `--today`,
/// `--new-event`, another option, or a path.
pub enum Arg {
    Date(Seq<char>),
    Today,
    NewEvent,
    Unknown,
    Path(Seq<char>),
}

pub open spec fn starts_with(s: Seq<char>, prefix: Seq<char>) -> bool {
    s.len() >= prefix.len() && s.take(prefix.len() as int) == prefix
}

pub open spec fn classify(a: Seq<char>) -> Arg {
    if starts_with(a, "--date="@) {
        Arg::Date(a.skip(7))
    } else if a == "--today"@ {
        Arg::Today
    } else if a == "--new-event"@ {
        Arg::NewEvent
    } else if a.len() > 0 && a[0] == '-' {
        Arg::Unknown
    } else {
        Arg::Path(a)
    }
}

/// The date, paths and new-event wish read from `args[..k]`: a later date
/// replaces an earlier one, a date that does not parse is ignored, unknown
/// options are ignored, and every other argument is a path to import.
pub open spec fn read_args(args: Seq<Seq<char>>, today: Date, k: int) -> (Option<Date>, Seq<Seq<char>>, bool)
    decreases k,
{
    if k <= 0 {
        (None, Seq::empty(), false)
    } else {
        let (date, paths, new_event) = read_args(args, today, k - 1);
        match classify(args[k - 1]) {
            Arg::Date(v) => match iso_date_of(v) {
                Some(d) => (Some(d), paths, new_event),
                None => (date, paths, new_event),
            },
            Arg::Today => (Some(today), paths, new_event),
            Arg::NewEvent => (date, paths, true),
            Arg::Unknown => (date, paths, new_event),
            Arg::Path(p) => (date, paths.push(p), new_event),
        }
    }
}

/// The text of each argument.
pub open spec fn arg_texts(args: Seq<String>) -> Seq<Seq<char>> {
    args.map_values(|a: String| a@)
}

fn starts_with_exec(s: &[char], prefix: &str) -> (r: bool)
    ensures
        r == starts_with(s@, prefix@),
{
    let p = chars_of(prefix);
    if s.len() < p.len() {
        return false;
    }
    let head = sub_chars(s, 0, p.len());
    assert(head@ =~= s@.take(p@.len() as int));
    let mut i: usize = 0;
    while i < p.len()
        invariant
            i <= p@.len(),
            head@.len() == p@.len(),
            p@ == prefix@,
            head@ == s@.take(p@.len() as int),
            forall|j: int| 0 <= j < i ==> head@[j] == p@[j],
        decreases p.len() - i,
    {
        if head[i] != p[i] {
            assert(head@[i as int] != p@[i as int]);
            return false;
        }
        i = i + 1;
    }
    assert(head@ =~= p@);
    true
}

/// Reads the command line, with `today` standing for `--today`.
pub fn parse_args_on(args: &Vec<String>, today: Date) -> (r: Flags)
    requires
        today.valid(),
    ensures
        ({
            let (date, paths, new_event) = read_args(
                arg_texts(args@),
                today,
                args@.len() as int,
            );
            &&& r.initial_date == date
            &&& r.import@.len() == paths.len()
            &&& forall|i: int| 0 <= i < paths.len() ==> (#[trigger] r.import@[i])@ == paths[i]
            &&& r.new_event == new_event
        }),
{
    let ghost av = arg_texts(args@);
    let mut date: Option<Date> = None;
    let mut import: Vec<String> = Vec::new();
    let mut new_event = false;
    let mut k: usize = 0;
    while k < args.len()
        invariant
            k <= args@.len(),
            av == arg_texts(args@),
            ({
                let (d, paths, ne) = read_args(av, today, k as int);
                &&& date == d
                &&& import@.len() == paths.len()
                &&& forall|i: int| 0 <= i < paths.len() ==> (#[trigger] import@[i])@ == paths[i]
                &&& new_event == ne
            }),
        decreases args.len() - k,
    {
        let a = chars_of(args[k].as_str());
        assert(a@ == av[k as int]);
        let ghost before = import@;
        proof {
            reveal_strlit("--date=");
        }
        if starts_with_exec(a.as_slice(), "--date=") {
            let v = sub_chars(a.as_slice(), 7, a.len());
            assert(v@ =~= a@.skip(7));
            let s = string_of(v.as_slice());
            match parse_iso_date(s.as_str()) {
                Some(d) => {
                    date = Some(d);
                },
                None => {},
            }
        } else if seq_is(a.as_slice(), "--today") {
            date = Some(today);
        } else if seq_is(a.as_slice(), "--new-event") {
            new_event = true;
        } else if a.len() > 0 && a[0] == '-' {
        } else {
            import.push(args[k].clone());
            assert(import@[import@.len() - 1]@ == av[k as int]);
        }
        k = k + 1;
    }
    Flags::new(date, import, new_event)
}

/// Reads the command line. `--date=YYYY-MM-DD` opens on that day, `--today`
/// on today, `--new-event` opens a blank event, and bare arguments are
/// `.ics` files to import.
pub fn parse_args(args: &Vec<String>) -> (r: Flags)
    ensures
        exists|today: Date|
            today.valid() && {
                let (date, paths, new_event) = #[trigger] read_args(
                    arg_texts(args@),
                    today,
                    args@.len() as int,
                );
                &&& r.initial_date == date
                &&& r.import@.len() == paths.len()
                &&& forall|i: int| 0 <= i < paths.len() ==> (#[trigger] r.import@[i])@ == paths[i]
                &&& r.new_event == new_event
            },
{
    let today = local_today();
    parse_args_on(args, today)
}

/// How far an edit or delete of a series instance reaches.
#[derive(Clone, Copy, Debug, PartialEq, Eq, Structural)]
pub enum EditScope {
    /// Only the chosen instance.
    This,
    /// The chosen instance and every later one.
    Following,
    /// The whole series.
    All,
}

/// Which operation a scope answer applies to.
#[derive(Clone, Copy, Debug, PartialEq, Eq, Structural)]
pub enum ScopePrompt {
    Save,
    Delete,
}

/// How the user answered an invitation.
#[derive(Clone, Copy, Debug, PartialEq, Eq, Structural)]
pub enum InviteAnswer {
    Accepted,
    Tentative,
    Declined,
}

pub open spec fn partstat_text(a: InviteAnswer) -> Seq<char> {
    match a {
        InviteAnswer::Accepted => "ACCEPTED"@,
        InviteAnswer::Tentative => "TENTATIVE"@,
        InviteAnswer::Declined => "DECLINED"@,
    }
}

impl InviteAnswer {
    /// The iCalendar `PARTSTAT` value for this answer.
    pub fn partstat(self) -> (r: &'static str)
        ensures
            r@ == partstat_text(self),
    {
        match self {
            InviteAnswer::Accepted => "ACCEPTED",
            InviteAnswer::Tentative => "TENTATIVE",
            InviteAnswer::Declined => "DECLINED",
        }
    }
}

/// `s` with every leading `http://` removed.
pub open spec fn strip_http(s: Seq<char>) -> Seq<char>
    decreases s.len(),
{
    if s.len() >= 7 && s.take(7) == "http://"@ {
        strip_http(s.skip(7))
    } else {
        s
    }
}

/// The text before the first `/` or `:`.
pub open spec fn host_part(s: Seq<char>) -> Seq<char>
    decreases s.len(),
{
    if s.len() == 0 || s[0] == '/' || s[0] == ':' {
        Seq::empty()
    } else {
        seq![s[0]] + host_part(s.drop_first())
    }
}

/// Whether a URL's host, read as the text before the first `/` or `:` once
/// every leading `http://` is gone, names this machine.
pub open spec fn loopback_url(url: Seq<char>) -> bool {
    let h = host_part(strip_http(url));
    h == "localhost"@ || h == "127.0.0.1"@ || h == "::1"@
}

/// Whether an `http://` URL points at this machine, where plain text is a
/// deliberate local-testing choice rather than a leak.
pub fn is_loopback(url: &str) -> (r: bool)
    ensures
        r == loopback_url(url@),
{
    let all = chars_of(url);
    let mut i: usize = 0;
    proof {
        reveal_strlit("http://");
    }
    assert(all@.skip(0) =~= all@);
    while i < all.len() && all.len() - i >= 7 && all[i] == 'h' && all[i + 1] == 't' && all[i + 2]
        == 't' && all[i + 3] == 'p' && all[i + 4] == ':' && all[i + 5] == '/' && all[i + 6] == '/'
        invariant
            i <= all@.len(),
            all@ == url@,
            strip_http(url@) == strip_http(all@.skip(i as int)),
        decreases all.len() - i,
    {
        assert(all@.skip(i as int).take(7) =~= "http://"@) by {
            reveal_strlit("http://");
        }
        assert(all@.skip(i as int).skip(7) =~= all@.skip(i + 7));
        i = i + 7;
    }
    proof {
        reveal_strlit("http://");
        let rest = all@.skip(i as int);
        if rest.len() >= 7 && rest.take(7) == "http://"@ {
            assert(rest[0] == 'h' && rest[1] == 't' && rest[2] == 't' && rest[3] == 'p' && rest[4]
                == ':' && rest[5] == '/' && rest[6] == '/') by {
                assert(rest.take(7)[0] == rest[0]);
                assert(rest.take(7)[1] == rest[1]);
                assert(rest.take(7)[2] == rest[2]);
                assert(rest.take(7)[3] == rest[3]);
                assert(rest.take(7)[4] == rest[4]);
                assert(rest.take(7)[5] == rest[5]);
                assert(rest.take(7)[6] == rest[6]);
            }
        }
    }
    let start = i;
    let mut j: usize = i;
    while j < all.len() && all[j] != '/' && all[j] != ':'
        invariant
            start <= j <= all@.len(),
            host_part(all@.skip(start as int)) == all@.subrange(start as int, j as int) + host_part(
                all@.skip(j as int),
            ),
        decreases all.len() - j,
    {
        assert(all@.skip(j as int).drop_first() =~= all@.skip(j + 1));
        assert(all@.subrange(start as int, j + 1) =~= all@.subrange(start as int, j as int) + seq![all@[j as int]]);
        j = j + 1;
    }
    let host = sub_chars(all.as_slice(), start, j);
    assert(host@ =~= host_part(all@.skip(start as int)));
    seq_is(host.as_slice(), "localhost") || seq_is(host.as_slice(), "127.0.0.1") || seq_is(
        host.as_slice(),
        "::1",
    )
}

} // verus!
