//! Meeting-link detection: the video-call URL worth a "Join" button, looked
//! for in an event's location first and then in its description. A link is
//! offered only when its host names a known video-call service.

use vstd::prelude::*;
use crate::text::{opt_view, chars_of, first_index, is_white_space, is_whitespace, lemma_first_index, lemma_first_index_at, string_of, sub_chars};

verus! {

/// The hosts, or host fragments, that identify a video-call link.
pub open spec fn service(k: int) -> Seq<char> {
    if k == 0 {
        "meet.google.com"@
    } else if k == 1 {
        "zoom.us"@
    } else if k == 2 {
        "teams.microsoft.com"@
    } else if k == 3 {
        "teams.live.com"@
    } else if k == 4 {
        "meet.jit.si"@
    } else if k == 5 {
        "jitsi"@
    } else if k == 6 {
        "bigbluebutton"@
    } else {
        "bbb."@
    }
}

/// How many service fragments there are.
pub const SERVICE_COUNT: usize = 8;

fn service_text(k: usize) -> (s: &'static str)
    requires
        k < SERVICE_COUNT,
    ensures
        s@ == service(k as int),
{
    if k == 0 {
        "meet.google.com"
    } else if k == 1 {
        "zoom.us"
    } else if k == 2 {
        "teams.microsoft.com"
    } else if k == 3 {
        "teams.live.com"
    } else if k == 4 {
        "meet.jit.si"
    } else if k == 5 {
        "jitsi"
    } else if k == 6 {
        "bigbluebutton"
    } else {
        "bbb."
    }
}

/// Whether `p` occurs in `t` at position `i`.
pub open spec fn occurs_at(t: Seq<char>, i: int, p: Seq<char>) -> bool {
    0 <= i && i + p.len() <= t.len() && t.subrange(i, i + p.len()) == p
}

/// Whether `p` occurs anywhere in `t`.
pub open spec fn contains_text(t: Seq<char>, p: Seq<char>) -> bool {
    exists|i: int| occurs_at(t, i, p)
}

/// Characters that end a link in running text.
pub open spec fn ends_link(c: char) -> bool {
    is_white_space(c) || c == '>' || c == ')' || c == ']' || c == '"' || c == '\''
}

/// The end of the run of link characters starting at `i`.
pub open spec fn run_end(t: Seq<char>, i: int) -> int
    decreases t.len() - i,
{
    if i < 0 || i >= t.len() || ends_link(t[i]) {
        i
    } else {
        run_end(t, i + 1)
    }
}

/// Trailing `.`, `,` and `;` removed: prose punctuation, not address.
pub open spec fn trim_punctuation(s: Seq<char>) -> Seq<char>
    decreases s.len(),
{
    if s.len() > 0 && (s.last() == '.' || s.last() == ',' || s.last() == ';') {
        trim_punctuation(s.drop_last())
    } else {
        s
    }
}

/// The link starting at `i`.
pub open spec fn candidate_at(t: Seq<char>, i: int) -> Seq<char> {
    trim_punctuation(t.subrange(i, run_end(t, i)))
}

/// The host part of a link: after `https://`, up to the first `/`.
pub open spec fn host_of(link: Seq<char>) -> Seq<char> {
    let rest = if occurs_at(link, 0, "https://"@) {
        link.skip("https://"@.len() as int)
    } else {
        link
    };
    rest.take(first_index(rest, '/'))
}

/// Whether a host names a video-call service.
pub open spec fn is_meeting_host(h: Seq<char>) -> bool {
    exists|k: int| 0 <= k < SERVICE_COUNT && contains_text(h, #[trigger] service(k))
}

/// The first video-call link in `t` at position `i` or later.
pub open spec fn find_from(t: Seq<char>, i: int) -> Option<Seq<char>>
    decreases t.len() - i,
{
    if i < 0 || i >= t.len() {
        None
    } else if occurs_at(t, i, "https://"@) && is_meeting_host(host_of(candidate_at(t, i))) {
        Some(candidate_at(t, i))
    } else {
        find_from(t, i + 1)
    }
}

/// The link `meeting_link` offers for an event's location and description.
pub open spec fn meeting_link_spec(
    location: Option<Seq<char>>,
    description: Option<Seq<char>>,
) -> Option<Seq<char>> {
    let from_location = match location {
        Some(l) => find_from(l, 0),
        None => None,
    };
    match from_location {
        Some(link) => Some(link),
        None => match description {
            Some(d) => find_from(d, 0),
            None => None,
        },
    }
}

fn occurs_at_exec(t: &[char], i: usize, p: &[char]) -> (r: bool)
    ensures
        r == occurs_at(t@, i as int, p@),
{
    if i > t.len() || p.len() > t.len() - i {
        return false;
    }
    let mut k: usize = 0;
    while k < p.len()
        invariant
            k <= p@.len(),
            i + p@.len() <= t@.len(),
            t@.len() == t.len(),
            forall|j: int| 0 <= j < k ==> t@[i + j] == p@[j],
        decreases p.len() - k,
    {
        if t[i + k] != p[k] {
            assert(t@.subrange(i as int, i + p@.len())[k as int] != p@[k as int]);
            return false;
        }
        k = k + 1;
    }
    assert(t@.subrange(i as int, i + p@.len()) =~= p@);
    true
}

fn contains_exec(t: &[char], p: &[char]) -> (r: bool)
    ensures
        r == contains_text(t@, p@),
{
    if p.len() == 0 {
        assert(occurs_at(t@, 0, p@)) by {
            assert(t@.subrange(0, 0) =~= p@);
        }
        return true;
    }
    let mut i: usize = 0;
    while i < t.len()
        invariant
            i <= t@.len(),
            p@.len() > 0,
            forall|j: int| 0 <= j < i ==> !occurs_at(t@, j, p@),
        decreases t.len() - i,
    {
        if occurs_at_exec(t, i, p) {
            return true;
        }
        i = i + 1;
    }
    false
}

fn is_meeting_host_exec(h: &[char]) -> (r: bool)
    ensures
        r == is_meeting_host(h@),
{
    let mut k: usize = 0;
    while k < SERVICE_COUNT
        invariant
            k <= SERVICE_COUNT,
            forall|j: int| 0 <= j < k ==> !contains_text(h@, #[trigger] service(j)),
        decreases SERVICE_COUNT - k,
    {
        let s = chars_of(service_text(k));
        if contains_exec(h, s.as_slice()) {
            return true;
        }
        k = k + 1;
    }
    false
}

proof fn lemma_run_end(t: Seq<char>, i: int)
    requires
        0 <= i <= t.len(),
    ensures
        i <= run_end(t, i) <= t.len(),
    decreases t.len() - i,
{
    if i < t.len() && !ends_link(t[i]) {
        lemma_run_end(t, i + 1);
    }
}

fn ends_link_exec(c: char) -> (r: bool)
    ensures
        r == ends_link(c),
{
    is_whitespace(c) || c == '>' || c == ')' || c == ']' || c == '"' || c == '\''
}

/// The link candidate starting at `i`.
fn candidate_exec(t: &[char], i: usize) -> (r: Vec<char>)
    requires
        i <= t@.len(),
    ensures
        r@ == candidate_at(t@, i as int),
{
    let mut j: usize = i;
    while j < t.len() && !ends_link_exec(t[j])
        invariant
            i <= j <= t@.len(),
            run_end(t@, i as int) == run_end(t@, j as int),
        decreases t.len() - j,
    {
        j = j + 1;
    }
    let mut end = j;
    while end > i && (t[end - 1] == '.' || t[end - 1] == ',' || t[end - 1] == ';')
        invariant
            i <= end <= j <= t@.len(),
            trim_punctuation(t@.subrange(i as int, j as int)) == trim_punctuation(
                t@.subrange(i as int, end as int),
            ),
        decreases end,
    {
        assert(t@.subrange(i as int, end - 1) =~= t@.subrange(i as int, end as int).drop_last());
        end = end - 1;
    }
    sub_chars(t, i, end)
}

/// The host of a link that starts with `https://`.
fn host_exec(link: &[char]) -> (r: Vec<char>)
    ensures
        r@ == host_of(link@),
{
    let prefix = chars_of("https://");
    let start: usize = if occurs_at_exec(link, 0, prefix.as_slice()) {
        prefix.len()
    } else {
        0
    };
    let ghost rest = link@.skip(start as int);
    assert(link@.skip(0) =~= link@);
    let mut k: usize = start;
    while k < link.len() && link[k] != '/'
        invariant
            start <= k <= link@.len(),
            rest == link@.skip(start as int),
            forall|j: int| 0 <= j < k - start ==> rest[j] != '/',
        decreases link.len() - k,
    {
        k = k + 1;
    }
    proof {
        if k < link@.len() {
            assert(rest[k - start] == link@[k as int]);
        }
        lemma_first_index_at(rest, '/', k - start);
    }
    let r = sub_chars(link, start, k);
    assert(r@ =~= rest.take(k - start));
    r
}

/// The first video-call link in `text`.
fn find_in(text: &str) -> (r: Option<String>)
    ensures
        opt_view(r) == find_from(text@, 0),
{
    let t = chars_of(text);
    let prefix = chars_of("https://");
    let mut i: usize = 0;
    while i < t.len()
        invariant
            i <= t@.len(),
            t@ == text@,
            prefix@ == "https://"@,
            find_from(t@, 0) == find_from(t@, i as int),
        decreases t.len() - i,
    {
        if occurs_at_exec(t.as_slice(), i, prefix.as_slice()) {
            let candidate = candidate_exec(t.as_slice(), i);
            let host = host_exec(candidate.as_slice());
            if is_meeting_host_exec(host.as_slice()) {
                return Some(string_of(candidate.as_slice()));
            }
        }
        i = i + 1;
    }
    None
}

/// The first video-call URL found in `location` or, failing that, in
/// `description`.
pub fn meeting_link(location: Option<&str>, description: Option<&str>) -> (r: Option<String>)
    ensures
        opt_view(r) == meeting_link_spec(
            match location {
                Some(l) => Some(l@),
                None => None,
            },
            match description {
                Some(d) => Some(d@),
                None => None,
            },
        ),
{
    let from_location = match location {
        Some(l) => find_in(l),
        None => None,
    };
    match from_location {
        Some(link) => Some(link),
        None => match description {
            Some(d) => find_in(d),
            None => None,
        },
    }
}


/// The service table is exactly the known list of video-call hosts: Google
/// Meet, Zoom, Microsoft Teams (work and personal), Jitsi and BigBlueButton.
pub proof fn lemma_service_table(s: Seq<char>)
    ensures
        (exists|k: int| 0 <= k < SERVICE_COUNT && #[trigger] service(k) == s) <==> (s
            == "meet.google.com"@ || s == "zoom.us"@ || s == "teams.microsoft.com"@ || s
            == "teams.live.com"@ || s == "meet.jit.si"@ || s == "jitsi"@ || s == "bigbluebutton"@
            || s == "bbb."@),
{
    if s == "meet.google.com"@ {
        assert(service(0) == s);
    } else if s == "zoom.us"@ {
        assert(service(1) == s);
    } else if s == "teams.microsoft.com"@ {
        assert(service(2) == s);
    } else if s == "teams.live.com"@ {
        assert(service(3) == s);
    } else if s == "meet.jit.si"@ {
        assert(service(4) == s);
    } else if s == "jitsi"@ {
        assert(service(5) == s);
    } else if s == "bigbluebutton"@ {
        assert(service(6) == s);
    } else if s == "bbb."@ {
        assert(service(7) == s);
    }
}

/// A host is a video-call host exactly when it contains one of the known
/// service names.
pub proof fn lemma_meeting_hosts(h: Seq<char>)
    ensures
        is_meeting_host(h) <==> (contains_text(h, "meet.google.com"@) || contains_text(
            h,
            "zoom.us"@,
        ) || contains_text(h, "teams.microsoft.com"@) || contains_text(h, "teams.live.com"@)
            || contains_text(h, "meet.jit.si"@) || contains_text(h, "jitsi"@) || contains_text(
            h,
            "bigbluebutton"@,
        ) || contains_text(h, "bbb."@)),
{
    if is_meeting_host(h) {
        let k = choose|k: int| 0 <= k < SERVICE_COUNT && contains_text(h, #[trigger] service(k));
        assert(service(k) == service(k));
    }
    if contains_text(h, "meet.google.com"@) {
        assert(contains_text(h, service(0)));
    } else if contains_text(h, "zoom.us"@) {
        assert(contains_text(h, service(1)));
    } else if contains_text(h, "teams.microsoft.com"@) {
        assert(contains_text(h, service(2)));
    } else if contains_text(h, "teams.live.com"@) {
        assert(contains_text(h, service(3)));
    } else if contains_text(h, "meet.jit.si"@) {
        assert(contains_text(h, service(4)));
    } else if contains_text(h, "jitsi"@) {
        assert(contains_text(h, service(5)));
    } else if contains_text(h, "bigbluebutton"@) {
        assert(contains_text(h, service(6)));
    } else if contains_text(h, "bbb."@) {
        assert(contains_text(h, service(7)));
    }
}

} // verus!
