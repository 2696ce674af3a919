//! Calendar collections in the vdir layout: one directory per calendar, with
//! optional `displayname` and `color` files beside its `.ics` events.

use vstd::prelude::*;
use crate::color::{default_calendar_color, parse_rgb, Rgb};
use crate::text::{
    chars_of, join_from, joined, lowercase, non_empty_piece, split_exec, split_on, string_of,
    sub_chars, to_lowercase, trim, trimmed, views,
};

verus! {

/// One calendar collection.
#[derive(Clone, Debug)]
pub struct CalendarMeta {
    /// The directory's name: stable, and the key used everywhere else.
    pub id: String,
    /// The name to show: the `displayname` file's, else the id.
    pub name: String,
    pub color: Rgb,
    /// The directory.
    pub path: String,
    /// Whether the directory cannot be written, so that editing can be
    /// offered only where saving will work.
    pub read_only: bool,
}

/// A metadata file's text, trimmed, when anything is left.
pub open spec fn meta_value(raw: Option<Seq<char>>) -> Option<Seq<char>> {
    match raw {
        Some(t) => if trim(t).len() > 0 {
            Some(trim(t))
        } else {
            None
        },
        None => None,
    }
}

/// The colour a `color` file names, or the default.
pub open spec fn meta_color(color: Option<Seq<char>>) -> Rgb {
    match meta_value(color) {
        Some(t) => match parse_rgb(t) {
            Some(c) => c,
            None => Rgb(0x2d, 0x7d, 0xd2),
        },
        None => Rgb(0x2d, 0x7d, 0xd2),
    }
}

fn meta_value_exec(raw: Option<&str>) -> (r: Option<String>)
    ensures
        match meta_value(
            match raw {
                Some(t) => Some(t@),
                None => None,
            },
        ) {
            Some(v) => r matches Some(s) && s@ == v,
            None => r is None,
        },
{
    match raw {
        Some(t) => {
            let all = chars_of(t);
            let v = trimmed(all.as_slice());
            if v.len() > 0 {
                Some(string_of(v.as_slice()))
            } else {
                None
            }
        },
        None => None,
    }
}

impl CalendarMeta {
    /// A collection's metadata from what its directory holds: its name, the
    /// text of its `displayname` and `color` files if present, and whether it
    /// is read-only. A blank display name falls back to the id, and a missing
    /// or unreadable colour to the default.
    pub fn from_files(
        id: &str,
        path: &str,
        displayname: Option<&str>,
        color: Option<&str>,
        read_only: bool,
    ) -> (r: CalendarMeta)
        ensures
            r.id@ == id@,
            r.path@ == path@,
            r.name@ == match meta_value(
                match displayname {
                    Some(t) => Some(t@),
                    None => None,
                },
            ) {
                Some(n) => n,
                None => id@,
            },
            r.color == meta_color(
                match color {
                    Some(t) => Some(t@),
                    None => None,
                },
            ),
            r.read_only == read_only,
    {
        let name = match meta_value_exec(displayname) {
            Some(n) => n,
            None => crate::text::owned(id),
        };
        let c = match meta_value_exec(color) {
            Some(t) => match Rgb::parse(t.as_str()) {
                Some(c) => c,
                None => default_calendar_color(),
            },
            None => default_calendar_color(),
        };
        CalendarMeta {
            id: crate::text::owned(id),
            name,
            color: c,
            path: crate::text::owned(path),
            read_only,
        }
    }
}

pub open spec fn is_ascii_alnum(c: char) -> bool {
    ('0' <= c <= '9') || ('a' <= c <= 'z') || ('A' <= c <= 'Z')
}

/// Every character that is not an ASCII letter or digit turned into `-`.
pub open spec fn dashed(s: Seq<char>) -> Seq<char> {
    s.map_values(|c: char| if is_ascii_alnum(c) {
        c
    } else {
        '-'
    })
}

/// The directory name for lowercased display text: runs of ASCII letters and
/// digits joined by single hyphens, at most 64 characters, or `calendar`
/// when none are left.
pub open spec fn slug_of(lower: Seq<char>) -> Seq<char> {
    let j = joined(split_on(dashed(lower), '-').filter(non_empty_piece()), '-');
    if j.len() == 0 {
        "calendar"@
    } else if j.len() > 64 {
        j.take(64)
    } else {
        j
    }
}

/// The directory name for display text already lowercased.
pub fn slug_of_lowercase(lower: &str) -> (r: String)
    ensures
        r@ == slug_of(lower@),
{
    let all = chars_of(lower);
    let mut d: Vec<char> = Vec::new();
    let mut i: usize = 0;
    while i < all.len()
        invariant
            i <= all@.len(),
            all@ == lower@,
            d@ == dashed(all@.take(i as int)),
        decreases all.len() - i,
    {
        let c = all[i];
        let m = if ('0' <= c && c <= '9') || ('a' <= c && c <= 'z') || ('A' <= c && c <= 'Z') {
            c
        } else {
            '-'
        };
        d.push(m);
        assert(dashed(all@.take(i + 1)) =~= dashed(all@.take(i as int)).push(m));
        i = i + 1;
    }
    assert(all@.take(all@.len() as int) =~= all@);
    let parts = split_exec(d.as_slice(), '-');
    let ghost pred = non_empty_piece();
    let mut kept: Vec<Vec<char>> = Vec::new();
    let mut k: usize = 0;
    assert(views(parts@).take(0).filter(pred) =~= Seq::<Seq<char>>::empty()) by {
        reveal_with_fuel(Seq::filter, 1);
    }
    while k < parts.len()
        invariant
            k <= parts@.len(),
            pred == non_empty_piece(),
            views(kept@) == views(parts@).take(k as int).filter(pred),
        decreases parts.len() - k,
    {
        let ghost prev = views(parts@).take(k as int).filter(pred);
        assert(views(parts@).take(k + 1).drop_last() =~= views(parts@).take(k as int));
        assert(views(parts@).take(k + 1).last() == parts@[k as int]@);
        assert(views(parts@).take(k + 1).filter(pred) == (if pred(parts@[k as int]@) {
            prev.push(parts@[k as int]@)
        } else {
            prev
        })) by {
            reveal_with_fuel(Seq::filter, 1);
        }
        if parts[k].len() > 0 {
            let w = sub_chars(parts[k].as_slice(), 0, parts[k].len());
            assert(w@ =~= parts@[k as int]@);
            let ghost before = kept@;
            kept.push(w);
            assert(views(kept@) =~= views(before).push(parts@[k as int]@));
        }
        k = k + 1;
    }
    assert(views(parts@).take(parts@.len() as int) =~= views(parts@));
    let j = join_from(&kept, 0, '-');
    assert(views(kept@).skip(0) =~= views(kept@));
    if j.len() == 0 {
        string_of_literal_calendar()
    } else if j.len() > 64 {
        let t = sub_chars(j.as_slice(), 0, 64);
        assert(t@ =~= j@.take(64));
        string_of(t.as_slice())
    } else {
        string_of(j.as_slice())
    }
}

fn string_of_literal_calendar() -> (r: String)
    ensures
        r@ == "calendar"@,
{
    crate::text::owned("calendar")
}

/// Turns a display name into a safe directory name: the trimmed name in
/// lowercase, reduced to ASCII letters and digits joined by hyphens.
pub fn slugify(name: &str) -> (r: String)
    ensures
        r@ == slug_of(lowercase(trim(name@))),
{
    let all = chars_of(name);
    let t = trimmed(all.as_slice());
    let s = string_of(t.as_slice());
    let lower = to_lowercase(s.as_str());
    slug_of_lowercase(lower.as_str())
}

/// Every character of every piece of `split_on(s, sep)` is a character of
/// `s` other than `sep`.
proof fn lemma_split_pieces(s: Seq<char>, sep: char, ok: spec_fn(char) -> bool)
    requires
        forall|i: int| 0 <= i < s.len() && s[i] != sep ==> ok(#[trigger] s[i]),
    ensures
        forall|k: int, j: int|
            0 <= k < split_on(s, sep).len() && 0 <= j < split_on(s, sep)[k].len() ==> {
                let c = #[trigger] split_on(s, sep)[k][j];
                c != sep && ok(c)
            },
    decreases s.len(),
{
    crate::text::lemma_split_on_len(s, sep);
    if s.len() > 0 {
        let t = s.drop_last();
        assert forall|i: int| 0 <= i < t.len() && t[i] != sep implies ok(#[trigger] t[i]) by {
            assert(t[i] == s[i]);
        }
        lemma_split_pieces(t, sep, ok);
        crate::text::lemma_split_on_len(t, sep);
        let p = split_on(t, sep);
        let q = split_on(s, sep);
        assert forall|k: int, j: int| 0 <= k < q.len() && 0 <= j < q[k].len() implies {
            let c = #[trigger] q[k][j];
            c != sep && ok(c)
        } by {
            if s.last() == sep {
                if k < p.len() {
                    assert(q[k] == p[k]);
                } else {
                    assert(q[k].len() == 0);
                }
            } else {
                if k < p.len() - 1 {
                    assert(q[k] == p[k]);
                } else {
                    assert(q[k] == p.last().push(s.last()));
                    if j < p.last().len() {
                        assert(q[k][j] == p[p.len() - 1][j]);
                    } else {
                        assert(q[k][j] == s[s.len() - 1]);
                    }
                }
            }
        }
    }
}

/// Joining pieces whose characters all pass `ok` with a separator gives
/// only those characters and the separator.
proof fn lemma_joined_chars(pieces: Seq<Seq<char>>, sep: char, ok: spec_fn(char) -> bool)
    requires
        forall|k: int, j: int| 0 <= k < pieces.len() && 0 <= j < pieces[k].len() ==> ok(#[trigger] pieces[k][j]),
    ensures
        forall|i: int| 0 <= i < joined(pieces, sep).len() ==> {
            let c = #[trigger] joined(pieces, sep)[i];
            c == sep || ok(c)
        },
    decreases pieces.len(),
{
    if pieces.len() > 1 {
        let init = pieces.drop_last();
        assert forall|k: int, j: int| 0 <= k < init.len() && 0 <= j < init[k].len() implies ok(#[trigger] init[k][j]) by {
            assert(init[k] == pieces[k]);
        }
        lemma_joined_chars(init, sep, ok);
        let a = joined(init, sep);
        let whole = a + seq![sep] + pieces.last();
        assert forall|i: int| 0 <= i < whole.len() implies {
            let c = #[trigger] whole[i];
            c == sep || ok(c)
        } by {
            if i < a.len() {
                assert(whole[i] == a[i]);
            } else if i == a.len() {
            } else {
                assert(whole[i] == pieces[pieces.len() - 1][i - a.len() - 1]);
            }
        }
    } else if pieces.len() == 1 {
        assert forall|i: int| 0 <= i < joined(pieces, sep).len() implies {
            let c = #[trigger] joined(pieces, sep)[i];
            c == sep || ok(c)
        } by {
            assert(joined(pieces, sep)[i] == pieces[0][i]);
        }
    }
}

/// A directory name made by `slugify` is safe: at most 64 characters, each an
/// ASCII letter, an ASCII digit or a hyphen, so it can hold neither a path
/// separator nor a dot.
pub proof fn lemma_slug_is_safe(lower: Seq<char>)
    ensures
        slug_of(lower).len() <= 64,
        slug_of(lower).len() > 0,
        forall|i: int| 0 <= i < slug_of(lower).len() ==> {
            let c = #[trigger] slug_of(lower)[i];
            is_ascii_alnum(c) || c == '-'
        },
{
    let ok = |c: char| is_ascii_alnum(c);
    let d = dashed(lower);
    assert forall|i: int| 0 <= i < d.len() && d[i] != '-' implies ok(#[trigger] d[i]) by {
    }
    lemma_split_pieces(d, '-', ok);
    let parts = split_on(d, '-');
    let kept = parts.filter(non_empty_piece());
    assert forall|k: int, j: int| 0 <= k < kept.len() && 0 <= j < kept[k].len() implies ok(#[trigger] kept[k][j]) by {
        parts.lemma_filter_contains_rev(non_empty_piece(), kept[k]);
        assert(kept.contains(kept[k]));
        let m = choose|m: int| 0 <= m < parts.len() && parts[m] == kept[k];
        assert(parts[m][j] == kept[k][j]);
    }
    lemma_joined_chars(kept, '-', ok);
    let j = joined(kept, '-');
    if j.len() == 0 {
        reveal_strlit("calendar");
        assert forall|i: int| 0 <= i < "calendar"@.len() implies {
            let c = #[trigger] "calendar"@[i];
            is_ascii_alnum(c) || c == '-'
        } by {
        }
    } else if j.len() > 64 {
        assert forall|i: int| 0 <= i < j.take(64).len() implies {
            let c = #[trigger] j.take(64)[i];
            is_ascii_alnum(c) || c == '-'
        } by {
            assert(j.take(64)[i] == j[i]);
        }
    }
}


/// Whether calendar `a` is listed before `b`: by name, ignoring case.
pub open spec fn named_before(a: CalendarMeta, b: CalendarMeta) -> bool {
    crate::store::text_lt(lowercase(a.name@), lowercase(b.name@))
}

/// Where `x` goes among `s`: before the first calendar it is listed before,
/// so that names equal but for case keep their order.
pub open spec fn name_pos(s: Seq<CalendarMeta>, x: CalendarMeta) -> int
    decreases s.len(),
{
    if s.len() == 0 {
        0
    } else if named_before(x, s[0]) {
        0
    } else {
        1 + name_pos(s.drop_first(), x)
    }
}

/// The calendars in name order, ignoring case; equal names keep their order.
pub open spec fn by_name(s: Seq<CalendarMeta>) -> Seq<CalendarMeta>
    decreases s.len(),
{
    if s.len() == 0 {
        Seq::empty()
    } else {
        let p = by_name(s.drop_last());
        p.insert(name_pos(p, s.last()), s.last())
    }
}

/// The lowercased name a calendar is listed by.
fn name_key(c: &CalendarMeta) -> (r: Vec<char>)
    ensures
        r@ == lowercase(c.name@),
{
    let lower = to_lowercase(c.name.as_str());
    chars_of(lower.as_str())
}

/// Lists calendars by name, ignoring case; the sort is stable.
pub fn sort_by_name(metas: Vec<CalendarMeta>) -> (r: Vec<CalendarMeta>)
    ensures
        r@ == by_name(metas@),
{
    let mut out: Vec<CalendarMeta> = Vec::new();
    let mut keys: Vec<Vec<char>> = Vec::new();
    let mut rest = metas;
    let ghost all = rest@;
    let mut i: usize = 0;
    assert(all.skip(0) =~= all);
    assert(all.take(0) =~= Seq::<CalendarMeta>::empty());
    let count: usize = rest.len();
    assert(all.len() == count);
    while rest.len() > 0
        invariant
            all.len() <= usize::MAX,
            i + rest@.len() == all.len(),
            rest@ == all.skip(i as int),
            out@ == by_name(all.take(i as int)),
            keys@.len() == out@.len(),
            forall|k: int| 0 <= k < keys@.len() ==> (#[trigger] keys@[k])@ == lowercase(out@[k].name@),
        decreases rest.len(),
    {
        let x = rest.remove(0);
        assert(x == all[i as int]);
        let kx = name_key(&x);
        let mut p: usize = 0;
        assert(out@.skip(0) =~= out@);
        while p < out.len() && !crate::store::text_lt_exec(kx.as_slice(), keys[p].as_slice())
            invariant
                p <= out@.len(),
                keys@.len() == out@.len(),
                kx@ == lowercase(x.name@),
                forall|k: int| 0 <= k < keys@.len() ==> (#[trigger] keys@[k])@ == lowercase(out@[k].name@),
                name_pos(out@, x) == p + name_pos(out@.skip(p as int), x),
            decreases out.len() - p,
        {
            assert(out@.skip(p as int).drop_first() =~= out@.skip(p + 1));
            p = p + 1;
        }
        assert(all.take(i + 1).drop_last() =~= all.take(i as int));
        assert(all.take(i + 1).last() == x);
        let ghost before_keys = keys@;
        let ghost before = out@;
        out.insert(p, x);
        keys.insert(p, kx);
        assert forall|k: int| 0 <= k < keys@.len() implies (#[trigger] keys@[k])@ == lowercase(out@[k].name@) by {
            if k < p {
                assert(keys@[k] == before_keys[k] && out@[k] == before[k]);
            } else if k > p {
                assert(keys@[k] == before_keys[k - 1] && out@[k] == before[k - 1]);
            }
        }
        i = i + 1;
        assert(rest@ =~= all.skip(i as int));
    }
    assert(all.take(all.len() as int) =~= all);
    out
}


proof fn lemma_name_pos(s: Seq<CalendarMeta>, x: CalendarMeta)
    ensures
        0 <= name_pos(s, x) <= s.len(),
        forall|k: int| 0 <= k < name_pos(s, x) ==> !named_before(x, #[trigger] s[k]),
        name_pos(s, x) < s.len() ==> named_before(x, s[name_pos(s, x)]),
    decreases s.len(),
{
    if s.len() > 0 && !named_before(x, s[0]) {
        lemma_name_pos(s.drop_first(), x);
        assert forall|k: int| 0 <= k < name_pos(s, x) implies !named_before(x, #[trigger] s[k]) by {
            if k > 0 {
                assert(s[k] == s.drop_first()[k - 1]);
            }
        }
    }
}

/// The calendars are listed in name order, ignoring case, and none is lost
/// or added.
pub proof fn lemma_by_name_sorted(s: Seq<CalendarMeta>)
    ensures
        crate::store::in_order_by(by_name(s), |a: CalendarMeta, b: CalendarMeta| named_before(a, b)),
        by_name(s).to_multiset() == s.to_multiset(),
    decreases s.len(),
{
    let before = |a: CalendarMeta, b: CalendarMeta| named_before(a, b);
    if s.len() == 0 {
        assert(by_name(s) =~= s);
    } else {
        let p = by_name(s.drop_last());
        let x = s.last();
        lemma_by_name_sorted(s.drop_last());
        lemma_name_pos(p, x);
        let pos = name_pos(p, x);
        if pos < p.len() {
            crate::store::lemma_text_lt_asymmetric(lowercase(x.name@), lowercase(p[pos].name@));
        }
        assert forall|k: int| pos < k < p.len() && #[trigger] before(p[k], x) implies before(p[k], p[pos]) by {
            crate::store::lemma_text_lt_transitive(
                lowercase(p[k].name@),
                lowercase(x.name@),
                lowercase(p[pos].name@),
            );
        }
        crate::store::lemma_insert_in_order(p, x, pos, before);
        vstd::seq_lib::to_multiset_insert(p, pos, x);
        vstd::seq_lib::to_multiset_build(s.drop_last(), x);
        assert(s.drop_last().push(x) =~= s);
    }
}

} // verus!
