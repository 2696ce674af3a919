//! Placing a day's timed events side by side on the hour grid.
//!
//! Each event is clipped to the day, the events are ordered by start and then
//! end, and runs of mutually overlapping events (clusters) are each dealt
//! columns by greedy interval partitioning: an event takes the first column
//! whose last event has ended, else a new one. One busy hour therefore never
//! narrows the rest of the day.

use vstd::prelude::*;
use crate::date::{day_number, instant, lemma_day_number_bounds, max_day_number, Date};
use crate::event::{day_start, Occurrence};

verus! {

/// An event clipped to the day: which occurrence, and its clipped span in
/// seconds.
#[derive(Clone, Copy, Debug, PartialEq, Eq, Structural)]
pub struct Clip {
    pub index: usize,
    pub start: i64,
    pub end: i64,
}

/// Where one event lands in the day column.
#[derive(Clone, Copy, Debug, PartialEq, Eq, Structural)]
pub struct Placed {
    /// The occurrence, by its position in the day's list.
    pub index: usize,
    /// Minutes from midnight of the clipped start and end, as the wall clock
    /// reads them; an event clipped at the next midnight ends at minute 0.
    pub start_minute: i64,
    pub end_minute: i64,
    /// Which of `columns` side-by-side slots it takes.
    pub column: usize,
    pub columns: usize,
    /// Whether it began before this day.
    pub continues_from_earlier: bool,
}

/// Whether an occurrence shows in the hour grid of the day starting at `ds`.
pub open spec fn touches(o: Occurrence, ds: int) -> bool {
    !o.all_day && instant(o.start) < ds + 86400 && instant(o.end) > ds
}

/// The occurrence at position `i` clipped to the day starting at `ds`.
pub open spec fn clip_of(o: Occurrence, i: int, ds: int) -> Clip {
    Clip {
        index: i as usize,
        start: (if instant(o.start) > ds {
            instant(o.start)
        } else {
            ds
        }) as i64,
        end: (if instant(o.end) < ds + 86400 {
            instant(o.end)
        } else {
            ds + 86400
        }) as i64,
    }
}

/// The timed occurrences that touch the day, clipped, in list order.
pub open spec fn clips_of(occs: Seq<Occurrence>, ds: int) -> Seq<Clip>
    decreases occs.len(),
{
    if occs.len() == 0 {
        Seq::empty()
    } else {
        let p = clips_of(occs.drop_last(), ds);
        if touches(occs.last(), ds) {
            p.push(clip_of(occs.last(), occs.len() - 1, ds))
        } else {
            p
        }
    }
}

/// Whether `a` comes strictly before `b` by start, then end.
pub open spec fn before(a: Clip, b: Clip) -> bool {
    a.start < b.start || (a.start == b.start && a.end < b.end)
}

/// Where `x` goes in `s`: before the first element it comes strictly before,
/// so that equal keys keep their order.
pub open spec fn insert_pos(s: Seq<Clip>, x: Clip) -> int
    decreases s.len(),
{
    if s.len() == 0 {
        0
    } else if before(x, s[0]) {
        0
    } else {
        1 + insert_pos(s.drop_first(), x)
    }
}

/// The clips ordered by start then end, ties kept in list order.
pub open spec fn sort_clips(s: Seq<Clip>) -> Seq<Clip>
    decreases s.len(),
{
    if s.len() == 0 {
        Seq::empty()
    } else {
        let p = sort_clips(s.drop_last());
        p.insert(insert_pos(p, s.last()), s.last())
    }
}

/// The latest end among `srt[i..k]`.
pub open spec fn reach(srt: Seq<Clip>, i: int, k: int) -> int
    decreases k - i,
{
    if k <= i + 1 {
        srt[i].end as int
    } else {
        let r = reach(srt, i, k - 1);
        if srt[k - 1].end > r {
            srt[k - 1].end as int
        } else {
            r
        }
    }
}

/// The end of the cluster that starts at `i`, searching from `k`: the first
/// clip that starts no earlier than everything before it in the cluster has
/// ended.
pub open spec fn cluster_end(srt: Seq<Clip>, i: int, k: int) -> int
    decreases srt.len() - k,
{
    if k >= srt.len() || srt[k].start >= reach(srt, i, k) {
        k
    } else {
        cluster_end(srt, i, k + 1)
    }
}

/// The first column whose last event ended by `start`, or the column count.
pub open spec fn first_free(ends: Seq<i64>, start: i64) -> int
    decreases ends.len(),
{
    if ends.len() == 0 {
        0
    } else if ends[0] <= start {
        0
    } else {
        1 + first_free(ends.drop_first(), start)
    }
}

/// Greedy interval partitioning of a cluster: each clip's column, and where
/// each column's last clip ends.
pub open spec fn greedy(cl: Seq<Clip>) -> (Seq<int>, Seq<i64>)
    decreases cl.len(),
{
    if cl.len() == 0 {
        (Seq::empty(), Seq::empty())
    } else {
        let (cols, ends) = greedy(cl.drop_last());
        let x = cl.last();
        let c = first_free(ends, x.start);
        if c < ends.len() {
            (cols.push(c), ends.update(c, x.end))
        } else {
            (cols.push(ends.len() as int), ends.push(x.end))
        }
    }
}

/// Minutes from midnight as the wall clock reads them at instant `x`.
pub open spec fn minute_of_day(x: int, ds: int) -> int {
    ((x - ds) % 86400) / 60
}

/// The block for clip `c` in column `column` of `columns`.
pub open spec fn placed_of(c: Clip, column: int, columns: int, occs: Seq<Occurrence>, ds: int) -> Placed {
    Placed {
        index: c.index,
        start_minute: minute_of_day(c.start as int, ds) as i64,
        end_minute: minute_of_day(c.end as int, ds) as i64,
        column: column as usize,
        columns: columns as usize,
        continues_from_earlier: instant(occs[c.index as int].start) < ds,
    }
}

/// The blocks of one cluster, laid out together.
pub open spec fn place_cluster(cl: Seq<Clip>, occs: Seq<Occurrence>, ds: int) -> Seq<Placed> {
    let (cols, ends) = greedy(cl);
    Seq::new(cl.len(), |k: int| placed_of(cl[k], cols[k], ends.len() as int, occs, ds))
}

/// The blocks of every cluster from position `i` of the ordered clips.
pub open spec fn layout_from(srt: Seq<Clip>, i: int, occs: Seq<Occurrence>, ds: int) -> Seq<Placed>
    decreases srt.len() - i,
{
    if i < 0 || i >= srt.len() {
        Seq::empty()
    } else {
        let j = cluster_end(srt, i, i + 1);
        if j <= i || j > srt.len() {
            Seq::empty()
        } else {
            place_cluster(srt.subrange(i, j), occs, ds) + layout_from(srt, j, occs, ds)
        }
    }
}

/// The blocks of a day's hour grid.
pub open spec fn layout_spec(occs: Seq<Occurrence>, date: Date) -> Seq<Placed> {
    let ds = day_start(date);
    layout_from(sort_clips(clips_of(occs, ds)), 0, occs, ds)
}

/// A clip of one of `n` occurrences, within the day starting at `ds`.
pub open spec fn clip_in(c: Clip, n: int, ds: int) -> bool {
    &&& c.index < n
    &&& ds <= c.start < ds + 86400
    &&& ds < c.end <= ds + 86400
}

/// Sorting keeps the clips it was given, and no others.
proof fn lemma_sort_keeps(s: Seq<Clip>, n: int, ds: int)
    requires
        forall|k: int| 0 <= k < s.len() ==> clip_in(#[trigger] s[k], n, ds),
    ensures
        sort_clips(s).len() == s.len(),
        forall|k: int| 0 <= k < sort_clips(s).len() ==> clip_in(#[trigger] sort_clips(s)[k], n, ds),
    decreases s.len(),
{
    if s.len() > 0 {
        let t = s.drop_last();
        assert forall|k: int| 0 <= k < t.len() implies clip_in(#[trigger] t[k], n, ds) by {
            assert(t[k] == s[k]);
        }
        lemma_sort_keeps(t, n, ds);
        let p = sort_clips(t);
        lemma_insert_pos_bounds(p, s.last());
        let q = p.insert(insert_pos(p, s.last()), s.last());
        assert forall|k: int| 0 <= k < q.len() implies clip_in(#[trigger] q[k], n, ds) by {
            let at = insert_pos(p, s.last());
            if k < at {
                assert(q[k] == p[k]);
            } else if k == at {
                assert(q[k] == s.last());
            } else {
                assert(q[k] == p[k - 1]);
            }
        }
    }
}

proof fn lemma_insert_pos_bounds(s: Seq<Clip>, x: Clip)
    ensures
        0 <= insert_pos(s, x) <= s.len(),
    decreases s.len(),
{
    if s.len() > 0 && !before(x, s[0]) {
        lemma_insert_pos_bounds(s.drop_first(), x);
    }
}

proof fn lemma_cluster_end_bounds(srt: Seq<Clip>, i: int, k: int)
    requires
        0 <= i < k,
    ensures
        k <= cluster_end(srt, i, k),
        k <= srt.len() ==> cluster_end(srt, i, k) <= srt.len(),
    decreases srt.len() - k,
{
    if !(k >= srt.len() || srt[k].start >= reach(srt, i, k)) {
        lemma_cluster_end_bounds(srt, i, k + 1);
    }
}

/// The clipped, timed occurrences of a day, in list order.
fn clips_exec(occs: &[Occurrence], ds: i64) -> (r: Vec<Clip>)
    requires
        forall|k: int| 0 <= k < occs@.len() ==> (#[trigger] occs@[k]).valid(),
        -100_000_000_000_000 <= ds <= 100_000_000_000_000,
    ensures
        r@ == clips_of(occs@, ds as int),
        forall|k: int| 0 <= k < r@.len() ==> clip_in(#[trigger] r@[k], occs@.len() as int, ds as int),
{
    let mut out: Vec<Clip> = Vec::new();
    let mut i: usize = 0;
    assert(occs@.take(0) =~= Seq::<Occurrence>::empty());
    while i < occs.len()
        invariant
            i <= occs@.len(),
            forall|k: int| 0 <= k < occs@.len() ==> (#[trigger] occs@[k]).valid(),
            -100_000_000_000_000 <= ds <= 100_000_000_000_000,
            out@ == clips_of(occs@.take(i as int), ds as int),
            forall|k: int| 0 <= k < out@.len() ==> clip_in(#[trigger] out@[k], i as int, ds as int),
        decreases occs.len() - i,
    {
        let o = &occs[i];
        assert(occs@.take(i + 1).drop_last() =~= occs@.take(i as int));
        assert(occs@.take(i + 1).last() == *o);
        proof {
            lemma_day_number_bounds(o.start.date);
            lemma_day_number_bounds(o.end.date);
        }
        let s = o.start.instant();
        let e = o.end.instant();
        if !o.all_day && s < ds + 86400 && e > ds {
            let cs = if s > ds {
                s
            } else {
                ds
            };
            let ce = if e < ds + 86400 {
                e
            } else {
                ds + 86400
            };
            out.push(Clip { index: i, start: cs, end: ce });
        }
        i = i + 1;
    }
    assert(occs@.take(occs@.len() as int) =~= occs@);
    out
}

/// `s` ordered by start then end, ties kept in order.
fn sort_exec(s: &Vec<Clip>) -> (r: Vec<Clip>)
    ensures
        r@ == sort_clips(s@),
{
    let mut out: Vec<Clip> = Vec::new();
    let mut i: usize = 0;
    assert(s@.take(0) =~= Seq::<Clip>::empty());
    while i < s.len()
        invariant
            i <= s@.len(),
            out@ == sort_clips(s@.take(i as int)),
        decreases s.len() - i,
    {
        let x = s[i];
        let mut p: usize = 0;
        assert(out@.skip(0) =~= out@);
        while p < out.len() && !(x.start < out[p].start || (x.start == out[p].start && x.end
            < out[p].end))
            invariant
                p <= out@.len(),
                insert_pos(out@, x) == p + insert_pos(out@.skip(p as int), x),
            decreases out.len() - p,
        {
            assert(out@.skip(p as int).drop_first() =~= out@.skip(p + 1));
            p = p + 1;
        }
        assert(insert_pos(out@.skip(p as int), x) == 0);
        assert(s@.take(i + 1).drop_last() =~= s@.take(i as int));
        out.insert(p, x);
        i = i + 1;
    }
    assert(s@.take(s@.len() as int) =~= s@);
    out
}

/// The first column free at `start`.
fn first_free_exec(ends: &Vec<i64>, start: i64) -> (r: usize)
    ensures
        r == first_free(ends@, start),
        r <= ends@.len(),
{
    let mut c: usize = 0;
    assert(ends@.skip(0) =~= ends@);
    while c < ends.len() && ends[c] > start
        invariant
            c <= ends@.len(),
            first_free(ends@, start) == c + first_free(ends@.skip(c as int), start),
        decreases ends.len() - c,
    {
        assert(ends@.skip(c as int).drop_first() =~= ends@.skip(c + 1));
        c = c + 1;
    }
    proof {
        if c < ends@.len() {
            assert(ends@.skip(c as int)[0] == ends@[c as int]);
        }
    }
    c
}

/// Lays out the day's timed occurrences: one block per occurrence that
/// touches the day, in start-then-end order, each cluster of overlapping
/// events dealt its own columns.
pub fn layout_day(date: Date, occurrences: &[Occurrence]) -> (r: Vec<Placed>)
    requires
        date.valid(),
        day_number(date) < max_day_number(),
        forall|k: int| 0 <= k < occurrences@.len() ==> (#[trigger] occurrences@[k]).valid(),
    ensures
        r@ == layout_spec(occurrences@, date),
{
    proof {
        lemma_day_number_bounds(date);
    }
    let ds = date.day_number() * 86400;
    let clips = clips_exec(occurrences, ds);
    let srt = sort_exec(&clips);
    proof {
        lemma_sort_keeps(clips@, occurrences@.len() as int, ds as int);
    }
    let ghost occs = occurrences@;
    let ghost whole = layout_from(srt@, 0, occs, ds as int);
    let n = srt.len();
    let mut out: Vec<Placed> = Vec::new();
    let mut i: usize = 0;
    assert(whole == out@ + layout_from(srt@, i as int, occs, ds as int));
    while i < n
        invariant
            n == srt@.len(),
            i <= n,
            occs == occurrences@,
            -100_000_000_000_000 <= ds <= 100_000_000_000_000,
            ds == day_start(date),
            whole == out@ + layout_from(srt@, i as int, occs, ds as int),
            forall|k: int| 0 <= k < srt@.len() ==> clip_in(#[trigger] srt@[k], occs.len() as int, ds as int),
            forall|k: int| 0 <= k < occs.len() ==> (#[trigger] occs[k]).valid(),
        decreases n - i,
    {
        // The cluster starting at i ends where a clip starts no earlier than
        // every clip before it has ended.
        let mut far = srt[i].end;
        let mut j: usize = i + 1;
        while j < n && srt[j].start < far
            invariant
                n == srt@.len(),
                i < j <= n,
                far == reach(srt@, i as int, j as int),
                cluster_end(srt@, i as int, i + 1) == cluster_end(srt@, i as int, j as int),
            decreases n - j,
        {
            if srt[j].end > far {
                far = srt[j].end;
            }
            j = j + 1;
        }
        let ghost cl = srt@.subrange(i as int, j as int);
        // Greedy interval partitioning within the cluster.
        let mut ends: Vec<i64> = Vec::new();
        let mut cols: Vec<usize> = Vec::new();
        let mut k: usize = i;
        while k < j
            invariant
                i <= k <= j <= n,
                n == srt@.len(),
                cl == srt@.subrange(i as int, j as int),
                cols@.len() == k - i,
                greedy(cl.take(k - i)).0 == cols@.map_values(|c: usize| c as int),
                greedy(cl.take(k - i)).1 == ends@,
                forall|t: int| 0 <= t < cols@.len() ==> cols@[t] < ends@.len(),
            decreases j - k,
        {
            let x = srt[k];
            assert(cl.take(k + 1 - i).drop_last() =~= cl.take(k - i));
            assert(cl.take(k + 1 - i).last() == x);
            let c = first_free_exec(&ends, x.start);
            let ghost before = cols@;
            if c < ends.len() {
                ends.set(c, x.end);
                cols.push(c);
            } else {
                ends.push(x.end);
                cols.push(ends.len() - 1);
            }
            assert(cols@.map_values(|c: usize| c as int) =~= before.map_values(|c: usize| c as int).push(
                cols@.last() as int,
            ));
            k = k + 1;
        }
        assert(cl.take(j - i) =~= cl);
        let columns = ends.len();
        let ghost before = out@;
        let mut t: usize = i;
        while t < j
            invariant
                i <= t <= j <= n,
                n == srt@.len(),
                cl == srt@.subrange(i as int, j as int),
                cols@.len() == j - i,
                greedy(cl).0 == cols@.map_values(|c: usize| c as int),
                greedy(cl).1.len() == columns,
                -100_000_000_000_000 <= ds <= 100_000_000_000_000,
                ds == day_start(date),
                out@ == before + place_cluster(cl, occs, ds as int).take(t - i),
                occs == occurrences@,
                forall|q: int| 0 <= q < srt@.len() ==> clip_in(#[trigger] srt@[q], occs.len() as int, ds as int),
                forall|q: int| 0 <= q < occs.len() ==> (#[trigger] occs[q]).valid(),
            decreases j - t,
        {
            let x = srt[t];
            let o = &occurrences[x.index];
            proof {
                lemma_day_number_bounds(o.start.date);
            }
            let s_min = ((x.start - ds) % 86400) / 60;
            let e_min = ((x.end - ds) % 86400) / 60;
            let p = Placed {
                index: x.index,
                start_minute: s_min,
                end_minute: e_min,
                column: cols[t - i],
                columns: columns,
                continues_from_earlier: o.start.instant() < ds,
            };
            assert(p == place_cluster(cl, occs, ds as int)[t - i]);
            out.push(p);
            assert(place_cluster(cl, occs, ds as int).take(t + 1 - i) =~= place_cluster(
                cl,
                occs,
                ds as int,
            ).take(t - i).push(p));
            t = t + 1;
        }
        assert(place_cluster(cl, occs, ds as int).take(j - i) =~= place_cluster(cl, occs, ds as int));
        proof {
            lemma_cluster_end_bounds(srt@, i as int, i + 1);
            assert(out@ + layout_from(srt@, j as int, occs, ds as int) =~= before + layout_from(
                srt@,
                i as int,
                occs,
                ds as int,
            ));
        }
        i = j;
    }
    out
}

/// Greedy partitioning gives every clip a column among those it opens.
pub proof fn lemma_greedy_columns(cl: Seq<Clip>)
    ensures
        greedy(cl).0.len() == cl.len(),
        forall|k: int| 0 <= k < cl.len() ==> 0 <= #[trigger] greedy(cl).0[k] < greedy(cl).1.len(),
        cl.len() > 0 ==> greedy(cl).1.len() >= 1,
        greedy(cl).1.len() <= cl.len(),
    decreases cl.len(),
{
    if cl.len() > 0 {
        let p = cl.drop_last();
        lemma_greedy_columns(p);
        let (cols, ends) = greedy(p);
        lemma_first_free(ends, cl.last().start);
    }
}

proof fn lemma_first_free(ends: Seq<i64>, start: i64)
    ensures
        0 <= first_free(ends, start) <= ends.len(),
        first_free(ends, start) < ends.len() ==> ends[first_free(ends, start)] <= start,
    decreases ends.len(),
{
    if ends.len() > 0 && ends[0] > start {
        let t = ends.drop_first();
        lemma_first_free(t, start);
        if first_free(t, start) < t.len() {
            assert(ends[first_free(ends, start)] == t[first_free(t, start)]);
        }
    }
}

/// Clips that share a column never overlap: of two clips given one column,
/// the earlier ends by the time the later starts. (Each clip is taken to end
/// no earlier than it starts.)
pub proof fn lemma_greedy_disjoint(cl: Seq<Clip>)
    requires
        forall|k: int| 0 <= k < cl.len() ==> (#[trigger] cl[k]).start <= cl[k].end,
    ensures
        forall|a: int, b: int|
            0 <= a < b < cl.len() && #[trigger] greedy(cl).0[a] == #[trigger] greedy(cl).0[b]
                ==> cl[a].end <= cl[b].start,
        forall|k: int| 0 <= k < cl.len() ==> cl[k].end <= #[trigger] greedy(cl).1[greedy(cl).0[k]],
    decreases cl.len(),
{
    lemma_greedy_columns(cl);
    if cl.len() > 0 {
        let p = cl.drop_last();
        assert forall|k: int| 0 <= k < p.len() implies (#[trigger] p[k]).start <= p[k].end by {
            assert(p[k] == cl[k]);
        }
        lemma_greedy_disjoint(p);
        lemma_greedy_columns(p);
        let (cols, ends) = greedy(p);
        let x = cl.last();
        let c = first_free(ends, x.start);
        lemma_first_free(ends, x.start);
        let (cols2, ends2) = greedy(cl);
        assert(x.start <= x.end);
        assert forall|k: int| 0 <= k < cl.len() implies cl[k].end <= #[trigger] ends2[cols2[k]] by {
            if k < p.len() {
                assert(cl[k] == p[k]);
                assert(cols2[k] == cols[k]);
                if c < ends.len() && cols[k] == c {
                    assert(ends[c] <= x.start);
                }
            }
        }
        assert forall|a: int, b: int|
            0 <= a < b < cl.len() && #[trigger] cols2[a] == #[trigger] cols2[b] implies cl[a].end
                <= cl[b].start by {
            assert(cl[a] == p[a]);
            assert(cols2[a] == cols[a]);
            if b < p.len() {
                assert(cl[b] == p[b]);
                assert(cols2[b] == cols[b]);
            } else {
                assert(cols[a] < ends.len());
                assert(cols2[b] == c);
                assert(c < ends.len());
                assert(cl[a].end <= ends[cols[a]]);
            }
        }
    }
}

/// Every block of a cluster lies in one of the cluster's columns, and blocks
/// given the same column do not overlap.
pub proof fn lemma_cluster_columns(cl: Seq<Clip>, occs: Seq<Occurrence>, ds: int)
    requires
        cl.len() <= usize::MAX,
        forall|k: int| 0 <= k < cl.len() ==> (#[trigger] cl[k]).start <= cl[k].end,
    ensures
        forall|k: int| 0 <= k < cl.len() ==> (#[trigger] place_cluster(cl, occs, ds)[k]).column < place_cluster(cl, occs, ds)[k].columns,
        forall|a: int, b: int|
            0 <= a < b < cl.len() && (#[trigger] place_cluster(cl, occs, ds)[a]).column == (
            #[trigger] place_cluster(cl, occs, ds)[b]).column ==> cl[a].end <= cl[b].start,
{
    lemma_greedy_columns(cl);
    lemma_greedy_disjoint(cl);
    let (cols, ends) = greedy(cl);
    let pl = place_cluster(cl, occs, ds);
    assert forall|k: int| 0 <= k < cl.len() implies (#[trigger] pl[k]).column < pl[k].columns by {
        assert(0 <= cols[k] < ends.len() <= usize::MAX);
        assert(pl[k].column == cols[k]);
        assert(pl[k].columns == ends.len());
    }
    assert forall|a: int, b: int|
        0 <= a < b < cl.len() && (#[trigger] pl[a]).column == (#[trigger] pl[b]).column implies cl[a].end
            <= cl[b].start by {
        assert(0 <= cols[a] < ends.len() <= usize::MAX);
        assert(0 <= cols[b] < ends.len());
        assert(pl[a].column == cols[a]);
        assert(pl[b].column == cols[b]);
    }
}

/// Every block of a day's layout lies in one of its cluster's columns.
pub proof fn lemma_layout_columns(occs: Seq<Occurrence>, date: Date)
    requires
        occs.len() <= usize::MAX,
    ensures
        forall|k: int| 0 <= k < layout_spec(occs, date).len() ==> (#[trigger] layout_spec(occs, date)[k]).column
            < layout_spec(occs, date)[k].columns,
{
    let ds = day_start(date);
    lemma_clips_len(occs, ds);
    lemma_sort_len(clips_of(occs, ds));
    lemma_layout_from_columns(sort_clips(clips_of(occs, ds)), 0, occs, ds);
}

proof fn lemma_clips_len(occs: Seq<Occurrence>, ds: int)
    ensures
        clips_of(occs, ds).len() <= occs.len(),
    decreases occs.len(),
{
    if occs.len() > 0 {
        lemma_clips_len(occs.drop_last(), ds);
    }
}

proof fn lemma_sort_len(s: Seq<Clip>)
    ensures
        sort_clips(s).len() == s.len(),
    decreases s.len(),
{
    if s.len() > 0 {
        lemma_sort_len(s.drop_last());
        lemma_insert_pos_bounds(sort_clips(s.drop_last()), s.last());
    }
}

proof fn lemma_layout_from_columns(srt: Seq<Clip>, i: int, occs: Seq<Occurrence>, ds: int)
    requires
        srt.len() <= usize::MAX,
    ensures
        forall|k: int| 0 <= k < layout_from(srt, i, occs, ds).len() ==> (#[trigger] layout_from(srt, i, occs, ds)[k]).column
            < layout_from(srt, i, occs, ds)[k].columns,
    decreases srt.len() - i,
{
    if !(i < 0 || i >= srt.len()) {
        let j = cluster_end(srt, i, i + 1);
        if !(j <= i || j > srt.len()) {
            let cl = srt.subrange(i, j);
            lemma_greedy_columns(cl);
            lemma_layout_from_columns(srt, j, occs, ds);
            let head = place_cluster(cl, occs, ds);
            let tail = layout_from(srt, j, occs, ds);
            let (cols, ends) = greedy(cl);
            assert forall|k: int| 0 <= k < (head + tail).len() implies (#[trigger] (head + tail)[k]).column
                < (head + tail)[k].columns by {
                if k < head.len() {
                    assert(0 <= cols[k] < ends.len() <= usize::MAX);
                    assert((head + tail)[k] == head[k]);
                    assert(head[k].column == cols[k]);
                    assert(head[k].columns == ends.len());
                } else {
                    assert((head + tail)[k] == tail[k - head.len()]);
                }
            }
        }
    }
}


proof fn lemma_insert_pos(s: Seq<Clip>, x: Clip)
    ensures
        0 <= insert_pos(s, x) <= s.len(),
        forall|k: int| 0 <= k < insert_pos(s, x) ==> !before(x, #[trigger] s[k]),
        insert_pos(s, x) < s.len() ==> before(x, s[insert_pos(s, x)]),
    decreases s.len(),
{
    if s.len() > 0 && !before(x, s[0]) {
        lemma_insert_pos(s.drop_first(), x);
        assert forall|k: int| 0 <= k < insert_pos(s, x) implies !before(x, #[trigger] s[k]) by {
            if k > 0 {
                assert(s[k] == s.drop_first()[k - 1]);
            }
        }
    }
}

/// The day's clips are ordered by start, then end, and ordering them loses
/// or adds none.
pub proof fn lemma_sort_clips_sorted(s: Seq<Clip>)
    ensures
        crate::store::in_order_by(sort_clips(s), |a: Clip, b: Clip| before(a, b)),
        sort_clips(s).to_multiset() == s.to_multiset(),
    decreases s.len(),
{
    let lt = |a: Clip, b: Clip| before(a, b);
    if s.len() == 0 {
        assert(sort_clips(s) =~= s);
    } else {
        let p = sort_clips(s.drop_last());
        let x = s.last();
        lemma_sort_clips_sorted(s.drop_last());
        lemma_insert_pos(p, x);
        let pos = insert_pos(p, x);
        crate::store::lemma_insert_in_order(p, x, pos, lt);
        vstd::seq_lib::to_multiset_insert(p, pos, x);
        vstd::seq_lib::to_multiset_build(s.drop_last(), x);
        assert(s.drop_last().push(x) =~= s);
    }
}


/// Whether `w` picks that many different clips of `cl` that all cover the
/// instant `t`.
pub open spec fn clique_at(cl: Seq<Clip>, t: int, w: Seq<int>) -> bool {
    &&& w.no_duplicates()
    &&& forall|j: int|
        0 <= j < w.len() ==> 0 <= #[trigger] w[j] < cl.len() && cl[w[j]].start <= t < cl[w[j]].end
}

/// Whether the clips start in order.
pub open spec fn starts_in_order(cl: Seq<Clip>) -> bool {
    forall|i: int, j: int| 0 <= i < j < cl.len() ==> (#[trigger] cl[i]).start <= (#[trigger] cl[j]).start
}

/// The last clip placed in column `c`: the greedy layout remembers its end.
pub open spec fn last_in(cl: Seq<Clip>, cols: Seq<int>, ends: Seq<i64>, c: int, k: int) -> bool {
    &&& 0 <= k < cl.len()
    &&& cols[k] == c
    &&& cl[k].end == ends[c]
    &&& forall|k2: int| k < k2 < cl.len() ==> cols[k2] != c
}

/// Column `c` has a last clip.
pub open spec fn has_last(cl: Seq<Clip>, cols: Seq<int>, ends: Seq<i64>, c: int) -> bool {
    exists|k: int| #[trigger] last_in(cl, cols, ends, c, k)
}

proof fn lemma_greedy_lasts(cl: Seq<Clip>)
    ensures
        forall|c: int| 0 <= c < greedy(cl).1.len() ==> #[trigger] has_last(cl, greedy(cl).0, greedy(cl).1, c),
    decreases cl.len(),
{
    if cl.len() > 0 {
        let p = cl.drop_last();
        lemma_greedy_lasts(p);
        lemma_greedy_columns(p);
        let (pc, pe) = greedy(p);
        let x = cl.last();
        let n = p.len() as int;
        lemma_first_free(pe, x.start);
        let f = first_free(pe, x.start);
        let (cols, ends) = greedy(cl);
        assert forall|c: int| 0 <= c < ends.len() implies #[trigger] has_last(cl, cols, ends, c) by {
            if (f < pe.len() && c == f) || (f >= pe.len() && c == pe.len()) {
                assert(last_in(cl, cols, ends, c, n));
            } else {
                assert(has_last(p, pc, pe, c));
                let k = choose|k: int| #[trigger] last_in(p, pc, pe, c, k);
                assert(cols[k] == pc[k]);
                assert(cl[k] == p[k]);
                assert(last_in(cl, cols, ends, c, k));
            }
        }
    }
}

/// The greedy layout uses as few columns as any can: when a cluster's clips
/// start in order and each lasts a while, some instant is covered by as many
/// different clips as the layout has columns, and no layout can give those
/// clips fewer.
pub proof fn lemma_greedy_is_optimal(cl: Seq<Clip>)
    requires
        starts_in_order(cl),
        forall|k: int| 0 <= k < cl.len() ==> (#[trigger] cl[k]).start < cl[k].end,
    ensures
        exists|t: int, w: Seq<int>| w.len() == greedy(cl).1.len() && #[trigger] clique_at(cl, t, w),
    decreases cl.len(),
{
    if cl.len() == 0 {
        assert(clique_at(cl, 0, Seq::<int>::empty()));
    } else {
        let p = cl.drop_last();
        assert(starts_in_order(p)) by {
            assert forall|i: int, j: int| 0 <= i < j < p.len() implies (#[trigger] p[i]).start <= (#[trigger] p[j]).start by {
                assert(p[i] == cl[i] && p[j] == cl[j]);
            }
        }
        assert forall|k: int| 0 <= k < p.len() implies (#[trigger] p[k]).start < p[k].end by {
            assert(p[k] == cl[k]);
        }
        lemma_greedy_is_optimal(p);
        lemma_greedy_lasts(p);
        lemma_greedy_columns(p);
        let (pc, pe) = greedy(p);
        let x = cl.last();
        let n = p.len() as int;
        lemma_first_free(pe, x.start);
        lemma_first_free_all_busy(pe, x.start);
        let f = first_free(pe, x.start);
        let (t0, w0) = choose|t: int, w: Seq<int>| w.len() == pe.len() && #[trigger] clique_at(p, t, w);
        if f < pe.len() {
            assert(clique_at(cl, t0, w0)) by {
                assert forall|j: int| 0 <= j < w0.len() implies 0 <= #[trigger] w0[j] < cl.len() && cl[w0[j]].start
                    <= t0 < cl[w0[j]].end by {
                    assert(cl[w0[j]] == p[w0[j]]);
                }
            }
        } else {
            let m = pe.len() as int;
            let w = Seq::new(
                (m + 1) as nat,
                |j: int| if j < m { choose|k: int| #[trigger] last_in(p, pc, pe, j, k) } else { n },
            );
            let t = x.start as int;
            assert forall|j: int| 0 <= j < m implies last_in(p, pc, pe, j, #[trigger] w[j]) by {
                assert(has_last(p, pc, pe, j));
            }
            assert forall|j: int| 0 <= j < w.len() implies 0 <= #[trigger] w[j] < cl.len() && cl[w[j]].start <= t
                < cl[w[j]].end by {
                if j < m {
                    let k = w[j];
                    assert(last_in(p, pc, pe, j, k));
                    assert(cl[k] == p[k]);
                    assert(pe[j] > x.start);
                    assert(cl[k].start <= cl[n].start);
                }
            }
            assert(w.no_duplicates()) by {
                assert forall|a: int, b: int| 0 <= a < w.len() && 0 <= b < w.len() && a != b implies w[a] != w[b] by {
                    if a < m && b < m {
                        assert(last_in(p, pc, pe, a, w[a]));
                        assert(last_in(p, pc, pe, b, w[b]));
                    } else if a < m {
                        assert(last_in(p, pc, pe, a, w[a]));
                    } else if b < m {
                        assert(last_in(p, pc, pe, b, w[b]));
                    }
                }
            }
            assert(clique_at(cl, t, w));
        }
    }
}

proof fn lemma_first_free_all_busy(ends: Seq<i64>, start: i64)
    ensures
        first_free(ends, start) >= ends.len() ==> forall|c: int| 0 <= c < ends.len() ==> ends[c] > start,
    decreases ends.len(),
{
    if ends.len() > 0 && ends[0] > start {
        lemma_first_free_all_busy(ends.drop_first(), start);
        if first_free(ends, start) >= ends.len() {
            assert forall|c: int| 0 <= c < ends.len() implies ends[c] > start by {
                if c > 0 {
                    assert(ends[c] == ends.drop_first()[c - 1]);
                }
            }
        }
    }
}


/// The day's clips in the order they are laid out: by start, then end.
pub open spec fn day_clips(occs: Seq<Occurrence>, date: Date) -> Seq<Clip> {
    sort_clips(clips_of(occs, day_start(date)))
}

/// The latest end among `srt[i..m]` is at most `x` when each of them ends by
/// `x`.
proof fn lemma_reach_at_most(srt: Seq<Clip>, i: int, m: int, x: int)
    requires
        0 <= i < m <= srt.len(),
        forall|j: int| i <= j < m ==> (#[trigger] srt[j]).end <= x,
    ensures
        reach(srt, i, m) <= x,
    decreases m - i,
{
    if m > i + 1 {
        lemma_reach_at_most(srt, i, m - 1, x);
    }
}

/// The latest end among `srt[i..m]` depends on those clips only.
proof fn lemma_reach_take(srt: Seq<Clip>, i: int, m: int, k: int)
    requires
        0 <= i < m <= k <= srt.len(),
    ensures
        reach(srt.take(k), i, m) == reach(srt, i, m),
    decreases m - i,
{
    assert(srt.take(k)[i] == srt[i]);
    assert(srt.take(k)[m - 1] == srt[m - 1]);
    if m > i + 1 {
        lemma_reach_take(srt, i, m - 1, k);
    }
}

/// A cluster that starts before `k`, where every clip before `k` has ended
/// by the time `srt[k]` starts, ends at `k` at the latest, and ends where it
/// would if the clips from `k` on were not there.
proof fn lemma_cluster_end_take(srt: Seq<Clip>, i: int, m: int, k: int)
    requires
        0 <= i < m <= k < srt.len(),
        forall|j: int| 0 <= j < k ==> (#[trigger] srt[j]).end <= srt[k].start,
    ensures
        cluster_end(srt, i, m) == cluster_end(srt.take(k), i, m),
        m <= cluster_end(srt, i, m) <= k,
    decreases k - m,
{
    lemma_reach_take(srt, i, m, k);
    if m == k {
        lemma_reach_at_most(srt, i, k, srt[k].start as int);
    } else {
        assert(srt.take(k)[m] == srt[m]);
        if !(srt[m].start >= reach(srt, i, m)) {
            lemma_cluster_end_take(srt, i, m + 1, k);
        }
    }
}

/// The blocks from position `i` on are one per clip.
proof fn lemma_layout_from_len(srt: Seq<Clip>, i: int, occs: Seq<Occurrence>, ds: int)
    requires
        0 <= i <= srt.len(),
    ensures
        layout_from(srt, i, occs, ds).len() == srt.len() - i,
    decreases srt.len() - i,
{
    if i < srt.len() {
        let j = cluster_end(srt, i, i + 1);
        lemma_cluster_end_bounds(srt, i, i + 1);
        lemma_layout_from_len(srt, j, occs, ds);
    }
}

/// Where every clip before `k` has ended by the time `srt[k]` starts, the
/// blocks from a cluster start `i <= k` are those of the clips before `k`
/// laid out alone, followed by the blocks from `k` on.
proof fn lemma_layout_take(srt: Seq<Clip>, i: int, k: int, occs: Seq<Occurrence>, ds: int)
    requires
        0 <= i <= k < srt.len(),
        forall|j: int| 0 <= j < k ==> (#[trigger] srt[j]).end <= srt[k].start,
    ensures
        layout_from(srt, i, occs, ds) == layout_from(srt.take(k), i, occs, ds) + layout_from(
            srt,
            k,
            occs,
            ds,
        ),
        layout_from(srt.take(k), i, occs, ds).len() == k - i,
    decreases k - i,
{
    let pre = srt.take(k);
    if i == k {
        assert(layout_from(pre, i, occs, ds) =~= Seq::<Placed>::empty());
        assert(layout_from(pre, i, occs, ds) + layout_from(srt, k, occs, ds) =~= layout_from(
            srt,
            k,
            occs,
            ds,
        ));
    } else {
        let j = cluster_end(srt, i, i + 1);
        lemma_cluster_end_take(srt, i, i + 1, k);
        assert(pre.subrange(i, j) =~= srt.subrange(i, j));
        lemma_layout_take(srt, j, k, occs, ds);
        let head = place_cluster(srt.subrange(i, j), occs, ds);
        let mid = layout_from(pre, j, occs, ds);
        let tail = layout_from(srt, k, occs, ds);
        assert(layout_from(pre, i, occs, ds) == head + mid);
        assert(layout_from(srt, i, occs, ds) == head + (mid + tail));
        assert(head + (mid + tail) =~= (head + mid) + tail);
    }
}

/// An event that starts once every earlier event of the day has ended (or
/// just as the last of them ends) begins a new cluster: the blocks of the
/// earlier events are laid out as if the later ones were not there, and the
/// blocks from that event on follow them.
pub proof fn lemma_layout_splits_at_gap(occs: Seq<Occurrence>, date: Date, k: int)
    requires
        0 <= k < day_clips(occs, date).len(),
        forall|j: int|
            0 <= j < k ==> (#[trigger] day_clips(occs, date)[j]).end <= day_clips(occs, date)[k].start,
    ensures
        layout_spec(occs, date) == layout_from(day_clips(occs, date).take(k), 0, occs, day_start(date))
            + layout_from(day_clips(occs, date), k, occs, day_start(date)),
        layout_from(day_clips(occs, date).take(k), 0, occs, day_start(date)).len() == k,
{
    lemma_layout_take(day_clips(occs, date), 0, k, occs, day_start(date));
}

/// An event that overlaps no other event of the day gets the full width: one
/// block, in column 0 of 1. (Each event is taken to end no earlier than it
/// starts.)
pub proof fn lemma_isolated_full_width(occs: Seq<Occurrence>, date: Date, k: int)
    requires
        forall|j: int|
            0 <= j < day_clips(occs, date).len() ==> (#[trigger] day_clips(occs, date)[j]).start
                <= day_clips(occs, date)[j].end,
        0 <= k < day_clips(occs, date).len(),
        forall|j: int|
            0 <= j < day_clips(occs, date).len() && j != k ==> !((#[trigger] day_clips(
                occs,
                date,
            )[j]).start < day_clips(occs, date)[k].end && day_clips(occs, date)[k].start
                < day_clips(occs, date)[j].end),
    ensures
        layout_spec(occs, date).len() == day_clips(occs, date).len(),
        layout_spec(occs, date)[k].index == day_clips(occs, date)[k].index,
        layout_spec(occs, date)[k].column == 0,
        layout_spec(occs, date)[k].columns == 1,
{
    let ds = day_start(date);
    let srt = day_clips(occs, date);
    let c = srt[k];
    lemma_sort_clips_sorted(clips_of(occs, ds));
    assert(crate::store::in_order_by(srt, |a: Clip, b: Clip| before(a, b)));
    assert forall|j: int| 0 <= j < k implies (#[trigger] srt[j]).end <= c.start by {
        assert(!before(srt[k], srt[j]));
    }
    lemma_layout_take(srt, 0, k, occs, ds);
    lemma_layout_from_len(srt, 0, occs, ds);
    let e = cluster_end(srt, k, k + 1);
    if k + 1 < srt.len() {
        let d = srt[k + 1];
        assert(!before(d, c));
        assert(d.start >= c.end);
    }
    assert(e == k + 1);
    let cl = srt.subrange(k, k + 1);
    assert(cl.drop_last() =~= Seq::<Clip>::empty());
    assert(greedy(cl.drop_last()) == (Seq::<int>::empty(), Seq::<i64>::empty()));
    assert(first_free(Seq::<i64>::empty(), cl.last().start) == 0);
    assert(greedy(cl).0 =~= seq![0int]);
    assert(greedy(cl).1.len() == 1);
    let pre = layout_from(srt.take(k), 0, occs, ds);
    let rest = layout_from(srt, k, occs, ds);
    assert(rest == place_cluster(cl, occs, ds) + layout_from(srt, k + 1, occs, ds));
    assert(rest[0] == place_cluster(cl, occs, ds)[0]);
    assert(layout_spec(occs, date)[k] == (pre + rest)[k]);
    assert((pre + rest)[k] == rest[0]);
}


/// The latest end among `srt[i..m]` is at least the end of each of them.
proof fn lemma_reach_at_least(srt: Seq<Clip>, i: int, m: int, a: int)
    requires
        0 <= i <= a < m <= srt.len(),
    ensures
        reach(srt, i, m) >= srt[a].end,
    decreases m - i,
{
    if m > i + 1 && a < m - 1 {
        lemma_reach_at_least(srt, i, m - 1, a);
    }
}

/// Where a cluster stops short of the end, the next clip starts once every
/// clip of the cluster has ended.
proof fn lemma_cluster_end_gap(srt: Seq<Clip>, i: int, m: int)
    requires
        0 <= i < m,
        cluster_end(srt, i, m) < srt.len(),
    ensures
        srt[cluster_end(srt, i, m)].start >= reach(srt, i, cluster_end(srt, i, m)),
    decreases srt.len() - m,
{
    if !(m >= srt.len() || srt[m].start >= reach(srt, i, m)) {
        lemma_cluster_end_gap(srt, i, m + 1);
    }
}

/// Two overlapping clips at positions `a < b`, counted from a cluster start
/// `i`, land in one cluster and so in different columns.
proof fn lemma_layout_from_apart(
    srt: Seq<Clip>,
    i: int,
    occs: Seq<Occurrence>,
    ds: int,
    a: int,
    b: int,
)
    requires
        srt.len() <= usize::MAX,
        crate::store::in_order_by(srt, |x: Clip, y: Clip| before(x, y)),
        forall|k: int| 0 <= k < srt.len() ==> (#[trigger] srt[k]).start <= srt[k].end,
        0 <= i <= a < b < srt.len(),
        srt[b].start < srt[a].end,
    ensures
        layout_from(srt, i, occs, ds)[a - i].column != layout_from(srt, i, occs, ds)[b - i].column,
    decreases srt.len() - i,
{
    let j = cluster_end(srt, i, i + 1);
    lemma_cluster_end_bounds(srt, i, i + 1);
    let cl = srt.subrange(i, j);
    let head = place_cluster(cl, occs, ds);
    let tail = layout_from(srt, j, occs, ds);
    assert(layout_from(srt, i, occs, ds) == head + tail);
    if b < j {
        assert forall|k: int| 0 <= k < cl.len() implies (#[trigger] cl[k]).start <= cl[k].end by {
            assert(cl[k] == srt[i + k]);
        }
        lemma_cluster_columns(cl, occs, ds);
        assert(cl[a - i] == srt[a] && cl[b - i] == srt[b]);
        assert((head + tail)[a - i] == head[a - i]);
        assert((head + tail)[b - i] == head[b - i]);
    } else if a >= j {
        lemma_layout_from_apart(srt, j, occs, ds, a, b);
        lemma_layout_from_len(srt, j, occs, ds);
        assert(head.len() == j - i);
        assert((head + tail)[a - i] == tail[a - j]);
        assert((head + tail)[b - i] == tail[b - j]);
    } else {
        lemma_cluster_end_gap(srt, i, i + 1);
        lemma_reach_at_least(srt, i, j, a);
        if j < b {
            assert(!before(srt[b], srt[j]));
        }
        assert(false);
    }
}

/// Two events of the day that overlap never share a column: however the
/// clusters fall, overlapping events are in one cluster and are dealt
/// different columns. (Each event is taken to end no earlier than it
/// starts.)
pub proof fn lemma_overlapping_apart(occs: Seq<Occurrence>, date: Date, a: int, b: int)
    requires
        occs.len() <= usize::MAX,
        forall|j: int|
            0 <= j < day_clips(occs, date).len() ==> (#[trigger] day_clips(occs, date)[j]).start
                <= day_clips(occs, date)[j].end,
        0 <= a < day_clips(occs, date).len(),
        0 <= b < day_clips(occs, date).len(),
        a != b,
        day_clips(occs, date)[a].start < day_clips(occs, date)[b].end,
        day_clips(occs, date)[b].start < day_clips(occs, date)[a].end,
    ensures
        layout_spec(occs, date).len() == day_clips(occs, date).len(),
        layout_spec(occs, date)[a].column != layout_spec(occs, date)[b].column,
{
    let ds = day_start(date);
    let srt = day_clips(occs, date);
    lemma_sort_clips_sorted(clips_of(occs, ds));
    lemma_clips_len(occs, ds);
    lemma_sort_len(clips_of(occs, ds));
    lemma_layout_from_len(srt, 0, occs, ds);
    if a < b {
        lemma_layout_from_apart(srt, 0, occs, ds, a, b);
    } else {
        lemma_layout_from_apart(srt, 0, occs, ds, b, a);
    }
}

} // verus!
