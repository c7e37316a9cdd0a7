//! Rows grouped by their tags.

use vstd::prelude::*;
use crate::entries::{entries_view, is_run, newest, Entry, EntryView};
use crate::order::{bytes_same, group_key_order, group_tags_order, key_lt, tags_less, tags_lt};
use crate::run::Run;
use crate::types::{copy_bytes, copy_value, value_view, Key, KeyView, Value};

verus! {

broadcast use {group_key_order, group_tags_order};

/// A row of a series: timestamp, sequence number, value.
pub type SeriesRow = (i64, u64, Option<Value>);

/// The mathematical form of a [`SeriesRow`].
pub type SeriesRowView = (i64, u64, Option<Seq<u8>>);

/// What the rows of a series stand for.
pub open spec fn rows_view(rows: Seq<SeriesRow>) -> Seq<SeriesRowView> {
    Seq::new(rows.len(), |i: int| (rows[i].0, rows[i].1, value_view(rows[i].2)))
}

/// The entries of a series.
pub open spec fn tagged(tags: Seq<u8>, rows: Seq<SeriesRowView>) -> Seq<EntryView> {
    Seq::new(rows.len(), |i: int| ((tags, rows[i].0), rows[i].1, rows[i].2))
}

/// The newest row of a series at a timestamp; of several the first.
pub open spec fn newest_at(rows: Seq<SeriesRowView>, ts: i64) -> Option<(u64, Option<Seq<u8>>)>
    decreases rows.len(),
{
    if rows.len() == 0 {
        None
    } else {
        let before = newest_at(rows.drop_last(), ts);
        let r = rows.last();
        if r.0 == ts && (before is None || before.unwrap().0 < r.1) {
            Some((r.1, r.2))
        } else {
            before
        }
    }
}

/// The entries under the given tags.
pub open spec fn of_series(h: Seq<EntryView>, tags: Seq<u8>) -> Seq<EntryView>
    decreases h.len(),
{
    if h.len() == 0 {
        Seq::empty()
    } else {
        let before = of_series(h.drop_last(), tags);
        if h.last().0.0 == tags {
            before.push(h.last())
        } else {
            before
        }
    }
}

/// The newest entry of a series is the newest row at its timestamp.
pub proof fn lemma_newest_at(tags: Seq<u8>, rows: Seq<SeriesRowView>, ts: i64)
    ensures
        newest(tagged(tags, rows), (tags, ts)) == newest_at(rows, ts),
    decreases rows.len(),
{
    if rows.len() > 0 {
        lemma_newest_at(tags, rows.drop_last(), ts);
        assert(tagged(tags, rows).drop_last() =~= tagged(tags, rows.drop_last()));
    }
}

/// Only the entries of its own series count for a key.
pub proof fn lemma_of_series(h: Seq<EntryView>, k: KeyView)
    ensures
        newest(h, k) == newest(of_series(h, k.0), k),
    decreases h.len(),
{
    if h.len() > 0 {
        lemma_of_series(h.drop_last(), k);
        let s = of_series(h, k.0);
        if h.last().0.0 == k.0 {
            assert(s.drop_last() =~= of_series(h.drop_last(), k.0));
        }
    }
}

/// The newest row at a timestamp.
pub(crate) fn scan_series(rows: &Vec<SeriesRow>, ts: i64) -> (r: Option<(u64, Option<Value>)>)
    ensures
        match r {
            None => newest_at(rows_view(rows@), ts) is None,
            Some((seq, v)) => newest_at(rows_view(rows@), ts) == Some((seq, value_view(v))),
        },
{
    let ghost all = rows_view(rows@);
    let mut best: Option<usize> = None;
    let mut i: usize = 0;
    assert(all.take(0) =~= Seq::empty());
    while i < rows.len()
        invariant
            i <= rows@.len(),
            all == rows_view(rows@),
            match best {
                None => newest_at(all.take(i as int), ts) is None,
                Some(b) => b < i && newest_at(all.take(i as int), ts) == Some(
                    (all[b as int].1, all[b as int].2),
                ),
            },
        decreases rows@.len() - i,
    {
        assert(all.take(i + 1).drop_last() =~= all.take(i as int));
        assert(all.take(i + 1).last() == all[i as int]);
        if rows[i].0 == ts {
            let newer = match best {
                Some(b) => rows[b].1 < rows[i].1,
                None => true,
            };
            if newer {
                best = Some(i);
            }
        }
        i += 1;
    }
    assert(all.take(i as int) =~= all);
    match best {
        Some(b) => Some((rows[b].1, copy_value(&rows[b].2))),
        None => None,
    }
}

/// The value that is replaced by a write at a timestamp.
pub(crate) fn find_old(rows: &Vec<SeriesRow>, ts: i64) -> (r: Option<Value>)
    ensures
        value_view(r) == match newest_at(rows_view(rows@), ts) {
            Some((_, v)) => v,
            None => None,
        },
{
    match scan_series(rows, ts) {
        Some((_, v)) => v,
        None => None,
    }
}

/// The rows of a series in the order of their timestamps, the newest of each.
pub(crate) fn sorted_series(tags: &Vec<u8>, rows: &Vec<SeriesRow>) -> (r: Vec<Entry>)
    ensures
        is_run(entries_view(r@)),
        forall|i: int|
            0 <= i < r@.len() ==> (#[trigger] entries_view(r@)[i]).0.0 == tags@,
        forall|k: KeyView|
            #[trigger] newest(entries_view(r@), k) == newest(
                tagged(tags@, rows_view(rows@)),
                k,
            ),
        rows@.len() > 0 ==> r@.len() > 0,
        r@.len() <= rows@.len(),
{
    let ghost all = tagged(tags@, rows_view(rows@));
    let mut run = Run::new();
    let mut i: usize = 0;
    assert(all.take(0) =~= Seq::empty());
    while i < rows.len()
        invariant
            i <= rows@.len(),
            all == tagged(tags@, rows_view(rows@)),
            forall|k: KeyView| #[trigger] newest(run@, k) == newest(all.take(i as int), k),
        decreases rows@.len() - i,
    {
        let ghost before = run@;
        let row = &rows[i];
        run.absorb((copy_bytes(tags), row.0), row.1, copy_value(&row.2));
        proof {
            assert(all.take(i + 1).drop_last() =~= all.take(i as int));
            assert(all.take(i + 1).last() == all[i as int]);
            assert(all[i as int].0 == (tags@, row.0));
            assert forall|k: KeyView| #[trigger] newest(run@, k) == newest(all.take(i + 1), k) by {
                assert(newest(before, k) == newest(all.take(i as int), k));
            }
        }
        i += 1;
    }
    assert(all.take(i as int) =~= all);
    let r = run.into_rows();
    proof {
        let s = entries_view(r@);
        assert forall|i: int| 0 <= i < s.len() implies (#[trigger] s[i]).0.0 == tags@ by {
            crate::run::lemma_run_lookup(s, s[i].0);
            assert(newest(all, s[i].0) is Some);
            crate::entries::lemma_newest_is_max(all, s[i].0);
        }
        if rows@.len() > 0 {
            crate::entries::lemma_newest_none(all, all[0].0);
            assert(newest(s, all[0].0) is Some);
            crate::entries::lemma_newest_none(s, all[0].0);
        }
        lemma_distinct_len(s, all);
    }
    r
}

/// A run whose keys all occur in `all` is no longer than `all`.
proof fn lemma_distinct_len(s: Seq<EntryView>, all: Seq<EntryView>)
    requires
        is_run(s),
        forall|k: KeyView| newest(s, k) is Some ==> #[trigger] newest(all, k) is Some,
    ensures
        s.len() <= all.len(),
{
    let f = |i: int| choose|j: int| 0 <= j < all.len() && (#[trigger] all[j]).0 == s[i].0;
    assert forall|i: int| 0 <= i < s.len() implies 0 <= #[trigger] f(i) < all.len() && all[f(i)].0
        == s[i].0 by {
        crate::run::lemma_run_lookup(s, s[i].0);
        assert(newest(all, s[i].0) is Some);
        crate::entries::lemma_newest_none(all, s[i].0);
    }
    let image = Seq::new(s.len(), |i: int| f(i));
    assert(image.no_duplicates()) by {
        assert forall|a: int, b: int| 0 <= a < image.len() && 0 <= b < image.len() && a
            != b implies image[a] != image[b] by {
            assert(f(a) == image[a] && f(b) == image[b]);
            if a < b {
                assert(key_lt(s[a].0, s[b].0));
            } else {
                assert(key_lt(s[b].0, s[a].0));
            }
        }
    }
    image.unique_seq_to_set();
    let range = vstd::set_lib::set_int_range(0, all.len() as int);
    vstd::set_lib::lemma_int_range(0, all.len() as int);
    assert(image.to_set().subset_of(range)) by {
        assert forall|x: int| image.to_set().contains(x) implies range.contains(x) by {
            let a = choose|a: int| 0 <= a < image.len() && image[a] == x;
            assert(f(a) == x);
        }
    }
    vstd::set_lib::lemma_len_subset(image.to_set(), range);
}

/// One series.
pub struct Series {
    pub tags: Vec<u8>,
    pub rows: Vec<SeriesRow>,
}

/// Series in the order of their tags.
pub struct SeriesTable {
    pub series: Vec<Series>,
}

/// The tags rise strictly, and no series is empty.
pub open spec fn is_sorted(series: Seq<Series>) -> bool {
    &&& forall|i: int, j: int| #![trigger series[i], series[j]]
        0 <= i < j < series.len() ==> tags_lt(series[i].tags@, series[j].tags@)
    &&& forall|i: int| 0 <= i < series.len() ==> (#[trigger] series[i]).rows@.len() > 0
}

/// Some series has the tags.
pub open spec fn has_tags(series: Seq<Series>, tags: Seq<u8>) -> bool {
    exists|i: int| 0 <= i < series.len() && (#[trigger] series[i]).tags@ == tags
}

/// The rows under the tags.
pub open spec fn rows_under(series: Seq<Series>, tags: Seq<u8>) -> Seq<SeriesRowView> {
    if has_tags(series, tags) {
        let i = choose|i: int| 0 <= i < series.len() && (#[trigger] series[i]).tags@ == tags;
        rows_view(series[i].rows@)
    } else {
        Seq::empty()
    }
}

/// The series with the tags is the only one.
pub proof fn lemma_rows_under(series: Seq<Series>, i: int)
    requires
        is_sorted(series),
        0 <= i < series.len(),
    ensures
        rows_under(series, series[i].tags@) == rows_view(series[i].rows@),
        rows_under(series, series[i].tags@).len() > 0,
{
    let t = series[i].tags@;
    assert(has_tags(series, t));
    let j = choose|j: int| 0 <= j < series.len() && (#[trigger] series[j]).tags@ == t;
    if i < j {
        assert(tags_lt(series[i].tags@, series[j].tags@));
    } else if j < i {
        assert(tags_lt(series[j].tags@, series[i].tags@));
    }
}

impl SeriesTable {
    pub open spec fn wf(&self) -> bool {
        is_sorted(self.series@)
    }

    /// A table without series.
    pub fn new() -> (r: Self)
        ensures
            r.wf(),
            r.series@.len() == 0,
    {
        SeriesTable { series: Vec::new() }
    }

    /// Whether the tags are there, and their position or where they belong.
    pub fn position(&self, tags: &Vec<u8>) -> (r: (bool, usize))
        requires
            self.wf(),
        ensures
            r.1 <= self.series@.len(),
            r.0 ==> r.1 < self.series@.len() && self.series@[r.1 as int].tags@ == tags@,
            forall|i: int| 0 <= i < r.1 ==> tags_lt((#[trigger] self.series@[i]).tags@, tags@),
            !r.0 ==> forall|i: int|
                r.1 <= i < self.series@.len() ==> tags_lt(
                    tags@,
                    (#[trigger] self.series@[i]).tags@,
                ),
            r.0 == has_tags(self.series@, tags@),
    {
        let ghost s = self.series@;
        let mut low: usize = 0;
        let mut high: usize = self.series.len();
        while low < high
            invariant
                low <= high <= s.len(),
                s == self.series@,
                is_sorted(s),
                forall|i: int| 0 <= i < low ==> tags_lt((#[trigger] s[i]).tags@, tags@),
                forall|i: int| high <= i < s.len() ==> tags_lt(tags@, (#[trigger] s[i]).tags@),
            decreases high - low,
        {
            let mid: usize = low + (high - low) / 2;
            if tags_less(&self.series[mid].tags, tags) {
                assert forall|i: int| 0 <= i < mid + 1 implies tags_lt(
                    (#[trigger] s[i]).tags@,
                    tags@,
                ) by {
                    if i < mid {
                        assert(tags_lt(s[i].tags@, s[mid as int].tags@));
                    }
                }
                low = mid + 1;
            } else if bytes_same(&self.series[mid].tags, tags) {
                assert forall|i: int| 0 <= i < mid implies tags_lt(
                    (#[trigger] s[i]).tags@,
                    tags@,
                ) by {
                    assert(tags_lt(s[i].tags@, s[mid as int].tags@));
                }
                return (true, mid);
            } else {
                assert(tags_lt(tags@, s[mid as int].tags@));
                assert forall|i: int| mid <= i < s.len() implies tags_lt(
                    tags@,
                    (#[trigger] s[i]).tags@,
                ) by {
                    if mid < i {
                        assert(tags_lt(s[mid as int].tags@, s[i].tags@));
                    }
                }
                high = mid;
            }
        }
        proof {
            if has_tags(s, tags@) {
                let i = choose|i: int| 0 <= i < s.len() && (#[trigger] s[i]).tags@ == tags@;
                assert(tags_lt(tags@, tags@));
            }
        }
        (false, low)
    }

    /// The newest version under a key.
    pub fn get(&self, key: &Key) -> (r: Option<(u64, Option<Value>)>)
        requires
            self.wf(),
        ensures
            match r {
                None => newest_at(rows_under(self.series@, key.0@), key.1) is None,
                Some((seq, v)) => newest_at(rows_under(self.series@, key.0@), key.1) == Some(
                    (seq, value_view(v)),
                ),
            },
    {
        let (found, at) = self.position(&key.0);
        if found {
            proof {
                lemma_rows_under(self.series@, at as int);
            }
            scan_series(&self.series[at].rows, key.1)
        } else {
            None
        }
    }

    /// Puts a series where its tags belong.
    pub fn add_series(&mut self, one: Series)
        requires
            old(self).wf(),
            !has_tags(old(self).series@, one.tags@),
            one.rows@.len() > 0,
        ensures
            final(self).wf(),
            forall|t: Seq<u8>|
                #[trigger] rows_under(final(self).series@, t) == if t == one.tags@ {
                    rows_view(one.rows@)
                } else {
                    rows_under(old(self).series@, t)
                },
            forall|t: Seq<u8>|
                #[trigger] has_tags(final(self).series@, t) == (t == one.tags@ || has_tags(
                    old(self).series@,
                    t,
                )),
    {
        let (found, at) = self.position(&one.tags);
        let ghost before = self.series@;
        self.series.insert(at, one);
        proof {
            lemma_series_insert(before, at as int, one);
            assert(self.series@ =~= before.insert(at as int, one));
        }
    }

    /// Adds a row at the end of its series and tells what it replaces.
    pub fn append(&mut self, tags: Vec<u8>, ts: i64, seq: u64, value: Option<Value>) -> (r: Option<
        Value,
    >)
        requires
            old(self).wf(),
        ensures
            final(self).wf(),
            value_view(r) == match newest_at(rows_under(old(self).series@, tags@), ts) {
                Some((_, v)) => v,
                None => None,
            },
            forall|t: Seq<u8>|
                #[trigger] rows_under(final(self).series@, t) == if t == tags@ {
                    rows_under(old(self).series@, t).push((ts, seq, value_view(value)))
                } else {
                    rows_under(old(self).series@, t)
                },
            forall|t: Seq<u8>|
                #[trigger] has_tags(final(self).series@, t) == (t == tags@ || has_tags(
                    old(self).series@,
                    t,
                )),
    {
        let (found, at) = self.position(&tags);
        let ghost before = self.series@;
        if found {
            proof {
                lemma_rows_under(before, at as int);
            }
            let r = find_old(&self.series[at].rows, ts);
            self.series[at].rows.push((ts, seq, value));
            proof {
                let after = self.series@;
                assert forall|i: int, j: int| #![trigger after[i], after[j]]
                    0 <= i < j < after.len() implies tags_lt(after[i].tags@, after[j].tags@) by {
                    assert(after[i].tags@ == before[i].tags@ && after[j].tags@ == before[j].tags@);
                }
                assert forall|i: int| 0 <= i < after.len() implies (
                #[trigger] after[i]).rows@.len() > 0 by {
                    if i != at {
                        assert(after[i] == before[i]);
                    }
                }
                assert(rows_view(after[at as int].rows@) =~= rows_view(
                    before[at as int].rows@,
                ).push((ts, seq, value_view(value))));
                lemma_series_update(before, after, at as int);
                lemma_rows_under(after, at as int);
            }
            r
        } else {
            let mut rows: Vec<SeriesRow> = Vec::new();
            rows.push((ts, seq, value));
            assert(rows_view(rows@) =~= Seq::<SeriesRowView>::empty().push(
                (ts, seq, value_view(value)),
            ));
            self.add_series(Series { tags, rows });
            None
        }
    }
}

proof fn lemma_series_insert(s: Seq<Series>, at: int, one: Series)
    requires
        is_sorted(s),
        0 <= at <= s.len(),
        one.rows@.len() > 0,
        forall|i: int| 0 <= i < at ==> tags_lt((#[trigger] s[i]).tags@, one.tags@),
        forall|i: int| at <= i < s.len() ==> tags_lt(one.tags@, (#[trigger] s[i]).tags@),
    ensures
        is_sorted(s.insert(at, one)),
        forall|t: Seq<u8>|
            #[trigger] rows_under(s.insert(at, one), t) == if t == one.tags@ {
                rows_view(one.rows@)
            } else {
                rows_under(s, t)
            },
        forall|t: Seq<u8>|
            #[trigger] has_tags(s.insert(at, one), t) == (t == one.tags@ || has_tags(s, t)),
{
    let u = s.insert(at, one);
    assert forall|i: int, j: int| #![trigger u[i], u[j]] 0 <= i < j < u.len() implies tags_lt(
        u[i].tags@,
        u[j].tags@,
    ) by {
        let x = if i < at {
            s[i]
        } else if i == at {
            one
        } else {
            s[i - 1]
        };
        let y = if j < at {
            s[j]
        } else if j == at {
            one
        } else {
            s[j - 1]
        };
        assert(u[i] == x && u[j] == y);
        assert(tags_lt(x.tags@, y.tags@));
    }
    assert forall|i: int| 0 <= i < u.len() implies (#[trigger] u[i]).rows@.len() > 0 by {
        if i < at {
            assert(u[i] == s[i]);
        } else if i > at {
            assert(u[i] == s[i - 1]);
        }
    }
    assert forall|t: Seq<u8>| #[trigger] has_tags(u, t) == (t == one.tags@ || has_tags(s, t))
        && rows_under(u, t) == if t == one.tags@ {
        rows_view(one.rows@)
    } else {
        rows_under(s, t)
    } by {
        assert(u[at] == one);
        lemma_rows_under(u, at);
        if t != one.tags@ {
            if has_tags(s, t) {
                let i = choose|i: int| 0 <= i < s.len() && (#[trigger] s[i]).tags@ == t;
                lemma_rows_under(s, i);
                let j = if i < at {
                    i
                } else {
                    i + 1
                };
                assert(u[j] == s[i]);
                lemma_rows_under(u, j);
            } else if has_tags(u, t) {
                let j = choose|j: int| 0 <= j < u.len() && (#[trigger] u[j]).tags@ == t;
                let i = if j < at {
                    j
                } else {
                    j - 1
                };
                assert(s[i] == u[j]);
            }
        }
    }
    assert forall|t: Seq<u8>| #[trigger] rows_under(u, t) == if t == one.tags@ {
        rows_view(one.rows@)
    } else {
        rows_under(s, t)
    } by {
        assert(has_tags(u, t) == (t == one.tags@ || has_tags(s, t)));
    }
}

proof fn lemma_series_update(s: Seq<Series>, u: Seq<Series>, at: int)
    requires
        is_sorted(s),
        is_sorted(u),
        0 <= at < s.len(),
        u.len() == s.len(),
        u[at].tags@ == s[at].tags@,
        forall|i: int| 0 <= i < s.len() && i != at ==> (#[trigger] u[i]) == s[i],
    ensures
        forall|t: Seq<u8>|
            t != s[at].tags@ ==> #[trigger] rows_under(u, t) == rows_under(s, t),
        forall|t: Seq<u8>| #[trigger] has_tags(u, t) == has_tags(s, t),
{
    assert forall|t: Seq<u8>| #[trigger] has_tags(u, t) == has_tags(s, t) by {
        if has_tags(s, t) {
            let i = choose|i: int| 0 <= i < s.len() && (#[trigger] s[i]).tags@ == t;
            assert(u[i].tags@ == t);
        }
        if has_tags(u, t) {
            let i = choose|i: int| 0 <= i < u.len() && (#[trigger] u[i]).tags@ == t;
            assert(s[i].tags@ == t);
        }
    }
    assert forall|t: Seq<u8>| t != s[at].tags@ implies #[trigger] rows_under(u, t) == rows_under(
        s,
        t,
    ) by {
        if has_tags(s, t) {
            let i = choose|i: int| 0 <= i < s.len() && (#[trigger] s[i]).tags@ == t;
            assert(u[i] == s[i]);
            lemma_rows_under(s, i);
            lemma_rows_under(u, i);
        } else {
            assert(!has_tags(u, t));
        }
    }
}

} // verus!
