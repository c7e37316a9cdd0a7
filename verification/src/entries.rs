//! Which of several versions of a row counts.
//!
//! Every layer of the engine is a sequence of stamped rows: a key, the
//! sequence number under which it was written, and what was written. The row
//! that counts for a key is the one with the highest sequence number.

use vstd::prelude::*;
use crate::order::{group_key_order, key_lt};
use crate::types::{key_view, value_view, Key, KeyView, Value};

verus! {

broadcast use group_key_order;

/// One stored version of a row.
pub type Entry = (Key, u64, Option<Value>);

/// The mathematical form of an [`Entry`].
pub type EntryView = (KeyView, u64, Option<Seq<u8>>);

/// What an [`Entry`] stands for.
pub open spec fn entry_view(e: Entry) -> EntryView {
    (key_view(e.0), e.1, value_view(e.2))
}

/// What a list of entries stands for.
pub open spec fn entries_view(s: Seq<Entry>) -> Seq<EntryView> {
    s.map_values(|e: Entry| entry_view(e))
}

/// The version of the row under `k` with the highest sequence number; of
/// several with that number the first.
pub open spec fn newest<T>(s: Seq<(KeyView, u64, T)>, k: KeyView) -> Option<(u64, T)>
    decreases s.len(),
{
    if s.len() == 0 {
        None
    } else {
        let before = newest(s.drop_last(), k);
        let e = s.last();
        if e.0 == k && (before is None || before.unwrap().0 < e.1) {
            Some((e.1, e.2))
        } else {
            before
        }
    }
}

/// The fresher of two versions: the one with the higher sequence number, and
/// `a` where the numbers are equal.
pub open spec fn fresher<T>(a: Option<(u64, T)>, b: Option<(u64, T)>) -> Option<(u64, T)> {
    match (a, b) {
        (None, _) => b,
        (_, None) => a,
        (Some(x), Some(y)) => if x.0 < y.0 {
            b
        } else {
            a
        },
    }
}

/// The value that a reader sees: a deletion reads as nothing.
pub open spec fn visible(v: Option<(u64, Option<Seq<u8>>)>) -> Option<Seq<u8>> {
    match v {
        Some((_, value)) => value,
        None => None,
    }
}

/// The keys of `s` rise strictly.
pub open spec fn is_run<T>(s: Seq<(KeyView, u64, T)>) -> bool {
    forall|i: int, j: int| #![trigger s[i], s[j]] 0 <= i < j < s.len() ==> key_lt(s[i].0, s[j].0)
}

/// The newest version in two layers is the fresher of the newest in each.
pub proof fn lemma_newest_concat<T>(
    a: Seq<(KeyView, u64, T)>,
    b: Seq<(KeyView, u64, T)>,
    k: KeyView,
)
    ensures
        newest(a + b, k) == fresher(newest(a, k), newest(b, k)),
    decreases b.len(),
{
    if b.len() == 0 {
        assert(a + b =~= a);
    } else {
        lemma_newest_concat(a, b.drop_last(), k);
        assert((a + b).drop_last() =~= a + b.drop_last());
        assert((a + b).last() == b.last());
    }
}

/// Nothing is found exactly where no row has the key.
pub proof fn lemma_newest_none<T>(s: Seq<(KeyView, u64, T)>, k: KeyView)
    ensures
        newest(s, k) is None <==> (forall|i: int| 0 <= i < s.len() ==> (#[trigger] s[i]).0 != k),
    decreases s.len(),
{
    if s.len() > 0 {
        lemma_newest_none(s.drop_last(), k);
        assert forall|i: int| newest(s, k) is None && 0 <= i < s.len() implies (#[trigger] s[i]).0
            != k by {
            if i < s.len() - 1 {
                assert(s.drop_last()[i] == s[i]);
            }
        }
        if forall|i: int| 0 <= i < s.len() ==> (#[trigger] s[i]).0 != k {
            assert forall|i: int| 0 <= i < s.drop_last().len() implies (
            #[trigger] s.drop_last()[i]).0 != k by {
                assert(s.drop_last()[i] == s[i]);
            }
            assert(s[s.len() - 1].0 != k);
        }
    }
}

/// What is found is one of the rows, and no row under the key is newer.
pub proof fn lemma_newest_is_max<T>(s: Seq<(KeyView, u64, T)>, k: KeyView)
    requires
        newest(s, k) is Some,
    ensures
        exists|i: int|
            0 <= i < s.len() && #[trigger] s[i] == (
                k,
                newest(s, k).unwrap().0,
                newest(s, k).unwrap().1,
            ),
        forall|j: int|
            0 <= j < s.len() && (#[trigger] s[j]).0 == k ==> s[j].1 <= newest(s, k).unwrap().0,
    decreases s.len(),
{
    let p = s.drop_last();
    let e = s.last();
    if newest(p, k) is Some {
        lemma_newest_is_max(p, k);
        let i = choose|i: int|
            0 <= i < p.len() && #[trigger] p[i] == (
                k,
                newest(p, k).unwrap().0,
                newest(p, k).unwrap().1,
            );
        assert(s[i] == p[i]);
    } else {
        lemma_newest_none(p, k);
    }
    assert(s[s.len() - 1] == e);
    assert forall|j: int| 0 <= j < s.len() && (#[trigger] s[j]).0 == k implies s[j].1 <= newest(
        s,
        k,
    ).unwrap().0 by {
        if j < p.len() {
            assert(p[j] == s[j]);
        }
    }
}

/// In a run every row is the newest under its key.
pub proof fn lemma_newest_in_run<T>(s: Seq<(KeyView, u64, T)>, i: int)
    requires
        is_run(s),
        0 <= i < s.len(),
    ensures
        newest(s, s[i].0) == Some((s[i].1, s[i].2)),
    decreases s.len(),
{
    let p = s.drop_last();
    if i < p.len() {
        assert forall|a: int, b: int| #![trigger p[a], p[b]] 0 <= a < b < p.len() implies key_lt(
            p[a].0,
            p[b].0,
        ) by {
            assert(p[a] == s[a] && p[b] == s[b]);
        }
        lemma_newest_in_run(p, i);
        assert(p[i] == s[i]);
        assert(key_lt(s[i].0, s[s.len() - 1].0));
    } else {
        assert forall|j: int| 0 <= j < p.len() implies (#[trigger] p[j]).0 != s[i].0 by {
            assert(p[j] == s[j]);
        }
        lemma_newest_none(p, s[i].0);
    }
}

/// The highest sequence number; 0 where there is no row.
pub open spec fn max_seq_of<T>(s: Seq<(KeyView, u64, T)>) -> u64
    decreases s.len(),
{
    if s.len() == 0 {
        0
    } else {
        let before = max_seq_of(s.drop_last());
        if before < s.last().1 {
            s.last().1
        } else {
            before
        }
    }
}

/// No row has a higher sequence number than the highest.
pub proof fn lemma_max_seq<T>(s: Seq<(KeyView, u64, T)>, i: int)
    requires
        0 <= i < s.len(),
    ensures
        s[i].1 <= max_seq_of(s),
    decreases s.len(),
{
    if i < s.len() - 1 {
        lemma_max_seq(s.drop_last(), i);
        assert(s.drop_last()[i] == s[i]);
    }
}

/// The highest sequence number in two layers is the higher one.
pub proof fn lemma_max_seq_concat<T>(a: Seq<(KeyView, u64, T)>, b: Seq<(KeyView, u64, T)>)
    ensures
        max_seq_of(a + b) == if max_seq_of(a) < max_seq_of(b) {
            max_seq_of(b)
        } else {
            max_seq_of(a)
        },
    decreases b.len(),
{
    if b.len() == 0 {
        assert(a + b =~= a);
    } else {
        lemma_max_seq_concat(a, b.drop_last());
        assert((a + b).drop_last() =~= a + b.drop_last());
    }
}

/// What is found is no newer than the highest sequence number.
pub proof fn lemma_newest_bounded<T>(s: Seq<(KeyView, u64, T)>, k: KeyView)
    ensures
        newest(s, k) is Some ==> newest(s, k).unwrap().0 <= max_seq_of(s),
{
    if newest(s, k) is Some {
        lemma_newest_is_max(s, k);
        let i = choose|i: int|
            0 <= i < s.len() && #[trigger] s[i] == (
                k,
                newest(s, k).unwrap().0,
                newest(s, k).unwrap().1,
            );
        lemma_max_seq(s, i);
    }
}

/// A later row with a higher number under its key is the newest.
pub proof fn lemma_newest_push<T>(s: Seq<(KeyView, u64, T)>, e: (KeyView, u64, T), k: KeyView)
    ensures
        newest(s.push(e), k) == if k == e.0 {
            fresher(newest(s, k), Some((e.1, e.2)))
        } else {
            newest(s, k)
        },
{
    assert(s.push(e).drop_last() =~= s);
}

/// All rows of several sources, source by source.
pub open spec fn flat_rows<T>(sources: Seq<Seq<(KeyView, u64, T)>>) -> Seq<(KeyView, u64, T)>
    decreases sources.len(),
{
    if sources.len() == 0 {
        Seq::empty()
    } else {
        flat_rows(sources.drop_last()) + sources.last()
    }
}

/// The fresher of the newest versions in each source.
pub open spec fn best_of<T>(sources: Seq<Seq<(KeyView, u64, T)>>, k: KeyView) -> Option<(u64, T)>
    decreases sources.len(),
{
    if sources.len() == 0 {
        None
    } else {
        fresher(best_of(sources.drop_last(), k), newest(sources.last(), k))
    }
}

/// The newest version in all sources is the freshest of those in each.
pub proof fn lemma_best_of<T>(sources: Seq<Seq<(KeyView, u64, T)>>, k: KeyView)
    ensures
        newest(flat_rows(sources), k) == best_of(sources, k),
    decreases sources.len(),
{
    if sources.len() > 0 {
        lemma_best_of(sources.drop_last(), k);
        lemma_newest_concat(flat_rows(sources.drop_last()), sources.last(), k);
    }
}

/// Rows with the same key and sequence number say the same.
pub open spec fn agree<T>(s: Seq<(KeyView, u64, T)>) -> bool {
    forall|i: int, j: int|
        0 <= i < s.len() && 0 <= j < s.len() && (#[trigger] s[i]).0 == (#[trigger] s[j]).0
            && s[i].1 == s[j].1 ==> s[i].2 == s[j].2
}

/// No row under `k` is newer than all rows of `b` under `k`.
pub open spec fn outdone<T>(
    a: Seq<(KeyView, u64, T)>,
    b: Seq<(KeyView, u64, T)>,
    k: KeyView,
) -> bool {
    forall|i: int|
        0 <= i < a.len() && (#[trigger] a[i]).0 == k ==> (newest(b, k) matches Some((seq, _))
            && a[i].1 <= seq)
}

/// The rows of `b` under `k` are rows of `a`.
pub open spec fn part_of<T>(
    b: Seq<(KeyView, u64, T)>,
    a: Seq<(KeyView, u64, T)>,
    k: KeyView,
) -> bool {
    forall|j: int| 0 <= j < b.len() && (#[trigger] b[j]).0 == k ==> a.contains(b[j])
}

/// Leaving out rows that are outdone by others keeps the newest version.
pub proof fn lemma_same_newest<T>(
    a: Seq<(KeyView, u64, T)>,
    b: Seq<(KeyView, u64, T)>,
    k: KeyView,
)
    requires
        agree(a),
        part_of(b, a, k),
        outdone(a, b, k),
    ensures
        newest(a, k) == newest(b, k),
{
    if newest(b, k) is Some {
        lemma_newest_is_max(b, k);
        let j = choose|j: int|
            0 <= j < b.len() && #[trigger] b[j] == (
                k,
                newest(b, k).unwrap().0,
                newest(b, k).unwrap().1,
            );
        assert(a.contains(b[j]));
        let i = choose|i: int| 0 <= i < a.len() && a[i] == b[j];
        lemma_newest_none(a, k);
        if newest(a, k) is None {
            assert(a[i].0 == k);
        }
        lemma_newest_is_max(a, k);
        let x = choose|x: int|
            0 <= x < a.len() && #[trigger] a[x] == (
                k,
                newest(a, k).unwrap().0,
                newest(a, k).unwrap().1,
            );
        assert(a[x].0 == k && a[x].1 <= newest(b, k).unwrap().0);
        assert(a[i].1 <= newest(a, k).unwrap().0);
    } else {
        lemma_newest_none(a, k);
        if newest(a, k) is Some {
            lemma_newest_is_max(a, k);
            let x = choose|x: int|
                0 <= x < a.len() && #[trigger] a[x] == (
                    k,
                    newest(a, k).unwrap().0,
                    newest(a, k).unwrap().1,
                );
            assert(a[x].0 == k);
        }
    }
}

/// Rows of some layers are rows of one of them.
pub proof fn lemma_flat_rows<T>(sources: Seq<Seq<(KeyView, u64, T)>>)
    ensures
        forall|i: int| #![trigger flat_rows(sources)[i]]
            0 <= i < flat_rows(sources).len() ==> exists|l: int|
                0 <= l < sources.len() && (#[trigger] sources[l]).contains(flat_rows(sources)[i]),
        forall|l: int, x: int|
            0 <= l < sources.len() && 0 <= x < sources[l].len() ==> flat_rows(sources).contains(
                #[trigger] sources[l][x],
            ),
    decreases sources.len(),
{
    if sources.len() > 0 {
        let p = sources.drop_last();
        let n = sources.len() - 1;
        let f = flat_rows(p);
        let g = flat_rows(sources);
        lemma_flat_rows(p);
        assert(g == f + sources[n]);
        assert forall|i: int| #![trigger g[i]] 0 <= i < g.len() implies exists|l: int|
            0 <= l < sources.len() && (#[trigger] sources[l]).contains(g[i]) by {
            if i < f.len() {
                assert(g[i] == f[i]);
                let l = choose|l: int| 0 <= l < p.len() && (#[trigger] p[l]).contains(f[i]);
                assert(sources[l] == p[l]);
            } else {
                assert(g[i] == sources[n][i - f.len()]);
                assert(sources[n].contains(g[i]));
            }
        }
        assert forall|l: int, x: int|
            0 <= l < sources.len() && 0 <= x < sources[l].len() implies g.contains(
            #[trigger] sources[l][x],
        ) by {
            if l < n {
                assert(p[l] == sources[l]);
                assert(f.contains(p[l][x]));
                let i = choose|i: int| 0 <= i < f.len() && f[i] == p[l][x];
                assert(g[i] == f[i]);
            } else {
                assert(g[f.len() + x] == sources[l][x]);
            }
        }
    }
}

/// The version that counts: the one with the highest number under the key, and of
/// several with that number the one that comes first.
pub proof fn law_first_of_highest_counts<T>(s: Seq<(KeyView, u64, T)>, k: KeyView, i: int)
    requires
        0 <= i < s.len(),
        s[i].0 == k,
        forall|j: int| 0 <= j < s.len() && (#[trigger] s[j]).0 == k ==> s[j].1 <= s[i].1,
        forall|j: int| 0 <= j < i && (#[trigger] s[j]).0 == k ==> s[j].1 < s[i].1,
    ensures
        newest(s, k) == Some((s[i].1, s[i].2)),
    decreases s.len(),
{
    let p = s.drop_last();
    assert forall|j: int| 0 <= j < p.len() && (#[trigger] p[j]).0 == k implies p[j].1 <= s[i].1 && (
    j < i ==> p[j].1 < s[i].1) by {
        assert(p[j] == s[j]);
    }
    if i < p.len() {
        assert(p[i] == s[i]);
        law_first_of_highest_counts(p, k, i);
        assert(s[s.len() - 1] == s.last());
    } else {
        if newest(p, k) is Some {
            lemma_newest_is_max(p, k);
            let j = choose|j: int|
                0 <= j < p.len() && #[trigger] p[j] == (
                    k,
                    newest(p, k).unwrap().0,
                    newest(p, k).unwrap().1,
                );
            assert(s[j] == p[j]);
        }
    }
}

/// The highest number is at least that of every row, and a row has it; without
/// rows it is 0.
pub proof fn law_highest_number<T>(s: Seq<(KeyView, u64, T)>)
    ensures
        forall|i: int| 0 <= i < s.len() ==> (#[trigger] s[i]).1 <= max_seq_of(s),
        s.len() == 0 ==> max_seq_of(s) == 0,
        s.len() > 0 ==> exists|i: int| 0 <= i < s.len() && (#[trigger] s[i]).1 == max_seq_of(s),
    decreases s.len(),
{
    if s.len() > 0 {
        let p = s.drop_last();
        let n = s.len() - 1;
        law_highest_number(p);
        assert(s[n] == s.last());
        assert forall|i: int| 0 <= i < s.len() implies (#[trigger] s[i]).1 <= max_seq_of(s) by {
            if i < n {
                assert(p[i] == s[i]);
            }
        }
        if max_seq_of(s) != s[n].1 {
            let i = choose|i: int| 0 <= i < p.len() && (#[trigger] p[i]).1 == max_seq_of(p);
            assert(s[i] == p[i]);
        }
    }
}

/// A reader sees the value of the version that counts, and nothing where it is a
/// deletion or there is none. Of two versions the one with the higher number
/// counts.
pub proof fn law_readers_see_values(seq: u64, value: Seq<u8>, other: u64)
    ensures
        visible(Some((seq, Some(value)))) == Some(value),
        visible(Some((seq, None::<Seq<u8>>))) is None,
        visible(None) is None,
        other < seq ==> fresher(Some((other, None::<Seq<u8>>)), Some((seq, Some(value)))) == Some(
            (seq, Some(value)),
        ) && fresher(Some((seq, Some(value))), Some((other, None::<Seq<u8>>))) == Some(
            (seq, Some(value)),
        ),
        fresher(None, Some((seq, Some(value)))) == Some((seq, Some(value))),
        fresher(Some((seq, Some(value))), None) == Some((seq, Some(value))),
        fresher(Some((seq, Some(value))), Some((seq, None::<Seq<u8>>))) == Some((seq, Some(value))),
{
}

/// The rows of several sources are those of each, one source after the other.
pub proof fn law_sources_follow_each_other<T>(
    sources: Seq<Seq<(KeyView, u64, T)>>,
    more: Seq<(KeyView, u64, T)>,
)
    ensures
        flat_rows(Seq::<Seq<(KeyView, u64, T)>>::empty()) == Seq::<(KeyView, u64, T)>::empty(),
        flat_rows(sources.push(more)) == flat_rows(sources) + more,
{
    assert(sources.push(more).drop_last() =~= sources);
}

/// In a run every key comes before all that follow, so none occurs twice.
pub proof fn law_runs_rise<T>(s: Seq<(KeyView, u64, T)>, i: int, j: int)
    requires
        is_run(s),
        0 <= i < j < s.len(),
    ensures
        key_lt(s[i].0, s[j].0),
        s[i].0 != s[j].0,
{
}

/// What a list of entries stands for: each in order, with its key, number and value.
pub proof fn law_entries_stand_for_themselves(s: Seq<Entry>)
    ensures
        entries_view(s).len() == s.len(),
        forall|i: int| #![trigger entries_view(s)[i]]
            0 <= i < s.len() ==> entries_view(s)[i].0.0 == s[i].0.0@ && entries_view(s)[i].0.1
                == s[i].0.1 && entries_view(s)[i].1 == s[i].1 && (s[i].2 is None <==> entries_view(
                s,
            )[i].2 is None) && (s[i].2 matches Some(v) ==> entries_view(s)[i].2 == Some(v@)),
{
}

} // verus!
