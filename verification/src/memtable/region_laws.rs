//! What holds of a region across its operations.

use vstd::prelude::*;
use crate::batch::{
    batches_rows, entry_of, keyed, keyed_rows, row_entries, value_of, Batch, BatchRow, KeyedRow,
};
use crate::entries::{
    agree, best_of, flat_rows, is_run, lemma_best_of, lemma_flat_rows, lemma_max_seq,
    lemma_newest_concat, lemma_newest_in_run, lemma_newest_is_max, lemma_newest_none,
    lemma_same_newest, newest, outdone, part_of, visible, EntryView,
};
use crate::memtable::compaction::without;
use crate::memtable::memtable::{
    all_groups, conflicts, cutoff_of, froze, in_reach, is_expired, kept_times,
    law_rows_expire_by_age, narrowed, numbered, reached, same_rows, seq_after, top_of, unnumbered,
    watermark_of,
};
use crate::memtable::traits::{entry_op, entry_ops, op_entries, ImmutableMemtable, Memtable};
use crate::memtable::transaction::{law_old_newest_is_seen, older, Transaction};
use crate::memtable::version::{frozen_layers, seq_of, table_layers, Version};
use crate::memtable::wal::{appended, recovered, OpView};
use crate::memtable::wal_laws::{
    all_ops, law_log_recovered, law_torn_frame_dropped, lemma_log_push, log_of, recoverable,
};
use crate::order::key_lt;
use crate::query::merge::{is_merge, shown};
use crate::schema::TableSchema;
use crate::sstable::index::{chunk, in_chunks};
use crate::sstable::sstable::{in_groups, in_times, lemma_described_extent, timely, SSTable};
use crate::sstable::table_laws::{law_key_in_file_is_found, looked_up};
use crate::types::KeyView;

verus! {

/// All rows have a lower sequence number.
pub open spec fn all_before(rows: Seq<EntryView>, seq: u64) -> bool {
    forall|i: int| 0 <= i < rows.len() ==> (#[trigger] rows[i]).1 < seq
}

/// No row has a lower sequence number.
pub open spec fn none_before(rows: Seq<EntryView>, seq: u64) -> bool {
    forall|i: int| 0 <= i < rows.len() ==> seq <= (#[trigger] rows[i]).1
}

/// What is there under a key after `es` was written on top of `before`.
pub open spec fn over(
    es: Seq<EntryView>,
    before: Option<(u64, Option<Seq<u8>>)>,
    k: KeyView,
) -> Option<(u64, Option<Seq<u8>>)> {
    match newest(es, k) {
        Some(x) => Some(x),
        None => before,
    }
}

proof fn lemma_first_wins(layers: Seq<Seq<EntryView>>, k: KeyView)
    requires
        layers.len() > 0,
        newest(layers[0], k) is Some,
        forall|l: int|
            1 <= l < layers.len() ==> (newest(#[trigger] layers[l], k) matches Some((s, _)) ==> s
                <= newest(layers[0], k).unwrap().0),
    ensures
        best_of(layers, k) == newest(layers[0], k),
    decreases layers.len(),
{
    let p = layers.drop_last();
    if layers.len() == 1 {
        assert(best_of(p, k) is None);
    } else {
        assert forall|l: int| 1 <= l < p.len() implies (newest(#[trigger] p[l], k) matches Some((
            s,
            _,
        )) ==> s <= newest(p[0], k).unwrap().0) by {
            assert(p[l] == layers[l]);
        }
        lemma_first_wins(p, k);
        assert(layers.last() == layers[layers.len() - 1]);
    }
}

/// Layers that hold the same under a key have the same newest version.
pub proof fn lemma_pointwise(a: Seq<Seq<EntryView>>, b: Seq<Seq<EntryView>>, k: KeyView)
    requires
        a.len() == b.len(),
        forall|l: int|
            0 <= l < a.len() ==> newest(#[trigger] a[l], k) == newest(b[l], k),
    ensures
        best_of(a, k) == best_of(b, k),
    decreases a.len(),
{
    if a.len() > 0 {
        let p = a.drop_last();
        let q = b.drop_last();
        assert forall|l: int| 0 <= l < p.len() implies newest(#[trigger] p[l], k) == newest(
            q[l],
            k,
        ) by {
            assert(p[l] == a[l] && q[l] == b[l]);
        }
        lemma_pointwise(p, q, k);
        assert(a.last() == a[a.len() - 1]);
    }
}

/// A read gives back what was written last: when all rows that were there have
/// lower sequence numbers than the new entries, every key that the entries
/// write reads as the newest of them, and every other key reads as before.
pub proof fn law_writes_are_read(
    v: Version,
    now: Version,
    tables: Seq<Seq<EntryView>>,
    es: Seq<EntryView>,
    seq: u64,
)
    requires
        same_rows(now, v, v.active.history() + es),
        all_before(v.rows(tables), seq),
        none_before(es, seq),
    ensures
        forall|k: KeyView|
            #[trigger] newest(now.rows(tables), k) == over(es, newest(v.rows(tables), k), k),
{
    let a = v.layers(tables);
    let b = now.layers(tables);
    let h = v.active.history();
    assert(a[0] == h);
    assert(b[0] == h + es);
    assert forall|l: int| 1 <= l < a.len() implies #[trigger] b[l] == a[l] by {}
    assert forall|k: KeyView| #[trigger] newest(now.rows(tables), k) == over(
        es,
        newest(v.rows(tables), k),
        k,
    ) by {
        lemma_best_of(a, k);
        lemma_best_of(b, k);
        lemma_newest_concat(h, es, k);
        if newest(es, k) is None {
            assert forall|l: int| 0 <= l < a.len() implies newest(#[trigger] a[l], k) == newest(
                b[l],
                k,
            ) by {
                if l > 0 {
                    assert(b[l] == a[l]);
                }
            }
            lemma_pointwise(a, b, k);
        } else {
            lemma_newest_is_max(es, k);
            lemma_flat_rows(a);
            assert forall|l: int| 0 <= l < a.len() implies (newest(
                #[trigger] a[l],
                k,
            ) matches Some((s, _)) ==> s < seq) by {
                if newest(a[l], k) is Some {
                    lemma_newest_is_max(a[l], k);
                    let x = choose|x: int|
                        0 <= x < a[l].len() && #[trigger] a[l][x] == (
                            k,
                            newest(a[l], k).unwrap().0,
                            newest(a[l], k).unwrap().1,
                        );
                    assert(v.rows(tables).contains(a[l][x]));
                }
            }
            assert(newest(b[0], k) == newest(es, k)) by {
                assert(newest(a[0], k) == newest(h, k));
            }
            assert forall|l: int| 1 <= l < b.len() implies (newest(
                #[trigger] b[l],
                k,
            ) matches Some((s, _)) ==> s <= newest(b[0], k).unwrap().0) by {
                assert(b[l] == a[l]);
            }
            lemma_first_wins(b, k);
        }
    }
}

/// A write is read, and a deletion hides what was there.
pub proof fn law_read_after_write(
    v: Version,
    now: Version,
    tables: Seq<Seq<EntryView>>,
    e: EntryView,
)
    requires
        same_rows(now, v, v.active.history().push(e)),
        all_before(v.rows(tables), e.1),
    ensures
        newest(now.rows(tables), e.0) == Some((e.1, e.2)),
        visible(newest(now.rows(tables), e.0)) == e.2,
        forall|k: KeyView|
            k != e.0 ==> #[trigger] newest(now.rows(tables), k) == newest(v.rows(tables), k),
{
    let es = seq![e];
    assert(v.active.history().push(e) =~= v.active.history() + es);
    law_writes_are_read(v, now, tables, es, e.1);
    assert(es.drop_last() =~= Seq::empty());
    assert(newest(es, e.0) == Some((e.1, e.2))) by {
        assert(newest(es.drop_last(), e.0) is None);
    }
    assert forall|k: KeyView|
        k != e.0 implies #[trigger] newest(now.rows(tables), k) == newest(
        v.rows(tables),
        k,
    ) by {
        assert(newest(es.drop_last(), k) is None);
        assert(newest(es, k) is None);
    }
}

/// Of a batch the last write of every key is read, and keys that it does not
/// write read as before.
pub proof fn law_batch_is_read(
    v: Version,
    now: Version,
    tables: Seq<Seq<EntryView>>,
    writes: Seq<(KeyView, Option<Seq<u8>>)>,
    start: u64,
)
    requires
        same_rows(now, v, v.active.history() + numbered(writes, start)),
        all_before(v.rows(tables), start),
        start + writes.len() <= u64::MAX,
    ensures
        forall|i: int|
            0 <= i < writes.len() && (forall|j: int|
                i < j < writes.len() ==> (#[trigger] writes[j]).0 != writes[i].0) ==> newest(
                now.rows(tables),
                (#[trigger] writes[i]).0,
            ) == Some(((start + i) as u64, writes[i].1)),
        forall|k: KeyView|
            (forall|i: int| 0 <= i < writes.len() ==> (#[trigger] writes[i]).0 != k)
                ==> #[trigger] newest(now.rows(tables), k) == newest(v.rows(tables), k),
{
    let es = numbered(writes, start);
    law_writes_are_read(v, now, tables, es, start);
    assert forall|i: int|
        0 <= i < writes.len() && (forall|j: int|
            i < j < writes.len() ==> (#[trigger] writes[j]).0 != writes[i].0) implies newest(
        now.rows(tables),
        (#[trigger] writes[i]).0,
    ) == Some(((start + i) as u64, writes[i].1)) by {
        let k = writes[i].0;
        assert(es[i] == (k, (start + i) as u64, writes[i].1));
        lemma_newest_none(es, k);
        assert(newest(es, k) is Some);
        lemma_newest_is_max(es, k);
        let x = choose|x: int|
            0 <= x < es.len() && #[trigger] es[x] == (
                k,
                newest(es, k).unwrap().0,
                newest(es, k).unwrap().1,
            );
        assert(writes[x].0 == k);
        assert(newest(now.rows(tables), k) == over(es, newest(v.rows(tables), k), k));
    }
    assert forall|k: KeyView|
        (forall|i: int| 0 <= i < writes.len() ==> (#[trigger] writes[i]).0 != k)
            implies #[trigger] newest(now.rows(tables), k) == newest(v.rows(tables), k) by {
        lemma_newest_none(es, k);
        assert forall|i: int| 0 <= i < es.len() implies (#[trigger] es[i]).0 != k by {
            assert(writes[i].0 != k);
        }
    }
}

/// Sequence numbers stay fresh: entries with numbers from `seq` up to `next`
/// leave all rows below `next`.
pub proof fn law_numbers_stay_fresh(
    v: Version,
    now: Version,
    tables: Seq<Seq<EntryView>>,
    writes: Seq<(KeyView, Option<Seq<u8>>)>,
    start: u64,
)
    requires
        same_rows(now, v, v.active.history() + numbered(writes, start)),
        all_before(v.rows(tables), start),
        start + writes.len() <= u64::MAX,
    ensures
        all_before(now.rows(tables), seq_after(start, writes.len())),
        agree(v.rows(tables)) ==> agree(now.rows(tables)),
{
    let es = numbered(writes, start);
    let a = v.layers(tables);
    let b = now.layers(tables);
    let r = now.rows(tables);
    lemma_flat_rows(a);
    lemma_flat_rows(b);
    assert forall|i: int| 0 <= i < r.len() implies v.rows(tables).contains(r[i]) || es.contains(
        #[trigger] r[i],
    ) by {
        let l = choose|l: int| 0 <= l < b.len() && (#[trigger] b[l]).contains(flat_rows(b)[i]);
        let x = choose|x: int| 0 <= x < b[l].len() && b[l][x] == r[i];
        if l == 0 {
            let h = v.active.history();
            assert(b[0] == h + es);
            if x < h.len() {
                assert(a[0][x] == r[i]);
            } else {
                assert(es[x - h.len()] == r[i]);
            }
        } else {
            assert(b[l] == a[l]);
            assert(a[l][x] == r[i]);
        }
    }
    assert forall|i: int| 0 <= i < r.len() implies (#[trigger] r[i]).1 < seq_after(
        start,
        writes.len(),
    ) by {
        if es.contains(r[i]) {
            let x = choose|x: int| 0 <= x < es.len() && es[x] == r[i];
            assert(es[x].1 == start + x);
        }
    }
    if agree(v.rows(tables)) {
        assert forall|i: int, j: int|
            0 <= i < r.len() && 0 <= j < r.len() && (#[trigger] r[i]).0 == (#[trigger] r[j]).0
                && r[i].1 == r[j].1 implies r[i].2 == r[j].2 by {
            if es.contains(r[i]) {
                let x = choose|x: int| 0 <= x < es.len() && es[x] == r[i];
                assert(es[x].1 == start + x);
                if es.contains(r[j]) {
                    let y = choose|y: int| 0 <= y < es.len() && es[y] == r[j];
                    assert(es[y].1 == start + y);
                }
            } else if es.contains(r[j]) {
                let y = choose|y: int| 0 <= y < es.len() && es[y] == r[j];
                assert(es[y].1 == start + y);
            }
        }
    }
}

proof fn lemma_top_of(ssts: Seq<SSTable>, j: int)
    requires
        0 <= j < ssts.len(),
    ensures
        ssts[j].top_seq() <= top_of(ssts),
    decreases ssts.len(),
{
    if j < ssts.len() - 1 {
        lemma_top_of(ssts.drop_last(), j);
    }
}

/// A region starts with a sequence number above all that it finds.
pub proof fn law_open_is_fresh(v: Version, tables: Seq<Seq<EntryView>>)
    requires
        v.holds(tables),
        v.immutables@.len() == 0,
        watermark_of(v.active, v.ssts@) < u64::MAX,
    ensures
        all_before(v.rows(tables), (watermark_of(v.active, v.ssts@) + 1) as u64),
{
    let a = v.layers(tables);
    let r = v.rows(tables);
    lemma_flat_rows(a);
    assert forall|i: int| 0 <= i < r.len() implies (#[trigger] r[i]).1 < watermark_of(
        v.active,
        v.ssts@,
    ) + 1 by {
        let l = choose|l: int| 0 <= l < a.len() && (#[trigger] a[l]).contains(flat_rows(a)[i]);
        let x = choose|x: int| 0 <= x < a[l].len() && a[l][x] == r[i];
        lemma_max_seq(a[l], x);
        if l > 0 {
            let j = tables.len() - l;
            assert(a[l] == tables[j]);
            assert(v.ssts@[j].describes(tables[j]));
            lemma_top_of(v.ssts@, j);
        }
    }
}

proof fn lemma_drop_empty(a: Seq<Seq<EntryView>>, b: Seq<Seq<EntryView>>, k: KeyView)
    requires
        b == seq![Seq::<EntryView>::empty()] + a,
    ensures
        newest(flat_rows(a), k) == newest(flat_rows(b), k),
    decreases a.len(),
{
    lemma_best_of(a, k);
    lemma_best_of(b, k);
    lemma_drop_empty_best(a, b, k);
}

proof fn lemma_drop_empty_best(a: Seq<Seq<EntryView>>, b: Seq<Seq<EntryView>>, k: KeyView)
    requires
        b == seq![Seq::<EntryView>::empty()] + a,
    ensures
        best_of(a, k) == best_of(b, k),
    decreases a.len(),
{
    if a.len() == 0 {
        assert(b.drop_last() =~= Seq::empty());
        assert(best_of(b.drop_last(), k) is None);
        assert(b.last() =~= Seq::empty());
    } else {
        assert(b.drop_last() =~= seq![Seq::<EntryView>::empty()] + a.drop_last());
        lemma_drop_empty_best(a.drop_last(), b.drop_last(), k);
        assert(b.last() == a.last());
    }
}

/// Freezing the active memtable changes nothing that is read, when the next
/// log is empty.
pub proof fn law_freeze_keeps_reads(v: Version, now: Version, tables: Seq<Seq<EntryView>>)
    requires
        froze(now, v, Seq::<EntryView>::empty()),
    ensures
        agree(v.rows(tables)) ==> agree(now.rows(tables)),
        forall|seq: u64| #[trigger]
            all_before(v.rows(tables), seq) ==> all_before(now.rows(tables), seq),
        forall|k: KeyView| #[trigger] newest(now.rows(tables), k) == newest(v.rows(tables), k),
{
    let a = v.layers(tables);
    let b = now.layers(tables);
    let n = v.immutables@.len() as int;
    let fa = frozen_layers(v.immutables@);
    let fb = frozen_layers(now.immutables@);
    assert(fb =~= seq![v.active.history()] + fa) by {
        assert forall|i: int| 0 <= i < fb.len() implies fb[i] == (seq![v.active.history()]
            + fa)[i] by {
            if i > 0 {
                assert(now.immutables@[n - i] == v.immutables@[n - i]);
            }
        }
    }
    assert(b =~= seq![Seq::<EntryView>::empty()] + a);
    assert forall|k: KeyView| #[trigger] part_of(flat_rows(b), flat_rows(a), k) by {
        lemma_flat_rows(a);
        assert forall|l: int, x: int|
            0 <= l < b.len() && 0 <= x < b[l].len() && (
            #[trigger] b[l][x]).0 == k implies flat_rows(a).contains(b[l][x]) by {
            assert(l > 0);
            assert(a[l - 1][x] == b[l][x]);
        }
        lemma_layers_part(a, b, k);
    }
    if agree(v.rows(tables)) {
        lemma_agree_part(flat_rows(a), flat_rows(b));
    }
    lemma_before_part(flat_rows(a), flat_rows(b));
    assert forall|k: KeyView| #[trigger] newest(now.rows(tables), k) == newest(
        v.rows(tables),
        k,
    ) by {
        lemma_drop_empty(a, b, k);
    }
}

/// A layer of `b` is a layer of `a`, or its rows are among those of `a`.
pub proof fn lemma_layers_part(
    a: Seq<Seq<EntryView>>,
    b: Seq<Seq<EntryView>>,
    k: KeyView,
)
    requires
        forall|l: int, x: int|
            0 <= l < b.len() && 0 <= x < b[l].len() && (#[trigger] b[l][x]).0 == k ==> flat_rows(
                a,
            ).contains(b[l][x]),
    ensures
        part_of(flat_rows(b), flat_rows(a), k),
{
    lemma_flat_rows(b);
    let r = flat_rows(b);
    assert forall|j: int| 0 <= j < r.len() && (#[trigger] r[j]).0 == k implies flat_rows(
        a,
    ).contains(r[j]) by {
        let l = choose|l: int| 0 <= l < b.len() && (#[trigger] b[l]).contains(flat_rows(b)[j]);
        let x = choose|x: int| 0 <= x < b[l].len() && b[l][x] == r[j];
        assert(b[l][x].0 == k);
    }
}

/// Where no layer of `a` is newer under a key than some layer of `b`, no row is.
pub proof fn lemma_layers_outdone(
    a: Seq<Seq<EntryView>>,
    b: Seq<Seq<EntryView>>,
    k: KeyView,
)
    requires
        forall|l: int|
            0 <= l < a.len() ==> exists|m: int| #![trigger b[m]]
                0 <= m < b.len() && (newest(#[trigger] a[l], k) matches Some((s, _)) ==> (newest(
                    b[m],
                    k,
                ) matches Some((t, _)) && s <= t)),
    ensures
        outdone(flat_rows(a), flat_rows(b), k),
{
    lemma_flat_rows(a);
    lemma_flat_rows(b);
    let r = flat_rows(a);
    let q = flat_rows(b);
    assert forall|i: int| 0 <= i < r.len() && (#[trigger] r[i]).0 == k implies (newest(
        q,
        k,
    ) matches Some((seq, _)) && r[i].1 <= seq) by {
        let l = choose|l: int| 0 <= l < a.len() && (#[trigger] a[l]).contains(flat_rows(a)[i]);
        let x = choose|x: int| 0 <= x < a[l].len() && a[l][x] == r[i];
        lemma_newest_none(a[l], k);
        assert(a[l][x].0 == k);
        lemma_newest_is_max(a[l], k);
        let m = choose|m: int| #![trigger b[m]]
            0 <= m < b.len() && (newest(a[l], k) matches Some((s, _)) ==> (newest(
                b[m],
                k,
            ) matches Some((t, _)) && s <= t));
        lemma_newest_is_max(b[m], k);
        let y = choose|y: int|
            0 <= y < b[m].len() && #[trigger] b[m][y] == (
                k,
                newest(b[m], k).unwrap().0,
                newest(b[m], k).unwrap().1,
            );
        assert(q.contains(b[m][y]));
        let z = choose|z: int| 0 <= z < q.len() && q[z] == b[m][y];
        lemma_newest_none(q, k);
        assert(q[z].0 == k);
        lemma_newest_is_max(q, k);
    }
}

/// Which layer is which.
pub proof fn lemma_layer_at(v: Version, tables: Seq<Seq<EntryView>>)
    ensures
        ({
            let a = v.layers(tables);
            let n = v.immutables@.len() as int;
            let m = tables.len() as int;
            &&& a.len() == 1 + n + m
            &&& a[0] == v.active.history()
            &&& forall|x: int| #![trigger v.immutables@[x]]
                0 <= x < n ==> a[n - x] == v.immutables@[x].history()
            &&& forall|j: int| #![trigger tables[j]] 0 <= j < m ==> a[n + m - j] == tables[j]
            &&& forall|l: int| #![trigger a[l]]
                0 <= l < a.len() ==> (l == 0 || (1 <= l <= n && a[l]
                    == v.immutables@[n - l].history()) || (n < l && a[l] == tables[n + m - l]))
        }),
{
    let a = v.layers(tables);
    let n = v.immutables@.len() as int;
    let m = tables.len() as int;
    let f = frozen_layers(v.immutables@);
    let t = table_layers(tables);
    assert forall|x: int| #![trigger v.immutables@[x]] 0 <= x < n implies a[n - x]
        == v.immutables@[x].history() by {
        assert(a[n - x] == f[n - x - 1]);
    }
    assert forall|j: int| #![trigger tables[j]] 0 <= j < m implies a[n + m - j] == tables[j] by {
        assert(a[n + m - j] == t[m - j - 1]);
    }
    assert forall|l: int| #![trigger a[l]] 0 <= l < a.len() implies (l == 0 || (1 <= l <= n && a[l]
        == v.immutables@[n - l].history()) || (n < l && a[l] == tables[n + m - l])) by {
        if 1 <= l <= n {
            assert(a[l] == f[l - 1]);
        } else if n < l {
            assert(a[l] == t[l - n - 1]);
        }
    }
}

/// The rows of `rows`, a run with the newest versions of `h`, are rows of `h`.
proof fn lemma_run_of(rows: Seq<EntryView>, h: Seq<EntryView>, x: int)
    requires
        is_run(rows),
        0 <= x < rows.len(),
        newest(rows, rows[x].0) == newest(h, rows[x].0),
    ensures
        h.contains(rows[x]),
{
    lemma_newest_in_run(rows, x);
    lemma_newest_is_max(h, rows[x].0);
}

/// Rows among rows that agree agree too.
pub proof fn lemma_agree_part(a: Seq<EntryView>, b: Seq<EntryView>)
    requires
        agree(a),
        forall|k: KeyView| #[trigger] part_of(b, a, k),
    ensures
        agree(b),
{
    assert forall|i: int, j: int|
        0 <= i < b.len() && 0 <= j < b.len() && (#[trigger] b[i]).0 == (#[trigger] b[j]).0
            && b[i].1 == b[j].1 implies b[i].2 == b[j].2 by {
        assert(part_of(b, a, b[i].0));
        assert(a.contains(b[i]) && a.contains(b[j]));
        let x = choose|x: int| 0 <= x < a.len() && a[x] == b[i];
        let y = choose|y: int| 0 <= y < a.len() && a[y] == b[j];
        assert(a[x].0 == a[y].0);
    }
}

/// Rows among rows with lower numbers have lower numbers too.
pub proof fn lemma_before_part(a: Seq<EntryView>, b: Seq<EntryView>)
    requires
        forall|k: KeyView| #[trigger] part_of(b, a, k),
    ensures
        forall|seq: u64| #[trigger] all_before(a, seq) ==> all_before(b, seq),
{
    assert forall|seq: u64| #[trigger] all_before(a, seq) implies all_before(b, seq) by {
        assert forall|i: int| 0 <= i < b.len() implies (#[trigger] b[i]).1 < seq by {
            assert(part_of(b, a, b[i].0));
            let x = choose|x: int| 0 <= x < a.len() && a[x] == b[i];
            assert(a[x].1 < seq);
        }
    }
}

/// A flush changes nothing that is read.
#[verifier::rlimit(30)]
pub proof fn law_flush_keeps_reads(
    v: Version,
    now: Version,
    tables: Seq<Seq<EntryView>>,
    i: int,
    t: SSTable,
    p: int,
    rows: Seq<EntryView>,
)
    requires
        v.holds(tables),
        agree(v.rows(tables)),
        0 <= i < v.immutables@.len(),
        0 <= p <= v.ssts@.len(),
        now.active.history() == v.active.history(),
        now.immutables@ == v.immutables@.remove(i),
        now.ssts@ == v.ssts@.insert(p, t),
        t.describes(rows),
        forall|k: KeyView|
            #[trigger] newest(rows, k) == newest(v.immutables@[i].history(), k),
    ensures
        now.holds(tables.insert(p, rows)),
        agree(now.rows(tables.insert(p, rows))),
        forall|seq: u64| #[trigger]
            all_before(v.rows(tables), seq) ==> all_before(now.rows(tables.insert(p, rows)), seq),
        forall|k: KeyView|
            #[trigger] newest(now.rows(tables.insert(p, rows)), k) == newest(v.rows(tables), k),
{
    let more = tables.insert(p, rows);
    assert forall|j: int| 0 <= j < more.len() implies (#[trigger] now.ssts@[j]).describes(
        more[j],
    ) by {
        if j < p {
            assert(now.ssts@[j] == v.ssts@[j]);
        } else if j > p {
            assert(now.ssts@[j] == v.ssts@[j - 1]);
        }
    }
    let a = v.layers(tables);
    let b = now.layers(more);
    let n = v.immutables@.len() as int;
    let m = tables.len() as int;
    let h = v.immutables@[i].history();
    lemma_layer_at(v, tables);
    lemma_layer_at(now, more);
    lemma_flat_rows(a);
    assert(a[n - i] == h);
    assert(b[(n - 1) + (m + 1) - p] == rows) by {
        assert(more[p] == rows);
    }
    assert forall|l: int| #![trigger b[l]] 0 <= l < b.len() implies b[l] == rows || exists|o: int|
        0 <= o < a.len() && #[trigger] a[o] == b[l] by {
        if l == 0 {
            assert(a[0] == b[l]);
        } else if l <= n - 1 {
            let x = n - 1 - l;
            if x < i {
                assert(now.immutables@[x] == v.immutables@[x]);
                assert(a[n - x] == b[l]);
            } else {
                assert(now.immutables@[x] == v.immutables@[x + 1]);
                assert(a[n - x - 1] == b[l]);
            }
        } else {
            let j = n + m - l;
            if j < p {
                assert(more[j] == tables[j]);
                assert(a[n + m - j] == b[l]);
            } else if j > p {
                assert(more[j] == tables[j - 1]);
                assert(a[n + m - (j - 1)] == b[l]);
            }
        }
    }
    assert forall|l: int| #![trigger a[l]] 0 <= l < a.len() implies a[l] == h || exists|o: int|
        0 <= o < b.len() && #[trigger] b[o] == a[l] by {
        if l == 0 {
            assert(b[0] == a[l]);
        } else if l <= n {
            let x = n - l;
            if x < i {
                assert(now.immutables@[x] == v.immutables@[x]);
                assert(b[n - 1 - x] == a[l]);
            } else if x > i {
                assert(now.immutables@[x - 1] == v.immutables@[x]);
                assert(b[n - 1 - (x - 1)] == a[l]);
            }
        } else {
            let j = n + m - l;
            if j < p {
                assert(more[j] == tables[j]);
                assert(b[n + m - j] == a[l]);
            } else {
                assert(more[j + 1] == tables[j]);
                assert(b[n + m - (j + 1)] == a[l]);
            }
        }
    }
    assert forall|k: KeyView| #[trigger] part_of(flat_rows(b), flat_rows(a), k) by {
        assert forall|l: int, x: int|
            0 <= l < b.len() && 0 <= x < b[l].len() && (#[trigger] b[l][x]).0 == k implies flat_rows(
            a,
        ).contains(b[l][x]) by {
            if b[l] == rows {
                assert(newest(rows, rows[x].0) == newest(h, rows[x].0));
                lemma_run_of(rows, h, x);
                let y = choose|y: int| 0 <= y < h.len() && h[y] == rows[x];
                assert(a[n - i][y] == b[l][x]);
            } else {
                let o = choose|o: int| 0 <= o < a.len() && #[trigger] a[o] == b[l];
                assert(a[o][x] == b[l][x]);
            }
        }
        lemma_layers_part(a, b, k);
    }
    lemma_agree_part(flat_rows(a), flat_rows(b));
    lemma_before_part(flat_rows(a), flat_rows(b));
    assert forall|k: KeyView| #[trigger] newest(now.rows(more), k) == newest(v.rows(tables), k) by {
        assert(newest(rows, k) == newest(h, k));
        assert forall|l: int| 0 <= l < a.len() implies exists|o: int| #![trigger b[o]]
            0 <= o < b.len() && (newest(#[trigger] a[l], k) matches Some((s, _)) ==> (newest(
                b[o],
                k,
            ) matches Some((u, _)) && s <= u)) by {
            if a[l] == h {
                assert(b[n + m - p] == rows);
            } else {
                let o = choose|o: int| 0 <= o < b.len() && #[trigger] b[o] == a[l];
                assert(b[o] == a[l]);
            }
        }
        lemma_layers_outdone(a, b, k);
        assert(part_of(flat_rows(b), flat_rows(a), k));
        lemma_same_newest(flat_rows(a), flat_rows(b), k);
    }
}

/// A lookup in the table of a flushed memtable finds what the memtable held
/// under the key. The file holds the batches of the memtable in order, and its
/// row groups are the chunks of their rows.
pub proof fn law_flushed_key_is_found(
    t: SSTable,
    schema: TableSchema,
    batches: Seq<Batch>,
    h: Seq<EntryView>,
    k: KeyView,
    at: Option<usize>,
    read: Seq<Batch>,
)
    requires
        t.describes(row_entries(schema, batches_rows(batches))),
        in_chunks(t.index_of().row_groups@, batches_rows(batches).len()),
        newest(row_entries(schema, batches_rows(batches)), k) == newest(h, k),
        t.leads(k, at),
        at matches Some(g) ==> batches_rows(read) == chunk(batches_rows(batches), g as int),
    ensures
        looked_up(at, schema, read, k) == newest(h, k),
{
    law_key_in_file_is_found(t, schema, batches_rows(batches), k, at, read);
}

/// The rows of the tables whose numbers are not in the list.
pub open spec fn rows_without(
    ssts: Seq<SSTable>,
    tables: Seq<Seq<EntryView>>,
    ids: Seq<usize>,
) -> Seq<Seq<EntryView>>
    decreases ssts.len(),
{
    if ssts.len() == 0 {
        Seq::empty()
    } else if ids.contains(ssts.last().number()) {
        rows_without(ssts.drop_last(), tables.drop_last(), ids)
    } else {
        rows_without(ssts.drop_last(), tables.drop_last(), ids).push(tables.last())
    }
}

/// The rows of the tables whose numbers are in the list.
pub open spec fn rows_among(
    ssts: Seq<SSTable>,
    tables: Seq<Seq<EntryView>>,
    ids: Seq<usize>,
) -> Seq<Seq<EntryView>>
    decreases ssts.len(),
{
    if ssts.len() == 0 {
        Seq::empty()
    } else if ids.contains(ssts.last().number()) {
        rows_among(ssts.drop_last(), tables.drop_last(), ids).push(tables.last())
    } else {
        rows_among(ssts.drop_last(), tables.drop_last(), ids)
    }
}

proof fn lemma_split_tables(ssts: Seq<SSTable>, tables: Seq<Seq<EntryView>>, ids: Seq<usize>)
    requires
        ssts.len() == tables.len(),
        forall|j: int| 0 <= j < ssts.len() ==> (#[trigger] ssts[j]).describes(tables[j]),
    ensures
        without(ssts, ids).len() == rows_without(ssts, tables, ids).len(),
        forall|x: int| #![trigger without(ssts, ids)[x]]
            0 <= x < without(ssts, ids).len() ==> without(ssts, ids)[x].describes(
                rows_without(ssts, tables, ids)[x],
            ),
        forall|x: int|
            0 <= x < rows_without(ssts, tables, ids).len() ==> tables.contains(
                #[trigger] rows_without(ssts, tables, ids)[x],
            ),
        forall|x: int|
            0 <= x < rows_among(ssts, tables, ids).len() ==> tables.contains(
                #[trigger] rows_among(ssts, tables, ids)[x],
            ),
        forall|j: int| #![trigger tables[j]]
            0 <= j < tables.len() ==> rows_without(ssts, tables, ids).contains(tables[j])
                || rows_among(ssts, tables, ids).contains(tables[j]),
    decreases ssts.len(),
{
    if ssts.len() > 0 {
        let p = ssts.drop_last();
        let q = tables.drop_last();
        let n = ssts.len() - 1;
        assert forall|j: int| 0 <= j < p.len() implies (#[trigger] p[j]).describes(q[j]) by {
            assert(p[j] == ssts[j]);
        }
        lemma_split_tables(p, q, ids);
        let w = rows_without(ssts, tables, ids);
        let wp = rows_without(p, q, ids);
        let g = rows_among(ssts, tables, ids);
        let gp = rows_among(p, q, ids);
        assert(ssts[n].describes(tables[n]));
        assert forall|x: int| #![trigger without(ssts, ids)[x]]
            0 <= x < without(ssts, ids).len() implies without(ssts, ids)[x].describes(w[x]) by {
            if x < without(p, ids).len() {
                assert(without(ssts, ids)[x] == without(p, ids)[x]);
                assert(w[x] == wp[x]);
            }
        }
        assert forall|x: int| 0 <= x < w.len() implies tables.contains(#[trigger] w[x]) by {
            if x < wp.len() {
                assert(w[x] == wp[x]);
                let y = choose|y: int| 0 <= y < q.len() && q[y] == wp[x];
                assert(tables[y] == w[x]);
            } else {
                assert(tables[n] == w[x]);
            }
        }
        assert forall|x: int| 0 <= x < g.len() implies tables.contains(#[trigger] g[x]) by {
            if x < gp.len() {
                assert(g[x] == gp[x]);
                let y = choose|y: int| 0 <= y < q.len() && q[y] == gp[x];
                assert(tables[y] == g[x]);
            } else {
                assert(tables[n] == g[x]);
            }
        }
        assert forall|j: int| #![trigger tables[j]] 0 <= j < tables.len() implies w.contains(
            tables[j],
        ) || g.contains(tables[j]) by {
            if j < n {
                assert(q[j] == tables[j]);
                if wp.contains(q[j]) {
                    let x = choose|x: int| 0 <= x < wp.len() && wp[x] == q[j];
                    assert(w[x] == tables[j]);
                } else {
                    let x = choose|x: int| 0 <= x < gp.len() && gp[x] == q[j];
                    assert(g[x] == tables[j]);
                }
            } else if ids.contains(ssts.last().number()) {
                assert(g[g.len() - 1] == tables[j]);
            } else {
                assert(w[w.len() - 1] == tables[j]);
            }
        }
    }
}

/// The rows that a compaction leaves: for every key that has not expired the
/// newest version in the compacted tables.
pub open spec fn is_compacted(
    merged: Seq<EntryView>,
    picked: Seq<Seq<EntryView>>,
    cutoff: Option<i64>,
) -> bool {
    &&& is_run(merged)
    &&& forall|k: KeyView|
        #[trigger] newest(merged, k) == if is_expired(cutoff, k.1) {
            None
        } else {
            newest(flat_rows(picked), k)
        }
}

/// `outcome`, a table of the rows `merged`, stands in `now` in the place of the
/// listed tables of `v`; all else is the same.
spec fn compacts(
    v: Version,
    now: Version,
    tables: Seq<Seq<EntryView>>,
    left: Seq<Seq<EntryView>>,
    ids: Seq<usize>,
    outcome: Option<SSTable>,
    merged: Seq<EntryView>,
    p: int,
    cutoff: Option<i64>,
) -> bool {
    &&& v.holds(tables)
    &&& now.active.history() == v.active.history()
    &&& now.immutables@ == v.immutables@
    &&& is_compacted(merged, rows_among(v.ssts@, tables, ids), cutoff)
    &&& match outcome {
        None => {
            &&& merged.len() == 0
            &&& now.ssts@ == without(v.ssts@, ids)
            &&& left == rows_without(v.ssts@, tables, ids)
        },
        Some(t) => {
            &&& t.describes(merged)
            &&& 0 <= p <= without(v.ssts@, ids).len()
            &&& now.ssts@ == without(v.ssts@, ids).insert(p, t)
            &&& left == rows_without(v.ssts@, tables, ids).insert(p, merged)
        },
    }
}

#[verifier::rlimit(30)]
proof fn lemma_compacted_part(
    v: Version,
    now: Version,
    tables: Seq<Seq<EntryView>>,
    left: Seq<Seq<EntryView>>,
    ids: Seq<usize>,
    outcome: Option<SSTable>,
    merged: Seq<EntryView>,
    p: int,
    cutoff: Option<i64>,
)
    requires
        compacts(
            v,
            now,
            tables,
            left,
            ids,
            outcome,
            merged,
            p,
            cutoff,
        ),
    ensures
        now.holds(left),
        forall|k: KeyView| #[trigger] part_of(now.rows(left), v.rows(tables), k),
{
    let kept = rows_without(v.ssts@, tables, ids);
    let picked = rows_among(v.ssts@, tables, ids);
    let ks = without(v.ssts@, ids);
    lemma_split_tables(v.ssts@, tables, ids);
    assert forall|j: int| 0 <= j < left.len() implies (#[trigger] now.ssts@[j]).describes(
        left[j],
    ) by {
        if outcome is None || j < p {
            assert(now.ssts@[j] == ks[j]);
            assert(left[j] == kept[j]);
        } else if j > p {
            assert(now.ssts@[j] == ks[j - 1]);
            assert(left[j] == kept[j - 1]);
        }
    }
    let a = v.layers(tables);
    let b = now.layers(left);
    let n = v.immutables@.len() as int;
    let m = tables.len() as int;
    let d = left.len() as int;
    lemma_layer_at(v, tables);
    lemma_layer_at(now, left);
    lemma_flat_rows(a);
    lemma_flat_rows(b);
    lemma_flat_rows(picked);
    assert forall|l: int| #![trigger b[l]] 0 <= l < b.len() implies b[l] == merged || exists|o: int|
        0 <= o < a.len() && #[trigger] a[o] == b[l] by {
        if l == 0 {
            assert(a[0] == b[l]);
        } else if l <= n {
            assert(a[l] == b[l]);
        } else {
            let j = n + d - l;
            if outcome is None || j < p {
                assert(left[j] == kept[j]);
                assert(tables.contains(kept[j]));
                let o = choose|o: int| 0 <= o < tables.len() && tables[o] == kept[j];
                assert(a[n + m - o] == b[l]);
            } else if j > p {
                assert(left[j] == kept[j - 1]);
                assert(tables.contains(kept[j - 1]));
                let o = choose|o: int| 0 <= o < tables.len() && tables[o] == kept[j - 1];
                assert(a[n + m - o] == b[l]);
            }
        }
    }
    assert forall|x: int, y: int|
        0 <= x < picked.len() && 0 <= y < picked[x].len() implies flat_rows(a).contains(
        #[trigger] picked[x][y],
    ) by {
        assert(tables.contains(picked[x]));
        let o = choose|o: int| 0 <= o < tables.len() && tables[o] == picked[x];
        assert(a[n + m - o] == picked[x]);
        assert(a[n + m - o][y] == picked[x][y]);
    }
    let fp = flat_rows(picked);
    assert forall|k: KeyView| #[trigger] part_of(flat_rows(b), flat_rows(a), k) by {
        assert forall|l: int, x: int|
            0 <= l < b.len() && 0 <= x < b[l].len() && (#[trigger] b[l][x]).0 == k implies flat_rows(
            a,
        ).contains(b[l][x]) by {
            if b[l] == merged {
                assert(newest(merged, k) == if is_expired(cutoff, k.1) {
                    None
                } else {
                    newest(fp, k)
                });
                lemma_newest_in_run(merged, x);
                lemma_run_of(merged, fp, x);
                let y = choose|y: int| 0 <= y < fp.len() && fp[y] == merged[x];
                let o = choose|o: int|
                    0 <= o < picked.len() && (#[trigger] picked[o]).contains(flat_rows(picked)[y]);
                let z = choose|z: int| 0 <= z < picked[o].len() && picked[o][z] == fp[y];
                assert(flat_rows(a).contains(picked[o][z]));
            } else {
                let o = choose|o: int| 0 <= o < a.len() && #[trigger] a[o] == b[l];
                assert(a[o][x] == b[l][x]);
            }
        }
        lemma_layers_part(a, b, k);
    }
}

#[verifier::rlimit(30)]
proof fn lemma_compacted_outdone(
    v: Version,
    now: Version,
    tables: Seq<Seq<EntryView>>,
    left: Seq<Seq<EntryView>>,
    ids: Seq<usize>,
    outcome: Option<SSTable>,
    merged: Seq<EntryView>,
    p: int,
    cutoff: Option<i64>,
    k: KeyView,
)
    requires
        compacts(
            v,
            now,
            tables,
            left,
            ids,
            outcome,
            merged,
            p,
            cutoff,
        ),
        !is_expired(cutoff, k.1),
    ensures
        outdone(v.rows(tables), now.rows(left), k),
{
    let kept = rows_without(v.ssts@, tables, ids);
    let picked = rows_among(v.ssts@, tables, ids);
    lemma_split_tables(v.ssts@, tables, ids);
    let a = v.layers(tables);
    let b = now.layers(left);
    let n = v.immutables@.len() as int;
    let m = tables.len() as int;
    let d = left.len() as int;
    lemma_layer_at(v, tables);
    lemma_layer_at(now, left);
    lemma_flat_rows(a);
    lemma_flat_rows(b);
    lemma_flat_rows(picked);
    let fp = flat_rows(picked);
    assert(newest(merged, k) == newest(fp, k));
    assert forall|l: int| 0 <= l < a.len() implies exists|o: int| #![trigger b[o]]
        0 <= o < b.len() && (newest(#[trigger] a[l], k) matches Some((s, _)) ==> (newest(
            b[o],
            k,
        ) matches Some((u, _)) && s <= u)) by {
        if l <= n {
            assert(b[l] == a[l]);
        } else {
            let j = n + m - l;
            assert(a[l] == tables[j]);
            if kept.contains(tables[j]) {
                let x = choose|x: int| 0 <= x < kept.len() && kept[x] == tables[j];
                if outcome is None || x < p {
                    assert(left[x] == kept[x]);
                    assert(b[n + d - x] == a[l]);
                } else {
                    assert(left[x + 1] == kept[x]);
                    assert(b[n + d - (x + 1)] == a[l]);
                }
            } else {
                assert(picked.contains(tables[j]));
                let x = choose|x: int| 0 <= x < picked.len() && picked[x] == tables[j];
                if newest(a[l], k) is Some {
                    lemma_newest_is_max(a[l], k);
                    let y = choose|y: int|
                        0 <= y < a[l].len() && #[trigger] a[l][y] == (
                            k,
                            newest(a[l], k).unwrap().0,
                            newest(a[l], k).unwrap().1,
                        );
                    assert(fp.contains(picked[x][y]));
                    let z = choose|z: int| 0 <= z < fp.len() && fp[z] == picked[x][y];
                    lemma_newest_none(fp, k);
                    assert(fp[z].0 == k);
                    lemma_newest_is_max(fp, k);
                    assert(outcome is Some) by {
                        if merged.len() == 0 {
                            assert(newest(merged, k) is None);
                        }
                    }
                    assert(left[p] == merged);
                    assert(b[n + d - p] == merged);
                } else {
                    assert(b[0] == a[0]);
                }
            }
        }
    }
    lemma_layers_outdone(a, b, k);
}

/// A compaction changes nothing that is read of rows that have not expired.
pub proof fn law_compaction_keeps_reads(
    v: Version,
    now: Version,
    tables: Seq<Seq<EntryView>>,
    left: Seq<Seq<EntryView>>,
    ids: Seq<usize>,
    outcome: Option<SSTable>,
    merged: Seq<EntryView>,
    p: int,
    cutoff: Option<i64>,
)
    requires
        v.holds(tables),
        agree(v.rows(tables)),
        now.active.history() == v.active.history(),
        now.immutables@ == v.immutables@,
        is_compacted(merged, rows_among(v.ssts@, tables, ids), cutoff),
        match outcome {
            None => {
                &&& merged.len() == 0
                &&& now.ssts@ == without(v.ssts@, ids)
                &&& left == rows_without(v.ssts@, tables, ids)
            },
            Some(t) => {
                &&& t.describes(merged)
                &&& 0 <= p <= without(v.ssts@, ids).len()
                &&& now.ssts@ == without(v.ssts@, ids).insert(p, t)
                &&& left == rows_without(v.ssts@, tables, ids).insert(p, merged)
            },
        },
    ensures
        now.holds(left),
        agree(now.rows(left)),
        forall|seq: u64| #[trigger]
            all_before(v.rows(tables), seq) ==> all_before(now.rows(left), seq),
        forall|k: KeyView|
            !is_expired(cutoff, k.1) ==> #[trigger] newest(now.rows(left), k) == newest(
                v.rows(tables),
                k,
            ),
{
    lemma_compacted_part(v, now, tables, left, ids, outcome, merged, p, cutoff);
    lemma_agree_part(v.rows(tables), now.rows(left));
    lemma_before_part(v.rows(tables), now.rows(left));
    assert forall|k: KeyView|
        !is_expired(cutoff, k.1) implies #[trigger] newest(now.rows(left), k) == newest(
        v.rows(tables),
        k,
    ) by {
        lemma_compacted_outdone(v, now, tables, left, ids, outcome, merged, p, cutoff, k);
        assert(part_of(now.rows(left), v.rows(tables), k));
        lemma_same_newest(v.rows(tables), now.rows(left), k);
    }
}

/// The entries that rows under their keys stand for.
pub open spec fn entries_from(schema: TableSchema, rows: Seq<KeyedRow>) -> Seq<EntryView> {
    Seq::new(rows.len(), |i: int| entry_of(schema, rows[i]))
}

proof fn lemma_newest_entries(schema: TableSchema, rows: Seq<KeyedRow>, k: KeyView)
    ensures
        newest(entries_from(schema, rows), k) == match newest(rows, k) {
            Some((seq, (op, cells))) => Some((seq, value_of(schema, op, cells))),
            None => None,
        },
    decreases rows.len(),
{
    if rows.len() > 0 {
        lemma_newest_entries(schema, rows.drop_last(), k);
        assert(entries_from(schema, rows).drop_last() =~= entries_from(schema, rows.drop_last()));
    }
}

proof fn lemma_flat_entries(
    schema: TableSchema,
    sources: Seq<Seq<KeyedRow>>,
    rows: Seq<Seq<EntryView>>,
)
    requires
        sources.len() == rows.len(),
        forall|l: int|
            0 <= l < sources.len() ==> entries_from(schema, #[trigger] sources[l]) == rows[l],
    ensures
        entries_from(schema, flat_rows(sources)) == flat_rows(rows),
    decreases sources.len(),
{
    if sources.len() > 0 {
        let n = sources.len() - 1;
        let p = sources.drop_last();
        let q = rows.drop_last();
        assert forall|l: int| 0 <= l < p.len() implies entries_from(schema, #[trigger] p[l])
            == q[l] by {
            assert(p[l] == sources[l]);
        }
        lemma_flat_entries(schema, p, q);
        assert(entries_from(schema, sources[n]) == rows[n]);
        assert(entries_from(schema, flat_rows(sources)) =~= entries_from(schema, flat_rows(p))
            + entries_from(schema, sources[n]));
    }
    assert(entries_from(schema, flat_rows(sources)) =~= flat_rows(rows));
}

/// The entries with timestamps in the range, in order.
pub open spec fn timely_entries(
    rows: Seq<EntryView>,
    range: Option<(i64, i64)>,
) -> Seq<EntryView>
    decreases rows.len(),
{
    if rows.len() == 0 {
        Seq::empty()
    } else {
        let before = timely_entries(rows.drop_last(), range);
        if in_times(rows.last().0.1, range) {
            before.push(rows.last())
        } else {
            before
        }
    }
}

proof fn lemma_timely_entries(
    schema: TableSchema,
    rows: Seq<BatchRow>,
    range: Option<(i64, i64)>,
)
    ensures
        row_entries(schema, timely(schema, rows, range)) == timely_entries(
            row_entries(schema, rows),
            range,
        ),
    decreases rows.len(),
{
    if rows.len() == 0 {
        assert(row_entries(schema, timely(schema, rows, range)) =~= timely_entries(
            row_entries(schema, rows),
            range,
        ));
    } else {
        let p = rows.drop_last();
        lemma_timely_entries(schema, p, range);
        assert(row_entries(schema, rows).drop_last() =~= row_entries(schema, p));
        let t = timely(schema, p, range);
        assert(row_entries(schema, t.push(rows.last())) =~= row_entries(schema, t).push(
            entry_of(schema, keyed(schema, rows.last())),
        ));
    }
}

proof fn lemma_timely_newest(rows: Seq<EntryView>, range: Option<(i64, i64)>, k: KeyView)
    ensures
        newest(timely_entries(rows, range), k) == if in_times(k.1, range) {
            newest(rows, k)
        } else {
            None
        },
    decreases rows.len(),
{
    if rows.len() > 0 {
        let p = rows.drop_last();
        lemma_timely_newest(p, range, k);
        if in_times(rows.last().0.1, range) {
            let t = timely_entries(p, range);
            assert(t.push(rows.last()).drop_last() =~= t);
        }
    }
}

/// Filtering the rows of a batch by their timestamps keeps the newest version
/// of every key in the range, and drops all others.
pub proof fn law_filter_keeps_newest(
    schema: TableSchema,
    rows: Seq<BatchRow>,
    range: Option<(i64, i64)>,
)
    ensures
        forall|k: KeyView|
            #[trigger] newest(row_entries(schema, timely(schema, rows, range)), k) == if in_times(
                k.1,
                range,
            ) {
                newest(row_entries(schema, rows), k)
            } else {
                None
            },
{
    assert forall|k: KeyView|
        #[trigger] newest(row_entries(schema, timely(schema, rows, range)), k) == if in_times(
            k.1,
            range,
        ) {
            newest(row_entries(schema, rows), k)
        } else {
            None
        } by {
        lemma_timely_entries(schema, rows, range);
        lemma_timely_newest(row_entries(schema, rows), range, k);
    }
}

/// Merging the files of the compacted tables, without the rows that have
/// expired, gives what a compaction is to leave.
pub proof fn law_merge_compacts(
    schema: TableSchema,
    files: Seq<Seq<BatchRow>>,
    fed: Seq<Seq<KeyedRow>>,
    handed: Seq<KeyedRow>,
    picked: Seq<Seq<EntryView>>,
    cutoff: Option<i64>,
)
    requires
        files.len() == fed.len() == picked.len(),
        forall|x: int| #![trigger files[x]]
            0 <= x < files.len() ==> picked[x] == row_entries(schema, files[x]) && fed[x]
                == keyed_rows(schema, timely(schema, files[x], kept_times(cutoff))),
        is_merge(handed, fed, true),
    ensures
        is_compacted(entries_from(schema, handed), picked, cutoff),
{
    let range = kept_times(cutoff);
    let rows = Seq::new(fed.len(), |x: int| entries_from(schema, fed[x]));
    lemma_flat_entries(schema, fed, rows);
    assert forall|k: KeyView|
        #[trigger] newest(entries_from(schema, handed), k) == if is_expired(cutoff, k.1) {
            None
        } else {
            newest(flat_rows(picked), k)
        } by {
        lemma_newest_entries(schema, handed, k);
        lemma_newest_entries(schema, flat_rows(fed), k);
        assert(newest(handed, k) == shown(newest(flat_rows(fed), k), true));
        lemma_best_of(rows, k);
        lemma_best_of(picked, k);
        assert forall|x: int| 0 <= x < rows.len() implies newest(#[trigger] rows[x], k)
            == if is_expired(cutoff, k.1) {
            None
        } else {
            newest(picked[x], k)
        } by {
            assert(files[x] == files[x]);
            assert(entries_from(schema, fed[x]) =~= row_entries(
                schema,
                timely(schema, files[x], range),
            ));
            law_filter_keeps_newest(schema, files[x], range);
            assert(newest(row_entries(schema, timely(schema, files[x], range)), k) == if in_times(
                k.1,
                range,
            ) {
                newest(row_entries(schema, files[x]), k)
            } else {
                None
            });
        }
        if is_expired(cutoff, k.1) {
            lemma_none_anywhere(rows, k);
        } else {
            lemma_pointwise(rows, picked, k);
        }
    }
    let es = entries_from(schema, handed);
    assert(is_run(es)) by {
        assert forall|i: int, j: int| 0 <= i < j < es.len() implies key_lt(
            (#[trigger] es[i]).0,
            (#[trigger] es[j]).0,
        ) by {
            assert(es[i].0 == handed[i].0 && es[j].0 == handed[j].0);
        }
    }
}

/// A compaction from end to end: merging the files of the listed tables with
/// their deletions, and putting the table of what is left in their place, changes
/// nothing that is read of rows that have not expired. The newest value stays,
/// and a deleted key stays deleted, whichever tables hold its versions. Without a
/// time to live that is every key.
pub proof fn law_compaction_of_files_keeps_reads(
    v: Version,
    now: Version,
    tables: Seq<Seq<EntryView>>,
    left: Seq<Seq<EntryView>>,
    ids: Seq<usize>,
    outcome: Option<SSTable>,
    p: int,
    cutoff: Option<i64>,
    schema: TableSchema,
    files: Seq<Seq<BatchRow>>,
    fed: Seq<Seq<KeyedRow>>,
    handed: Seq<KeyedRow>,
)
    requires
        v.holds(tables),
        agree(v.rows(tables)),
        files.len() == fed.len() == rows_among(v.ssts@, tables, ids).len(),
        forall|x: int| #![trigger files[x]]
            0 <= x < files.len() ==> rows_among(v.ssts@, tables, ids)[x] == row_entries(
                schema,
                files[x],
            ) && fed[x] == keyed_rows(schema, timely(schema, files[x], kept_times(cutoff))),
        is_merge(handed, fed, true),
        now.active.history() == v.active.history(),
        now.immutables@ == v.immutables@,
        match outcome {
            None => {
                &&& handed.len() == 0
                &&& now.ssts@ == without(v.ssts@, ids)
                &&& left == rows_without(v.ssts@, tables, ids)
            },
            Some(t) => {
                &&& t.describes(entries_from(schema, handed))
                &&& 0 <= p <= without(v.ssts@, ids).len()
                &&& now.ssts@ == without(v.ssts@, ids).insert(p, t)
                &&& left == rows_without(v.ssts@, tables, ids).insert(
                    p,
                    entries_from(schema, handed),
                )
            },
        },
    ensures
        now.holds(left),
        agree(now.rows(left)),
        forall|k: KeyView|
            !is_expired(cutoff, k.1) ==> #[trigger] newest(now.rows(left), k) == newest(
                v.rows(tables),
                k,
            ),
        cutoff is None ==> forall|k: KeyView|
            #[trigger] newest(now.rows(left), k) == newest(v.rows(tables), k),
{
    let picked = rows_among(v.ssts@, tables, ids);
    let merged = entries_from(schema, handed);
    law_merge_compacts(schema, files, fed, handed, picked, cutoff);
    law_compaction_keeps_reads(v, now, tables, left, ids, outcome, merged, p, cutoff);
}

proof fn lemma_none_anywhere(rows: Seq<Seq<EntryView>>, k: KeyView)
    requires
        forall|x: int| 0 <= x < rows.len() ==> newest(#[trigger] rows[x], k) is None,
    ensures
        best_of(rows, k) is None,
    decreases rows.len(),
{
    if rows.len() > 0 {
        let p = rows.drop_last();
        assert forall|x: int| 0 <= x < p.len() implies newest(#[trigger] p[x], k) is None by {
            assert(p[x] == rows[x]);
        }
        lemma_none_anywhere(p, k);
        assert(rows.last() == rows[rows.len() - 1]);
    }
}

/// The first to commit wins: a transaction conflicts exactly if one of its
/// keys has a version from after its beginning.
pub proof fn law_first_committer_wins(
    rows: Seq<EntryView>,
    writes: Seq<EntryView>,
    found: Seq<Option<u64>>,
    snapshot: u64,
)
    requires
        found.len() == writes.len(),
        forall|x: int| #![trigger found[x]]
            0 <= x < found.len() ==> found[x] == seq_of(newest(rows, writes[x].0)),
    ensures
        conflicts(found, snapshot) <==> exists|x: int, i: int|
            0 <= x < writes.len() && 0 <= i < rows.len() && (#[trigger] rows[i]).0 == (
            #[trigger] writes[x]).0 && rows[i].1 >= snapshot,
{
    if conflicts(found, snapshot) {
        let x = choose|x: int|
            0 <= x < found.len() && ((#[trigger] found[x]) matches Some(s) && s >= snapshot);
        let k = writes[x].0;
        assert(found[x] == seq_of(newest(rows, k)));
        lemma_newest_is_max(rows, k);
        let i = choose|i: int|
            0 <= i < rows.len() && #[trigger] rows[i] == (
                k,
                newest(rows, k).unwrap().0,
                newest(rows, k).unwrap().1,
            );
        assert(rows[i].0 == writes[x].0 && rows[i].1 >= snapshot);
    }
    if exists|x: int, i: int|
        0 <= x < writes.len() && 0 <= i < rows.len() && (#[trigger] rows[i]).0 == (
        #[trigger] writes[x]).0 && rows[i].1 >= snapshot {
        let (x, i) = choose|x: int, i: int|
            0 <= x < writes.len() && 0 <= i < rows.len() && (#[trigger] rows[i]).0 == (
            #[trigger] writes[x]).0 && rows[i].1 >= snapshot;
        let k = writes[x].0;
        lemma_newest_none(rows, k);
        assert(rows[i].0 == k);
        lemma_newest_is_max(rows, k);
        assert(found[x] == seq_of(newest(rows, k)));
    }
}

/// What a commit is decided by, seen from the region: with the numbers that
/// lookups found, it is refused exactly if the newest version of a key that the
/// transaction writes is not older than its beginning. A transaction without
/// writes is not refused, nor is one since whose beginning nothing was written.
/// A refused commit leaves all rows as they are.
pub proof fn law_commit_is_decided_by_rows(
    v: Version,
    now: Version,
    tables: Seq<Seq<EntryView>>,
    txn: Transaction,
    found: Seq<Option<u64>>,
)
    requires
        found.len() == txn.buffered().len(),
        forall|x: int| #![trigger found[x]]
            0 <= x < found.len() ==> found[x] == seq_of(
                newest(v.rows(tables), txn.buffered()[x].0),
            ),
        same_rows(now, v, v.active.history()),
    ensures
        conflicts(found, txn.snapshot()) <==> exists|x: int|
            0 <= x < txn.buffered().len() && (newest(
                v.rows(tables),
                (#[trigger] txn.buffered()[x]).0,
            ) matches Some((s, _)) && s >= txn.snapshot()),
        conflicts(found, txn.snapshot()) <==> exists|x: int, i: int|
            0 <= x < txn.buffered().len() && 0 <= i < v.rows(tables).len() && (
            #[trigger] v.rows(tables)[i]).0 == (#[trigger] txn.buffered()[x]).0 && v.rows(
                tables,
            )[i].1 >= txn.snapshot(),
        txn.buffered().len() == 0 ==> !conflicts(found, txn.snapshot()),
        all_before(v.rows(tables), txn.snapshot()) ==> !conflicts(found, txn.snapshot()),
        now.rows(tables) == v.rows(tables),
        now.active.history().len() == v.active.history().len(),
{
    let rows = v.rows(tables);
    let writes = txn.buffered();
    let snapshot = txn.snapshot();
    law_first_committer_wins(rows, writes, found, snapshot);
    if conflicts(found, snapshot) {
        let x = choose|x: int|
            0 <= x < found.len() && ((#[trigger] found[x]) matches Some(s) && s >= snapshot);
        assert(newest(rows, writes[x].0) matches Some((s, _)) && s >= snapshot);
    }
    if exists|x: int|
        0 <= x < writes.len() && (newest(rows, (#[trigger] writes[x]).0) matches Some((s, _)) && s
            >= snapshot) {
        let x = choose|x: int|
            0 <= x < writes.len() && (newest(rows, (#[trigger] writes[x]).0) matches Some((s, _))
                && s >= snapshot);
        assert(found[x] == seq_of(newest(rows, writes[x].0)));
    }
    assert(now.layers(tables) =~= v.layers(tables));
}

/// A commit takes effect as a whole: every key that the transaction writes reads
/// as its last write, every other key reads as before, and a restart finds all of
/// its writes or, where their one frame of the log was cut off, none.
pub proof fn law_commit_takes_effect(
    v: Version,
    now: Version,
    tables: Seq<Seq<EntryView>>,
    txn: Transaction,
    start: u64,
    batches: Seq<Seq<EntryView>>,
    n: int,
)
    requires
        is_run(txn.buffered()),
        same_rows(
            now,
            v,
            v.active.history() + numbered(unnumbered(txn.buffered()), start),
        ),
        all_before(v.rows(tables), start),
        start + txn.buffered().len() <= u64::MAX,
        forall|i: int|
            0 <= i < batches.len() ==> recoverable(entry_ops(#[trigger] batches[i])),
        recoverable(entry_ops(numbered(unnumbered(txn.buffered()), start))),
        0 <= n < appended(entry_ops(numbered(unnumbered(txn.buffered()), start))).len(),
    ensures
        forall|x: int| #![trigger txn.buffered()[x]]
            0 <= x < txn.buffered().len() ==> visible(
                newest(now.rows(tables), txn.buffered()[x].0),
            ) == txn.buffered()[x].2,
        forall|k: KeyView|
            newest(txn.buffered(), k) is None ==> #[trigger] newest(now.rows(tables), k)
                == newest(v.rows(tables), k),
        ({
            let es = numbered(unnumbered(txn.buffered()), start);
            let log = log_of(ops_of(batches));
            &&& op_entries(recovered(log + appended(entry_ops(es)))) == flat_rows(batches) + es
            &&& op_entries(recovered(log + appended(entry_ops(es)).take(n))) == flat_rows(batches)
        }),
{
    let writes = unnumbered(txn.buffered());
    let es = numbered(writes, start);
    law_batch_is_read(v, now, tables, writes, start);
    assert forall|x: int| #![trigger txn.buffered()[x]]
        0 <= x < txn.buffered().len() implies visible(
        newest(now.rows(tables), txn.buffered()[x].0),
    ) == txn.buffered()[x].2 by {
        assert forall|j: int| x < j < writes.len() implies (#[trigger] writes[j]).0
            != writes[x].0 by {
            assert(key_lt(txn.buffered()[x].0, txn.buffered()[j].0));
            crate::order::key_order_irreflexive(txn.buffered()[x].0);
        }
        assert(writes[x].0 == txn.buffered()[x].0);
    }
    assert forall|k: KeyView|
        newest(txn.buffered(), k) is None implies #[trigger] newest(now.rows(tables), k)
        == newest(v.rows(tables), k) by {
        lemma_newest_none(txn.buffered(), k);
        assert forall|i: int| 0 <= i < writes.len() implies (#[trigger] writes[i]).0 != k by {
            assert(txn.buffered()[i].0 != k);
        }
    }
    law_restart_keeps_logged_batches(batches, es, n);
    let more = batches.push(es);
    assert forall|i: int| 0 <= i < more.len() implies recoverable(
        entry_ops(#[trigger] more[i]),
    ) by {
        if i < batches.len() {
            assert(more[i] == batches[i]);
        }
    }
    law_restart_keeps_logged_batches(more, es, n);
    lemma_log_push(ops_of(batches), entry_ops(es));
    assert(ops_of(more) =~= ops_of(batches).push(entry_ops(es)));
    assert(more.drop_last() =~= batches);
}

/// A transaction reads under a key that it does not write what the region read
/// when it began, whatever is written to the region since. The batches that it
/// began with hold the newest rows, and all of them are older than its
/// beginning.
pub proof fn law_transaction_reads_as_region(
    v: Version,
    tables: Seq<Seq<EntryView>>,
    rows: Seq<EntryView>,
    txn: Transaction,
    k: KeyView,
)
    requires
        all_before(v.rows(tables), txn.snapshot()),
        newest(rows, k) == newest(v.rows(tables), k),
        newest(txn.seen(), k) == newest(older(rows, txn.snapshot()), k),
        newest(txn.buffered(), k) is None,
    ensures
        txn.reads(k) == visible(newest(v.rows(tables), k)),
{
    let all = v.rows(tables);
    if newest(rows, k) is Some {
        lemma_newest_is_max(all, k);
        let i = choose|i: int|
            0 <= i < all.len() && #[trigger] all[i] == (
                k,
                newest(all, k).unwrap().0,
                newest(all, k).unwrap().1,
            );
        assert(all[i].1 < txn.snapshot());
    }
    law_old_newest_is_seen(rows, txn.snapshot(), k);
}

/// The operations of batches of entries.
pub open spec fn ops_of(batches: Seq<Seq<EntryView>>) -> Seq<Seq<OpView>> {
    Seq::new(batches.len(), |i: int| entry_ops(batches[i]))
}

proof fn lemma_ops_entries(batches: Seq<Seq<EntryView>>)
    ensures
        op_entries(all_ops(ops_of(batches))) == flat_rows(batches),
    decreases batches.len(),
{
    if batches.len() == 0 {
        assert(op_entries(all_ops(ops_of(batches))) =~= flat_rows(batches));
    } else {
        let rest = batches.skip(1);
        lemma_ops_entries(rest);
        assert(ops_of(batches).skip(1) =~= ops_of(rest));
        assert(op_entries(all_ops(ops_of(batches))) =~= batches[0] + op_entries(
            all_ops(ops_of(rest)),
        )) by {
            let all = all_ops(ops_of(batches));
            assert(all == entry_ops(batches[0]) + all_ops(ops_of(rest)));
            assert forall|i: int| 0 <= i < all.len() implies op_entries(all)[i] == (batches[0]
                + op_entries(all_ops(ops_of(rest))))[i] by {
                if i < batches[0].len() {
                    assert(all[i] == entry_op(batches[0][i]));
                } else {
                    assert(all[i] == all_ops(ops_of(rest))[i - batches[0].len()]);
                }
            }
        }
        lemma_flat_first(batches);
    }
}

proof fn lemma_flat_first(batches: Seq<Seq<EntryView>>)
    requires
        batches.len() > 0,
    ensures
        flat_rows(batches) == batches[0] + flat_rows(batches.skip(1)),
    decreases batches.len(),
{
    let rest = batches.skip(1);
    if batches.len() == 1 {
        assert(batches.drop_last() =~= Seq::empty());
        assert(rest =~= Seq::empty());
        assert(flat_rows(batches) =~= batches[0] + flat_rows(rest));
    } else {
        let p = batches.drop_last();
        lemma_flat_first(p);
        assert(p.skip(1) =~= rest.drop_last());
        assert(rest.last() == batches.last());
        assert(flat_rows(batches) =~= batches[0] + flat_rows(rest));
    }
}

/// A restart finds all that was logged: a memtable that is rebuilt from its log
/// holds the batches that were logged as a whole, in order, and nothing of the
/// one whose logging was cut off.
pub proof fn law_restart_keeps_logged_batches(
    batches: Seq<Seq<EntryView>>,
    torn: Seq<EntryView>,
    n: int,
)
    requires
        forall|i: int|
            0 <= i < batches.len() ==> recoverable(entry_ops(#[trigger] batches[i])),
        recoverable(entry_ops(torn)),
        0 <= n < appended(entry_ops(torn)).len(),
    ensures
        op_entries(recovered(log_of(ops_of(batches)))) == flat_rows(batches),
        op_entries(recovered(log_of(ops_of(batches)) + appended(entry_ops(torn)).take(n)))
            == flat_rows(batches),
{
    let ops = ops_of(batches);
    assert forall|i: int| 0 <= i < ops.len() implies recoverable(#[trigger] ops[i]) by {
        assert(recoverable(entry_ops(batches[i])));
    }
    lemma_ops_entries(batches);
    let tail = appended(entry_ops(torn)).take(n);
    law_log_recovered(ops, tail);
    law_torn_frame_dropped(entry_ops(torn), n);
    assert(all_ops(ops) + recovered(tail) =~= all_ops(ops));
    law_log_recovered(ops, Seq::empty());
    assert(log_of(ops) + Seq::<u8>::empty() =~= log_of(ops));
    assert(all_ops(ops) + recovered(Seq::<u8>::empty()) =~= all_ops(ops));
}

/// Pruning by timestamps loses nothing: every row of a table in the bounds is
/// in a row group that is read.
pub proof fn law_bounds_lose_nothing(
    ssts: Seq<SSTable>,
    bounds: Option<(i64, i64)>,
    j: int,
    rows: Seq<EntryView>,
    i: int,
)
    requires
        0 <= j < ssts.len() <= usize::MAX,
        ssts[j].describes(rows),
        0 <= i < rows.len(),
        in_times(rows[i].0.1, bounds),
    ensures
        reached(ssts, bounds).contains(j as usize),
        forall|groups: Seq<usize>| #[trigger]
            all_groups(ssts[j], groups, narrowed(bounds)) ==> in_groups(
                ssts[j].index_of().row_groups@,
                groups,
                i,
            ),
{
    lemma_described_extent(ssts[j], rows);
    lemma_reached(ssts, bounds, j);
    assert forall|groups: Seq<usize>| #[trigger]
        all_groups(ssts[j], groups, narrowed(bounds)) implies in_groups(
        ssts[j].index_of().row_groups@,
        groups,
        i,
    ) by {
        assert(in_times(rows[i].0.1, narrowed(bounds)));
        assert(ssts[j].describes(rows));
    }
}

proof fn lemma_reached(ssts: Seq<SSTable>, bounds: Option<(i64, i64)>, j: int)
    requires
        0 <= j < ssts.len() <= usize::MAX,
        in_reach(ssts[j], bounds),
    ensures
        reached(ssts, bounds).contains(j as usize),
    decreases ssts.len(),
{
    let n = ssts.len() - 1;
    let r = reached(ssts, bounds);
    if j == n {
        assert(r[0] == j as usize);
    } else {
        let p = ssts.drop_last();
        lemma_reached(p, bounds, j);
        let q = reached(p, bounds);
        let x = choose|x: int| 0 <= x < q.len() && q[x] == j as usize;
        if in_reach(ssts.last(), bounds) {
            assert(r[x + 1] == j as usize);
        } else {
            assert(r[x] == j as usize);
        }
    }
}

/// The rows of tables are told apart as the tables are: those of a listed table are
/// among the listed ones, those of another are not.
pub proof fn law_rows_go_with_their_tables(
    ssts: Seq<SSTable>,
    tables: Seq<Seq<EntryView>>,
    ids: Seq<usize>,
    t: SSTable,
    rows: Seq<EntryView>,
)
    ensures
        rows_without(ssts.push(t), tables.push(rows), ids) == if ids.contains(t.number()) {
            rows_without(ssts, tables, ids)
        } else {
            rows_without(ssts, tables, ids).push(rows)
        },
        rows_among(ssts.push(t), tables.push(rows), ids) == if ids.contains(t.number()) {
            rows_among(ssts, tables, ids).push(rows)
        } else {
            rows_among(ssts, tables, ids)
        },
{
    assert(ssts.push(t).drop_last() =~= ssts);
    assert(tables.push(rows).drop_last() =~= tables);
}

/// A compaction leaves of the tables that it merges, under every key whose rows are
/// not older than the time to live, the newest version, and under others nothing.
pub proof fn law_compaction_drops_by_age(
    merged: Seq<EntryView>,
    picked: Seq<Seq<EntryView>>,
    ttl: Option<i64>,
    now: i64,
    k: KeyView,
)
    requires
        is_compacted(merged, picked, cutoff_of(ttl, now)),
        ttl matches Some(t) ==> now - t <= i64::MAX || k.1 < i64::MAX,
    ensures
        (ttl matches Some(t) ==> now - k.1 <= t) ==> newest(merged, k) == newest(
            flat_rows(picked),
            k,
        ),
        (ttl matches Some(t) && now - k.1 > t) ==> newest(merged, k) is None,
{
    law_rows_expire_by_age(ttl, now, k.1);
}

/// What a query is shown under a key of the merged sources: the value that is there,
/// under its number, where the timestamp is in the bounds; no row where nothing is
/// there or the timestamp is out of the bounds; and no deletion.
pub proof fn law_query_shows_live_rows(
    schema: TableSchema,
    sources: Seq<Seq<EntryView>>,
    fed: Seq<Seq<KeyedRow>>,
    handed: Seq<KeyedRow>,
    rows: Seq<EntryView>,
    low: i64,
    high: i64,
    k: KeyView,
    seq: u64,
    value: Seq<u8>,
)
    requires
        fed.len() == sources.len(),
        forall|s: int| 0 <= s < fed.len() ==> entries_from(schema, #[trigger] fed[s]) == sources[s],
        newest(flat_rows(sources), k) == if low <= k.1 <= high {
            newest(rows, k)
        } else {
            None
        },
        is_merge(handed, fed, false),
    ensures
        low <= k.1 <= high && newest(rows, k) == Some((seq, Some(value))) ==> newest(
            entries_from(schema, handed),
            k,
        ) == Some((seq, Some(value))),
        k.1 < low || k.1 > high || newest(rows, k) is None ==> forall|i: int|
            0 <= i < handed.len() ==> (#[trigger] handed[i]).0 != k,
        forall|i: int| 0 <= i < handed.len() ==> (#[trigger] handed[i]).2.0 != 1,
{
    lemma_flat_entries(schema, fed, sources);
    lemma_newest_entries(schema, flat_rows(fed), k);
    lemma_newest_entries(schema, handed, k);
    lemma_newest_none(handed, k);
    assert(newest(handed, k) == shown(newest(flat_rows(fed), k), false));
    assert forall|i: int| 0 <= i < handed.len() implies (#[trigger] handed[i]).2.0 != 1 by {
        lemma_newest_in_run(handed, i);
        assert(newest(handed, handed[i].0) == shown(
            newest(flat_rows(fed), handed[i].0),
            false,
        ));
    }
}

} // verus!
