//! What the sources of a read hold together.

use vstd::prelude::*;
use crate::batch::{batches_rows, row_entries, Batch, BatchRow};
use crate::counters::lemma_wrapped_small;
use crate::entries::{
    best_of, flat_rows, fresher, is_run, lemma_best_of, lemma_newest_concat, lemma_newest_none,
    newest, visible, EntryView,
};
use crate::memtable::memtable::{
    all_canonical, all_groups, in_reach, lemma_batches_keep, memory_layers, narrowed, picks,
    source_of,
};
use crate::memtable::region_laws::{
    all_before, law_filter_keeps_newest, law_transaction_reads_as_region, lemma_pointwise,
};
use crate::memtable::traits::{batches_of, ImmutableMemtable, Memtable};
use crate::memtable::transaction::{older, Transaction};
use crate::memtable::version::{frozen_layers, table_layers, Version};
use crate::order::key_lt;
use crate::schema::TableSchema;
use crate::sstable::index::in_chunks;
use crate::sstable::sstable::{in_groups, in_times, lemma_described_extent, timely, SSTable};
use crate::sstable::table_laws::{law_pruned_read_is_whole, lemma_timely_concat, read_groups};
use crate::types::KeyView;

verus! {

/// What is there under a key, if its timestamp is in the bounds.
pub open spec fn in_bounds(
    rows: Seq<EntryView>,
    bounds: Option<(i64, i64)>,
    k: KeyView,
) -> Option<(u64, Option<Seq<u8>>)> {
    if in_times(k.1, bounds) {
        newest(rows, k)
    } else {
        None
    }
}

/// What is read of the tables that are in reach, from the last to the first.
/// `read` gives for every table what is read of it.
pub open spec fn reached_rows(
    ssts: Seq<SSTable>,
    bounds: Option<(i64, i64)>,
    read: Seq<Seq<EntryView>>,
) -> Seq<Seq<EntryView>>
    decreases ssts.len(),
{
    if ssts.len() == 0 {
        Seq::empty()
    } else if in_reach(ssts.last(), bounds) {
        seq![read.last()] + reached_rows(ssts.drop_last(), bounds, read.drop_last())
    } else {
        reached_rows(ssts.drop_last(), bounds, read.drop_last())
    }
}

proof fn lemma_picked_rows(
    schema: TableSchema,
    batches: Seq<Batch>,
    raw: Seq<Batch>,
    bounds: Option<(i64, i64)>,
)
    requires
        picks(schema, batches, raw, bounds),
    ensures
        batches_rows(batches) == timely(schema, batches_rows(raw), bounds),
    decreases batches.len(),
{
    if batches.len() > 0 {
        let p = batches.drop_last();
        let q = raw.drop_last();
        assert forall|b: int| #![trigger p[b]] 0 <= b < p.len() implies p[b].readable(schema)
            && p[b].rows() == timely(schema, q[b].rows(), bounds) by {
            assert(p[b] == batches[b]);
            assert(q[b] == raw[b]);
        }
        lemma_picked_rows(schema, p, q, bounds);
        lemma_timely_concat(schema, batches_rows(q), raw.last().rows(), bounds);
        assert(batches[batches.len() - 1] == batches.last());
        assert(raw[raw.len() - 1] == raw.last());
    }
}

/// The batches of a memtable hold for every key in the bounds its newest
/// version, and for other keys nothing.
pub proof fn law_memory_source_holds_newest(
    schema: TableSchema,
    batches: Seq<Batch>,
    h: Seq<EntryView>,
    bounds: Option<(i64, i64)>,
)
    requires
        source_of(schema, batches, h, bounds),
        all_canonical(h, schema),
        h.len() == 0 || schema.is_sound(),
    ensures
        forall|k: KeyView|
            #[trigger] newest(row_entries(schema, batches_rows(batches)), k) == in_bounds(
                h,
                bounds,
                k,
            ),
{
    let raw = choose|raw: Seq<Batch>| #[trigger]
        batches_of(schema, raw, h) && picks(schema, batches, raw, bounds);
    lemma_picked_rows(schema, batches, raw, bounds);
    lemma_batches_keep(schema, raw, h);
    law_filter_keeps_newest(schema, batches_rows(raw), bounds);
    assert forall|k: KeyView|
        #[trigger] newest(row_entries(schema, batches_rows(batches)), k) == in_bounds(
        h,
        bounds,
        k,
    ) by {
        assert(newest(row_entries(schema, batches_rows(raw)), k) == newest(h, k));
    }
}

/// What is read of a table and filtered holds for every key in the bounds its
/// newest version, and for other keys nothing.
pub proof fn law_table_source_holds_newest(
    t: SSTable,
    schema: TableSchema,
    file: Seq<BatchRow>,
    groups: Seq<usize>,
    bounds: Option<(i64, i64)>,
)
    requires
        t.describes(row_entries(schema, file)),
        in_chunks(t.index_of().row_groups@, file.len()),
        all_groups(t, groups, narrowed(bounds)),
    ensures
        forall|k: KeyView|
            #[trigger] newest(
                row_entries(schema, timely(schema, read_groups(file, groups), narrowed(bounds))),
                k,
            ) == in_bounds(row_entries(schema, file), bounds, k),
{
    let range = narrowed(bounds);
    let rows = row_entries(schema, file);
    assert forall|i: int| #![trigger rows[i]]
        0 <= i < file.len() && in_times(
            rows[i].0.1,
            range,
        ) implies in_groups(t.index_of().row_groups@, groups, i) by {
        assert(t.describes(rows));
    }
    law_pruned_read_is_whole(t, schema, file, groups, range);
    law_filter_keeps_newest(schema, file, range);
    assert forall|k: KeyView|
        #[trigger] newest(
            row_entries(schema, timely(schema, read_groups(file, groups), range)),
            k,
        ) == in_bounds(rows, bounds, k) by {
        assert(newest(row_entries(schema, timely(schema, file, range)), k) == if in_times(
            k.1,
            range,
        ) {
            newest(rows, k)
        } else {
            None
        });
    }
}

/// A table that is out of reach has no row in the bounds.
pub proof fn law_unreached_table_has_nothing(
    t: SSTable,
    rows: Seq<EntryView>,
    bounds: Option<(i64, i64)>,
    k: KeyView,
)
    requires
        t.describes(rows),
        !in_reach(t, bounds),
        in_times(k.1, bounds),
    ensures
        newest(rows, k) is None,
{
    lemma_described_extent(t, rows);
    lemma_newest_none(rows, k);
    assert forall|i: int| 0 <= i < rows.len() implies (#[trigger] rows[i]).0 != k by {}
}

proof fn lemma_flat_concat(a: Seq<Seq<EntryView>>, b: Seq<Seq<EntryView>>)
    ensures
        flat_rows(a + b) == flat_rows(a) + flat_rows(b),
    decreases b.len(),
{
    if b.len() == 0 {
        assert(a + b =~= a);
        assert(flat_rows(a) + flat_rows(b) =~= flat_rows(a));
    } else {
        lemma_flat_concat(a, b.drop_last());
        assert((a + b).drop_last() =~= a + b.drop_last());
        assert(flat_rows(a) + (flat_rows(b.drop_last()) + b.last()) =~= flat_rows(a) + flat_rows(
            b.drop_last(),
        ) + b.last());
    }
}

proof fn lemma_best_concat(a: Seq<Seq<EntryView>>, b: Seq<Seq<EntryView>>, k: KeyView)
    ensures
        best_of(a + b, k) == fresher(best_of(a, k), best_of(b, k)),
{
    lemma_best_of(a, k);
    lemma_best_of(b, k);
    lemma_best_of(a + b, k);
    lemma_flat_concat(a, b);
    lemma_newest_concat(flat_rows(a), flat_rows(b), k);
}

proof fn lemma_best_single(s: Seq<EntryView>, k: KeyView)
    ensures
        best_of(seq![s], k) == newest(s, k),
{
    assert(seq![s].drop_last() =~= Seq::empty());
    assert(best_of(seq![s].drop_last(), k) is None);
    assert(seq![s].last() == s);
}

proof fn lemma_reached_best(
    ssts: Seq<SSTable>,
    tables: Seq<Seq<EntryView>>,
    bounds: Option<(i64, i64)>,
    read: Seq<Seq<EntryView>>,
    k: KeyView,
)
    requires
        ssts.len() == tables.len() == read.len(),
        forall|j: int| 0 <= j < ssts.len() ==> (#[trigger] ssts[j]).describes(tables[j]),
        in_times(k.1, bounds),
        forall|j: int|
            0 <= j < ssts.len() && in_reach(#[trigger] ssts[j], bounds) ==> newest(read[j], k)
                == newest(tables[j], k),
    ensures
        best_of(reached_rows(ssts, bounds, read), k) == best_of(table_layers(tables), k),
    decreases ssts.len(),
{
    if ssts.len() == 0 {
        assert(table_layers(tables) =~= Seq::empty());
    } else {
        let n = ssts.len() - 1;
        let p = ssts.drop_last();
        let q = tables.drop_last();
        let r = read.drop_last();
        assert forall|j: int| 0 <= j < p.len() implies (#[trigger] p[j]).describes(q[j]) by {
            assert(p[j] == ssts[j]);
        }
        assert forall|j: int|
            0 <= j < p.len() && in_reach(#[trigger] p[j], bounds) implies newest(r[j], k)
            == newest(q[j], k) by {
            assert(p[j] == ssts[j]);
        }
        lemma_reached_best(p, q, bounds, r, k);
        assert(table_layers(tables) =~= seq![tables.last()] + table_layers(q));
        lemma_best_concat(seq![tables.last()], table_layers(q), k);
        lemma_best_single(tables.last(), k);
        assert(ssts[n] == ssts.last());
        if in_reach(ssts.last(), bounds) {
            lemma_best_concat(seq![read.last()], reached_rows(p, bounds, r), k);
            lemma_best_single(read.last(), k);
        } else {
            law_unreached_table_has_nothing(ssts[n], tables[n], bounds, k);
        }
    }
}

/// The sources of a read, memtables and tables in reach, hold together the
/// newest version of every key in the bounds: merging them gives what the
/// region holds. Without bounds that is every key.
pub proof fn law_sources_hold_newest(
    v: Version,
    tables: Seq<Seq<EntryView>>,
    bounds: Option<(i64, i64)>,
    memory: Seq<Seq<EntryView>>,
    read: Seq<Seq<EntryView>>,
)
    requires
        v.holds(tables),
        v.active.history().len() <= usize::MAX,
        memory.len() == memory_layers(v).len(),
        forall|l: int, k: KeyView| #![trigger newest(memory[l], k)]
            0 <= l < memory.len() ==> newest(memory[l], k) == in_bounds(
                memory_layers(v)[l],
                bounds,
                k,
            ),
        read.len() == tables.len(),
        forall|j: int, k: KeyView| #![trigger newest(read[j], k)]
            0 <= j < read.len() && in_reach(v.ssts@[j], bounds) ==> newest(read[j], k)
                == in_bounds(tables[j], bounds, k),
    ensures
        forall|k: KeyView|
            in_times(k.1, bounds) ==> #[trigger] newest(
                flat_rows(memory + reached_rows(v.ssts@, bounds, read)),
                k,
            ) == newest(v.rows(tables), k),
{
    let taken = reached_rows(v.ssts@, bounds, read);
    let f = frozen_layers(v.immutables@);
    let t = table_layers(tables);
    assert forall|k: KeyView|
        in_times(k.1, bounds) implies #[trigger] newest(flat_rows(memory + taken), k) == newest(
        v.rows(tables),
        k,
    ) by {
        assert forall|l: int| 0 <= l < memory.len() implies newest(#[trigger] memory[l], k)
            == newest(memory_layers(v)[l], k) by {}
        lemma_pointwise(memory, memory_layers(v), k);
        assert forall|j: int|
            0 <= j < v.ssts@.len() && in_reach(#[trigger] v.ssts@[j], bounds) implies newest(
            read[j],
            k,
        ) == newest(tables[j], k) by {}
        lemma_reached_best(v.ssts@, tables, bounds, read, k);
        lemma_best_concat(memory, taken, k);
        lemma_best_of(memory + taken, k);
        lemma_best_of(v.layers(tables), k);
        let h = v.active.history();
        lemma_wrapped_small(h.len());
        lemma_best_concat(seq![h] + f, t, k);
        lemma_best_concat(seq![h], f, k);
        lemma_best_single(h, k);
        if h.len() == 0 {
            assert(newest(h, k) is None);
        }
    }
}

/// A transaction that begins with the rows of all sources reads, under every key
/// that it does not write, what the region reads at that moment. Nothing that is
/// written, deleted, committed, flushed or compacted afterwards changes it: what
/// it reads depends on the transaction alone.
pub proof fn law_begun_transaction_reads_as_region(
    v: Version,
    tables: Seq<Seq<EntryView>>,
    memory: Seq<Seq<EntryView>>,
    read: Seq<Seq<EntryView>>,
    txn: Transaction,
    k: KeyView,
)
    requires
        v.holds(tables),
        v.active.history().len() <= usize::MAX,
        memory.len() == memory_layers(v).len(),
        forall|l: int, k: KeyView| #![trigger newest(memory[l], k)]
            0 <= l < memory.len() ==> newest(memory[l], k) == in_bounds(
                memory_layers(v)[l],
                None,
                k,
            ),
        read.len() == tables.len(),
        forall|j: int, k: KeyView| #![trigger newest(read[j], k)]
            0 <= j < read.len() && in_reach(v.ssts@[j], None) ==> newest(read[j], k) == in_bounds(
                tables[j],
                None,
                k,
            ),
        all_before(v.rows(tables), txn.snapshot()),
        newest(txn.seen(), k) == newest(
            older(
                flat_rows(memory + reached_rows(v.ssts@, None, read)),
                txn.snapshot(),
            ),
            k,
        ),
        newest(txn.buffered(), k) is None,
    ensures
        txn.reads(k) == visible(newest(v.rows(tables), k)),
{
    let rows = flat_rows(memory + reached_rows(v.ssts@, None, read));
    law_sources_hold_newest(v, tables, None, memory, read);
    assert(newest(rows, k) == newest(v.rows(tables), k));
    law_transaction_reads_as_region(v, tables, rows, txn, k);
}

/// Both ends of the bounds are counted in: a read with bounds has, under a key with a
/// timestamp in them, what is there, and under others nothing.
pub proof fn law_bounds_are_inclusive(
    rows: Seq<EntryView>,
    low: i64,
    high: i64,
    k: KeyView,
)
    ensures
        low <= k.1 <= high ==> in_bounds(rows, Some((low, high)), k) == newest(rows, k),
        k.1 < low || k.1 > high ==> in_bounds(rows, Some((low, high)), k) is None,
        in_bounds(rows, None, k) == newest(rows, k),
{
}

proof fn lemma_timely_run(
    schema: TableSchema,
    rows: Seq<BatchRow>,
    range: Option<(i64, i64)>,
)
    requires
        is_run(row_entries(schema, rows)),
    ensures
        is_run(row_entries(schema, timely(schema, rows, range))),
        forall|x: int| #![trigger timely(schema, rows, range)[x]]
            0 <= x < timely(schema, rows, range).len() ==> rows.contains(
                timely(schema, rows, range)[x],
            ),
    decreases rows.len(),
{
    if rows.len() > 0 {
        let p = rows.drop_last();
        let n = rows.len() - 1;
        let all = row_entries(schema, rows);
        let part = row_entries(schema, p);
        assert forall|i: int, j: int| #![trigger part[i], part[j]]
            0 <= i < j < part.len() implies key_lt(part[i].0, part[j].0) by {
            assert(all[i] == part[i] && all[j] == part[j]);
        }
        lemma_timely_run(schema, p, range);
        let q = timely(schema, p, range);
        let t = timely(schema, rows, range);
        assert forall|x: int| #![trigger t[x]] 0 <= x < t.len() implies rows.contains(t[x]) by {
            if x < q.len() {
                assert(t[x] == q[x]);
                let i = choose|i: int| 0 <= i < p.len() && p[i] == q[x];
                assert(rows[i] == t[x]);
            } else {
                assert(rows[n] == t[x]);
            }
        }
        let e = row_entries(schema, t);
        let f = row_entries(schema, q);
        assert forall|i: int, j: int| #![trigger e[i], e[j]]
            0 <= i < j < e.len() implies key_lt(e[i].0, e[j].0) by {
            assert(t[i] == q[i]);
            assert(e[i] == f[i]);
            if j < q.len() {
                assert(t[j] == q[j]);
                assert(e[j] == f[j]);
            } else {
                let x = choose|x: int| 0 <= x < p.len() && p[x] == q[i];
                assert(rows[x] == t[i] && rows[n] == t[j]);
                assert(all[x] == e[i] && all[n] == e[j]);
            }
        }
    }
}

/// The rows of a source in memory are in the order of their keys, as merging needs
/// them.
pub proof fn law_memory_sources_are_in_order(
    schema: TableSchema,
    batches: Seq<Batch>,
    h: Seq<EntryView>,
    bounds: Option<(i64, i64)>,
)
    requires
        source_of(schema, batches, h, bounds),
        all_canonical(h, schema),
        h.len() == 0 || schema.is_sound(),
    ensures
        is_run(row_entries(schema, batches_rows(batches))),
{
    let raw = choose|raw: Seq<Batch>| #[trigger]
        batches_of(schema, raw, h) && picks(schema, batches, raw, bounds);
    lemma_batches_keep(schema, raw, h);
    lemma_picked_rows(schema, batches, raw, bounds);
    lemma_timely_run(schema, batches_rows(raw), bounds);
}

/// What is read of a table and filtered is in the order of the keys, as merging needs
/// it.
pub proof fn law_table_sources_are_in_order(
    t: SSTable,
    schema: TableSchema,
    file: Seq<BatchRow>,
    groups: Seq<usize>,
    bounds: Option<(i64, i64)>,
)
    requires
        t.describes(row_entries(schema, file)),
        in_chunks(t.index_of().row_groups@, file.len()),
        all_groups(t, groups, narrowed(bounds)),
    ensures
        is_run(
            row_entries(schema, timely(schema, read_groups(file, groups), narrowed(bounds))),
        ),
{
    let range = narrowed(bounds);
    let rows = row_entries(schema, file);
    assert forall|i: int| #![trigger rows[i]]
        0 <= i < file.len() && in_times(rows[i].0.1, range) implies in_groups(
        t.index_of().row_groups@,
        groups,
        i,
    ) by {
        assert(t.describes(rows));
    }
    law_pruned_read_is_whole(t, schema, file, groups, range);
    lemma_timely_run(schema, file, range);
}

} // verus!
