//! A memtable that groups rows by series and spreads the series over shards.

use vstd::prelude::*;
use vstd::arithmetic::power::{lemma_pow_positive, pow};
use crate::batch::{can_encode, internal_batch_from_rows, Batch, BatchError};
use crate::counters::{lemma_wrapped_step, wrapped};
use crate::entries::{
    entries_view, entry_view, flat_rows, is_run, lemma_newest_concat, lemma_newest_none, max_seq_of,
    newest,
    visible, Entry, EntryView,
};
use crate::fnv::{fnv, fnv_hash, FNV_OFFSET};
use crate::memtable::series::{
    has_tags, is_sorted, lemma_newest_at, lemma_of_series, lemma_rows_under, of_series, rows_under,
    rows_view, sorted_series, tagged, Series, SeriesTable,
};
use crate::memtable::traits::{
    batches_of, by_series, bytes_of, entry_op, entry_ops, hold_runs, newest_runs, op_entries,
    op_entry, ImmutableMemtable, Memtable, PendingBatch, PendingWrite, ROW_FIXED_BYTES,
};
use crate::memtable::wal::{ops_view, recovered, Operation, SyncPolicy, Wal, SYNC_INTERVAL};
use crate::names::{next_wal_number, wal_file_name, wal_name, wal_number_of};
use crate::order::{group_key_order, group_tags_order, key_lt, lemma_tags_first, tags_lt};
use crate::schema::TableSchema;
use crate::types::{copy_bytes, copy_key, key_view, value_view, Key, KeyView, Value};

verus! {

broadcast use {group_key_order, group_tags_order};

/// How many shards a memtable has by default.
pub const DEFAULT_SHARDS: usize = 16;

/// The first of `c`, `2 * c`, `4 * c` and so on that is at least `n`.
pub open spec fn doubled_up(c: nat, n: nat) -> nat
    decreases
            (if c >= n {
                0
            } else {
                n - c
            }),
{
    if c == 0 || c >= n {
        c
    } else {
        doubled_up(2 * c, n)
    }
}

/// The hash by which series are spread over shards.
pub fn series_hash(tags: &Vec<u8>) -> (r: u64)
    ensures
        r == fnv(FNV_OFFSET, tags@),
{
    fnv_hash(FNV_OFFSET, tags.as_slice())
}

/// The shard of a series.
pub open spec fn shard_of(mask: u64, tags: Seq<u8>) -> int {
    (fnv(FNV_OFFSET, tags) & mask) as int
}

/// The series lie in their shards and hold the rows of the history.
pub open spec fn shards_hold(shards: Seq<SeriesTable>, mask: u64, h: Seq<EntryView>) -> bool {
    &&& shards.len() == mask + 1
    &&& forall|s: int| 0 <= s < shards.len() ==> (#[trigger] shards[s]).wf()
    &&& forall|s: int, t: Seq<u8>| #![trigger has_tags(shards[s].series@, t)]
        0 <= s < shards.len() && has_tags(shards[s].series@, t) ==> shard_of(mask, t) == s
    &&& forall|t: Seq<u8>|
        tagged(t, rows_under(shards[shard_of(mask, t)].series@, t)) == #[trigger] of_series(h, t)
}

proof fn lemma_masked(h: u64, mask: u64)
    ensures
        h & mask <= mask,
{
    assert(h & mask <= mask) by (bit_vector);
}

/// Rows in shards, with a log beside them.
pub struct ColumnarMemtable {
    shards: Vec<SeriesTable>,
    mask: u64,
    shard_count: usize,
    row_count: usize,
    estimated_bytes: usize,
    max_seq: u64,
    wal: Wal,
    history: Ghost<Seq<EntryView>>,
}

impl ColumnarMemtable {
    /// How many shards there are.
    pub closed spec fn shard_total(&self) -> nat {
        self.shards@.len()
    }

    /// The log.
    pub closed spec fn log(&self) -> Wal {
        self.wal
    }

    /// A memtable with the default number of shards that holds what can be
    /// recovered of its log.
    pub fn with_default_config(wal_path: String, log: &[u8]) -> (r: Self)
        ensures
            r.wf(),
            r.history() == op_entries(recovered(log@)),
            r.log_name() == wal_path@,
            r.unsynced() == 0,
            r.shard_total() == 16,
    {
        proof {
            reveal_with_fuel(doubled_up, 6);
        }
        Self::new(DEFAULT_SHARDS, wal_path, log)
    }

    /// A memtable that holds what can be recovered of its log. The number of
    /// shards is rounded up to a power of two.
    pub fn new(shard_count: usize, wal_path: String, log: &[u8]) -> (r: Self)
        requires
            shard_count <= usize::MAX / 2 + 1,
        ensures
            r.wf(),
            r.history() == op_entries(recovered(log@)),
            r.log_name() == wal_path@,
            r.unsynced() == 0,
            r.shard_total() == doubled_up(1, shard_count as nat),
    {
        let mut count: usize = 1;
        while count < shard_count
            invariant
                count >= 1,
                shard_count <= usize::MAX / 2 + 1,
                doubled_up(1, shard_count as nat) == doubled_up(count as nat, shard_count as nat),
            decreases usize::MAX - count,
        {
            count = count * 2;
        }
        let mut shards: Vec<SeriesTable> = Vec::new();
        while shards.len() < count
            invariant
                shards@.len() <= count,
                forall|s: int|
                    0 <= s < shards@.len() ==> (#[trigger] shards@[s]).wf()
                        && shards@[s].series@.len() == 0,
            decreases count - shards@.len(),
        {
            let table = SeriesTable { series: Vec::new() };
            shards.push(table);
        }
        let mask: u64 = (count - 1) as u64;
        let mut mem = ColumnarMemtable {
            shards,
            mask,
            shard_count,
            row_count: 0,
            estimated_bytes: 0,
            max_seq: 0,
            wal: Wal::new(wal_path),
            history: Ghost(Seq::empty()),
        };
        proof {
            assert forall|t: Seq<u8>|
                tagged(t, rows_under(mem.shards@[shard_of(mask, t)].series@, t))
                    == #[trigger] of_series(Seq::<EntryView>::empty(), t) by {
                lemma_masked(fnv(FNV_OFFSET, t), mask);
                let rows = rows_under(mem.shards@[shard_of(mask, t)].series@, t);
                assert(!has_tags(mem.shards@[shard_of(mask, t)].series@, t));
                assert(tagged(t, rows) =~= Seq::empty());
            }
            assert(wrapped(0) == 0) by {
                crate::counters::lemma_wrapped_small(0);
            }
        }
        let ops = Wal::recover(log);
        let ghost all = op_entries(ops_view(ops@));
        let mut i: usize = 0;
        assert(all.take(0) =~= Seq::empty());
        while i < ops.len()
            invariant
                i <= ops@.len(),
                all == op_entries(ops_view(ops@)),
                mem.wf(),
                mem.history() == all.take(i as int),
                mem.log_name() == wal_path@,
                mem.unsynced() == 0,
                mem.shard_total() == count,
            decreases ops@.len() - i,
        {
            mem.take_over(&ops[i]);
            assert(all.take(i + 1) =~= all.take(i as int).push(op_entry(ops@[i as int]@)));
            i += 1;
        }
        assert(all.take(i as int) =~= all);
        mem
    }

    fn shard_for(&self, tags: &Vec<u8>) -> (r: usize)
        requires
            self.shards@.len() == self.mask + 1,
        ensures
            r == shard_of(self.mask, tags@),
            r < self.shards@.len(),
    {
        let h: u64 = series_hash(tags);
        let n: usize = self.shards.len();
        proof {
            lemma_masked(h, self.mask);
        }
        (h & self.mask) as usize
    }

    /// Adds a row and tells which value it replaces.
    fn insert_row(&mut self, tags: Vec<u8>, ts: i64, seq: u64, value: Option<Value>) -> (r: Option<
        Value,
    >)
        requires
            old(self).wf(),
        ensures
            final(self).wf(),
            final(self).history() == old(self).history().push(
                ((tags@, ts), seq, value_view(value)),
            ),
            final(self).log() == old(self).log(),
            final(self).shard_total() == old(self).shard_total(),
            value_view(r) == visible(newest(old(self).history(), (tags@, ts))),
    {
        let ghost h = self.history@;
        let ghost e: EntryView = ((tags@, ts), seq, value_view(value));
        let ghost t = tags@;
        let ghost before = self.shards@;
        let ghost mask = self.mask;
        let bytes: usize = match &value {
            Some(v) => ROW_FIXED_BYTES.wrapping_add(v.len()),
            None => ROW_FIXED_BYTES,
        };
        let ghost size: nat = match e.2 {
            Some(v) => v.len(),
            None => 0,
        };
        let at: usize = self.shard_for(&tags);
        assert(self.shards@[at as int].wf());
        let r = self.shards[at].append(tags, ts, seq, value);
        proof {
            let after = self.shards@;
            let g = h.push(e);
            let old_rows = rows_under(before[at as int].series@, t);
            let new_rows = rows_under(after[at as int].series@, t);
            assert(g.drop_last() =~= h);
            lemma_of_series(h, (t, ts));
            lemma_newest_at(t, old_rows, ts);
            assert(of_series(h, t) == tagged(t, old_rows));
            assert forall|u: Seq<u8>|
                tagged(u, rows_under(after[shard_of(mask, u)].series@, u)) == #[trigger] of_series(
                    g,
                    u,
                ) by {
                lemma_masked(fnv(FNV_OFFSET, u), mask);
                assert(of_series(h, u) == tagged(
                    u,
                    rows_under(before[shard_of(mask, u)].series@, u),
                ));
                if u == t {
                    assert(tagged(t, new_rows) =~= tagged(t, old_rows).push(e));
                } else if shard_of(mask, u) == at {
                    assert(rows_under(after[at as int].series@, u) == rows_under(
                        before[at as int].series@,
                        u,
                    ));
                } else {
                    assert(after[shard_of(mask, u)] == before[shard_of(mask, u)]);
                }
            }
            assert forall|s: int, u: Seq<u8>| #![trigger has_tags(after[s].series@, u)]
                0 <= s < after.len() && has_tags(after[s].series@, u) implies shard_of(mask, u)
                == s by {
                if s != at {
                    assert(after[s] == before[s]);
                    assert(has_tags(before[s].series@, u));
                } else if u != t {
                    assert(has_tags(before[s].series@, u));
                }
            }
            assert forall|s: int| 0 <= s < after.len() implies (#[trigger] after[s]).wf() by {
                if s != at {
                    assert(after[s] == before[s]);
                }
            }
            lemma_wrapped_step(h.len(), 1);
            if e.2 is Some {
                lemma_fixed_plus(bytes_of(h), size);
            } else {
                lemma_wrapped_step(bytes_of(h), ROW_FIXED_BYTES);
            }
        }
        self.row_count = self.row_count.wrapping_add(1);
        self.estimated_bytes = self.estimated_bytes.wrapping_add(bytes);
        if self.max_seq < seq {
            self.max_seq = seq;
        }
        self.history = Ghost(h.push(e));
        r
    }

    fn take_over(&mut self, op: &Operation)
        requires
            old(self).wf(),
        ensures
            final(self).wf(),
            final(self).history() == old(self).history().push(op_entry(op@)),
            final(self).log() == old(self).log(),
            final(self).shard_total() == old(self).shard_total(),
    {
        match op {
            Operation::Insert { key, seq, value } => {
                self.insert_row(copy_bytes(&key.0), key.1, *seq, Some(copy_bytes(value)));
            },
            Operation::Update { key, seq, value } => {
                self.insert_row(copy_bytes(&key.0), key.1, *seq, Some(copy_bytes(value)));
            },
            Operation::Delete { key, seq } => {
                self.insert_row(copy_bytes(&key.0), key.1, *seq, None);
            },
        }
    }

    /// A memtable with the log that follows, without rows but for what can
    /// be recovered of that log. `None` where no number follows.
    pub fn fork(&self, next_log: &[u8]) -> (r: Option<Self>)
        requires
            self.wf(),
        ensures
            match r {
                None => wal_number_of(self.log_name()) == usize::MAX,
                Some(m) => {
                    &&& wal_number_of(self.log_name()) < usize::MAX
                    &&& m.wf()
                    &&& m.history() == op_entries(recovered(next_log@))
                    &&& m.log_name() == wal_name((wal_number_of(self.log_name()) + 1) as nat)
                    &&& m.unsynced() == 0
                    &&& m.shard_total() == self.shard_total()
                },
            },
    {
        let n: usize = match next_wal_number(self.wal.path().as_str()) {
            Some(n) => n,
            None => return None,
        };
        Some(Self::new(self.shard_count, wal_file_name(n), next_log))
    }
}

/// How many rows can be logged in one frame.
pub const MAX_BATCH_ROWS: usize = 4_294_967_196;

/// The log of a memtable can count any batch of that many rows.
pub proof fn lemma_can_log(m: ColumnarMemtable, n: nat)
    requires
        m.wf(),
        n <= MAX_BATCH_ROWS,
    ensures
        m.can_log(n),
{
}

/// Whether the rows of all series can be put into columns.
fn series_encodable(series: &Vec<Series>, schema: &TableSchema) -> (r: bool)
    ensures
        r == encodable_series(series@, *schema),
{
    let mut s: usize = 0;
    while s < series.len()
        invariant
            s <= series@.len(),
            forall|x: int| #![trigger series@[x]]
                0 <= x < s ==> all_encodable(
                    tagged(series@[x].tags@, rows_view(series@[x].rows@)),
                    *schema,
                ),
        decreases series@.len() - s,
    {
        let one = &series[s];
        let ghost es = tagged(one.tags@, rows_view(one.rows@));
        if one.rows.len() > 0 && !schema.can_decode_tags(one.tags.as_slice()) {
            assert(!can_encode(*schema, es[0]));
            assert(!all_encodable(
                tagged(series@[s as int].tags@, rows_view(series@[s as int].rows@)),
                *schema,
            ));
            return false;
        }
        let mut i: usize = 0;
        while i < one.rows.len()
            invariant
                i <= one.rows@.len(),
                one == &series@[s as int],
                s < series@.len(),
                es == tagged(one.tags@, rows_view(one.rows@)),
                one.rows@.len() > 0 ==> crate::schema::split(
                    one.tags@,
                    schema.primary_key@.len(),
                ) is Some,
                forall|x: int| 0 <= x < i ==> can_encode(*schema, #[trigger] es[x]),
            decreases one.rows@.len() - i,
        {
            let good = match &one.rows[i].2 {
                Some(v) => schema.can_decode_fields(v.as_slice()),
                None => true,
            };
            if !good {
                assert(!can_encode(*schema, es[i as int]));
                assert(!all_encodable(
                tagged(series@[s as int].tags@, rows_view(series@[s as int].rows@)),
                *schema,
            ));
                return false;
            }
            i += 1;
        }
        s += 1;
    }
    true
}

/// All entries can be put into columns.
pub open spec fn all_encodable(h: Seq<EntryView>, schema: TableSchema) -> bool {
    forall|i: int| 0 <= i < h.len() ==> can_encode(schema, #[trigger] h[i])
}

spec fn encodable_series(series: Seq<Series>, schema: TableSchema) -> bool {
    forall|x: int| #![trigger series[x]]
        0 <= x < series.len() ==> all_encodable(
            tagged(series[x].tags@, rows_view(series[x].rows@)),
            schema,
        )
}

proof fn lemma_own_series(h: Seq<EntryView>, i: int)
    requires
        0 <= i < h.len(),
    ensures
        of_series(h, h[i].0.0).contains(h[i]),
    decreases h.len(),
{
    let t = h[i].0.0;
    let p = h.drop_last();
    if i < p.len() {
        lemma_own_series(p, i);
        assert(p[i] == h[i]);
        let x = choose|x: int| 0 <= x < of_series(p, t).len() && of_series(p, t)[x] == h[i];
        assert(of_series(h, t)[x] == h[i]);
    } else {
        let s = of_series(h, t);
        assert(s[s.len() - 1] == h[i]);
    }
}

proof fn lemma_shards_encodable(
    shards: Seq<SeriesTable>,
    mask: u64,
    h: Seq<EntryView>,
    schema: TableSchema,
)
    requires
        shards_hold(shards, mask, h),
    ensures
        (forall|s: int| 0 <= s < shards.len() ==> encodable_series(
            (#[trigger] shards[s]).series@,
            schema,
        )) <==> all_encodable(h, schema),
{
    if forall|s: int| 0 <= s < shards.len() ==> encodable_series(
        (#[trigger] shards[s]).series@,
        schema,
    ) {
        assert forall|i: int| 0 <= i < h.len() implies can_encode(schema, #[trigger] h[i]) by {
            let t = h[i].0.0;
            let s = shard_of(mask, t);
            lemma_masked(fnv(FNV_OFFSET, t), mask);
            lemma_own_series(h, i);
            let own = of_series(h, t);
            assert(own == tagged(t, rows_under(shards[s].series@, t)));
            let x = choose|x: int| 0 <= x < own.len() && own[x] == h[i];
            assert(shards[s].wf());
            assert(has_tags(shards[s].series@, t));
            let y = choose|y: int|
                0 <= y < shards[s].series@.len() && (#[trigger] shards[s].series@[y]).tags@ == t;
            lemma_rows_under(shards[s].series@, y);
            assert(encodable_series(shards[s].series@, schema));
            assert(all_encodable(
                tagged(shards[s].series@[y].tags@, rows_view(shards[s].series@[y].rows@)),
                schema,
            ));
            assert(can_encode(schema, own[x]));
        }
    }
    if all_encodable(h, schema) {
        assert forall|s: int| 0 <= s < shards.len() implies encodable_series(
            (#[trigger] shards[s]).series@,
            schema,
        ) by {
            assert(shards[s].wf());
            let series = shards[s].series@;
            assert forall|x: int| #![trigger series[x]] 0 <= x < series.len() implies all_encodable(
                tagged(series[x].tags@, rows_view(series[x].rows@)),
                schema,
            ) by {
                let t = series[x].tags@;
                assert(has_tags(series, t));
                assert(shard_of(mask, t) == s);
                lemma_rows_under(series, x);
                assert(of_series(h, t) == tagged(t, rows_under(series, t)));
                lemma_series_encodable(schema, h, t);
            }
        }
    }
}

proof fn lemma_table_encodable(table: SeriesTable, h: Seq<EntryView>, schema: TableSchema)
    requires
        table_holds(table, h),
    ensures
        encodable_series(table.series@, schema) <==> all_encodable(h, schema),
{
    let series = table.series@;
    if encodable_series(series, schema) {
        assert forall|i: int| 0 <= i < h.len() implies can_encode(schema, #[trigger] h[i]) by {
            let t = h[i].0.0;
            lemma_own_series(h, i);
            let own = of_series(h, t);
            assert(own == tagged(t, rows_under(series, t)));
            let x = choose|x: int| 0 <= x < own.len() && own[x] == h[i];
            assert(has_tags(series, t));
            let y = choose|y: int| 0 <= y < series.len() && (#[trigger] series[y]).tags@ == t;
            lemma_rows_under(series, y);
            assert(all_encodable(tagged(series[y].tags@, rows_view(series[y].rows@)), schema));
            assert(can_encode(schema, own[x]));
        }
    }
    if all_encodable(h, schema) {
        assert forall|x: int| #![trigger series[x]] 0 <= x < series.len() implies all_encodable(
            tagged(series[x].tags@, rows_view(series[x].rows@)),
            schema,
        ) by {
            let t = series[x].tags@;
            lemma_rows_under(series, x);
            assert(of_series(h, t) == tagged(t, rows_under(series, t)));
            lemma_series_encodable(schema, h, t);
        }
    }
}

impl ColumnarMemtable {
    /// Whether all rows can be put into columns.
    pub fn check_encodable(&self, schema: &TableSchema) -> (r: bool)
        requires
            self.wf(),
        ensures
            r == all_encodable(self.history(), *schema),
    {
        proof {
            lemma_shards_encodable(self.shards@, self.mask, self.history@, *schema);
        }
        let mut s: usize = 0;
        while s < self.shards.len()
            invariant
                s <= self.shards@.len(),
                (forall|x: int| 0 <= x < self.shards@.len() ==> encodable_series(
                    (#[trigger] self.shards@[x]).series@,
                    *schema,
                )) <==> all_encodable(self.history@, *schema),
                forall|x: int|
                    0 <= x < s ==> encodable_series(
                        (#[trigger] self.shards@[x]).series@,
                        *schema,
                    ),
            decreases self.shards@.len() - s,
        {
            if !series_encodable(&self.shards[s].series, schema) {
                assert(!encodable_series(self.shards@[s as int].series@, *schema));
                return false;
            }
            s += 1;
        }
        true
    }
}

impl FrozenColumnar {
    /// Whether all rows can be put into columns.
    pub fn check_encodable(&self, schema: &TableSchema) -> (r: bool)
        requires
            self.wf(),
        ensures
            r == all_encodable(self.history(), *schema),
    {
        proof {
            lemma_table_encodable(self.table, self.history@, *schema);
        }
        series_encodable(&self.table.series, schema)
    }
}

proof fn lemma_fixed_plus(n: nat, size: nat)
    requires
        size <= usize::MAX,
    ensures
        wrapped(n).wrapping_add(ROW_FIXED_BYTES.wrapping_add(size as usize)) == wrapped(
            n + ROW_FIXED_BYTES as nat + size,
        ),
{
    let m = usize::MAX as nat + 1;
    crate::counters::lemma_wrapped_small(ROW_FIXED_BYTES as nat);
    lemma_wrapped_step(ROW_FIXED_BYTES as nat, size as usize);
    let x = ROW_FIXED_BYTES.wrapping_add(size as usize);
    lemma_wrapped_step(n, x);
    vstd::arithmetic::div_mod::lemma_add_mod_noop(
        n as int,
        ROW_FIXED_BYTES as int + size as int,
        m as int,
    );
    vstd::arithmetic::div_mod::lemma_add_mod_noop(n as int, x as int, m as int);
    vstd::arithmetic::div_mod::lemma_small_mod(x as nat, m);
}

/// The runs of sorted series with rising tags are one run.
proof fn lemma_flat_push(runs: Seq<Seq<EntryView>>, one: Seq<EntryView>, tags: Seq<u8>)
    requires
        is_run(flat_rows(runs)),
        is_run(one),
        forall|i: int|
            0 <= i < flat_rows(runs).len() ==> tags_lt(
                (#[trigger] flat_rows(runs)[i]).0.0,
                tags,
            ),
        forall|i: int| 0 <= i < one.len() ==> (#[trigger] one[i]).0.0 == tags,
    ensures
        flat_rows(runs.push(one)) == flat_rows(runs) + one,
        is_run(flat_rows(runs.push(one))),
{
    assert(runs.push(one).drop_last() =~= runs);
    let f = flat_rows(runs) + one;
    assert forall|i: int, j: int| #![trigger f[i], f[j]] 0 <= i < j < f.len() implies key_lt(
        f[i].0,
        f[j].0,
    ) by {
        let n = flat_rows(runs).len();
        if j < n {
            assert(f[i] == flat_rows(runs)[i] && f[j] == flat_rows(runs)[j]);
        } else if i >= n {
            assert(f[i] == one[i - n] && f[j] == one[j - n]);
        } else {
            assert(f[i] == flat_rows(runs)[i] && f[j] == one[j - n]);
            lemma_tags_first(f[i].0, f[j].0);
        }
    }
}

/// A table holds, series by series, the rows of the history.
pub open spec fn table_holds(table: SeriesTable, h: Seq<EntryView>) -> bool {
    &&& table.wf()
    &&& forall|t: Seq<u8>| tagged(t, rows_under(table.series@, t)) == #[trigger] of_series(h, t)
}

proof fn lemma_series_encodable(schema: TableSchema, h: Seq<EntryView>, tags: Seq<u8>)
    requires
        forall|i: int| 0 <= i < h.len() ==> can_encode(schema, #[trigger] h[i]),
    ensures
        forall|i: int|
            0 <= i < of_series(h, tags).len() ==> can_encode(
                schema,
                #[trigger] of_series(h, tags)[i],
            ),
    decreases h.len(),
{
    if h.len() > 0 {
        let p = h.drop_last();
        assert forall|i: int| 0 <= i < p.len() implies can_encode(schema, #[trigger] p[i]) by {
            assert(p[i] == h[i]);
        }
        lemma_series_encodable(schema, p, tags);
        assert(can_encode(schema, h[h.len() - 1]));
        let before = of_series(p, tags);
        assert forall|i: int| 0 <= i < of_series(h, tags).len() implies can_encode(
            schema,
            #[trigger] of_series(h, tags)[i],
        ) by {
            if i < before.len() {
                assert(of_series(h, tags)[i] == before[i]);
            }
        }
    }
}

/// The entries of every series, sorted, one batch for each.
fn table_batches(
    table: &SeriesTable,
    schema: &TableSchema,
    Ghost(h): Ghost<Seq<EntryView>>,
) -> (r: Result<Vec<Batch>, BatchError>)
    requires
        table_holds(*table, h),
        schema.in_range(),
        forall|i: int| 0 <= i < h.len() ==> can_encode(*schema, #[trigger] h[i]),
    ensures
        r is Ok <==> h.len() == 0 || schema.is_sound(),
        r matches Ok(batches) ==> batches_of(*schema, batches@, h),
{
    let ghost series = table.series@;
    let ghost mut runs: Seq<Seq<EntryView>> = Seq::empty();
    let mut batches: Vec<Batch> = Vec::new();
    let mut s: usize = 0;
    while s < table.series.len()
        invariant
            s <= series.len(),
            series == table.series@,
            table_holds(*table, h),
            schema.in_range(),
            s > 0 ==> schema.is_sound(),
            forall|i: int| 0 <= i < h.len() ==> can_encode(*schema, #[trigger] h[i]),
            hold_runs(*schema, batches@, runs),
            is_run(flat_rows(runs)),
            runs.len() == s,
            forall|b: int, i: int|
                0 <= b < s && 0 <= i < runs[b].len() ==> (#[trigger] runs[b][i]).0.0
                    == series[b].tags@,
            forall|i: int|
                0 <= i < flat_rows(runs).len() ==> exists|x: int|
                    0 <= x < s && (#[trigger] series[x]).tags@ == (
                    #[trigger] flat_rows(runs)[i]).0.0,
            forall|x: int, ts: i64| #![trigger newest(flat_rows(runs), (series[x].tags@, ts))]
                0 <= x < s ==> newest(flat_rows(runs), (series[x].tags@, ts)) == newest(
                    h,
                    (series[x].tags@, ts),
                ),
        decreases series.len() - s,
    {
        let one = &table.series[s];
        let ghost t = one.tags@;
        let rows = sorted_series(&one.tags, &one.rows);
        let ghost run = entries_view(rows@);
        proof {
            lemma_rows_under(series, s as int);
            assert(of_series(h, t) == tagged(t, rows_view(one.rows@)));
            lemma_series_encodable(*schema, h, t);
            lemma_nonempty(h, t);
            assert forall|i: int| 0 <= i < rows@.len() implies can_encode(
                *schema,
                entry_view(#[trigger] rows@[i]),
            ) by {
                assert(run[i] == entry_view(rows@[i]));
                crate::run::lemma_run_lookup(run, run[i].0);
                assert(newest(run, run[i].0) == newest(of_series(h, t), run[i].0));
                crate::entries::lemma_newest_is_max(of_series(h, t), run[i].0);
                let n = newest(run, run[i].0).unwrap();
                let x = choose|x: int|
                    0 <= x < of_series(h, t).len() && #[trigger] of_series(h, t)[x] == (
                        run[i].0,
                        n.0,
                        n.1,
                    );
                assert(can_encode(*schema, of_series(h, t)[x]));
            }
        }
        let b = match internal_batch_from_rows(rows.as_slice(), schema) {
            Ok(b) => b,
            Err(e) => {
                assert(h.len() > 0);
                return Err(e);
            },
        };
        proof {
            assert forall|i: int| 0 <= i < flat_rows(runs).len() implies tags_lt(
                (#[trigger] flat_rows(runs)[i]).0.0,
                t,
            ) by {
                let x = choose|x: int|
                    0 <= x < s && (#[trigger] series[x]).tags@ == flat_rows(runs)[i].0.0;
                assert(tags_lt(series[x].tags@, series[s as int].tags@));
            }
            lemma_flat_push(runs, run, t);
            let next = runs.push(run);
            assert forall|x: int, ts: i64| #![trigger newest(flat_rows(next), (series[x].tags@, ts))]
                0 <= x < s + 1 implies newest(flat_rows(next), (series[x].tags@, ts)) == newest(
                h,
                (series[x].tags@, ts),
            ) by {
                let k = (series[x].tags@, ts);
                lemma_newest_concat(flat_rows(runs), run, k);
                if x < s {
                    assert(tags_lt(series[x].tags@, series[s as int].tags@));
                    lemma_newest_none(run, k);
                    assert(newest(flat_rows(runs), k) == newest(h, k));
                } else {
                    lemma_newest_none(flat_rows(runs), k);
                    lemma_of_series(h, k);
                    assert(newest(run, k) == newest(of_series(h, t), k));
                }
            }
            assert forall|i: int| 0 <= i < flat_rows(next).len() implies exists|x: int|
                0 <= x < s + 1 && (#[trigger] series[x]).tags@ == (#[trigger] flat_rows(next)[i]).0.0 by {
                let n = flat_rows(runs).len();
                if i < n {
                    assert(flat_rows(next)[i] == flat_rows(runs)[i]);
                    let x = choose|x: int|
                        0 <= x < s && (#[trigger] series[x]).tags@ == flat_rows(runs)[i].0.0;
                    assert(series[x].tags@ == flat_rows(next)[i].0.0);
                } else {
                    assert(flat_rows(next)[i] == run[i - n]);
                    assert(series[s as int].tags@ == flat_rows(next)[i].0.0);
                }
            }
        }
        let ghost old_batches = batches@;
        let ghost old_runs = runs;
        batches.push(b);
        proof {
            runs = runs.push(run);
            assert forall|b: int, i: int|
                0 <= b < s + 1 && 0 <= i < runs[b].len() implies (#[trigger] runs[b][i]).0.0
                == series[b].tags@ by {
                if b < s {
                    assert(runs[b][i] == old_runs[b][i]);
                }
            }
            assert forall|x: int| #![trigger batches@[x]] 0 <= x < batches@.len() implies {
                &&& batches@[x].readable(*schema)
                &&& batches@[x].rows().len() == runs[x].len()
                &&& runs[x].len() > 0
                &&& forall|i: int| #![trigger batches@[x].rows()[i]]
                    0 <= i < runs[x].len() ==> {
                        &&& batches@[x].rows()[i].0 == runs[x][i].1
                        &&& batches@[x].rows()[i].1 == crate::batch::op_of(runs[x][i].2)
                        &&& crate::batch::holds_entry(
                            *schema,
                            batches@[x].rows()[i].2,
                            runs[x][i],
                        )
                    }
            } by {
                if x < old_batches.len() {
                    assert(batches@[x] == old_batches[x]);
                    assert(runs[x] == old_runs[x]);
                } else {
                    assert(runs[x] == run);
                    assert forall|i: int| #![trigger b.rows()[i]]
                        0 <= i < run.len() implies b.rows()[i].0 == run[i].1 && b.rows()[i].1
                        == crate::batch::op_of(run[i].2) && crate::batch::holds_entry(
                        *schema,
                        b.rows()[i].2,
                        run[i],
                    ) by {
                        assert(run[i] == entry_view(rows@[i]));
                    }
                }
            }
        }
        s += 1;
    }
    proof {
        assert forall|k: KeyView| #[trigger] newest(flat_rows(runs), k) == newest(h, k) by {
            if has_tags(series, k.0) {
                let x = choose|x: int| 0 <= x < series.len() && (#[trigger] series[x]).tags@ == k.0;
                assert(newest(flat_rows(runs), (series[x].tags@, k.1)) == newest(
                    h,
                    (series[x].tags@, k.1),
                ));
            } else {
                lemma_of_series(h, k);
                assert(of_series(h, k.0) == tagged(k.0, rows_under(series, k.0)));
                assert(of_series(h, k.0).len() == 0);
                assert forall|i: int| 0 <= i < flat_rows(runs).len() implies (
                #[trigger] flat_rows(runs)[i]).0 != k by {
                    let x = choose|x: int|
                        0 <= x < series.len() && (#[trigger] series[x]).tags@ == flat_rows(runs)[i].0.0;
                }
                lemma_newest_none(flat_rows(runs), k);
            }
        }
        assert(by_series(runs)) by {
            assert forall|a: int, b: int|
                0 <= a < b < runs.len() && runs[a].len() > 0 && runs[b].len() > 0 implies (
            #[trigger] runs[a])[0].0.0 != (#[trigger] runs[b])[0].0.0 by {
                assert(runs[a][0].0.0 == series[a].tags@);
                assert(runs[b][0].0.0 == series[b].tags@);
                assert(tags_lt(series[a].tags@, series[b].tags@));
            }
        }
        assert(hold_runs(*schema, batches@, runs) && newest_runs(runs, h));
        if series.len() == 0 && h.len() > 0 {
            let t = h[0].0.0;
            lemma_nonempty_of(h, 0);
            assert(of_series(h, t) == tagged(t, rows_under(series, t)));
            assert(!has_tags(series, t));
        }
    }
    Ok(batches)
}

proof fn lemma_nonempty(h: Seq<EntryView>, tags: Seq<u8>)
    ensures
        of_series(h, tags).len() > 0 ==> h.len() > 0,
{
}

proof fn lemma_nonempty_of(h: Seq<EntryView>, i: int)
    requires
        0 <= i < h.len(),
    ensures
        of_series(h, h[i].0.0).len() > 0,
    decreases h.len(),
{
    if i < h.len() - 1 {
        lemma_nonempty_of(h.drop_last(), i);
        assert(h.drop_last()[i] == h[i]);
    }
}

/// Puts the series of all shards into one table.
fn gather_shards(shards: Vec<SeriesTable>, mask: u64, Ghost(h): Ghost<Seq<EntryView>>) -> (r:
    SeriesTable)
    requires
        shards_hold(shards@, mask, h),
    ensures
        table_holds(r, h),
{
    let ghost all = shards@;
    let mut shards = shards;
    let mut table = SeriesTable::new();
    let mut n: usize = shards.len();
    proof {
        assert(shards@ =~= all.take(n as int));
        assert forall|t: Seq<u8>| 0 <= #[trigger] shard_of(mask, t) < n by {
            lemma_masked(fnv(FNV_OFFSET, t), mask);
        }
    }
    while n > 0
        invariant
            n <= all.len(),
            shards@ == all.take(n as int),
            shards_hold(all, mask, h),
            table.wf(),
            forall|t: Seq<u8>| #[trigger]
                has_tags(table.series@, t) ==> shard_of(mask, t) >= n,
            forall|t: Seq<u8>|
                shard_of(mask, t) >= n ==> #[trigger] rows_under(table.series@, t) == rows_under(
                    all[shard_of(mask, t)].series@,
                    t,
                ),
        decreases n,
    {
        let ghost at = n - 1;
        let shard = match shards.pop() {
            Some(shard) => shard,
            None => SeriesTable::new(),
        };
        proof {
            assert(shard == all[at]);
            assert(shards@ =~= all.take(at));
            assert(all[at].wf());
        }
        let ghost own = all[at].series@;
        let mut series = shard.series;
        let mut m: usize = series.len();
        assert(series@ =~= own.take(m as int));
        while m > 0
            invariant
                m <= own.len(),
                0 <= at < all.len(),
                at == n - 1,
                own == all[at].series@,
                is_sorted(own),
                series@ == own.take(m as int),
                shards_hold(all, mask, h),
                table.wf(),
                forall|t: Seq<u8>| #[trigger]
                    has_tags(table.series@, t) ==> shard_of(mask, t) > at || exists|i: int|
                        m <= i < own.len() && (#[trigger] own[i]).tags@ == t,
                forall|i: int|
                    m <= i < own.len() ==> rows_under(table.series@, (#[trigger] own[i]).tags@)
                        == rows_view(own[i].rows@),
                forall|t: Seq<u8>|
                    shard_of(mask, t) > at ==> #[trigger] rows_under(table.series@, t)
                        == rows_under(all[shard_of(mask, t)].series@, t),
            decreases m,
        {
            let ghost before = table.series@;
            let one = match series.pop() {
                Some(one) => one,
                None => Series { tags: Vec::new(), rows: Vec::new() },
            };
            proof {
                assert(one == own[m - 1]);
                assert(series@ =~= own.take(m - 1));
                assert(own[m - 1].rows@.len() > 0);
                assert(has_tags(own, one.tags@));
                assert(shard_of(mask, one.tags@) == at);
                if has_tags(before, one.tags@) {
                    let i = choose|i: int|
                        m <= i < own.len() && (#[trigger] own[i]).tags@ == one.tags@;
                    assert(tags_lt(own[m - 1].tags@, own[i].tags@));
                }
            }
            table.add_series(one);
            proof {
                assert forall|t: Seq<u8>| #[trigger] has_tags(table.series@, t) implies shard_of(
                    mask,
                    t,
                ) > at || exists|i: int|
                    m - 1 <= i < own.len() && (#[trigger] own[i]).tags@ == t by {
                    if t == one.tags@ {
                        assert(own[m - 1].tags@ == t);
                    } else {
                        assert(has_tags(before, t));
                    }
                }
                assert forall|i: int| m - 1 <= i < own.len() implies rows_under(
                    table.series@,
                    (#[trigger] own[i]).tags@,
                ) == rows_view(own[i].rows@) by {
                    if i >= m {
                        assert(tags_lt(own[m - 1].tags@, own[i].tags@));
                        assert(rows_under(before, own[i].tags@) == rows_view(own[i].rows@));
                    }
                }
                assert forall|t: Seq<u8>| shard_of(mask, t) > at implies #[trigger] rows_under(
                    table.series@,
                    t,
                ) == rows_under(all[shard_of(mask, t)].series@, t) by {
                    assert(t != one.tags@);
                    assert(rows_under(before, t) == rows_under(
                        all[shard_of(mask, t)].series@,
                        t,
                    ));
                }
            }
            m -= 1;
        }
        proof {
            assert forall|t: Seq<u8>| #[trigger] has_tags(table.series@, t) implies shard_of(
                mask,
                t,
            ) >= at by {
                if shard_of(mask, t) <= at {
                    let i = choose|i: int| 0 <= i < own.len() && (#[trigger] own[i]).tags@ == t;
                    assert(has_tags(own, t));
                }
            }
            assert forall|t: Seq<u8>| shard_of(mask, t) >= at implies #[trigger] rows_under(
                table.series@,
                t,
            ) == rows_under(all[shard_of(mask, t)].series@, t) by {
                if shard_of(mask, t) == at {
                    if has_tags(own, t) {
                        let i = choose|i: int| 0 <= i < own.len() && (#[trigger] own[i]).tags@ == t;
                        lemma_rows_under(own, i);
                    } else if has_tags(table.series@, t) {
                        let i = choose|i: int| 0 <= i < own.len() && (#[trigger] own[i]).tags@ == t;
                        assert(has_tags(own, t));
                    }
                }
            }
        }
        n -= 1;
    }
    proof {
        assert forall|t: Seq<u8>|
            tagged(t, rows_under(table.series@, t)) == #[trigger] of_series(h, t) by {
            assert(shard_of(mask, t) >= 0);
        }
    }
    table
}

impl Memtable for ColumnarMemtable {
    type Frozen = FrozenColumnar;

    closed spec fn wf(&self) -> bool {
        &&& shards_hold(self.shards@, self.mask, self.history@)
        &&& self.shards@.len() == doubled_up(1, self.shard_count as nat)
        &&& self.shard_count <= usize::MAX / 2 + 1
        &&& self.row_count == wrapped(self.history@.len())
        &&& self.estimated_bytes == wrapped(bytes_of(self.history@))
        &&& self.max_seq == max_seq_of(self.history@)
        &&& self.wal.spec_policy() == SyncPolicy::Interval(SYNC_INTERVAL)
        &&& self.wal.unsynced() < SYNC_INTERVAL
    }

    closed spec fn history(&self) -> Seq<EntryView> {
        self.history@
    }

    closed spec fn log_name(&self) -> Seq<char> {
        self.wal.spec_path()
    }

    closed spec fn unsynced(&self) -> nat {
        self.wal.unsynced() as nat
    }

    closed spec fn can_log(&self, n: nat) -> bool {
        self.wal.can_count(n as u32)
    }

    fn write(&mut self, key: Key, seq: u64, value: Option<Value>) -> (r: PendingWrite) {
        let op = match &value {
            Some(v) => Operation::Insert { key: copy_key(&key), seq, value: copy_bytes(v) },
            None => Operation::Delete { key: copy_key(&key), seq },
        };
        let append = self.wal.append(&op);
        PendingWrite { append, entry: (key, seq, value) }
    }

    fn finish_write(&mut self, pending: PendingWrite) -> (r: Option<Value>) {
        let (key, seq, value) = pending.entry;
        self.insert_row(key.0, key.1, seq, value)
    }

    fn write_batch(&mut self, entries: Vec<Entry>) -> (r: PendingBatch) {
        let mut ops: Vec<Operation> = Vec::new();
        let ghost want = entry_ops(entries_view(entries@));
        let mut i: usize = 0;
        while i < entries.len()
            invariant
                i <= entries@.len(),
                want == entry_ops(entries_view(entries@)),
                ops_view(ops@) == want.take(i as int),
            decreases entries@.len() - i,
        {
            let (key, seq, value) = &entries[i];
            let op = match value {
                Some(v) => Operation::Insert {
                    key: copy_key(key),
                    seq: *seq,
                    value: copy_bytes(v),
                },
                None => Operation::Delete { key: copy_key(key), seq: *seq },
            };
            let ghost before = ops_view(ops@);
            ops.push(op);
            proof {
                assert(ops_view(ops@) =~= before.push(op@));
                assert(want[i as int] == entry_op(entry_view(entries@[i as int])));
                assert(want.take(i + 1) =~= want.take(i as int).push(want[i as int]));
            }
            i += 1;
        }
        assert(want.take(i as int) =~= want);
        assert(ops_view(ops@).len() == ops@.len());
        let append = self.wal.append_batch(ops.as_slice());
        PendingBatch { append, entries }
    }

    fn finish_batch(&mut self, pending: PendingBatch) {
        let ghost all = entries_view(pending.entries@);
        let entries = pending.entries;
        let ghost before = self.history@;
        let mut i: usize = 0;
        assert(before + all.take(0) =~= before);
        while i < entries.len()
            invariant
                i <= entries@.len(),
                all == entries_view(entries@),
                self.wf(),
                self.history() == before + all.take(i as int),
                self.log() == old(self).log(),
            decreases entries@.len() - i,
        {
            let (key, seq, value) = &entries[i];
            self.insert_row(
                copy_bytes(&key.0),
                key.1,
                *seq,
                crate::types::copy_value(value),
            );
            assert(all[i as int] == entry_view(entries@[i as int]));
            assert(before + all.take(i + 1) =~= (before + all.take(i as int)).push(all[i as int]));
            i += 1;
        }
        assert(all.take(i as int) =~= all);
    }

    fn replay(&mut self, op: &Operation) {
        self.take_over(op);
    }

    fn get(&self, key: &Key) -> (r: Option<(u64, Option<Value>)>) {
        let at: usize = self.shard_for(&key.0);
        proof {
            let k = key_view(*key);
            assert(self.shards@[at as int].wf());
            lemma_of_series(self.history@, k);
            lemma_newest_at(k.0, rows_under(self.shards@[at as int].series@, k.0), k.1);
            assert(of_series(self.history@, k.0) == tagged(
                k.0,
                rows_under(self.shards@[at as int].series@, k.0),
            ));
        }
        self.shards[at].get(key)
    }

    fn max_seq(&self) -> (r: u64) {
        self.max_seq
    }

    fn len(&self) -> (r: usize) {
        self.row_count
    }

    fn estimated_size(&self) -> (r: usize) {
        self.estimated_bytes
    }

    fn to_batches(&self, schema: &TableSchema) -> (r: Result<Vec<Batch>, BatchError>) {
        assert forall|i: int| 0 <= i < self.history@.len() implies can_encode(
            *schema,
            #[trigger] self.history@[i],
        ) by {
            assert(can_encode(*schema, self.history()[i]));
        }
        let mut copies: Vec<SeriesTable> = Vec::new();
        let mut s: usize = 0;
        while s < self.shards.len()
            invariant
                s <= self.shards@.len(),
                copies@.len() == s,
                shards_hold(self.shards@, self.mask, self.history@),
                forall|x: int|
                    0 <= x < s ==> same_series(
                        (#[trigger] copies@[x]).series@,
                        self.shards@[x].series@,
                    ),
            decreases self.shards@.len() - s,
        {
            copies.push(copy_table(&self.shards[s]));
            s += 1;
        }
        proof {
            lemma_copied_shards(self.shards@, copies@, self.mask, self.history@);
        }
        let table = gather_shards(copies, self.mask, Ghost(self.history@));
        table_batches(&table, schema, Ghost(self.history@))
    }

    fn freeze(self) -> (r: FrozenColumnar) {
        let table = gather_shards(self.shards, self.mask, Ghost(self.history@));
        FrozenColumnar {
            table,
            row_count: self.row_count,
            total_bytes: self.estimated_bytes,
            max_seq_v: self.max_seq,
            wal_path: self.wal.path().clone(),
            history: self.history,
        }
    }
}

/// Two lists of series with the same tags and rows.
spec fn same_series(a: Seq<Series>, b: Seq<Series>) -> bool {
    &&& a.len() == b.len()
    &&& forall|i: int| #![trigger a[i]] #![trigger b[i]]
        0 <= i < a.len() ==> a[i].tags@ == b[i].tags@ && rows_view(a[i].rows@) == rows_view(
            b[i].rows@,
        )
}

fn copy_table(table: &SeriesTable) -> (r: SeriesTable)
    ensures
        same_series(r.series@, table.series@),
{
    let mut series: Vec<Series> = Vec::new();
    let mut i: usize = 0;
    while i < table.series.len()
        invariant
            i <= table.series@.len(),
            series@.len() == i,
            forall|x: int| #![trigger series@[x]] #![trigger table.series@[x]]
                0 <= x < i ==> series@[x].tags@ == table.series@[x].tags@ && rows_view(
                    series@[x].rows@,
                ) == rows_view(table.series@[x].rows@),
        decreases table.series@.len() - i,
    {
        let one = &table.series[i];
        let mut rows: Vec<(i64, u64, Option<Value>)> = Vec::new();
        let ghost want = rows_view(one.rows@);
        let mut j: usize = 0;
        while j < one.rows.len()
            invariant
                j <= one.rows@.len(),
                want == rows_view(one.rows@),
                rows_view(rows@) == want.take(j as int),
            decreases one.rows@.len() - j,
        {
            let row = &one.rows[j];
            let ghost before = rows_view(rows@);
            rows.push((row.0, row.1, crate::types::copy_value(&row.2)));
            assert(rows_view(rows@) =~= before.push(want[j as int]));
            assert(want.take(j + 1) =~= want.take(j as int).push(want[j as int]));
            j += 1;
        }
        assert(want.take(j as int) =~= want);
        series.push(Series { tags: copy_bytes(&one.tags), rows });
        i += 1;
    }
    SeriesTable { series }
}

proof fn lemma_same_series(a: Seq<Series>, b: Seq<Series>)
    requires
        same_series(a, b),
        is_sorted(b),
    ensures
        is_sorted(a),
        forall|t: Seq<u8>| #[trigger] has_tags(a, t) == has_tags(b, t),
        forall|t: Seq<u8>| #[trigger] rows_under(a, t) == rows_under(b, t),
{
    assert forall|i: int| 0 <= i < a.len() implies (#[trigger] a[i]).rows@.len() > 0 by {
        assert(rows_view(a[i].rows@).len() == rows_view(b[i].rows@).len());
        assert(b[i].rows@.len() > 0);
    }
    assert forall|i: int, j: int| #![trigger a[i], a[j]] 0 <= i < j < a.len() implies tags_lt(
        a[i].tags@,
        a[j].tags@,
    ) by {
        assert(tags_lt(b[i].tags@, b[j].tags@));
    }
    assert forall|t: Seq<u8>| #[trigger] has_tags(a, t) == has_tags(b, t) by {
        if has_tags(a, t) {
            let i = choose|i: int| 0 <= i < a.len() && (#[trigger] a[i]).tags@ == t;
            assert(b[i].tags@ == t);
        }
        if has_tags(b, t) {
            let i = choose|i: int| 0 <= i < b.len() && (#[trigger] b[i]).tags@ == t;
            assert(a[i].tags@ == t);
        }
    }
    assert forall|t: Seq<u8>| #[trigger] rows_under(a, t) == rows_under(b, t) by {
        assert(has_tags(a, t) == has_tags(b, t));
        if has_tags(a, t) {
            let i = choose|i: int| 0 <= i < a.len() && (#[trigger] a[i]).tags@ == t;
            assert(b[i].tags@ == t);
            lemma_rows_under(a, i);
            lemma_rows_under(b, i);
        }
    }
}

proof fn lemma_copied_shards(
    from: Seq<SeriesTable>,
    to: Seq<SeriesTable>,
    mask: u64,
    h: Seq<EntryView>,
)
    requires
        shards_hold(from, mask, h),
        to.len() == from.len(),
        forall|x: int|
            0 <= x < to.len() ==> same_series((#[trigger] to[x]).series@, from[x].series@),
    ensures
        shards_hold(to, mask, h),
{
    assert forall|s: int| 0 <= s < to.len() implies (#[trigger] to[s]).wf() by {
        assert(from[s].wf());
        lemma_same_series(to[s].series@, from[s].series@);
    }
    assert forall|s: int, t: Seq<u8>| #![trigger has_tags(to[s].series@, t)]
        0 <= s < to.len() && has_tags(to[s].series@, t) implies shard_of(mask, t) == s by {
        assert(from[s].wf());
        lemma_same_series(to[s].series@, from[s].series@);
        assert(has_tags(from[s].series@, t));
    }
    assert forall|t: Seq<u8>|
        tagged(t, rows_under(to[shard_of(mask, t)].series@, t)) == #[trigger] of_series(h, t) by {
        let s = shard_of(mask, t);
        lemma_masked(fnv(FNV_OFFSET, t), mask);
        assert(from[s].wf());
        lemma_same_series(to[s].series@, from[s].series@);
        assert(rows_under(to[s].series@, t) == rows_under(from[s].series@, t));
    }
}

/// The rows of a memtable that is not written to any more.
pub struct FrozenColumnar {
    table: SeriesTable,
    row_count: usize,
    total_bytes: usize,
    max_seq_v: u64,
    wal_path: String,
    history: Ghost<Seq<EntryView>>,
}

impl ImmutableMemtable for FrozenColumnar {
    closed spec fn wf(&self) -> bool {
        &&& table_holds(self.table, self.history@)
        &&& self.row_count == wrapped(self.history@.len())
        &&& self.total_bytes == wrapped(bytes_of(self.history@))
        &&& self.max_seq_v == max_seq_of(self.history@)
    }

    closed spec fn history(&self) -> Seq<EntryView> {
        self.history@
    }

    closed spec fn log_name(&self) -> Seq<char> {
        self.wal_path@
    }

    fn get(&self, key: &Key) -> (r: Option<(u64, Option<Value>)>) {
        proof {
            let k = key_view(*key);
            lemma_of_series(self.history@, k);
            lemma_newest_at(k.0, rows_under(self.table.series@, k.0), k.1);
            assert(of_series(self.history@, k.0) == tagged(
                k.0,
                rows_under(self.table.series@, k.0),
            ));
        }
        self.table.get(key)
    }

    fn max_seq(&self) -> (r: u64) {
        self.max_seq_v
    }

    fn len(&self) -> (r: usize) {
        self.row_count
    }

    fn estimated_size(&self) -> (r: usize) {
        self.total_bytes
    }

    fn to_batches(&self, schema: &TableSchema) -> (r: Result<Vec<Batch>, BatchError>) {
        assert forall|i: int| 0 <= i < self.history@.len() implies can_encode(
            *schema,
            #[trigger] self.history@[i],
        ) by {
            assert(can_encode(*schema, self.history()[i]));
        }
        table_batches(&self.table, schema, Ghost(self.history@))
    }

    fn wal_path(&self) -> (r: &String) {
        &self.wal_path
    }
}

/// The number of shards is rounded up to a power of two, and no further than it must.
pub proof fn law_shards_are_a_power_of_two(n: nat)
    ensures
        exists|e: nat| doubled_up(1, n) == #[trigger] pow(2, e),
        n <= doubled_up(1, n),
        n <= 1 ==> doubled_up(1, n) == 1,
        n > 1 ==> doubled_up(1, n) < 2 * n,
{
    assert(pow(2, 0) == 1) by {
        reveal(pow);
    }
    lemma_doubled_power(0, n);
}

proof fn lemma_doubled_power(e: nat, n: nat)
    requires
        e == 0 || pow(2, e) < 2 * n,
    ensures
        pow(2, e) > 0,
        n <= doubled_up(pow(2, e) as nat, n),
        exists|f: nat| doubled_up(pow(2, e) as nat, n) == #[trigger] pow(2, f),
        n > 1 ==> doubled_up(pow(2, e) as nat, n) < 2 * n,
        e == 0 && n <= 1 ==> doubled_up(1, n) == 1,
    decreases
            (if pow(2, e) >= n {
                0
            } else {
                n - pow(2, e)
            }),
{
    lemma_pow_positive(2, e);
    assert(pow(2, 0) == 1 && pow(2, e + 1) == 2 * pow(2, e)) by {
        reveal(pow);
    }
    if pow(2, e) < n {
        lemma_doubled_power(e + 1, n);
        assert(2 * (pow(2, e) as nat) == pow(2, e + 1) as nat);
        let f = choose|f: nat| doubled_up(pow(2, e + 1) as nat, n) == #[trigger] pow(2, f);
        assert(doubled_up(pow(2, e) as nat, n) == pow(2, f));
    } else {
        assert(doubled_up(pow(2, e) as nat, n) == pow(2, e));
    }
}

} // verus!
