//! A region: one table with its layers, and what is decided about them.
//!
//! A region reads and writes no file. A write tells what is to be appended to
//! the log and takes place when it is finished; a read, a flush and a
//! compaction tell which row groups they need.

use vstd::prelude::*;
use vstd::string::StringExecFns;
use crate::batch::{
    batches_rows, is_canonical, law_batch_keeps_rows, row_entries, Batch, KeyedRow,
};
use crate::counters::{lemma_wrapped_step, wrapped};
use crate::entries::{
    entries_view, entry_view, flat_rows, is_run, lemma_flat_rows, lemma_newest_in_run,
    lemma_newest_is_max, max_seq_of, newest, visible, Entry, EntryView,
};
use crate::memtable::columnar::{
    all_encodable, lemma_can_log, ColumnarMemtable, MAX_BATCH_ROWS,
};
use crate::memtable::compaction::{
    all_below, by_number, drop_tables, files_among, insert_table, is_due, is_first_due,
    lemma_append_rises, lemma_members, lemma_without_part, lemma_without_rises, members,
    names_view, place_of, plan, rises, without,
};
use crate::memtable::traits::{
    batches_of, bytes_of, entry_op, entry_ops, hold_runs, newest_runs, op_entries,
    ImmutableMemtable, Memtable, PendingBatch, PendingWrite,
};
use crate::memtable::transaction::{older, Transaction, TxError};
use crate::memtable::version::{frozen_layers, Lookup, Version};
use crate::memtable::wal::{appended, left_unsynced, recovered, sync_falls_due};
use crate::names::{sst_file_name, sst_name, wal_name, wal_number_of};
use crate::schema::TableSchema;
use crate::order::{group_key_order, key_lt};
use crate::query::merge::MergeBatchIter;
use crate::run::Run;
use crate::sstable::index::{filter_of, group_start, in_chunks};
use crate::sstable::sstable::{
    all_readable, collect_entries, in_groups, in_keys, in_times, overlaps, select_times,
    spec_extent, timely, SSTable,
};
use crate::types::{copy_key, copy_value, key_view, value_view, Key, KeyView, Value};

verus! {

broadcast use group_key_order;

/// How many bytes the memtables may hold before one is flushed.
pub const MAX_MEMORY_BYTES: usize = 10_485_760;

/// How many rows a memtable may hold before it is flushed.
pub const FLUSH_THRESHOLD: usize = 1000;

/// How many tables of a window are compacted.
pub const COMPACT_THRESHOLD: usize = 4;

/// The width of a compaction window in nanoseconds.
pub const WINDOW_SIZE: i64 = 3_600_000_000_000;

/// What a region can be told about its upkeep.
#[derive(Clone, Copy)]
pub struct Settings {
    pub max_memory_bytes: usize,
    pub flush_threshold: usize,
    pub ttl: Option<i64>,
    pub window_size: i64,
    pub compact_threshold: usize,
}

/// One table with its layers.
pub struct Region {
    version: Version,
    schema: TableSchema,
    sst_id: usize,
    seq: u64,
    settings: Settings,
    bg_error: Option<String>,
}

/// A table to read: its position, the row groups, and the range of timestamps
/// that is wanted.
#[derive(Debug)]
pub struct TableSource {
    pub sst: usize,
    pub groups: Vec<usize>,
    pub ts_range: Option<(i64, i64)>,
}

/// What is to be read: batches in memory, and row groups of tables, of which
/// the listed columns suffice where they are listed.
#[derive(Debug)]
pub struct Sources {
    pub memory: Vec<Vec<Batch>>,
    pub tables: Vec<TableSource>,
    pub columns: Option<Vec<usize>>,
}

/// Why rows could not be put into columns.
#[derive(Debug, Clone, Copy, PartialEq, Eq, Structural)]
pub enum EncodeError {
    /// The tags or the fields of some row are cut off.
    Undecodable,
    /// Some column would not get one cell for every row.
    UnevenColumns,
}

/// Tables to be compacted: their positions, their numbers, and the range of
/// timestamps that is kept.
#[derive(Debug)]
pub struct Compaction {
    pub targets: Vec<usize>,
    pub ids: Vec<usize>,
    pub clamp: Option<(i64, i64)>,
}

impl Compaction {
    /// The merge of the tables. It keeps deletions: they still hide older
    /// versions in tables of other windows.
    pub fn merge(&self, schema: &TableSchema) -> (r: MergeBatchIter)
        requires
            schema.in_range(),
        ensures
            r.wf(*schema),
            r.fed().len() == self.targets@.len(),
            forall|s: int|
                0 <= s < r.fed().len() ==> (#[trigger] r.fed()[s]) == Seq::<KeyedRow>::empty()
                    && r.awaits(s),
            r.handed() == Seq::<KeyedRow>::empty(),
            r.keeps(),
    {
        MergeBatchIter::new(self.targets.len(), true, schema)
    }
}

/// The sequence number `n` places after `start`; the numbers wrap around.
pub open spec fn seq_after(start: u64, n: nat) -> u64 {
    ((start + n) % 0x1_0000_0000_0000_0000) as u64
}

/// Writes in order, with the sequence numbers from `start` on.
pub open spec fn numbered(
    writes: Seq<(KeyView, Option<Seq<u8>>)>,
    start: u64,
) -> Seq<EntryView> {
    Seq::new(writes.len(), |i: int| (writes[i].0, seq_after(start, i as nat), writes[i].1))
}

/// What a list of writes stands for.
pub open spec fn writes_view(s: Seq<(Key, Option<Value>)>) -> Seq<(KeyView, Option<Seq<u8>>)> {
    Seq::new(s.len(), |i: int| (key_view(s[i].0), value_view(s[i].1)))
}

/// Keys and values of entries.
pub open spec fn unnumbered(s: Seq<EntryView>) -> Seq<(KeyView, Option<Seq<u8>>)> {
    Seq::new(s.len(), |i: int| (s[i].0, s[i].2))
}

/// The oldest timestamp that has not expired.
pub open spec fn cutoff_of(ttl: Option<i64>, now: i64) -> Option<i64> {
    match ttl {
        None => None,
        Some(t) => Some(
            if now - t < i64::MIN {
                i64::MIN
            } else if now - t > i64::MAX {
                i64::MAX
            } else {
                (now - t) as i64
            },
        ),
    }
}

/// Rows at this time have expired.
pub open spec fn is_expired(cutoff: Option<i64>, ts: i64) -> bool {
    cutoff matches Some(c) && ts < c
}

/// How many rows were written to the frozen memtables.
pub open spec fn frozen_rows(v: Version, n: nat) -> nat
    decreases n,
{
    if n == 0 {
        0
    } else {
        frozen_rows(v, (n - 1) as nat) + v.immutables@[n - 1].history().len()
    }
}

/// How many bytes the rows of the frozen memtables are estimated at.
pub open spec fn frozen_bytes(v: Version, n: nat) -> nat
    decreases n,
{
    if n == 0 {
        0
    } else {
        frozen_bytes(v, (n - 1) as nat) + bytes_of(v.immutables@[n - 1].history())
    }
}

/// How many rows the tables hold.
pub open spec fn table_rows(v: Version, n: nat) -> nat
    decreases n,
{
    if n == 0 {
        0
    } else {
        table_rows(v, (n - 1) as nat) + v.ssts@[n - 1].count() as nat
    }
}

/// The highest sequence number of tables.
pub open spec fn top_of(ssts: Seq<SSTable>) -> u64
    decreases ssts.len(),
{
    if ssts.len() == 0 {
        0
    } else {
        let before = top_of(ssts.drop_last());
        if ssts.last().top_seq() > before {
            ssts.last().top_seq()
        } else {
            before
        }
    }
}

/// The highest sequence number of a memtable and tables.
pub open spec fn watermark_of(active: ColumnarMemtable, ssts: Seq<SSTable>) -> u64 {
    if max_seq_of(active.history()) > top_of(ssts) {
        max_seq_of(active.history())
    } else {
        top_of(ssts)
    }
}

/// The highest sequence number of a memtable and tables.
pub fn watermark(active: &ColumnarMemtable, ssts: &Vec<SSTable>) -> (r: u64)
    requires
        active.wf(),
    ensures
        r == watermark_of(*active, ssts@),
{
    let mut w: u64 = 0;
    let n: usize = ssts.len();
    let mut i: usize = 0;
    while i < n
        invariant
            i <= n,
            n == ssts@.len(),
            w == top_of(ssts@.take(i as int)),
        decreases n - i,
    {
        proof {
            assert(ssts@.take(i + 1).drop_last() =~= ssts@.take(i as int));
        }
        let s: u64 = ssts[i].max_seq();
        if s > w {
            w = s;
        }
        i += 1;
    }
    assert(ssts@.take(n as int) =~= ssts@);
    let a: u64 = active.max_seq();
    if a > w {
        a
    } else {
        w
    }
}

proof fn lemma_seq_after(start: u64, n: nat)
    ensures
        seq_after(start, 0) == start,
        seq_after(start, n).wrapping_add(1) == seq_after(start, n + 1),
        start + n <= u64::MAX ==> seq_after(start, n) == start + n,
{
}

fn number_writes(writes: &Vec<Entry>, start: u64) -> (r: (Vec<Entry>, u64))
    ensures
        entries_view(r.0@) == numbered(unnumbered(entries_view(writes@)), start),
        r.1 == seq_after(start, writes@.len()),
{
    let ghost want = numbered(unnumbered(entries_view(writes@)), start);
    let mut out: Vec<Entry> = Vec::new();
    let mut seq: u64 = start;
    let n: usize = writes.len();
    let mut i: usize = 0;
    proof {
        lemma_seq_after(start, 0);
    }
    while i < n
        invariant
            i <= n,
            n == writes@.len(),
            out@.len() == i,
            seq == seq_after(start, i as nat),
            want == numbered(unnumbered(entries_view(writes@)), start),
            forall|x: int| #![trigger out@[x]] 0 <= x < i ==> entry_view(out@[x]) == want[x],
        decreases n - i,
    {
        let e = &writes[i];
        proof {
            lemma_seq_after(start, i as nat);
            assert(entries_view(writes@)[i as int] == entry_view(writes@[i as int]));
        }
        out.push((copy_key(&e.0), seq, copy_value(&e.2)));
        seq = seq.wrapping_add(1);
        i += 1;
    }
    assert(entries_view(out@) =~= want);
    (out, seq)
}

fn has_conflict(visible: &Vec<Option<u64>>, since: u64) -> (r: bool)
    ensures
        r == conflicts(visible@, since),
{
    let n: usize = visible.len();
    let mut i: usize = 0;
    while i < n
        invariant
            i <= n,
            n == visible@.len(),
            forall|x: int|
                0 <= x < i ==> !((#[trigger] visible@[x]) matches Some(s) && s >= since),
        decreases n - i,
    {
        match visible[i] {
            Some(s) => {
                if s >= since {
                    assert(visible@[i as int] matches Some(s) && s >= since);
                    return true;
                }
            },
            None => {},
        }
        i += 1;
    }
    false
}

impl Region {
    /// The layers.
    pub closed spec fn layers(&self) -> Version {
        self.version
    }

    /// The columns.
    pub closed spec fn columns(&self) -> TableSchema {
        self.schema
    }

    /// The number of the next table.
    pub closed spec fn next_id(&self) -> usize {
        self.sst_id
    }

    /// The sequence number of the next write.
    pub closed spec fn next_seq(&self) -> u64 {
        self.seq
    }

    /// What the region was told about its upkeep.
    pub closed spec fn upkeep(&self) -> Settings {
        self.settings
    }

    /// What the first failure of the upkeep said.
    pub closed spec fn failure(&self) -> Option<Seq<char>> {
        match self.bg_error {
            Some(s) => Some(s@),
            None => None,
        }
    }

    /// The layers can be read and written, the tables are in the order of
    /// their numbers, the columns can be told apart, and windows have a width.
    pub open spec fn wf(&self) -> bool {
        &&& self.layers().wf()
        &&& by_number(self.layers().ssts@)
        &&& self.columns().in_range()
        &&& self.upkeep().window_size >= 1
    }

    /// The numbers of the tables rise strictly, and the next one is above all of
    /// them. It holds from the opening on where no two of the tables that are
    /// found have the same number.
    pub open spec fn numbers_rise(&self) -> bool {
        rises(self.layers().ssts@) && all_below(self.layers().ssts@, self.next_id())
    }

    /// Columns, settings and the failure are the same.
    pub open spec fn like(&self, other: Region) -> bool {
        &&& self.columns() == other.columns()
        &&& self.upkeep() == other.upkeep()
        &&& self.failure() == other.failure()
    }

    /// A region of recovered layers. Its sequence numbers go on from the
    /// highest that is there.
    pub fn open(
        active: ColumnarMemtable,
        ssts: Vec<SSTable>,
        sst_id: usize,
        schema: TableSchema,
    ) -> (r: Region)
        requires
            active.wf(),
            forall|j: int| 0 <= j < ssts@.len() ==> (#[trigger] ssts@[j]).wf(),
            by_number(ssts@),
            schema.in_range(),
            watermark_of(active, ssts@) < u64::MAX,
        ensures
            r.wf(),
            r.layers().active == active,
            r.layers().immutables@.len() == 0,
            r.layers().ssts == ssts,
            r.layers().seq == watermark_of(active, ssts@),
            r.next_seq() == watermark_of(active, ssts@) + 1,
            r.next_id() == sst_id,
            rises(ssts@) && all_below(ssts@, sst_id) ==> r.numbers_rise(),
            r.columns() == schema,
            r.failure() is None,
            r.upkeep() == (Settings {
                max_memory_bytes: MAX_MEMORY_BYTES,
                flush_threshold: FLUSH_THRESHOLD,
                ttl: None,
                window_size: WINDOW_SIZE,
                compact_threshold: COMPACT_THRESHOLD,
            }),
            r.upkeep() == (Settings {
                max_memory_bytes: 10_485_760,
                flush_threshold: 1000,
                ttl: None,
                window_size: 3_600_000_000_000,
                compact_threshold: 4,
            }),
    {
        let w: u64 = watermark(&active, &ssts);
        let settings = Settings {
            max_memory_bytes: MAX_MEMORY_BYTES,
            flush_threshold: FLUSH_THRESHOLD,
            ttl: None,
            window_size: WINDOW_SIZE,
            compact_threshold: COMPACT_THRESHOLD,
        };
        Region {
            version: Version::new(active, ssts, w),
            schema,
            sst_id,
            seq: w + 1,
            settings,
            bg_error: None,
        }
    }

    /// The layers.
    pub fn version(&self) -> (r: &Version)
        ensures
            *r == self.layers(),
    {
        &self.version
    }

    /// The columns.
    pub fn schema(&self) -> (r: &TableSchema)
        ensures
            *r == self.columns(),
    {
        &self.schema
    }

    /// The number of the next table.
    pub fn sst_id(&self) -> (r: usize)
        ensures
            r == self.next_id(),
    {
        self.sst_id
    }

    /// The tables, in the order of their numbers.
    pub fn get_immutable_ssts(&self) -> (r: &Vec<SSTable>)
        ensures
            *r == self.layers().ssts,
    {
        &self.version.ssts
    }

    fn write_inner(&mut self, key: Key, value: Option<Value>) -> (r: PendingWrite)
        requires
            old(self).wf(),
        ensures
            final(self).wf(),
            final(self).like(*old(self)),
            final(self).next_id() == old(self).next_id(),
            final(self).next_seq() == seq_after(old(self).next_seq(), 1),
            same_rows(
                final(self).layers(),
                old(self).layers(),
                old(self).layers().active.history(),
            ),
            entry_view(r.entry) == (key_view(key), old(self).next_seq(), value_view(value)),
            r.append.bytes@ == appended(seq![entry_op(entry_view(r.entry))]),
            r.append.sync == sync_falls_due(old(self).layers().active.unsynced(), 1),
            final(self).layers().active.unsynced() == left_unsynced(
                old(self).layers().active.unsynced(),
                1,
            ),
    {
        let seq: u64 = self.seq;
        proof {
            lemma_seq_after(seq, 0);
            lemma_can_log(self.version.active, 1);
        }
        self.seq = seq.wrapping_add(1);
        self.version.active.write(key, seq, value)
    }

    /// A write of one row.
    pub fn write(&mut self, key: Key, value: Value) -> (r: PendingWrite)
        requires
            old(self).wf(),
        ensures
            final(self).wf(),
            final(self).like(*old(self)),
            final(self).next_id() == old(self).next_id(),
            final(self).next_seq() == seq_after(old(self).next_seq(), 1),
            same_rows(
                final(self).layers(),
                old(self).layers(),
                old(self).layers().active.history(),
            ),
            entry_view(r.entry) == (key_view(key), old(self).next_seq(), Some(value@)),
            r.append.bytes@ == appended(seq![entry_op(entry_view(r.entry))]),
            r.append.sync == sync_falls_due(old(self).layers().active.unsynced(), 1),
            final(self).layers().active.unsynced() == left_unsynced(
                old(self).layers().active.unsynced(),
                1,
            ),
    {
        self.write_inner(key, Some(value))
    }

    /// A deletion of one row.
    pub fn delete(&mut self, key: Key) -> (r: PendingWrite)
        requires
            old(self).wf(),
        ensures
            final(self).wf(),
            final(self).like(*old(self)),
            final(self).next_id() == old(self).next_id(),
            final(self).next_seq() == seq_after(old(self).next_seq(), 1),
            same_rows(
                final(self).layers(),
                old(self).layers(),
                old(self).layers().active.history(),
            ),
            entry_view(r.entry) == (key_view(key), old(self).next_seq(), None::<Seq<u8>>),
            r.append.bytes@ == appended(seq![entry_op(entry_view(r.entry))]),
            r.append.sync == sync_falls_due(old(self).layers().active.unsynced(), 1),
            final(self).layers().active.unsynced() == left_unsynced(
                old(self).layers().active.unsynced(),
                1,
            ),
    {
        self.write_inner(key, None)
    }

    /// Finishes a write or a deletion that stands in the log. It tells which
    /// value of the active memtable is replaced.
    pub fn finish_write(&mut self, pending: PendingWrite) -> (r: Option<Value>)
        requires
            old(self).wf(),
        ensures
            final(self).wf(),
            final(self).like(*old(self)),
            final(self).next_id() == old(self).next_id(),
            final(self).next_seq() == old(self).next_seq(),
            same_rows(
                final(self).layers(),
                old(self).layers(),
                old(self).layers().active.history().push(entry_view(pending.entry)),
            ),
            final(self).layers().active.unsynced() == old(self).layers().active.unsynced(),
            value_view(r) == visible(
                newest(old(self).layers().active.history(), key_view(pending.entry.0)),
            ),
    {
        self.version.active.finish_write(pending)
    }

    /// A write of several rows, which are logged together.
    pub fn write_batch(&mut self, entries: Vec<(Key, Option<Value>)>) -> (r: PendingBatch)
        requires
            old(self).wf(),
            entries@.len() <= MAX_BATCH_ROWS,
        ensures
            final(self).wf(),
            final(self).like(*old(self)),
            final(self).next_id() == old(self).next_id(),
            final(self).next_seq() == seq_after(old(self).next_seq(), entries@.len()),
            same_rows(
                final(self).layers(),
                old(self).layers(),
                old(self).layers().active.history(),
            ),
            entries_view(r.entries@) == numbered(writes_view(entries@), old(self).next_seq()),
            r.append.bytes@ == appended(entry_ops(entries_view(r.entries@))),
            r.append.sync == sync_falls_due(old(self).layers().active.unsynced(), entries@.len()),
            final(self).layers().active.unsynced() == left_unsynced(
                old(self).layers().active.unsynced(),
                entries@.len(),
            ),
    {
        let mut rows: Vec<Entry> = Vec::new();
        let n: usize = entries.len();
        let mut i: usize = 0;
        while i < n
            invariant
                i <= n,
                n == entries@.len(),
                rows@.len() == i,
                forall|x: int| #![trigger rows@[x]]
                    0 <= x < i ==> key_view(rows@[x].0) == key_view(entries@[x].0) && value_view(
                        rows@[x].2,
                    ) == value_view(entries@[x].1),
            decreases n - i,
        {
            rows.push((copy_key(&entries[i].0), 0, copy_value(&entries[i].1)));
            i += 1;
        }
        let (stamped, next) = number_writes(&rows, self.seq);
        proof {
            assert(unnumbered(entries_view(rows@)) =~= writes_view(entries@));
            assert(entries_view(stamped@).len() == stamped@.len());
            lemma_can_log(self.version.active, stamped@.len());
        }
        self.seq = next;
        self.version.active.write_batch(stamped)
    }

    /// Finishes a write of several rows that stands in the log.
    pub fn finish_batch(&mut self, pending: PendingBatch)
        requires
            old(self).wf(),
        ensures
            final(self).wf(),
            final(self).like(*old(self)),
            final(self).next_id() == old(self).next_id(),
            final(self).next_seq() == old(self).next_seq(),
            same_rows(
                final(self).layers(),
                old(self).layers(),
                old(self).layers().active.history() + entries_view(pending.entries@),
            ),
            final(self).layers().active.unsynced() == old(self).layers().active.unsynced(),
    {
        self.version.active.finish_batch(pending)
    }

    /// A transaction that reads the given rows, those of all layers, as they
    /// are now.
    pub fn begin(&self, batches: &Vec<Batch>) -> (r: Transaction)
        requires
            all_readable(batches@, self.columns()),
        ensures
            r.snapshot() == self.next_seq(),
            r.buffered() == Seq::<EntryView>::empty(),
            !r.is_committed(),
            forall|k: KeyView|
                #[trigger] newest(r.seen(), k) == newest(
                    older(row_entries(self.columns(), batches_rows(batches@)), self.next_seq()),
                    k,
                ),
    {
        Transaction::new(batches, self.seq, &self.schema)
    }

    /// Commits a transaction. `visible` gives for every write of it, in
    /// order, the sequence number of the newest version that is there. A
    /// transaction without writes needs no logging.
    pub fn commit(&mut self, txn: &mut Transaction, visible: &Vec<Option<u64>>) -> (r: Result<
        Option<PendingBatch>,
        TxError,
    >)
        requires
            old(self).wf(),
            visible@.len() == old(txn).buffered().len(),
            visible@.len() <= MAX_BATCH_ROWS,
        ensures
            final(self).wf(),
            final(self).like(*old(self)),
            final(self).next_id() == old(self).next_id(),
            same_rows(
                final(self).layers(),
                old(self).layers(),
                old(self).layers().active.history(),
            ),
            final(txn).buffered() == old(txn).buffered(),
            final(txn).snapshot() == old(txn).snapshot(),
            final(txn).seen() == old(txn).seen(),
            final(self).layers().active.unsynced() == match r {
                Ok(Some(_)) => left_unsynced(
                    old(self).layers().active.unsynced(),
                    old(txn).buffered().len(),
                ),
                _ => old(self).layers().active.unsynced(),
            },
            match r {
                Ok(None) => {
                    &&& old(txn).buffered().len() == 0
                    &&& final(txn).is_committed()
                    &&& final(self).next_seq() == old(self).next_seq()
                },
                Ok(Some(pending)) => {
                    &&& old(txn).buffered().len() > 0
                    &&& !conflicts(visible@, old(txn).snapshot())
                    &&& final(txn).is_committed() == old(txn).is_committed()
                    &&& final(self).next_seq() == seq_after(
                        old(self).next_seq(),
                        old(txn).buffered().len(),
                    )
                    &&& entries_view(pending.entries@) == numbered(
                        unnumbered(old(txn).buffered()),
                        old(self).next_seq(),
                    )
                    &&& pending.append.bytes@ == appended(
                        entry_ops(entries_view(pending.entries@)),
                    )
                    &&& pending.append.sync == sync_falls_due(
                        old(self).layers().active.unsynced(),
                        old(txn).buffered().len(),
                    )
                },
                Err(e) => {
                    &&& e is Conflict
                    &&& conflicts(visible@, old(txn).snapshot())
                    &&& final(txn).is_committed() == old(txn).is_committed()
                    &&& final(self).next_seq() == old(self).next_seq()
                },
            },
    {
        let n: usize = visible.len();
        if n == 0 {
            txn.set_committed();
            return Ok(None);
        }
        let since: u64 = txn.snapshot_seq();
        if has_conflict(visible, since) {
            return Err(TxError::Conflict);
        }
        let writes = txn.writes();
        let (stamped, next) = number_writes(writes, self.seq);
        proof {
            assert(entries_view(stamped@).len() == stamped@.len());
            assert(entries_view(writes@).len() == writes@.len());
            lemma_can_log(self.version.active, stamped@.len());
        }
        self.seq = next;
        Ok(Some(self.version.active.write_batch(stamped)))
    }

    /// Finishes a commit that stands in the log.
    pub fn finish_commit(&mut self, txn: &mut Transaction, pending: PendingBatch)
        requires
            old(self).wf(),
        ensures
            final(self).wf(),
            final(self).like(*old(self)),
            final(self).next_id() == old(self).next_id(),
            final(self).next_seq() == old(self).next_seq(),
            same_rows(
                final(self).layers(),
                old(self).layers(),
                old(self).layers().active.history() + entries_view(pending.entries@),
            ),
            final(self).layers().active.unsynced() == old(self).layers().active.unsynced(),
            final(txn).is_committed(),
            final(txn).buffered() == old(txn).buffered(),
            final(txn).snapshot() == old(txn).snapshot(),
            final(txn).seen() == old(txn).seen(),
    {
        self.version.active.finish_batch(pending);
        txn.set_committed();
    }

    /// The oldest timestamp that has not expired.
    pub fn ttl_cutoff(&self, now: i64) -> (r: Option<i64>)
        ensures
            r == cutoff_of(self.upkeep().ttl, now),
    {
        match self.settings.ttl {
            None => None,
            Some(t) => Some(
                match now.checked_sub(t) {
                    Some(d) => d,
                    None => if t < 0 {
                        i64::MAX
                    } else {
                        i64::MIN
                    },
                },
            ),
        }
    }

    /// Starts to look for a key; `None` where rows at its time have expired.
    pub fn get(&self, key: &Key, now: i64) -> (r: Option<Lookup>)
        requires
            self.wf(),
        ensures
            r is None <==> is_expired(cutoff_of(self.upkeep().ttl, now), key.1),
            r matches Some(l) ==> {
                &&& l.wf(self.layers())
                &&& l.target() == key_view(*key)
                &&& l.left() == self.layers().ssts@.len()
                &&& l.answers() == Map::<int, Option<(u64, Option<Seq<u8>>)>>::empty()
            },
    {
        match self.ttl_cutoff(now) {
            Some(c) => {
                if key.1 < c {
                    return None;
                }
            },
            None => {},
        }
        Some(Lookup::start(&self.version, key))
    }

    /// How many rows were written to the memtables or are in tables.
    pub fn len(&self) -> (r: usize)
        requires
            self.wf(),
        ensures
            r == wrapped(
                self.layers().active.history().len() + frozen_rows(
                    self.layers(),
                    self.layers().immutables@.len(),
                ) + table_rows(self.layers(), self.layers().ssts@.len()),
            ),
    {
        let v = &self.version;
        let mut total: usize = v.active.len();
        let ghost a = v.active.history().len();
        let n: usize = v.immutables.len();
        let mut i: usize = 0;
        while i < n
            invariant
                i <= n,
                n == v.immutables@.len(),
                v.wf(),
                total == wrapped(a + frozen_rows(*v, i as nat)),
            decreases n - i,
        {
            let x: usize = v.immutables[i].len();
            proof {
                lemma_wrapped_twice(
                    a + frozen_rows(*v, i as nat),
                    v.immutables@[i as int].history().len(),
                );
            }
            total = total.wrapping_add(x);
            i += 1;
        }
        let ghost b = a + frozen_rows(*v, n as nat);
        let m: usize = v.ssts.len();
        let mut j: usize = 0;
        while j < m
            invariant
                j <= m,
                m == v.ssts@.len(),
                total == wrapped(b + table_rows(*v, j as nat)),
            decreases m - j,
        {
            let x: usize = v.ssts[j].entry_count();
            proof {
                lemma_wrapped_step(b + table_rows(*v, j as nat), x);
            }
            total = total.wrapping_add(x);
            j += 1;
        }
        total
    }

    /// The estimated size of the rows in memory.
    pub fn estimated_total_memory(&self) -> (r: usize)
        requires
            self.wf(),
        ensures
            r == memory_of(self.layers()),
    {
        let v = &self.version;
        let mut total: usize = v.active.estimated_size();
        let ghost a = bytes_of(v.active.history());
        let n: usize = v.immutables.len();
        let mut i: usize = 0;
        while i < n
            invariant
                i <= n,
                n == v.immutables@.len(),
                v.wf(),
                total == wrapped(a + frozen_bytes(*v, i as nat)),
            decreases n - i,
        {
            let x: usize = v.immutables[i].estimated_size();
            proof {
                lemma_wrapped_twice(
                    a + frozen_bytes(*v, i as nat),
                    bytes_of(v.immutables@[i as int].history()),
                );
            }
            total = total.wrapping_add(x);
            i += 1;
        }
        total
    }

    /// Whether the active memtable is to be frozen and flushed.
    pub fn flush_due(&self) -> (r: bool)
        requires
            self.wf(),
        ensures
            r <==> memory_of(self.layers()) > self.upkeep().max_memory_bytes || wrapped(
                self.layers().active.history().len(),
            ) >= self.upkeep().flush_threshold,
    {
        self.estimated_total_memory() > self.settings.max_memory_bytes || self.version.active.len()
            >= self.settings.flush_threshold
    }

    /// Whether there are enough tables, or memtables that become tables, to
    /// ask for a compaction.
    pub fn compact_due(&self) -> (r: bool)
        ensures
            r <==> self.layers().ssts@.len() + self.layers().immutables@.len()
                >= self.upkeep().compact_threshold,
    {
        let s: usize = self.version.ssts.len();
        let i: usize = self.version.immutables.len();
        s >= self.settings.compact_threshold || i >= self.settings.compact_threshold - s
    }

    /// Sets how many rows a memtable may hold before it is flushed.
    pub fn set_flush_threshold(&mut self, threshold: usize)
        ensures
            final(self).upkeep() == (Settings { flush_threshold: threshold, ..old(self).upkeep() }),
            final(self).others(*old(self)),
    {
        self.settings.flush_threshold = threshold;
    }

    /// Sets how long rows are kept; the lowest number stands for no limit.
    pub fn set_ttl(&mut self, ttl: Option<i64>)
        ensures
            final(self).upkeep() == (Settings {
                ttl: if ttl == Some(i64::MIN) {
                    None
                } else {
                    ttl
                },
                ..old(self).upkeep()
            }),
            final(self).others(*old(self)),
    {
        self.settings.ttl = match ttl {
            Some(t) => if t == i64::MIN {
                None
            } else {
                Some(t)
            },
            None => None,
        };
    }

    /// Sets the width of a compaction window, at least one nanosecond.
    pub fn set_window_size(&mut self, w: i64)
        ensures
            final(self).upkeep() == (Settings {
                window_size: if w < 1 {
                    1
                } else {
                    w
                },
                ..old(self).upkeep()
            }),
            final(self).others(*old(self)),
    {
        self.settings.window_size = if w < 1 {
            1
        } else {
            w
        };
    }

    /// Sets how many tables of a window are compacted.
    pub fn set_compact_threshold(&mut self, t: usize)
        ensures
            final(self).upkeep() == (Settings { compact_threshold: t, ..old(self).upkeep() }),
            final(self).others(*old(self)),
    {
        self.settings.compact_threshold = t;
    }

    /// All but the settings is the same.
    pub open spec fn others(&self, other: Region) -> bool {
        &&& self.layers() == other.layers()
        &&& self.columns() == other.columns()
        &&& self.next_id() == other.next_id()
        &&& self.next_seq() == other.next_seq()
        &&& self.failure() == other.failure()
    }

    /// Keeps the first failure of the upkeep.
    pub fn record_error(&mut self, message: String)
        ensures
            final(self).failure() == Some(
                match old(self).failure() {
                    Some(first) => first,
                    None => message@,
                },
            ),
            final(self).layers() == old(self).layers(),
            final(self).columns() == old(self).columns(),
            final(self).next_id() == old(self).next_id(),
            final(self).next_seq() == old(self).next_seq(),
            final(self).upkeep() == old(self).upkeep(),
    {
        match self.bg_error {
            Some(_) => {},
            None => {
                self.bg_error = Some(message);
            },
        }
    }

    /// Whether the upkeep has failed, and what is said of it.
    pub fn check_bg_error(&self) -> (r: Result<(), String>)
        ensures
            match r {
                Ok(_) => self.failure() is None,
                Err(e) => self.failure() matches Some(m) && e@ == "background flusher failed: "@
                    + m,
            },
    {
        match &self.bg_error {
            None => Ok(()),
            Some(m) => {
                let mut s = "background flusher failed: ".to_owned();
                s.append(m.as_str());
                Err(s)
            },
        }
    }

    /// Freezes the active memtable, unless it is empty, and goes on with the
    /// next log; `None` where there is no next number for a log.
    pub fn freeze_active(&mut self, next_log: &[u8]) -> (r: Option<bool>)
        requires
            old(self).wf(),
        ensures
            final(self).wf(),
            final(self).like(*old(self)),
            final(self).next_id() == old(self).next_id(),
            final(self).next_seq() == old(self).next_seq(),
            r == if wrapped(old(self).layers().active.history().len()) == 0 {
                Some(false)
            } else if wal_number_of(old(self).layers().active.log_name()) == usize::MAX {
                None
            } else {
                Some(true)
            },
            r != Some(true) ==> final(self).layers() == old(self).layers(),
            r == Some(true) ==> froze(
                final(self).layers(),
                old(self).layers(),
                op_entries(recovered(next_log@)),
            ),
    {
        if self.version.active.len() == 0 {
            return Some(false);
        }
        match self.version.active.fork(next_log) {
            None => None,
            Some(next) => {
                self.version.freeze(next);
                Some(true)
            },
        }
    }

    /// The rows in memory with timestamps in the bounds: those of the active
    /// memtable, unless it is empty, and of the frozen ones from the last to
    /// the first.
    pub fn memory_sources(&self, bounds: Option<(i64, i64)>) -> (r: Result<
        Vec<Vec<Batch>>,
        EncodeError,
    >)
        requires
            self.wf(),
        ensures
            match r {
                Err(e) => exists|l: int|
                    0 <= l < memory_layers(self.layers()).len() && not_encodable(
                        #[trigger] memory_layers(self.layers())[l],
                        self.columns(),
                        e,
                    ),
                Ok(srcs) => {
                    &&& srcs@.len() == memory_layers(self.layers()).len()
                    &&& forall|l: int| #![trigger srcs@[l]]
                        0 <= l < srcs@.len() ==> source_of(
                            self.columns(),
                            srcs@[l]@,
                            memory_layers(self.layers())[l],
                            bounds,
                        )
                    &&& forall|l: int|
                        0 <= l < memory_layers(self.layers()).len() ==> encodable(
                            #[trigger] memory_layers(self.layers())[l],
                            self.columns(),
                        )
                },
            },
    {
        let v = &self.version;
        let ghost layers = memory_layers(*v);
        let mut out: Vec<Vec<Batch>> = Vec::new();
        if v.active.len() > 0 {
            let ghost h = v.active.history();
            assert(layers[0] == h);
            if !v.active.check_encodable(&self.schema) {
                assert(not_encodable(layers[0], self.schema, EncodeError::Undecodable));
                return Err(EncodeError::Undecodable);
            }
            match v.active.to_batches(&self.schema) {
                Err(_) => {
                    assert(not_encodable(layers[0], self.schema, EncodeError::UnevenColumns));
                    return Err(EncodeError::UnevenColumns);
                },
                Ok(batches) => {
                    out.push(select_all(&batches, &self.schema, bounds, Ghost(h)));
                },
            }
        }
        let ghost first = out@.len();
        let n: usize = v.immutables.len();
        let mut i: usize = n;
        while i > 0
            invariant
                i <= n,
                n == v.immutables@.len(),
                self.wf(),
                v == &self.version,
                layers == memory_layers(*v),
                layers.len() == first + n,
                out@.len() == first + (n - i),
                forall|x: int|
                    0 <= x < n ==> layers[first + (n - 1 - x)] == (
                    #[trigger] v.immutables@[x]).history(),
                forall|l: int| #![trigger out@[l]]
                    0 <= l < out@.len() ==> source_of(self.schema, out@[l]@, layers[l], bounds),
                forall|l: int|
                    0 <= l < out@.len() ==> encodable(#[trigger] layers[l], self.schema),
            decreases i,
        {
            i -= 1;
            let imm = &v.immutables[i];
            let ghost h = imm.history();
            assert(v.immutables@[i as int].wf());
            assert(layers[first + (n - 1 - i)] == h);
            if !imm.check_encodable(&self.schema) {
                assert(not_encodable(
                    layers[first + (n - 1 - i)],
                    self.schema,
                    EncodeError::Undecodable,
                ));
                return Err(EncodeError::Undecodable);
            }
            match imm.to_batches(&self.schema) {
                Err(_) => {
                    assert(not_encodable(
                        layers[first + (n - 1 - i)],
                        self.schema,
                        EncodeError::UnevenColumns,
                    ));
                    return Err(EncodeError::UnevenColumns);
                },
                Ok(batches) => {
                    out.push(select_all(&batches, &self.schema, bounds, Ghost(h)));
                },
            }
        }
        Ok(out)
    }

    /// The tables with timestamps in the bounds, from the last to the first,
    /// and which row groups to read.
    pub fn table_sources(&self, bounds: Option<(i64, i64)>) -> (r: Vec<TableSource>)
        ensures
            r@.len() == reached(self.layers().ssts@, bounds).len(),
            forall|x: int| #![trigger r@[x]]
                0 <= x < r@.len() ==> {
                    &&& r@[x].sst == reached(self.layers().ssts@, bounds)[x]
                    &&& r@[x].sst < self.layers().ssts@.len()
                    &&& r@[x].ts_range == narrowed(bounds)
                    &&& all_groups(
                        self.layers().ssts@[r@[x].sst as int],
                        r@[x].groups@,
                        narrowed(bounds),
                    )
                },
    {
        let ssts = &self.version.ssts;
        let ts_range: Option<(i64, i64)> = match bounds {
            Some((low, high)) => if low == i64::MIN && high == i64::MAX {
                None
            } else {
                bounds
            },
            None => None,
        };
        let mut out: Vec<TableSource> = Vec::new();
        let mut j: usize = ssts.len();
        assert(ssts@.take(j as int) =~= ssts@);
        while j > 0
            invariant
                j <= ssts@.len(),
                ssts == &self.version.ssts,
                ts_range == narrowed(bounds),
                out@.len() + reached(ssts@.take(j as int), bounds).len() == reached(
                    ssts@,
                    bounds,
                ).len(),
                reached(ssts@, bounds).skip(out@.len() as int) == reached(
                    ssts@.take(j as int),
                    bounds,
                ),
                forall|x: int| #![trigger out@[x]]
                    0 <= x < out@.len() ==> {
                        &&& out@[x].sst == reached(ssts@, bounds)[x]
                        &&& out@[x].sst < ssts@.len()
                        &&& out@[x].ts_range == narrowed(bounds)
                        &&& all_groups(
                            ssts@[out@[x].sst as int],
                            out@[x].groups@,
                            narrowed(bounds),
                        )
                    },
            decreases j,
        {
            let ghost all = reached(ssts@, bounds);
            let ghost m = out@.len() as int;
            let ghost here = reached(ssts@.take(j as int), bounds);
            proof {
                assert(ssts@.take(j as int).drop_last() =~= ssts@.take(j - 1));
                assert(ssts@.take(j as int).last() == ssts@[j - 1]);
            }
            j -= 1;
            let t = &ssts[j];
            let hit = match (bounds, t.ts_extent()) {
                (Some((low, high)), Some((t_low, t_high))) => t_high >= low && t_low <= high,
                _ => true,
            };
            if hit {
                let groups = t.scan_batches(t.min_key(), t.max_key(), ts_range);
                proof {
                    lemma_all_groups(ssts@[j as int], groups@, ts_range);
                    assert(here[0] == j);
                    assert(all.skip(m)[0] == all[m]);
                    assert(all.skip(m + 1) =~= all.skip(m).skip(1));
                    assert(here.skip(1) =~= reached(ssts@.take(j as int), bounds));
                }
                out.push(TableSource { sst: j, groups, ts_range });
            }
        }
        out
    }

    /// What is to be read for all rows with timestamps in the bounds. Where a
    /// query asks for some columns only, tables need no others but those of
    /// the key and the timestamp.
    pub fn snapshot_columnar_sources(
        &self,
        bounds: Option<(i64, i64)>,
        user_cols: Option<&[usize]>,
    ) -> (r: Result<Sources, EncodeError>)
        requires
            self.wf(),
        ensures
            match r {
                Err(e) => exists|l: int|
                    0 <= l < memory_layers(self.layers()).len() && not_encodable(
                        #[trigger] memory_layers(self.layers())[l],
                        self.columns(),
                        e,
                    ),
                Ok(srcs) => {
                    &&& srcs.memory@.len() == memory_layers(self.layers()).len()
                    &&& forall|l: int| #![trigger srcs.memory@[l]]
                        0 <= l < srcs.memory@.len() ==> source_of(
                            self.columns(),
                            srcs.memory@[l]@,
                            memory_layers(self.layers())[l],
                            bounds,
                        )
                    &&& forall|l: int|
                        0 <= l < memory_layers(self.layers()).len() ==> encodable(
                            #[trigger] memory_layers(self.layers())[l],
                            self.columns(),
                        )
                    &&& match (user_cols, srcs.columns) {
                        (None, None) => true,
                        (Some(cols), Some(read)) => read@ == self.columns().needed_below(
                            cols@,
                            self.columns().columns@.len(),
                        ),
                        _ => false,
                    }
                    &&& srcs.tables@.len() == reached(self.layers().ssts@, bounds).len()
                    &&& forall|x: int| #![trigger srcs.tables@[x]]
                        0 <= x < srcs.tables@.len() ==> {
                            &&& srcs.tables@[x].sst == reached(self.layers().ssts@, bounds)[x]
                            &&& srcs.tables@[x].sst < self.layers().ssts@.len()
                            &&& srcs.tables@[x].ts_range == narrowed(bounds)
                            &&& all_groups(
                                self.layers().ssts@[srcs.tables@[x].sst as int],
                                srcs.tables@[x].groups@,
                                narrowed(bounds),
                            )
                        }
                },
            },
    {
        match self.memory_sources(bounds) {
            Err(e) => Err(e),
            Ok(memory) => {
                let columns = match user_cols {
                    Some(cols) => Some(self.schema.needed_columns(cols)),
                    None => None,
                };
                Ok(Sources { memory, tables: self.table_sources(bounds), columns })
            },
        }
    }

    /// The newest version of every row in the batches, deletions among them,
    /// in the order of the keys.
    pub fn iter_all_data(&self, batches: &Vec<Batch>) -> (r: Vec<(Key, Option<Value>)>)
        requires
            all_readable(batches@, self.columns()),
        ensures
            exists|run: Seq<EntryView>| #[trigger] is_run(run) && writes_view(r@) == unnumbered(
                run,
            ) && forall|k: KeyView|
                #[trigger] newest(run, k) == newest(
                    row_entries(self.columns(), batches_rows(batches@)),
                    k,
                ),
    {
        let rows = collect_entries(batches, &self.schema);
        let ghost all = entries_view(rows@);
        let mut map = Run::new();
        let mut i: usize = 0;
        assert(all.take(0) =~= Seq::empty());
        while i < rows.len()
            invariant
                i <= rows@.len(),
                all == entries_view(rows@),
                forall|k: KeyView|
                    #[trigger] newest(map@, k) == newest(all.take(i as int), k),
            decreases rows@.len() - i,
        {
            let e = &rows[i];
            let ghost before = map@;
            proof {
                assert(all.take(i + 1).drop_last() =~= all.take(i as int));
                assert(all.take(i + 1).last() == entry_view(rows@[i as int]));
            }
            map.absorb(copy_key(&e.0), e.1, copy_value(&e.2));
            proof {
                assert forall|k: KeyView| #[trigger] newest(map@, k) == newest(
                    all.take(i + 1),
                    k,
                ) by {
                    assert(newest(before, k) == newest(all.take(i as int), k));
                }
            }
            i += 1;
        }
        assert(all.take(i as int) =~= all);
        let ghost run = map@;
        let found = map.into_rows();
        let mut out: Vec<(Key, Option<Value>)> = Vec::new();
        let mut x: usize = 0;
        while x < found.len()
            invariant
                x <= found@.len(),
                out@.len() == x,
                forall|y: int| #![trigger out@[y]]
                    0 <= y < x ==> key_view(out@[y].0) == key_view(found@[y].0) && value_view(
                        out@[y].1,
                    ) == value_view(found@[y].2),
            decreases found@.len() - x,
        {
            out.push((copy_key(&found[x].0), copy_value(&found[x].2)));
            x += 1;
        }
        assert(is_run(run));
        assert(writes_view(out@) =~= unnumbered(run));
        out
    }

    /// The table that a frozen memtable becomes, and the batches that its file
    /// is to hold. The filter has `m` bits and sets `k` of them for each key.
    pub fn flush_one(&self, i: usize, m: u64, k: u32) -> (r: Result<
        (SSTable, Vec<Batch>),
        EncodeError,
    >)
        requires
            self.wf(),
            i < self.layers().immutables@.len(),
            m <= u64::MAX - 7,
            (m + 7) / 8 <= usize::MAX,
        ensures
            match r {
                Err(e) => {
                    &&& self.layers().immutables@[i as int].history().len() > 0
                    &&& not_encodable(
                        self.layers().immutables@[i as int].history(),
                        self.columns(),
                        e,
                    )
                },
                Ok((t, batches)) => {
                    let h = self.layers().immutables@[i as int].history();
                    let rows = row_entries(self.columns(), batches_rows(batches@));
                    &&& encodable(h, self.columns())
                    &&& all_readable(batches@, self.columns())
                    &&& batches_of(self.columns(), batches@, h)
                    &&& t.number() == self.next_id()
                    &&& t.file() == sst_name(self.next_id() as nat)
                    &&& t.wf()
                    &&& t.index_of().describes(rows)
                    &&& in_chunks(t.index_of().row_groups@, rows.len())
                    &&& filter_of(t.index_of().bloom, rows, m, k)
                    &&& t.top_seq() == max_seq_of(rows)
                    &&& is_run(rows) ==> t.describes(rows)
                    &&& all_canonical(h, self.columns()) ==> t.describes(rows) && forall|
                        key: KeyView,
                    | #[trigger] newest(rows, key) == newest(h, key)
                },
            },
    {
        let imm = &self.version.immutables[i];
        assert(self.version.immutables@[i as int].wf());
        let ghost h = imm.history();
        if !imm.check_encodable(&self.schema) {
            return Err(EncodeError::Undecodable);
        }
        match imm.to_batches(&self.schema) {
            Err(_) => Err(EncodeError::UnevenColumns),
            Ok(batches) => {
                proof {
                    lemma_batches_readable(self.schema, batches@, h);
                    if all_canonical(h, self.schema) {
                        lemma_batches_keep(self.schema, batches@, h);
                    }
                }
                let t = SSTable::create_from_batches(
                    &batches,
                    self.sst_id,
                    sst_file_name(self.sst_id),
                    &self.schema,
                    m,
                    k,
                );
                Ok((t, batches))
            },
        }
    }

    /// Puts a table in the place of the frozen memtable that it was made of,
    /// and tells the name of the log that is no longer needed.
    pub fn install_flush(&mut self, i: usize, t: SSTable) -> (r: String)
        requires
            old(self).wf(),
            i < old(self).layers().immutables@.len(),
            t.wf(),
        ensures
            final(self).wf(),
            final(self).like(*old(self)),
            final(self).next_seq() == old(self).next_seq(),
            final(self).next_id() == old(self).next_id().wrapping_add(1),
            final(self).layers().active == old(self).layers().active,
            final(self).layers().seq == old(self).layers().seq,
            final(self).layers().immutables@ == old(self).layers().immutables@.remove(i as int),
            final(self).layers().ssts@ == old(self).layers().ssts@.insert(
                place_of(old(self).layers().ssts@, t.number()) as int,
                t,
            ),
            old(self).numbers_rise() && t.number() == old(self).next_id() && t.number()
                < usize::MAX ==> final(self).numbers_rise() && final(self).layers().ssts@
                == old(self).layers().ssts@.push(t),
            r@ == old(self).layers().immutables@[i as int].log_name(),
    {
        let ghost ssts = self.version.ssts@;
        let ghost imms = self.version.immutables@;
        self.sst_id = self.sst_id.wrapping_add(1);
        insert_table(&mut self.version.ssts, t);
        let gone = self.version.immutables.remove(i);
        proof {
            lemma_tables_wf(ssts, place_of(ssts, t.number()) as int, t);
            if old(self).numbers_rise() && t.number() == old(self).next_id() {
                lemma_append_rises(ssts, t);
            }
            assert forall|x: int| 0 <= x < self.version.immutables@.len() implies (
            #[trigger] self.version.immutables@[x]).wf() by {
                if x < i {
                    assert(self.version.immutables@[x] == imms[x]);
                } else {
                    assert(self.version.immutables@[x] == imms[x + 1]);
                }
            }
        }
        gone.wal_path().clone()
    }

    /// The tables to compact, if there are enough in one window, and the range
    /// of timestamps that is kept.
    pub fn plan_compaction(&self, now: i64) -> (r: Option<Compaction>)
        requires
            self.wf(),
        ensures
            r is None <==> self.layers().ssts@.len() < self.upkeep().compact_threshold || forall|
                w: int,
            | !#[trigger] is_due(
                self.layers().ssts@,
                self.upkeep().window_size,
                self.upkeep().compact_threshold,
                w,
            ),
            r matches Some(c) ==> {
                &&& exists|w: int| #[trigger]
                    is_first_due(
                        self.layers().ssts@,
                        self.upkeep().window_size,
                        self.upkeep().compact_threshold,
                        w,
                    ) && c.targets@ == members(
                        self.layers().ssts@,
                        self.upkeep().window_size,
                        w,
                    )
                &&& c.ids@.len() == c.targets@.len()
                &&& forall|x: int| #![trigger c.ids@[x]]
                    0 <= x < c.ids@.len() ==> c.targets@[x] < self.layers().ssts@.len()
                        && c.ids@[x] == self.layers().ssts@[c.targets@[x] as int].number()
                &&& c.clamp == kept_times(cutoff_of(self.upkeep().ttl, now))
            },
    {
        let ssts = &self.version.ssts;
        let n: usize = ssts.len();
        let targets = match plan(
            ssts,
            self.settings.window_size,
            self.settings.compact_threshold,
        ) {
            None => return None,
            Some(t) => t,
        };
        proof {
            let w = choose|w: int| #[trigger]
                is_first_due(
                    ssts@,
                    self.settings.window_size,
                    self.settings.compact_threshold,
                    w,
                ) && targets@ == members(ssts@, self.settings.window_size, w);
            lemma_members(ssts@, self.settings.window_size, w);
            assert forall|x: int| 0 <= x < targets@.len() implies (#[trigger] targets@[x])
                < ssts@.len() by {
                assert(members(ssts@, self.settings.window_size, w)[x] < ssts@.len());
            }
        }
        let mut ids: Vec<usize> = Vec::new();
        let mut i: usize = 0;
        while i < targets.len()
            invariant
                i <= targets@.len(),
                ids@.len() == i,
                forall|x: int| 0 <= x < targets@.len() ==> (#[trigger] targets@[x]) < ssts@.len(),
                forall|x: int| #![trigger ids@[x]]
                    0 <= x < i ==> ids@[x] == ssts@[targets@[x] as int].number(),
            decreases targets@.len() - i,
        {
            ids.push(ssts[targets[i]].id());
            i += 1;
        }
        let clamp = match self.ttl_cutoff(now) {
            Some(c) => Some((c, i64::MAX)),
            None => None,
        };
        Some(Compaction { targets, ids, clamp })
    }

    /// The table that the merged batches of a compaction make; `None` where
    /// nothing is left. The filter has `m` bits and sets `k` of them for each
    /// key.
    pub fn compacted(&self, batches: &Vec<Batch>, m: u64, k: u32) -> (r: Option<SSTable>)
        requires
            all_readable(batches@, self.columns()),
            m <= u64::MAX - 7,
            (m + 7) / 8 <= usize::MAX,
        ensures
            r is None <==> batches@.len() == 0,
            r matches Some(t) ==> {
                let rows = row_entries(self.columns(), batches_rows(batches@));
                &&& t.wf()
                &&& t.number() == self.next_id()
                &&& t.file() == sst_name(self.next_id() as nat)
                &&& t.index_of().describes(rows)
                &&& in_chunks(t.index_of().row_groups@, rows.len())
                &&& filter_of(t.index_of().bloom, rows, m, k)
                &&& t.top_seq() == max_seq_of(rows)
                &&& is_run(rows) ==> t.describes(rows)
            },
    {
        if batches.len() == 0 {
            return None;
        }
        Some(
            SSTable::create_from_batches(
                batches,
                self.sst_id,
                sst_file_name(self.sst_id),
                &self.schema,
                m,
                k,
            ),
        )
    }

    /// Puts the outcome of a compaction in the place of the tables that it was
    /// made of, and tells the names of the files that are no longer needed.
    pub fn install_compaction(&mut self, ids: &Vec<usize>, outcome: Option<SSTable>) -> (r: Vec<
        String,
    >)
        requires
            old(self).wf(),
            outcome matches Some(t) ==> t.wf(),
        ensures
            final(self).wf(),
            final(self).like(*old(self)),
            final(self).next_seq() == old(self).next_seq(),
            final(self).layers().active == old(self).layers().active,
            final(self).layers().seq == old(self).layers().seq,
            final(self).layers().immutables == old(self).layers().immutables,
            names_view(r@) == files_among(old(self).layers().ssts@, ids@),
            match outcome {
                None => {
                    &&& final(self).next_id() == old(self).next_id()
                    &&& final(self).layers().ssts@ == without(old(self).layers().ssts@, ids@)
                    &&& old(self).numbers_rise() ==> final(self).numbers_rise()
                },
                Some(t) => {
                    let kept = without(old(self).layers().ssts@, ids@);
                    &&& final(self).next_id() == old(self).next_id().wrapping_add(1)
                    &&& final(self).layers().ssts@ == kept.insert(
                        place_of(kept, t.number()) as int,
                        t,
                    )
                    &&& old(self).numbers_rise() && t.number() == old(self).next_id()
                        && t.number() < usize::MAX ==> final(self).numbers_rise()
                        && final(self).layers().ssts@ == kept.push(t)
                },
            },
    {
        let ghost ssts = self.version.ssts@;
        let names = drop_tables(&mut self.version.ssts, ids);
        let ghost kept = self.version.ssts@;
        proof {
            lemma_without_part(ssts, ids@);
            if old(self).numbers_rise() {
                lemma_without_rises(ssts, ids@, old(self).next_id());
            }
            assert forall|x: int| 0 <= x < kept.len() implies (#[trigger] kept[x]).wf() by {
                assert(without(ssts, ids@)[x] == kept[x]);
                let y = choose|y: int| 0 <= y < ssts.len() && #[trigger] ssts[y] == kept[x];
                assert(ssts[y].wf());
            }
        }
        match outcome {
            None => {},
            Some(t) => {
                self.sst_id = self.sst_id.wrapping_add(1);
                insert_table(&mut self.version.ssts, t);
                proof {
                    lemma_tables_wf(kept, place_of(kept, t.number()) as int, t);
                    if old(self).numbers_rise() && t.number() == old(self).next_id() {
                        lemma_append_rises(kept, t);
                    }
                }
            },
        }
        names
    }
}

/// The rows in memory, memtable by memtable in the order in which they are
/// asked; an empty active memtable is left out.
pub open spec fn memory_layers(v: Version) -> Seq<Seq<EntryView>> {
    if wrapped(v.active.history().len()) == 0 {
        frozen_layers(v.immutables@)
    } else {
        seq![v.active.history()] + frozen_layers(v.immutables@)
    }
}

/// Bounds that exclude something.
pub open spec fn narrowed(bounds: Option<(i64, i64)>) -> Option<(i64, i64)> {
    match bounds {
        Some((low, high)) => if low == i64::MIN && high == i64::MAX {
            None
        } else {
            bounds
        },
        None => None,
    }
}

/// The table may hold rows with timestamps in the bounds.
pub open spec fn in_reach(t: SSTable, bounds: Option<(i64, i64)>) -> bool {
    match spec_extent(t.index_of().row_groups@) {
        Some((low, high)) => overlaps(low, high, bounds),
        None => true,
    }
}

/// The positions of the tables that may hold rows with timestamps in the
/// bounds, from the last to the first.
pub open spec fn reached(ssts: Seq<SSTable>, bounds: Option<(i64, i64)>) -> Seq<usize>
    decreases ssts.len(),
{
    if ssts.len() == 0 {
        Seq::empty()
    } else if in_reach(ssts.last(), bounds) {
        seq![(ssts.len() - 1) as usize] + reached(ssts.drop_last(), bounds)
    } else {
        reached(ssts.drop_last(), bounds)
    }
}

/// The row groups are in order, each may hold timestamps in the range, and no
/// row with such a timestamp is in another row group.
pub open spec fn all_groups(t: SSTable, groups: Seq<usize>, range: Option<(i64, i64)>) -> bool {
    &&& forall|x: int|
        0 <= x < groups.len() ==> (#[trigger] groups[x]) < t.index_of().row_groups@.len()
            && overlaps(
            t.index_of().row_groups@[groups[x] as int].min_ts,
            t.index_of().row_groups@[groups[x] as int].max_ts,
            range,
        )
    &&& forall|x: int, y: int|
        0 <= x < y < groups.len() ==> (#[trigger] groups[x]) < (#[trigger] groups[y])
    &&& forall|rows: Seq<EntryView>, i: int| #![trigger t.describes(rows), rows[i]]
        t.describes(rows) && 0 <= i < rows.len() && in_times(rows[i].0.1, range) ==> in_groups(
            t.index_of().row_groups@,
            groups,
            i,
        )
}

/// The batches hold the rows of a memtable with timestamps in the bounds.
pub open spec fn source_of(
    schema: TableSchema,
    batches: Seq<Batch>,
    h: Seq<EntryView>,
    bounds: Option<(i64, i64)>,
) -> bool {
    exists|raw: Seq<Batch>| #[trigger] batches_of(schema, raw, h) && picks(
        schema,
        batches,
        raw,
        bounds,
    )
}

/// Each batch holds the rows of the batch at its place with timestamps in the
/// bounds.
pub open spec fn picks(
    schema: TableSchema,
    batches: Seq<Batch>,
    raw: Seq<Batch>,
    bounds: Option<(i64, i64)>,
) -> bool {
    &&& batches.len() == raw.len()
    &&& forall|b: int| #![trigger batches[b]]
        0 <= b < batches.len() ==> batches[b].readable(schema) && batches[b].rows() == timely(
            schema,
            raw[b].rows(),
            bounds,
        )
}

proof fn lemma_all_groups(t: SSTable, groups: Seq<usize>, range: Option<(i64, i64)>)
    requires
        forall|x: int|
            0 <= x < groups.len() ==> (#[trigger] groups[x]) < t.index_of().row_groups@.len(),
        forall|x: int|
            0 <= x < groups.len() ==> overlaps(
                t.index_of().row_groups@[(#[trigger] groups[x]) as int].min_ts,
                t.index_of().row_groups@[groups[x] as int].max_ts,
                range,
            ),
        forall|x: int, y: int|
            0 <= x < y < groups.len() ==> (#[trigger] groups[x]) < (#[trigger] groups[y]),
        forall|rows: Seq<EntryView>, i: int| #![trigger t.describes(rows), rows[i]]
            t.describes(rows) && 0 <= i < rows.len() && in_keys(
                rows[i].0,
                t.first_key(),
                t.last_key(),
            ) && in_times(rows[i].0.1, range) ==> in_groups(t.index_of().row_groups@, groups, i),
    ensures
        all_groups(t, groups, range),
{
    assert forall|rows: Seq<EntryView>, i: int| #![trigger t.describes(rows), rows[i]]
        t.describes(rows) && 0 <= i < rows.len() && in_times(rows[i].0.1, range) implies in_groups(
        t.index_of().row_groups@,
        groups,
        i,
    ) by {
        let n = rows.len() - 1;
        assert(rows[0].0 == t.first_key() && rows[n].0 == t.last_key());
        if 0 < i {
            assert(key_lt(rows[0].0, rows[i].0));
        }
        if i < n {
            assert(key_lt(rows[i].0, rows[n].0));
        }
        assert(in_keys(rows[i].0, t.first_key(), t.last_key()));
    }
}

fn select_all(
    raw: &Vec<Batch>,
    schema: &TableSchema,
    bounds: Option<(i64, i64)>,
    Ghost(h): Ghost<Seq<EntryView>>,
) -> (r: Vec<Batch>)
    requires
        batches_of(*schema, raw@, h),
    ensures
        source_of(*schema, r@, h, bounds),
{
    proof {
        lemma_batches_readable(*schema, raw@, h);
    }
    let mut out: Vec<Batch> = Vec::new();
    let mut b: usize = 0;
    while b < raw.len()
        invariant
            b <= raw@.len(),
            out@.len() == b,
            all_readable(raw@, *schema),
            forall|x: int| #![trigger out@[x]]
                0 <= x < b ==> out@[x].readable(*schema) && out@[x].rows() == timely(
                    *schema,
                    raw@[x].rows(),
                    bounds,
                ),
        decreases raw@.len() - b,
    {
        assert(raw@[b as int].readable(*schema));
        out.push(select_times(&raw[b], schema, bounds));
        b += 1;
    }
    assert(picks(*schema, out@, raw@, bounds));
    out
}

/// The range of timestamps that has not expired.
pub open spec fn kept_times(cutoff: Option<i64>) -> Option<(i64, i64)> {
    match cutoff {
        Some(c) => Some((c, i64::MAX)),
        None => None,
    }
}

/// The rows can be put into columns.
pub open spec fn encodable(h: Seq<EntryView>, schema: TableSchema) -> bool {
    all_encodable(h, schema) && (h.len() == 0 || schema.is_sound())
}

/// Why the rows cannot be put into columns.
pub open spec fn not_encodable(h: Seq<EntryView>, schema: TableSchema, e: EncodeError) -> bool {
    match e {
        EncodeError::Undecodable => !all_encodable(h, schema),
        EncodeError::UnevenColumns => all_encodable(h, schema) && !schema.is_sound(),
    }
}

/// Tags and fields of all rows are what joining some tags and fields gives.
pub open spec fn all_canonical(h: Seq<EntryView>, schema: TableSchema) -> bool {
    forall|i: int| 0 <= i < h.len() ==> is_canonical(schema, #[trigger] h[i])
}

proof fn lemma_tables_wf(ssts: Seq<SSTable>, p: int, t: SSTable)
    requires
        forall|j: int| 0 <= j < ssts.len() ==> (#[trigger] ssts[j]).wf(),
        0 <= p <= ssts.len(),
        t.wf(),
    ensures
        forall|j: int|
            0 <= j < ssts.insert(p, t).len() ==> (#[trigger] ssts.insert(p, t)[j]).wf(),
{
    let now = ssts.insert(p, t);
    assert forall|j: int| 0 <= j < now.len() implies (#[trigger] now[j]).wf() by {
        if j < p {
            assert(now[j] == ssts[j]);
        } else if j > p {
            assert(now[j] == ssts[j - 1]);
        }
    }
}

/// Batches of a memtable can be read.
pub proof fn lemma_batches_readable(
    schema: TableSchema,
    batches: Seq<Batch>,
    h: Seq<EntryView>,
)
    requires
        batches_of(schema, batches, h),
    ensures
        all_readable(batches, schema),
{
    let runs = choose|runs: Seq<Seq<EntryView>>|
        #![trigger hold_runs(schema, batches, runs)]
        hold_runs(schema, batches, runs) && newest_runs(runs, h);
}

proof fn lemma_runs_entries(
    schema: TableSchema,
    batches: Seq<Batch>,
    runs: Seq<Seq<EntryView>>,
)
    requires
        schema.is_sound(),
        hold_runs(schema, batches, runs),
        forall|b: int, i: int|
            0 <= b < runs.len() && 0 <= i < runs[b].len() ==> is_canonical(
                schema,
                #[trigger] runs[b][i],
            ),
    ensures
        row_entries(schema, batches_rows(batches)) == flat_rows(runs),
    decreases batches.len(),
{
    if batches.len() == 0 {
        assert(row_entries(schema, batches_rows(batches)) =~= flat_rows(runs));
    } else {
        let n = batches.len() - 1;
        let p = batches.drop_last();
        let q = runs.drop_last();
        assert forall|b: int| #![trigger p[b]] 0 <= b < p.len() implies p[b] == batches[b] && q[b]
            == runs[b] by {}
        assert(hold_runs(schema, p, q));
        assert forall|b: int, i: int|
            0 <= b < q.len() && 0 <= i < q[b].len() implies is_canonical(
            schema,
            #[trigger] q[b][i],
        ) by {
            assert(q[b][i] == runs[b][i]);
        }
        lemma_runs_entries(schema, p, q);
        let cols: usize = schema.columns.len();
        assert(batches[n].readable(schema));
        assert forall|i: int| 0 <= i < runs[n].len() implies is_canonical(
            schema,
            #[trigger] runs[n][i],
        ) by {}
        law_batch_keeps_rows(schema, batches[n], runs[n]);
        assert(row_entries(schema, batches_rows(batches)) =~= row_entries(schema, batches_rows(p))
            + row_entries(schema, batches[n].rows()));
    }
}

/// The batches of a memtable hold for every key its newest version.
pub proof fn lemma_batches_keep(schema: TableSchema, batches: Seq<Batch>, h: Seq<EntryView>)
    requires
        batches_of(schema, batches, h),
        all_canonical(h, schema),
        h.len() == 0 || schema.is_sound(),
    ensures
        is_run(row_entries(schema, batches_rows(batches))),
        forall|k: KeyView|
            #[trigger] newest(row_entries(schema, batches_rows(batches)), k) == newest(h, k),
{
    let runs = choose|runs: Seq<Seq<EntryView>>|
        #![trigger hold_runs(schema, batches, runs)]
        hold_runs(schema, batches, runs) && newest_runs(runs, h);
    let f = flat_rows(runs);
    lemma_flat_rows(runs);
    assert forall|b: int, i: int|
        0 <= b < runs.len() && 0 <= i < runs[b].len() implies h.contains(#[trigger] runs[b][i]) by {
        let e = runs[b][i];
        assert(f.contains(e));
        let x = choose|x: int| 0 <= x < f.len() && f[x] == e;
        lemma_newest_in_run(f, x);
        assert(newest(f, e.0) == newest(h, e.0));
        lemma_newest_is_max(h, e.0);
    }
    assert forall|b: int, i: int|
        0 <= b < runs.len() && 0 <= i < runs[b].len() implies is_canonical(
        schema,
        #[trigger] runs[b][i],
    ) by {
        assert(h.contains(runs[b][i]));
    }
    if h.len() == 0 {
        if batches.len() > 0 {
            assert(batches[0].rows().len() == runs[0].len());
            assert(h.contains(runs[0][0]));
        }
        assert(row_entries(schema, batches_rows(batches)) =~= f);
    } else {
        lemma_runs_entries(schema, batches, runs);
    }
}

/// The layers are those of `old_v`, but for the rows of the active memtable.
pub open spec fn same_rows(v: Version, old_v: Version, active: Seq<EntryView>) -> bool {
    &&& v.active.history() == active
    &&& v.active.log_name() == old_v.active.log_name()
    &&& v.immutables == old_v.immutables
    &&& v.ssts == old_v.ssts
    &&& v.seq == old_v.seq
}

/// The active memtable of `old_v` is frozen in `v`, which goes on with the
/// next log and the rows in it.
pub open spec fn froze(v: Version, old_v: Version, active: Seq<EntryView>) -> bool {
    let n = old_v.immutables@.len();
    &&& v.active.history() == active
    &&& v.active.log_name() == wal_name((wal_number_of(old_v.active.log_name()) + 1) as nat)
    &&& v.active.unsynced() == 0
    &&& v.immutables@.len() == n + 1
    &&& forall|i: int|
        0 <= i < n ==> #[trigger] v.immutables@[i] == old_v.immutables@[i]
    &&& v.immutables@[n as int].history() == old_v.active.history()
    &&& v.immutables@[n as int].log_name() == old_v.active.log_name()
    &&& v.ssts == old_v.ssts
    &&& v.seq == old_v.seq
}

/// Some key was written at or after `since`.
pub open spec fn conflicts(visible: Seq<Option<u64>>, since: u64) -> bool {
    exists|x: int|
        0 <= x < visible.len() && ((#[trigger] visible[x]) matches Some(s) && s >= since)
}

/// The estimated size of the rows in memory.
pub open spec fn memory_of(v: Version) -> usize {
    wrapped(bytes_of(v.active.history()) + frozen_bytes(v, v.immutables@.len()))
}

proof fn lemma_wrapped_twice(n: nat, m: nat)
    ensures
        wrapped(n).wrapping_add(wrapped(m)) == wrapped(n + m),
{
    lemma_wrapped_step(n, wrapped(m));
    let w = usize::MAX as int + 1;
    vstd::arithmetic::div_mod::lemma_add_mod_noop(n as int, m as int, w);
    vstd::arithmetic::div_mod::lemma_add_mod_noop(n as int, wrapped(m) as int, w);
    vstd::arithmetic::div_mod::lemma_small_mod(wrapped(m) as nat, w as nat);
}

/// Rows expire by their age: with a time to live of `t`, a row has expired exactly
/// where it is older than `t`, and only rows that are not are kept by reads and
/// compactions. Without a time to live no row expires. The one time that is never
/// too old is the highest.
pub proof fn law_rows_expire_by_age(ttl: Option<i64>, now: i64, ts: i64)
    requires
        ttl matches Some(t) ==> now - t <= i64::MAX || ts < i64::MAX,
    ensures
        is_expired(cutoff_of(ttl, now), ts) <==> (ttl matches Some(t) && now - ts > t),
        in_times(ts, kept_times(cutoff_of(ttl, now))) <==> (ttl matches Some(t) ==> now - ts <= t),
        kept_times(cutoff_of(ttl, now)) is None <==> ttl is None,
        cutoff_of(ttl, now) is None <==> ttl is None,
{
}

/// With a longer time to live, and earlier, no more rows have expired.
pub proof fn law_expiry_is_monotonic(t: i64, u: i64, now: i64, later: i64, ts: i64)
    requires
        t <= u,
        now <= later,
        is_expired(cutoff_of(Some(u), now), ts),
    ensures
        is_expired(cutoff_of(Some(t), later), ts),
        forall|x: i64| x < ts ==> is_expired(#[trigger] cutoff_of(Some(u), now), x),
{
}

/// Numbering counts up from where it starts: write `i` keeps its place, its key and
/// its value and gets the `i`-th number. After the highest number comes 0.
pub proof fn law_writes_are_numbered(
    writes: Seq<(KeyView, Option<Seq<u8>>)>,
    start: u64,
    n: nat,
)
    ensures
        numbered(writes, start).len() == writes.len(),
        forall|i: int| #![trigger numbered(writes, start)[i]]
            0 <= i < writes.len() ==> numbered(writes, start)[i].0 == writes[i].0 && numbered(
                writes,
                start,
            )[i].2 == writes[i].1 && (start + i <= u64::MAX ==> numbered(writes, start)[i].1
                == start + i),
        start + n <= u64::MAX ==> seq_after(start, n) == start + n,
        seq_after(u64::MAX, 1) == 0,
        seq_after(start, n + 1) == seq_after(seq_after(start, n), 1),
        unnumbered(numbered(writes, start)) == writes,
        forall|es: Seq<EntryView>| #[trigger] unnumbered(es).len() == es.len(),
        forall|es: Seq<EntryView>, i: int| #![trigger unnumbered(es)[i]]
            0 <= i < es.len() ==> unnumbered(es)[i] == (es[i].0, es[i].2),
{
    lemma_seq_after(start, n);
    lemma_seq_after(seq_after(start, n), 0);
    assert forall|i: int| #![trigger numbered(writes, start)[i]]
        0 <= i < writes.len() && start + i <= u64::MAX implies numbered(writes, start)[i].1
        == start + i by {
        lemma_seq_after(start, i as nat);
    }
    assert(unnumbered(numbered(writes, start)) =~= writes);
}

/// What a list of writes stands for: in order, the bytes of the tags, the
/// timestamp, and the bytes of the value or a deletion.
pub proof fn law_writes_stand_for_themselves(s: Seq<(Key, Option<Value>)>)
    ensures
        writes_view(s).len() == s.len(),
        forall|i: int| #![trigger writes_view(s)[i]]
            0 <= i < s.len() ==> writes_view(s)[i].0.0 == s[i].0.0@ && writes_view(s)[i].0.1
                == s[i].0.1 && (s[i].1 is None <==> writes_view(s)[i].1 is None) && (
            s[i].1 matches Some(v) ==> writes_view(s)[i].1 == Some(v@)),
{
}

/// The highest number of a memtable and tables is at least that of every row in
/// memory and of every table, and one of them has it, or there is none.
pub proof fn law_watermark_is_highest(active: ColumnarMemtable, ssts: Seq<SSTable>)
    ensures
        forall|i: int|
            0 <= i < active.history().len() ==> (#[trigger] active.history()[i]).1 <= watermark_of(
                active,
                ssts,
            ),
        forall|j: int|
            0 <= j < ssts.len() ==> (#[trigger] ssts[j]).top_seq() <= watermark_of(active, ssts),
        watermark_of(active, ssts) == 0 || (exists|i: int|
            0 <= i < active.history().len() && (#[trigger] active.history()[i]).1 == watermark_of(
                active,
                ssts,
            )) || (exists|j: int|
            0 <= j < ssts.len() && (#[trigger] ssts[j]).top_seq() == watermark_of(active, ssts)),
{
    crate::entries::law_highest_number(active.history());
    lemma_top_of(ssts);
}

proof fn lemma_top_of(ssts: Seq<SSTable>)
    ensures
        forall|j: int| 0 <= j < ssts.len() ==> (#[trigger] ssts[j]).top_seq() <= top_of(ssts),
        top_of(ssts) == 0 || exists|j: int|
            0 <= j < ssts.len() && (#[trigger] ssts[j]).top_seq() == top_of(ssts),
    decreases ssts.len(),
{
    if ssts.len() > 0 {
        let p = ssts.drop_last();
        let n = ssts.len() - 1;
        lemma_top_of(p);
        assert(ssts[n] == ssts.last());
        assert forall|j: int| 0 <= j < ssts.len() implies (#[trigger] ssts[j]).top_seq() <= top_of(
            ssts,
        ) by {
            if j < n {
                assert(p[j] == ssts[j]);
            }
        }
        if top_of(ssts) != 0 && top_of(ssts) != ssts[n].top_seq() {
            let j = choose|j: int| 0 <= j < p.len() && (#[trigger] p[j]).top_seq() == top_of(p);
            assert(ssts[j] == p[j]);
        }
    }
}

/// What a region counts and weighs: one memtable more adds its rows and their
/// size, one table more the rows that it says it has.
pub proof fn law_layers_add_up(v: Version, n: nat)
    ensures
        frozen_rows(v, 0) == 0,
        frozen_bytes(v, 0) == 0,
        table_rows(v, 0) == 0,
        frozen_rows(v, n + 1) - frozen_rows(v, n) == v.immutables@[n as int].history().len(),
        frozen_bytes(v, n + 1) - frozen_bytes(v, n) == bytes_of(v.immutables@[n as int].history()),
        table_rows(v, n + 1) - table_rows(v, n) == v.ssts@[n as int].count(),
        bytes_of(v.active.history()) + frozen_bytes(v, v.immutables@.len()) <= usize::MAX
            ==> memory_of(v) == bytes_of(v.active.history()) + frozen_bytes(
            v,
            v.immutables@.len(),
        ),
{
    if bytes_of(v.active.history()) + frozen_bytes(v, v.immutables@.len()) <= usize::MAX {
        crate::counters::lemma_wrapped_small(
            bytes_of(v.active.history()) + frozen_bytes(v, v.immutables@.len()),
        );
    }
}

/// A commit is refused exactly where a version that is there has the number of the
/// snapshot or a higher one.
pub proof fn law_conflicts_are_later_writes(visible: Seq<Option<u64>>, since: u64)
    ensures
        conflicts(visible, since) <==> !(forall|x: int| #![trigger visible[x]]
            0 <= x < visible.len() ==> (visible[x] is None || visible[x].unwrap() < since)),
{
}

/// The memtables that a read asks: the active one unless it has no rows, then the
/// frozen ones, the youngest first.
pub proof fn law_memory_is_read_from_the_youngest(v: Version)
    requires
        v.active.history().len() <= usize::MAX,
    ensures
        v.active.history().len() == 0 ==> memory_layers(v).len() == v.immutables@.len(),
        v.active.history().len() > 0 ==> memory_layers(v).len() == v.immutables@.len() + 1
            && memory_layers(v)[0] == v.active.history(),
        forall|i: int| #![trigger v.immutables@[i]]
            0 <= i < v.immutables@.len() ==> memory_layers(v)[memory_layers(v).len() - 1 - i]
                == v.immutables@[i].history(),
{
    crate::counters::lemma_wrapped_small(v.active.history().len());
}

/// Bounds that leave everything in are dropped, and no others.
pub proof fn law_narrowed_bounds_mean_the_same(bounds: Option<(i64, i64)>)
    ensures
        forall|ts: i64| #[trigger] in_times(ts, narrowed(bounds)) == in_times(ts, bounds),
        narrowed(bounds) is None <==> forall|ts: i64| #[trigger] in_times(ts, bounds),
        narrowed(bounds) is Some ==> narrowed(bounds) == bounds,
{
    if let Some((low, high)) = bounds {
        if low != i64::MIN {
            assert(!in_times(i64::MIN, bounds));
        }
        if high != i64::MAX {
            assert(!in_times(i64::MAX, bounds));
        }
    }
}

/// The tables that a read asks are exactly those whose times overlap the bounds,
/// and those of which no times are known, from the last to the first.
pub proof fn law_overlapping_tables_are_read(ssts: Seq<SSTable>, bounds: Option<(i64, i64)>)
    requires
        ssts.len() <= usize::MAX,
    ensures
        forall|j: int| #![trigger ssts[j]]
            0 <= j < ssts.len() ==> (reached(ssts, bounds).contains(j as usize) <==> (spec_extent(
                ssts[j].index_of().row_groups@,
            ) matches Some((low, high)) ==> (bounds matches Some((from, to)) ==> from <= high
                && low <= to))),
        forall|x: int| #![trigger reached(ssts, bounds)[x]]
            0 <= x < reached(ssts, bounds).len() ==> reached(ssts, bounds)[x] < ssts.len(),
        forall|x: int, y: int| #![trigger reached(ssts, bounds)[x], reached(ssts, bounds)[y]]
            0 <= x < y < reached(ssts, bounds).len() ==> reached(ssts, bounds)[x] > reached(
                ssts,
                bounds,
            )[y],
    decreases ssts.len(),
{
    if ssts.len() > 0 {
        let p = ssts.drop_last();
        let n = ssts.len() - 1;
        law_overlapping_tables_are_read(p, bounds);
        let r = reached(ssts, bounds);
        let q = reached(p, bounds);
        let hit = in_reach(ssts.last(), bounds);
        assert(ssts[n] == ssts.last());
        assert(r == if hit {
            seq![n as usize] + q
        } else {
            q
        });
        assert forall|j: int| #![trigger ssts[j]] 0 <= j < ssts.len() implies (r.contains(
            j as usize,
        ) <==> in_reach(ssts[j], bounds)) by {
            if j < n {
                assert(p[j] == ssts[j]);
                if q.contains(j as usize) {
                    let x = choose|x: int| 0 <= x < q.len() && q[x] == j as usize;
                    assert(r[if hit { x + 1 } else { x }] == j as usize);
                }
                if r.contains(j as usize) {
                    let x = choose|x: int| 0 <= x < r.len() && r[x] == j as usize;
                    assert(q[if hit { x - 1 } else { x }] == j as usize);
                }
            } else {
                if hit {
                    assert(r[0] == n as usize);
                }
                if r.contains(n as usize) && !hit {
                    let x = choose|x: int| 0 <= x < q.len() && q[x] == n as usize;
                    assert(q[x] < p.len());
                }
            }
        }
        assert forall|x: int| #![trigger r[x]] 0 <= x < r.len() implies r[x] < ssts.len() by {
            if hit && x > 0 {
                assert(r[x] == q[x - 1]);
            } else if !hit {
                assert(r[x] == q[x]);
            }
        }
        assert forall|x: int, y: int| #![trigger r[x], r[y]] 0 <= x < y < r.len() implies r[x]
            > r[y] by {
            if hit {
                assert(r[y] == q[y - 1]);
                if x > 0 {
                    assert(r[x] == q[x - 1]);
                }
            } else {
                assert(r[x] == q[x] && r[y] == q[y]);
            }
        }
    }
}

/// What is said to be the same is the same: columns, settings and failure under
/// [`Region::like`]; all but the settings under [`Region::others`].
pub proof fn law_same_is_same(a: Region, b: Region)
    ensures
        a.like(b) <==> a.columns() == b.columns() && a.upkeep() == b.upkeep() && a.failure()
            == b.failure(),
        a.others(b) <==> a.layers() == b.layers() && a.columns() == b.columns() && a.next_id()
            == b.next_id() && a.next_seq() == b.next_seq() && a.failure() == b.failure(),
{
}

/// A write touches the active memtable alone: frozen memtables, tables and the log
/// stay.
pub proof fn law_writes_touch_the_active_memtable(
    v: Version,
    old_v: Version,
    active: Seq<EntryView>,
)
    requires
        same_rows(v, old_v, active),
    ensures
        v.active.history() == active,
        v.active.log_name() == old_v.active.log_name(),
        v.immutables == old_v.immutables,
        v.ssts == old_v.ssts,
        v.seq == old_v.seq,
{
}

/// Freezing moves the rows of the active memtable, and its log, to the end of the
/// frozen ones, changes nothing of what was frozen and of the tables, and goes on
/// with the log of the next number.
pub proof fn law_freezing_moves_rows(v: Version, old_v: Version, active: Seq<EntryView>)
    requires
        froze(v, old_v, active),
    ensures
        v.active.history() == active,
        v.active.log_name() == wal_name((wal_number_of(old_v.active.log_name()) + 1) as nat),
        v.active.unsynced() == 0,
        v.immutables@.len() == old_v.immutables@.len() + 1,
        v.immutables@.drop_last() == old_v.immutables@,
        v.immutables@.last().history() == old_v.active.history(),
        v.immutables@.last().log_name() == old_v.active.log_name(),
        v.ssts == old_v.ssts,
        v.seq == old_v.seq,
{
    assert(v.immutables@.drop_last() =~= old_v.immutables@);
}

/// The row groups that are read of a table for a range of timestamps: in order, none
/// without a timestamp that may be in the range, and none left out that has a row in
/// it.
pub proof fn law_row_groups_in_range_are_read(
    t: SSTable,
    groups: Seq<usize>,
    low: i64,
    high: i64,
    rows: Seq<EntryView>,
    i: int,
)
    requires
        all_groups(t, groups, Some((low, high))),
        t.describes(rows),
        0 <= i < rows.len(),
    ensures
        low <= rows[i].0.1 <= high ==> exists|x: int| #![trigger groups[x]]
            0 <= x < groups.len() && group_start(t.index_of().row_groups@, groups[x] as int) <= i
                < group_start(t.index_of().row_groups@, groups[x] + 1),
        forall|x: int, y: int|
            0 <= x < y < groups.len() ==> (#[trigger] groups[x]) < (#[trigger] groups[y]),
        forall|x: int|
            0 <= x < groups.len() ==> (#[trigger] groups[x]) < t.index_of().row_groups@.len()
                && t.index_of().row_groups@[groups[x] as int].max_ts >= low
                && t.index_of().row_groups@[groups[x] as int].min_ts <= high,
{
    if low <= rows[i].0.1 <= high {
        assert(in_times(rows[i].0.1, Some((low, high))));
        assert(in_groups(t.index_of().row_groups@, groups, i));
    }
}

/// Rows that cannot be put into columns, and why: tags or value of some row are cut
/// off, or else the schema is not sound. Without rows there is nothing to fail.
pub proof fn law_rows_that_cannot_be_stored(h: Seq<EntryView>, schema: TableSchema)
    ensures
        not_encodable(h, schema, EncodeError::Undecodable) <==> !(forall|i: int| #![trigger h[i]]
            0 <= i < h.len() ==> crate::batch::can_encode(schema, h[i])),
        not_encodable(h, schema, EncodeError::UnevenColumns) <==> !schema.is_sound() && forall|
            i: int,
        | #![trigger h[i]]
            0 <= i < h.len() ==> crate::batch::can_encode(schema, h[i]),
        encodable(h, schema) <==> (h.len() > 0 ==> schema.is_sound()) && forall|i: int|
            #![trigger h[i]]
            0 <= i < h.len() ==> crate::batch::can_encode(schema, h[i]),
        all_canonical(h, schema) <==> forall|i: int| #![trigger h[i]]
            0 <= i < h.len() ==> is_canonical(schema, h[i]),
{
}

} // verus!
