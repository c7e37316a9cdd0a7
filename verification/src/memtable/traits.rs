//! What a memtable does for the engine.

use vstd::prelude::*;
use crate::batch::{can_encode, holds_entry, op_of, Batch, BatchError};
use crate::counters::wrapped;
use crate::entries::{
    entries_view, entry_view, flat_rows, is_run, max_seq_of, newest, visible, Entry, EntryView,
};
use crate::memtable::wal::{
    appended, left_unsynced, sync_falls_due, Append, OpView, Operation,
};
use crate::schema::TableSchema;
use crate::types::{key_view, value_view, Key, KeyView, Value};

verus! {

/// How much a row counts for besides its value.
pub const ROW_FIXED_BYTES: usize = 17;

/// The estimated size of rows.
pub open spec fn bytes_of(h: Seq<EntryView>) -> nat
    decreases h.len(),
{
    if h.len() == 0 {
        0
    } else {
        bytes_of(h.drop_last()) + ROW_FIXED_BYTES as nat + (match h.last().2 {
            Some(v) => v.len(),
            None => 0,
        })
    }
}

/// The entry that an operation writes.
pub open spec fn op_entry(op: OpView) -> EntryView {
    (op.key(), op.seq(), op.value())
}

/// The entries that operations write.
pub open spec fn op_entries(ops: Seq<OpView>) -> Seq<EntryView> {
    Seq::new(ops.len(), |i: int| op_entry(ops[i]))
}

/// The operation that writes an entry.
pub open spec fn entry_op(e: EntryView) -> OpView {
    match e.2 {
        Some(value) => OpView::Insert { key: e.0, seq: e.1, value },
        None => OpView::Delete { key: e.0, seq: e.1 },
    }
}

/// The operations that write entries.
pub open spec fn entry_ops(es: Seq<EntryView>) -> Seq<OpView> {
    Seq::new(es.len(), |i: int| entry_op(es[i]))
}

/// Each batch holds the entries of the run at its place.
pub open spec fn hold_runs(
    schema: TableSchema,
    batches: Seq<Batch>,
    runs: Seq<Seq<EntryView>>,
) -> bool {
    &&& batches.len() == runs.len()
    &&& forall|b: int| #![trigger batches[b]]
        0 <= b < batches.len() ==> {
            &&& batches[b].readable(schema)
            &&& batches[b].rows().len() == runs[b].len()
            &&& runs[b].len() > 0
            &&& forall|i: int| #![trigger batches[b].rows()[i]]
                0 <= i < runs[b].len() ==> {
                    &&& batches[b].rows()[i].0 == runs[b][i].1
                    &&& batches[b].rows()[i].1 == op_of(runs[b][i].2)
                    &&& holds_entry(schema, batches[b].rows()[i].2, runs[b][i])
                }
        }
}

/// The rows of a run share their tags, and those of different runs have
/// different tags.
pub open spec fn by_series(runs: Seq<Seq<EntryView>>) -> bool {
    &&& forall|b: int, i: int|
        0 <= b < runs.len() && 0 <= i < runs[b].len() ==> (#[trigger] runs[b][i]).0.0
            == runs[b][0].0.0
    &&& forall|a: int, b: int|
        0 <= a < b < runs.len() && runs[a].len() > 0 && runs[b].len() > 0 ==> (
        #[trigger] runs[a])[0].0.0 != (#[trigger] runs[b])[0].0.0
}

/// The runs are those of different series. In a row they are one run, and it
/// gives for every key the newest version in `h`.
pub open spec fn newest_runs(runs: Seq<Seq<EntryView>>, h: Seq<EntryView>) -> bool {
    &&& by_series(runs)
    &&& is_run(flat_rows(runs))
    &&& forall|k: KeyView| #[trigger] newest(flat_rows(runs), k) == newest(h, k)
}

/// The batches hold, one series each and in the order of the keys, the newest
/// versions in `h`.
pub open spec fn batches_of(schema: TableSchema, batches: Seq<Batch>, h: Seq<EntryView>) -> bool {
    exists|runs: Seq<Seq<EntryView>>|
        #![trigger hold_runs(schema, batches, runs)]
        hold_runs(schema, batches, runs) && newest_runs(runs, h)
}

/// A write that is not logged yet.
pub struct PendingWrite {
    pub append: Append,
    pub entry: Entry,
}

/// Writes that are not logged yet.
pub struct PendingBatch {
    pub append: Append,
    pub entries: Vec<Entry>,
}

/// Rows that are not written to any more.
pub trait ImmutableMemtable: Sized {
    /// The rows are arranged as the other methods need it.
    spec fn wf(&self) -> bool;

    /// All rows, in the order in which they were written.
    spec fn history(&self) -> Seq<EntryView>;

    /// The name of the log that holds the rows.
    spec fn log_name(&self) -> Seq<char>;

    /// The newest version under a key.
    fn get(&self, key: &Key) -> (r: Option<(u64, Option<Value>)>)
        requires
            self.wf(),
        ensures
            match r {
                None => newest(self.history(), key_view(*key)) is None,
                Some((seq, v)) => newest(self.history(), key_view(*key)) == Some(
                    (seq, value_view(v)),
                ),
            },
    ;

    /// The highest sequence number.
    fn max_seq(&self) -> (r: u64)
        requires
            self.wf(),
        ensures
            r == max_seq_of(self.history()),
    ;

    /// How many rows were written.
    fn len(&self) -> (r: usize)
        requires
            self.wf(),
        ensures
            r == wrapped(self.history().len()),
    ;

    /// The estimated size of the rows.
    fn estimated_size(&self) -> (r: usize)
        requires
            self.wf(),
        ensures
            r == wrapped(bytes_of(self.history())),
    ;

    /// The newest versions in the order of their keys, one batch for every
    /// series.
    fn to_batches(&self, schema: &TableSchema) -> (r: Result<Vec<Batch>, BatchError>)
        requires
            self.wf(),
            schema.in_range(),
            forall|i: int|
                0 <= i < self.history().len() ==> can_encode(
                    *schema,
                    #[trigger] self.history()[i],
                ),
        ensures
            r is Ok <==> self.history().len() == 0 || schema.is_sound(),
            r matches Ok(batches) ==> batches_of(*schema, batches@, self.history()),
    ;

    /// The name of the log that holds the rows.
    fn wal_path(&self) -> (r: &String)
        ensures
            r@ == self.log_name(),
    ;
}

/// Rows that are written to, in memory and in a log.
pub trait Memtable: Sized {
    /// What freezing gives.
    type Frozen: ImmutableMemtable;

    /// The rows are arranged as the other methods need it.
    spec fn wf(&self) -> bool;

    /// All rows, in the order in which they were written.
    spec fn history(&self) -> Seq<EntryView>;

    /// The name of the log that holds the rows.
    spec fn log_name(&self) -> Seq<char>;

    /// How many operations were logged since the last sync.
    spec fn unsynced(&self) -> nat;

    /// The log can count `n` more operations.
    spec fn can_log(&self, n: nat) -> bool;

    /// A write of one row. It takes place when it is finished, after what
    /// is to be appended stands in the log.
    fn write(&mut self, key: Key, seq: u64, value: Option<Value>) -> (r: PendingWrite)
        requires
            old(self).wf(),
            old(self).can_log(1),
        ensures
            final(self).wf(),
            final(self).history() == old(self).history(),
            final(self).log_name() == old(self).log_name(),
            entry_view(r.entry) == (key_view(key), seq, value_view(value)),
            r.append.bytes@ == appended(seq![entry_op(entry_view(r.entry))]),
            r.append.sync == sync_falls_due(old(self).unsynced(), 1),
            final(self).unsynced() == left_unsynced(old(self).unsynced(), 1),
    ;

    /// Finishes a write and tells which value it replaces.
    fn finish_write(&mut self, pending: PendingWrite) -> (r: Option<Value>)
        requires
            old(self).wf(),
        ensures
            final(self).wf(),
            final(self).history() == old(self).history().push(entry_view(pending.entry)),
            final(self).log_name() == old(self).log_name(),
            value_view(r) == visible(
                newest(old(self).history(), key_view(pending.entry.0)),
            ),
            final(self).unsynced() == old(self).unsynced(),
            forall|n: nat| #[trigger] final(self).can_log(n) == old(self).can_log(n),
    ;

    /// A write of several rows in one frame of the log.
    fn write_batch(&mut self, entries: Vec<Entry>) -> (r: PendingBatch)
        requires
            old(self).wf(),
            old(self).can_log(entries@.len()),
        ensures
            final(self).wf(),
            final(self).history() == old(self).history(),
            final(self).log_name() == old(self).log_name(),
            r.entries@ == entries@,
            r.append.bytes@ == appended(entry_ops(entries_view(entries@))),
            entries@.len() <= u32::MAX ==> r.append.sync == sync_falls_due(
                old(self).unsynced(),
                entries@.len(),
            ) && final(self).unsynced() == left_unsynced(old(self).unsynced(), entries@.len()),
    ;

    /// Finishes a write of several rows.
    fn finish_batch(&mut self, pending: PendingBatch)
        requires
            old(self).wf(),
        ensures
            final(self).wf(),
            final(self).history() == old(self).history() + entries_view(pending.entries@),
            final(self).log_name() == old(self).log_name(),
            final(self).unsynced() == old(self).unsynced(),
            forall|n: nat| #[trigger] final(self).can_log(n) == old(self).can_log(n),
    ;

    /// Takes over an operation that stands in the log.
    fn replay(&mut self, op: &Operation)
        requires
            old(self).wf(),
        ensures
            final(self).wf(),
            final(self).history() == old(self).history().push(op_entry(op@)),
            final(self).log_name() == old(self).log_name(),
            final(self).unsynced() == old(self).unsynced(),
    ;

    /// The newest version under a key.
    fn get(&self, key: &Key) -> (r: Option<(u64, Option<Value>)>)
        requires
            self.wf(),
        ensures
            match r {
                None => newest(self.history(), key_view(*key)) is None,
                Some((seq, v)) => newest(self.history(), key_view(*key)) == Some(
                    (seq, value_view(v)),
                ),
            },
    ;

    /// The highest sequence number.
    fn max_seq(&self) -> (r: u64)
        requires
            self.wf(),
        ensures
            r == max_seq_of(self.history()),
    ;

    /// How many rows were written.
    fn len(&self) -> (r: usize)
        requires
            self.wf(),
        ensures
            r == wrapped(self.history().len()),
    ;

    /// The estimated size of the rows.
    fn estimated_size(&self) -> (r: usize)
        requires
            self.wf(),
        ensures
            r == wrapped(bytes_of(self.history())),
    ;

    /// The newest versions in the order of their keys, one batch for every
    /// series.
    fn to_batches(&self, schema: &TableSchema) -> (r: Result<Vec<Batch>, BatchError>)
        requires
            self.wf(),
            schema.in_range(),
            forall|i: int|
                0 <= i < self.history().len() ==> can_encode(
                    *schema,
                    #[trigger] self.history()[i],
                ),
        ensures
            r is Ok <==> self.history().len() == 0 || schema.is_sound(),
            r matches Ok(batches) ==> batches_of(*schema, batches@, self.history()),
    ;

    /// The same rows, not to be written to any more.
    fn freeze(self) -> (r: Self::Frozen)
        requires
            self.wf(),
        ensures
            r.wf(),
            r.history() == self.history(),
            r.log_name() == self.log_name(),
    ;
}

} // verus!
