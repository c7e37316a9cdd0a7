//! Transactions: a snapshot to read from and a buffer of writes.

use vstd::prelude::*;
use vstd::string::StringExecFns;
use crate::batch::{batches_rows, row_entries, Batch};
use crate::entries::{
    entries_view, entry_view, is_run, newest, visible, Entry, EntryView,
};
use crate::run::Run;
use crate::schema::TableSchema;
use crate::sstable::sstable::{all_readable, collect_entries};
use crate::types::{copy_key, copy_value, key_view, value_view, Key, KeyView, Value};

verus! {

/// Why a transaction is not committed.
#[derive(Debug)]
pub enum TxError {
    /// A key that it writes was written since it began.
    Conflict,
    /// Reading or logging failed.
    Io(String),
}

impl TxError {
    /// What the error says to a user.
    pub fn message(&self) -> (r: String)
        ensures
            r@ == match *self {
                TxError::Conflict => "transaction conflict: key modified since begin"@,
                TxError::Io(e) => "transaction io error: "@ + e@,
            },
    {
        match self {
            TxError::Conflict => "transaction conflict: key modified since begin".to_owned(),
            TxError::Io(e) => {
                let mut s = "transaction io error: ".to_owned();
                s.append(e.as_str());
                s
            },
        }
    }
}

/// The entries with a lower sequence number.
pub open spec fn older(s: Seq<EntryView>, seq: u64) -> Seq<EntryView>
    decreases s.len(),
{
    if s.len() == 0 {
        Seq::empty()
    } else if s.last().1 < seq {
        older(s.drop_last(), seq).push(s.last())
    } else {
        older(s.drop_last(), seq)
    }
}

/// A snapshot of all rows and a buffer of writes.
pub struct Transaction {
    snapshot_seq: u64,
    index: Run,
    writes: Run,
    committed: bool,
}

impl Transaction {
    /// Rows with this sequence number or a higher one are not seen.
    pub closed spec fn snapshot(&self) -> u64 {
        self.snapshot_seq
    }

    /// The newest versions at the start.
    pub closed spec fn seen(&self) -> Seq<EntryView> {
        self.index@
    }

    /// The buffered writes in the order of their keys.
    pub closed spec fn buffered(&self) -> Seq<EntryView> {
        self.writes@
    }

    /// The writes took effect.
    pub closed spec fn is_committed(&self) -> bool {
        self.committed
    }

    /// What the transaction reads under a key: its own write, else the
    /// snapshot.
    pub open spec fn reads(&self, k: KeyView) -> Option<Seq<u8>> {
        match newest(self.buffered(), k) {
            Some((_, v)) => v,
            None => visible(newest(self.seen(), k)),
        }
    }

    /// A transaction that sees the rows of all batches with a sequence number
    /// below `snapshot_seq`.
    pub fn new(batches: &Vec<Batch>, snapshot_seq: u64, schema: &TableSchema) -> (r: Self)
        requires
            all_readable(batches@, *schema),
        ensures
            r.snapshot() == snapshot_seq,
            r.buffered() == Seq::<EntryView>::empty(),
            !r.is_committed(),
            forall|k: KeyView|
                #[trigger] newest(r.seen(), k) == newest(
                    older(row_entries(*schema, batches_rows(batches@)), snapshot_seq),
                    k,
                ),
    {
        let rows = collect_entries(batches, schema);
        let ghost all = entries_view(rows@);
        let mut index = Run::new();
        let mut i: usize = 0;
        assert(all.take(0) =~= Seq::empty());
        while i < rows.len()
            invariant
                i <= rows@.len(),
                all == entries_view(rows@),
                forall|k: KeyView|
                    #[trigger] newest(index@, k) == newest(
                        older(all.take(i as int), snapshot_seq),
                        k,
                    ),
            decreases rows@.len() - i,
        {
            let e = &rows[i];
            let ghost before = index@;
            let ghost had = older(all.take(i as int), snapshot_seq);
            proof {
                assert(all.take(i + 1).drop_last() =~= all.take(i as int));
                assert(all.take(i + 1).last() == entry_view(rows@[i as int]));
            }
            if e.1 < snapshot_seq {
                index.absorb(copy_key(&e.0), e.1, copy_value(&e.2));
                proof {
                    let now = older(all.take(i + 1), snapshot_seq);
                    assert(now.drop_last() =~= had);
                    assert forall|k: KeyView| #[trigger] newest(index@, k) == newest(now, k) by {
                        assert(newest(before, k) == newest(had, k));
                    }
                }
            }
            i += 1;
        }
        assert(all.take(i as int) =~= all);
        Transaction { snapshot_seq, index, writes: Run::new(), committed: false }
    }

    /// Buffers a write.
    pub fn write(&mut self, key: Key, value: Value)
        ensures
            final(self).snapshot() == old(self).snapshot(),
            final(self).seen() == old(self).seen(),
            final(self).is_committed() == old(self).is_committed(),
            forall|k: KeyView|
                #[trigger] newest(final(self).buffered(), k) == if k == key_view(key) {
                    Some((0u64, Some(value@)))
                } else {
                    newest(old(self).buffered(), k)
                },
            forall|k: KeyView|
                #[trigger] final(self).reads(k) == if k == key_view(key) {
                    Some(value@)
                } else {
                    old(self).reads(k)
                },
    {
        self.writes.put(key, 0, Some(value));
    }

    /// Buffers a deletion.
    pub fn delete(&mut self, key: Key)
        ensures
            final(self).snapshot() == old(self).snapshot(),
            final(self).seen() == old(self).seen(),
            final(self).is_committed() == old(self).is_committed(),
            forall|k: KeyView|
                #[trigger] newest(final(self).buffered(), k) == if k == key_view(key) {
                    Some((0u64, None))
                } else {
                    newest(old(self).buffered(), k)
                },
            forall|k: KeyView|
                #[trigger] final(self).reads(k) == if k == key_view(key) {
                    None
                } else {
                    old(self).reads(k)
                },
    {
        self.writes.put(key, 0, None);
    }

    /// What the transaction reads under a key.
    pub fn get(&self, key: &Key) -> (r: Option<Value>)
        ensures
            value_view(r) == self.reads(key_view(*key)),
    {
        match self.writes.get(key) {
            Some((_, v)) => v,
            None => match self.index.get(key) {
                Some((_, v)) => v,
                None => None,
            },
        }
    }

    /// Rows with this sequence number or a higher one are not seen.
    pub fn snapshot_seq(&self) -> (r: u64)
        ensures
            r == self.snapshot(),
    {
        self.snapshot_seq
    }

    /// The buffered writes in the order of their keys.
    pub fn writes(&self) -> (r: &Vec<Entry>)
        ensures
            entries_view(r@) == self.buffered(),
            is_run(self.buffered()),
    {
        self.writes.rows()
    }

    /// Takes note that the writes took effect.
    pub fn set_committed(&mut self)
        ensures
            final(self).snapshot() == old(self).snapshot(),
            final(self).seen() == old(self).seen(),
            final(self).buffered() == old(self).buffered(),
            final(self).is_committed(),
    {
        self.committed = true;
    }

    /// Whether the writes took effect.
    pub fn committed(&self) -> (r: bool)
        ensures
            r == self.is_committed(),
    {
        self.committed
    }
}

proof fn lemma_older_concat(a: Seq<EntryView>, b: Seq<EntryView>, seq: u64)
    ensures
        older(a + b, seq) == older(a, seq) + older(b, seq),
    decreases b.len(),
{
    if b.len() == 0 {
        assert(a + b =~= a);
        assert(older(a, seq) + older(b, seq) =~= older(a, seq));
    } else {
        lemma_older_concat(a, b.drop_last(), seq);
        assert((a + b).drop_last() =~= a + b.drop_last());
        let o = older(b.drop_last(), seq);
        assert(older(a, seq) + o.push(b.last()) =~= (older(a, seq) + o).push(b.last()));
    }
}

proof fn lemma_older_none(s: Seq<EntryView>, seq: u64)
    requires
        forall|i: int| 0 <= i < s.len() ==> (#[trigger] s[i]).1 >= seq,
    ensures
        older(s, seq) == Seq::<EntryView>::empty(),
    decreases s.len(),
{
    if s.len() > 0 {
        let p = s.drop_last();
        assert forall|i: int| 0 <= i < p.len() implies (#[trigger] p[i]).1 >= seq by {
            assert(p[i] == s[i]);
        }
        lemma_older_none(p, seq);
        assert(s[s.len() - 1].1 >= seq);
    }
}

/// Snapshot isolation: rows that were written since the snapshot was taken
/// change nothing of what is seen.
pub proof fn law_snapshot_isolation(
    rows: Seq<EntryView>,
    later: Seq<EntryView>,
    snapshot_seq: u64,
    k: KeyView,
)
    requires
        forall|i: int| 0 <= i < later.len() ==> (#[trigger] later[i]).1 >= snapshot_seq,
    ensures
        newest(older(rows + later, snapshot_seq), k) == newest(older(rows, snapshot_seq), k),
{
    lemma_older_concat(rows, later, snapshot_seq);
    lemma_older_none(later, snapshot_seq);
    assert(older(rows, snapshot_seq) + Seq::<EntryView>::empty() =~= older(rows, snapshot_seq));
}

/// A snapshot that is above all sequence numbers sees everything.
pub proof fn law_snapshot_sees_all(rows: Seq<EntryView>, snapshot_seq: u64)
    requires
        forall|i: int| 0 <= i < rows.len() ==> (#[trigger] rows[i]).1 < snapshot_seq,
    ensures
        older(rows, snapshot_seq) == rows,
    decreases rows.len(),
{
    if rows.len() > 0 {
        let p = rows.drop_last();
        assert forall|i: int| 0 <= i < p.len() implies (#[trigger] p[i]).1 < snapshot_seq by {
            assert(p[i] == rows[i]);
        }
        law_snapshot_sees_all(p, snapshot_seq);
        assert(rows[rows.len() - 1].1 < snapshot_seq);
        assert(p.push(rows.last()) =~= rows);
    } else {
        assert(rows =~= Seq::empty());
    }
}

/// A snapshot that is above the newest version of a key sees that version.
pub proof fn law_old_newest_is_seen(rows: Seq<EntryView>, snapshot_seq: u64, k: KeyView)
    requires
        newest(rows, k) matches Some((s, _)) ==> s < snapshot_seq,
    ensures
        newest(older(rows, snapshot_seq), k) == newest(rows, k),
    decreases rows.len(),
{
    if rows.len() > 0 {
        let p = rows.drop_last();
        let e = rows.last();
        law_old_newest_is_seen(p, snapshot_seq, k);
        if e.1 < snapshot_seq {
            assert(older(p, snapshot_seq).push(e).drop_last() =~= older(p, snapshot_seq));
        }
    }
}

/// A snapshot sees exactly the rows with numbers below its own, in their order.
pub proof fn law_snapshot_sees_older_rows(s: Seq<EntryView>, seq: u64)
    ensures
        older(s, seq) == s.filter(|e: EntryView| e.1 < seq),
    decreases s.len(),
{
    reveal(Seq::filter);
    let f = |e: EntryView| e.1 < seq;
    if s.len() > 0 {
        law_snapshot_sees_older_rows(s.drop_last(), seq);
        assert(s.filter(f) == if f(s.last()) {
            s.drop_last().filter(f).push(s.last())
        } else {
            s.drop_last().filter(f)
        });
    }
}

/// A transaction reads its own last write under a key, and nothing where that was a
/// deletion; where it wrote nothing it reads what its snapshot has.
pub proof fn law_own_writes_are_read_first(
    txn: Transaction,
    k: KeyView,
    seq: u64,
    value: Seq<u8>,
)
    ensures
        newest(txn.buffered(), k) == Some((seq, Some(value))) ==> txn.reads(k) == Some(value),
        newest(txn.buffered(), k) == Some((seq, None::<Seq<u8>>)) ==> txn.reads(k) is None,
        newest(txn.buffered(), k) is None && newest(txn.seen(), k) == Some((seq, Some(value)))
            ==> txn.reads(k) == Some(value),
        newest(txn.buffered(), k) is None && (newest(txn.seen(), k) is None || newest(
            txn.seen(),
            k,
        ) == Some((seq, None::<Seq<u8>>))) ==> txn.reads(k) is None,
{
}

} // verus!
