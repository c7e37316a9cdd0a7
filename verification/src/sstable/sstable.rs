//! Sorted tables: how they are made, which row groups a read needs, and what
//! it takes from them.
//!
//! The rows themselves are in a file. A read asks the table which row groups
//! it needs, has them read, and hands their batches back.

use vstd::prelude::*;
use crate::batch::{
    batches_rows, can_encode, entries_of, internal_batch_from_rows, is_timed, key_of, op_of,
    holds_entry, row_entries, Batch, BatchError, BatchRow,
};
use crate::counters::{lemma_wrapped_small, wrapped};
use crate::entries::{
    entries_view, entry_view, is_run, lemma_newest_none, max_seq_of, newest, Entry, EntryView,
};
use crate::memtable::skiptable::SkipList;
use crate::names::{sst_id, sst_id_of};
use crate::order::{group_key_order, key_le, key_less, key_lt, key_same};
use crate::run::lemma_run_lookup;
use crate::schema::TableSchema;
use crate::sstable::index::{
    build_index, filter_of, group_matches, group_rows, group_start, groups_ordered, has_extent,
    in_chunks, lemma_group_keys, lemma_group_start, lemma_groups_ordered, lemma_row_in_group,
    RowGroupMeta, SstableIndex, CHUNK_ROWS,
};
use crate::types::{copy_key, copy_value, key_view, value_view, Key, KeyView, Value};

verus! {

broadcast use group_key_order;

/// The key lies between the ends, both of them counted in.
pub open spec fn in_keys(k: KeyView, start: KeyView, end: KeyView) -> bool {
    key_le(start, k) && key_le(k, end)
}

/// The timestamp lies in the range, both ends counted in.
pub open spec fn in_times(ts: i64, range: Option<(i64, i64)>) -> bool {
    match range {
        Some((low, high)) => low <= ts <= high,
        None => true,
    }
}

/// The rows with keys in the range, in order.
pub open spec fn within(s: Seq<EntryView>, start: KeyView, end: KeyView) -> Seq<EntryView>
    decreases s.len(),
{
    if s.len() == 0 {
        Seq::empty()
    } else {
        let before = within(s.drop_last(), start, end);
        if in_keys(s.last().0, start, end) {
            before.push(s.last())
        } else {
            before
        }
    }
}

/// The first row under the key, up to the first row with a higher key.
pub open spec fn search(s: Seq<EntryView>, k: KeyView) -> Option<(u64, Option<Seq<u8>>)>
    decreases s.len(),
{
    if s.len() == 0 || key_lt(k, s[0].0) {
        None
    } else if s[0].0 == k {
        Some((s[0].1, s[0].2))
    } else {
        search(s.skip(1), k)
    }
}

/// The rows with keys in the range, up to the first row with a higher key.
pub open spec fn scanned(s: Seq<EntryView>, start: KeyView, end: KeyView) -> Seq<EntryView>
    decreases s.len(),
{
    if s.len() == 0 || key_lt(end, s[0].0) {
        Seq::empty()
    } else if key_le(start, s[0].0) {
        seq![s[0]] + scanned(s.skip(1), start, end)
    } else {
        scanned(s.skip(1), start, end)
    }
}

proof fn lemma_run_tail<T>(s: Seq<(KeyView, u64, T)>)
    requires
        is_run(s),
        s.len() > 0,
    ensures
        is_run(s.skip(1)),
        forall|i: int| 0 <= i < s.skip(1).len() ==> key_lt(s[0].0, (#[trigger] s.skip(1)[i]).0),
{
    let t = s.skip(1);
    assert forall|i: int, j: int| #![trigger t[i], t[j]] 0 <= i < j < t.len() implies key_lt(
        t[i].0,
        t[j].0,
    ) by {
        assert(t[i] == s[i + 1] && t[j] == s[j + 1]);
    }
    assert forall|i: int| 0 <= i < t.len() implies key_lt(s[0].0, (#[trigger] t[i]).0) by {
        assert(t[i] == s[i + 1]);
    }
}

/// A part of a run is a run.
pub proof fn lemma_run_part<T>(s: Seq<(KeyView, u64, T)>, a: int, b: int)
    requires
        is_run(s),
        0 <= a <= b <= s.len(),
    ensures
        is_run(s.subrange(a, b)),
{
    let t = s.subrange(a, b);
    assert forall|i: int, j: int| #![trigger t[i], t[j]] 0 <= i < j < t.len() implies key_lt(
        t[i].0,
        t[j].0,
    ) by {
        assert(t[i] == s[a + i] && t[j] == s[a + j]);
    }
}

/// In a run the search finds the newest version.
pub proof fn lemma_search_run(s: Seq<EntryView>, k: KeyView)
    requires
        is_run(s),
    ensures
        search(s, k) == newest(s, k),
    decreases s.len(),
{
    lemma_run_lookup(s, k);
    if s.len() > 0 {
        lemma_run_tail(s);
        let t = s.skip(1);
        if key_lt(k, s[0].0) {
            assert forall|i: int| 0 <= i < s.len() implies (#[trigger] s[i]).0 != k by {
                if i > 0 {
                    assert(key_lt(s[0].0, s[i].0));
                }
            }
        } else if s[0].0 != k {
            lemma_search_run(t, k);
            lemma_run_lookup(t, k);
            if newest(t, k) is Some {
                let i = choose|i: int| 0 <= i < t.len() && (#[trigger] t[i]).0 == k;
                assert(s[i + 1] == t[i]);
            } else {
                assert forall|i: int| 0 <= i < s.len() implies (#[trigger] s[i]).0 != k by {
                    if i > 0 {
                        assert(t[i - 1] == s[i]);
                    }
                }
            }
        }
    }
}

/// The rows in the range of two lists in a row.
pub proof fn lemma_within_concat(a: Seq<EntryView>, b: Seq<EntryView>, start: KeyView, end: KeyView)
    ensures
        within(a + b, start, end) == within(a, start, end) + within(b, start, end),
    decreases b.len(),
{
    if b.len() == 0 {
        assert(a + b =~= a);
        assert(within(a, start, end) + within(b, start, end) =~= within(a, start, end));
    } else {
        lemma_within_concat(a, b.drop_last(), start, end);
        assert((a + b).drop_last() =~= a + b.drop_last());
        let wb = within(b.drop_last(), start, end);
        assert(within(a, start, end) + wb.push(b.last()) =~= (within(a, start, end) + wb).push(
            b.last(),
        ));
    }
}

/// No row is in the range where none of the keys is.
pub proof fn lemma_within_none(s: Seq<EntryView>, start: KeyView, end: KeyView)
    requires
        forall|i: int| 0 <= i < s.len() ==> !in_keys((#[trigger] s[i]).0, start, end),
    ensures
        within(s, start, end) == Seq::<EntryView>::empty(),
    decreases s.len(),
{
    if s.len() > 0 {
        let p = s.drop_last();
        assert forall|i: int| 0 <= i < p.len() implies !in_keys(
            (#[trigger] p[i]).0,
            start,
            end,
        ) by {
            assert(p[i] == s[i]);
        }
        lemma_within_none(p, start, end);
        assert(!in_keys(s[s.len() - 1].0, start, end));
    }
}

/// In a run the scan finds all rows in the range.
pub proof fn lemma_scanned_run(s: Seq<EntryView>, start: KeyView, end: KeyView)
    requires
        is_run(s),
    ensures
        scanned(s, start, end) == within(s, start, end),
    decreases s.len(),
{
    if s.len() > 0 {
        lemma_run_tail(s);
        let t = s.skip(1);
        let first = seq![s[0]];
        assert(s =~= first + t);
        lemma_within_concat(first, t, start, end);
        assert(first.drop_last() =~= Seq::empty());
        assert(within(first.drop_last(), start, end) =~= Seq::empty());
        assert(within(first, start, end) =~= if in_keys(s[0].0, start, end) {
            first
        } else {
            Seq::empty()
        });
        if key_lt(end, s[0].0) {
            assert forall|i: int| 0 <= i < t.len() implies !in_keys(
                (#[trigger] t[i]).0,
                start,
                end,
            ) by {
                assert(key_lt(s[0].0, t[i].0));
            }
            lemma_within_none(t, start, end);
        } else {
            lemma_scanned_run(t, start, end);
        }
        assert(scanned(s, start, end) =~= within(s, start, end));
    }
}

/// A sorted table.
#[derive(Debug)]
pub struct SSTable {
    id: usize,
    path: String,
    min_key: Key,
    max_key: Key,
    max_seq: u64,
    entry_count: usize,
    index: SstableIndex,
}

/// How many of the row groups, from the first on, end before the key.
fn groups_ending_before(groups: &Vec<RowGroupMeta>, key: &Key) -> (r: usize)
    ensures
        r <= groups@.len(),
        r < groups@.len() ==> !key_lt(key_view(groups@[r as int].max_key), key_view(*key)),
        groups_ordered(groups@) ==> forall|i: int|
            0 <= i < r ==> key_lt(key_view((#[trigger] groups@[i]).max_key), key_view(*key)),
{
    let ghost k = key_view(*key);
    let mut low: usize = 0;
    let mut high: usize = groups.len();
    while low < high
        invariant
            low <= high <= groups@.len(),
            k == key_view(*key),
            high < groups@.len() ==> !key_lt(key_view(groups@[high as int].max_key), k),
            groups_ordered(groups@) ==> forall|i: int|
                0 <= i < low ==> key_lt(key_view((#[trigger] groups@[i]).max_key), k),
        decreases high - low,
    {
        let mid: usize = low + (high - low) / 2;
        if key_less(&groups[mid].max_key, key) {
            proof {
                if groups_ordered(groups@) {
                    assert forall|i: int| 0 <= i < mid + 1 implies key_lt(
                        key_view((#[trigger] groups@[i]).max_key),
                        k,
                    ) by {
                        if i < mid {
                            assert(key_lt(
                                key_view(groups@[i].max_key),
                                key_view(groups@[mid as int].min_key),
                            ));
                            assert(key_le(
                                key_view(groups@[mid as int].min_key),
                                key_view(groups@[mid as int].max_key),
                            ));
                        }
                    }
                }
            }
            low = mid + 1;
        } else {
            high = mid;
        }
    }
    low
}

/// How many of the row groups, from the first on, start at the key or before.
fn groups_starting_by(groups: &Vec<RowGroupMeta>, key: &Key) -> (r: usize)
    ensures
        r <= groups@.len(),
        groups_ordered(groups@) ==> forall|i: int|
            r <= i < groups@.len() ==> key_lt(
                key_view(*key),
                key_view((#[trigger] groups@[i]).min_key),
            ),
        groups_ordered(groups@) ==> forall|i: int|
            0 <= i < r ==> !key_lt(key_view(*key), key_view((#[trigger] groups@[i]).min_key)),
{
    let ghost k = key_view(*key);
    let mut low: usize = 0;
    let mut high: usize = groups.len();
    while low < high
        invariant
            low <= high <= groups@.len(),
            k == key_view(*key),
            groups_ordered(groups@) ==> forall|i: int|
                high <= i < groups@.len() ==> key_lt(k, key_view((#[trigger] groups@[i]).min_key)),
            groups_ordered(groups@) ==> forall|i: int|
                0 <= i < low ==> !key_lt(k, key_view((#[trigger] groups@[i]).min_key)),
        decreases high - low,
    {
        let mid: usize = low + (high - low) / 2;
        if key_less(key, &groups[mid].min_key) {
            proof {
                if groups_ordered(groups@) {
                    assert forall|i: int| mid <= i < groups@.len() implies key_lt(
                        k,
                        key_view((#[trigger] groups@[i]).min_key),
                    ) by {
                        if i > mid {
                            assert(key_lt(
                                key_view(groups@[mid as int].max_key),
                                key_view(groups@[i].min_key),
                            ));
                            assert(key_le(
                                key_view(groups@[mid as int].min_key),
                                key_view(groups@[mid as int].max_key),
                            ));
                        }
                    }
                }
            }
            high = mid;
        } else {
            proof {
                if groups_ordered(groups@) {
                    assert forall|i: int| 0 <= i < mid implies !key_lt(
                        k,
                        key_view((#[trigger] groups@[i]).min_key),
                    ) by {
                        assert(key_lt(
                            key_view(groups@[i].max_key),
                            key_view(groups@[mid as int].min_key),
                        ));
                        assert(key_le(
                            key_view(groups@[i].min_key),
                            key_view(groups@[i].max_key),
                        ));
                    }
                }
            }
            low = mid + 1;
        }
    }
    high
}

/// The row group and the range may have a key in common.
pub open spec fn touches(g: RowGroupMeta, start: KeyView, end: KeyView) -> bool {
    !key_lt(key_view(g.max_key), start) && !key_lt(end, key_view(g.min_key))
}

impl SSTable {
    /// The number of the table.
    pub closed spec fn number(&self) -> usize {
        self.id
    }

    /// The name of its file.
    pub closed spec fn file(&self) -> Seq<char> {
        self.path@
    }

    /// The first key.
    pub closed spec fn first_key(&self) -> KeyView {
        key_view(self.min_key)
    }

    /// The last key.
    pub closed spec fn last_key(&self) -> KeyView {
        key_view(self.max_key)
    }

    /// How many rows there are.
    pub closed spec fn count(&self) -> usize {
        self.entry_count
    }

    /// The highest sequence number.
    pub closed spec fn top_seq(&self) -> u64 {
        self.max_seq
    }

    /// The index.
    pub closed spec fn index_of(&self) -> SstableIndex {
        self.index
    }

    /// The table is one of the given rows, which are in the order of their
    /// keys.
    pub open spec fn describes(&self, rows: Seq<EntryView>) -> bool {
        &&& is_run(rows)
        &&& self.index_of().describes(rows)
        &&& self.top_seq() == self.index_of().max_seq
        &&& self.count() == rows.len()
        &&& rows.len() > 0 ==> self.first_key() == rows[0].0 && self.last_key() == rows[rows.len()
            - 1].0
    }

    /// Neither the range of the keys nor the filter rules the key out.
    pub open spec fn may_hold(&self, k: KeyView) -> bool {
        &&& self.count() > 0
        &&& in_keys(k, self.first_key(), self.last_key())
        &&& self.index_of().bloom.may_contain(k)
    }

    /// Row group `at` is the one to read for a key; where there is none, no row
    /// group can hold the key.
    pub open spec fn leads(&self, k: KeyView, at: Option<usize>) -> bool {
        let groups = self.index_of().row_groups@;
        match at {
            Some(g) => self.may_hold(k) && g < groups.len() && in_keys(
                k,
                key_view(groups[g as int].min_key),
                key_view(groups[g as int].max_key),
            ),
            None => self.may_hold(k) && groups_ordered(groups) ==> forall|g: int|
                0 <= g < groups.len() ==> !in_keys(
                    k,
                    key_view((#[trigger] groups[g]).min_key),
                    key_view(groups[g].max_key),
                ),
        }
    }

    /// The row groups from the first to the second of the pair are those to scan
    /// for a range of keys: they hold all rows in it, and each has a part of it.
    /// Where there is no pair, no row lies in the range.
    pub open spec fn spans(
        &self,
        rows: Seq<EntryView>,
        start: KeyView,
        end: KeyView,
        at: Option<(usize, usize)>,
    ) -> bool {
        let groups = self.index_of().row_groups@;
        match at {
            None => within(rows, start, end) == Seq::<EntryView>::empty(),
            Some((a, b)) => {
                let own = groups_rows(groups, rows, a as int, b as int);
                &&& a <= b < groups.len()
                &&& is_run(own)
                &&& within(own, start, end) == within(rows, start, end)
                &&& forall|g: int| #![trigger groups[g]]
                    a <= g <= b ==> touches(groups[g], start, end)
            },
        }
    }

    /// The filter can be asked.
    pub open spec fn wf(&self) -> bool {
        self.index_of().bloom.wf()
    }

    /// A table whose file is there already.
    pub fn new(
        id: usize,
        path: String,
        min_key: Key,
        max_key: Key,
        entry_count: usize,
        index: SstableIndex,
    ) -> (r: Self)
        ensures
            r.number() == id,
            r.file() == path@,
            r.first_key() == key_view(min_key),
            r.last_key() == key_view(max_key),
            r.count() == entry_count,
            r.top_seq() == index.max_seq,
            r.index_of() == index,
    {
        SSTable { id, path, min_key, max_key, entry_count, max_seq: index.max_seq, index }
    }

    /// A table from the name of its file and its index; `None` where the name
    /// holds no number.
    pub fn open_from_path(name: String, index: SstableIndex) -> (r: Option<Self>)
        ensures
            r is None <==> sst_id_of(name@) is None,
            r matches Some(t) ==> {
                &&& Some(t.number()) == sst_id_of(name@)
                &&& t.file() == name@
                &&& t.index_of() == index
                &&& t.top_seq() == index.max_seq
                &&& forall|rows: Seq<EntryView>| #[trigger]
                    index.describes(rows) && is_run(rows) && rows.len() <= usize::MAX
                        ==> t.describes(rows)
            },
    {
        let (min_key, max_key, entry_count) = index.bounds();
        let id: usize = match sst_id(name.as_str()) {
            Some(id) => id,
            None => return None,
        };
        let t = SSTable::new(id, name, min_key, max_key, entry_count, index);
        proof {
            assert forall|rows: Seq<EntryView>| #[trigger]
                index.describes(rows) && is_run(rows) && rows.len()
                    <= usize::MAX implies t.describes(rows) by {
                lemma_bounds(index, rows);
            }
        }
        Some(t)
    }

    fn from_rows(rows: &[Entry], id: usize, path: String, m: u64, k: u32, seed: u64) -> (r: Self)
        requires
            m <= u64::MAX - 7,
            (m + 7) / 8 <= usize::MAX,
        ensures
            is_run(entries_view(rows@)) ==> r.describes(entries_view(rows@)),
            r.index_of().describes(entries_view(rows@)),
            r.top_seq() == max_seq_of(entries_view(rows@)),
            r.number() == id,
            r.file() == path@,
            r.index_of().bloom.seed == seed,
            in_chunks(r.index_of().row_groups@, rows@.len()),
            filter_of(r.index_of().bloom, entries_view(rows@), m, k),
    {
        let n: usize = rows.len();
        let index = build_index(rows, m, k, seed);
        let (min_key, max_key, entry_count) = index.bounds();
        proof {
            if is_run(entries_view(rows@)) {
                lemma_bounds(index, entries_view(rows@));
            }
        }
        SSTable::new(id, path, min_key, max_key, entry_count, index)
    }

    /// Makes a table of the entries of a skip list, with a filter of `m` bits
    /// that sets `k` of them for each key under a random seed. Deletions are
    /// left out unless they are to be kept.
    pub fn create_from_skiplist(
        skiplist: &SkipList,
        id: usize,
        path: String,
        keep_tombstones: bool,
        schema: &TableSchema,
        m: u64,
        k: u32,
    ) -> (r: Result<(Self, Vec<Batch>), BatchError>)
        requires
            schema.in_range(),
            m <= u64::MAX - 7,
            (m + 7) / 8 <= usize::MAX,
            forall|key: KeyView| #[trigger]
                skiplist@.dom().contains(key) ==> can_encode(
                    *schema,
                    (key, skiplist@[key].0, skiplist@[key].1),
                ),
        ensures
            exists|rows: Seq<EntryView>| #[trigger] lists(rows, skiplist@, keep_tombstones) && {
                &&& r is Ok <==> rows.len() == 0 || schema.is_sound()
                &&& r matches Ok((t, batches)) ==> {
                    &&& t.describes(rows)
                    &&& in_chunks(t.index_of().row_groups@, rows.len())
                    &&& filter_of(t.index_of().bloom, rows, m, k)
                    &&& t.number() == id
                    &&& t.file() == path@
                    &&& chunks_of(*schema, batches@, rows)
                }
            },
    {
        let seed: u64 = random_seed();
        Self::create_with_seed(skiplist, id, path, keep_tombstones, schema, m, k, seed)
    }

    /// Makes a table of the entries of a skip list under a given seed.
    pub fn create_with_seed(
        skiplist: &SkipList,
        id: usize,
        path: String,
        keep_tombstones: bool,
        schema: &TableSchema,
        m: u64,
        k: u32,
        seed: u64,
    ) -> (r: Result<(Self, Vec<Batch>), BatchError>)
        requires
            schema.in_range(),
            m <= u64::MAX - 7,
            (m + 7) / 8 <= usize::MAX,
            forall|key: KeyView| #[trigger]
                skiplist@.dom().contains(key) ==> can_encode(
                    *schema,
                    (key, skiplist@[key].0, skiplist@[key].1),
                ),
        ensures
            exists|rows: Seq<EntryView>| #[trigger] lists(rows, skiplist@, keep_tombstones) && {
                &&& r is Ok <==> rows.len() == 0 || schema.is_sound()
                &&& r matches Ok((t, batches)) ==> {
                    &&& t.describes(rows)
                    &&& in_chunks(t.index_of().row_groups@, rows.len())
                    &&& filter_of(t.index_of().bloom, rows, m, k)
                    &&& t.number() == id
                    &&& t.file() == path@
                    &&& t.index_of().bloom.seed == seed
                    &&& chunks_of(*schema, batches@, rows)
                }
            },
    {
        let all = skiplist.iter();
        let ghost s = entries_view(all@);
        let rows = if keep_tombstones {
            proof {
                lemma_lists_all(s, skiplist@);
            }
            all
        } else {
            let kept = without_tombstones(all);
            proof {
                lemma_lists_kept(s, entries_view(kept@), skiplist@);
            }
            kept
        };
        let ghost run = entries_view(rows@);
        proof {
            assert(lists(run, skiplist@, keep_tombstones));
            assert forall|i: int| 0 <= i < rows@.len() implies can_encode(
                *schema,
                entry_view(#[trigger] rows@[i]),
            ) by {
                assert(run[i] == entry_view(rows@[i]));
                lemma_run_lookup(run, run[i].0);
                assert(newest(run, run[i].0) is Some);
                assert(skiplist@.dom().contains(run[i].0));
            }
        }
        let batches = match chunk_batches(rows.as_slice(), schema) {
            Ok(b) => b,
            Err(e) => return Err(e),
        };
        let t = Self::from_rows(rows.as_slice(), id, path, m, k, seed);
        Ok((t, batches))
    }

    /// Makes a table of the rows of batches, with a filter of `m` bits that
    /// sets `k` of them for each key under a random seed. Keys are found in it
    /// where the rows are in the order of their keys.
    pub fn create_from_batches(
        batches: &Vec<Batch>,
        id: usize,
        path: String,
        schema: &TableSchema,
        m: u64,
        k: u32,
    ) -> (r: Self)
        requires
            all_readable(batches@, *schema),
            m <= u64::MAX - 7,
            (m + 7) / 8 <= usize::MAX,
        ensures
            is_run(row_entries(*schema, batches_rows(batches@))) ==> r.describes(
                row_entries(*schema, batches_rows(batches@)),
            ),
            r.index_of().describes(row_entries(*schema, batches_rows(batches@))),
            in_chunks(r.index_of().row_groups@, batches_rows(batches@).len()),
            filter_of(
                r.index_of().bloom,
                row_entries(*schema, batches_rows(batches@)),
                m,
                k,
            ),
            r.top_seq() == max_seq_of(row_entries(*schema, batches_rows(batches@))),
            r.number() == id,
            r.file() == path@,
    {
        let seed: u64 = random_seed();
        Self::create_from_batches_with_seed(batches, id, path, schema, m, k, seed)
    }

    /// Makes a table of the rows of batches under a given seed.
    pub fn create_from_batches_with_seed(
        batches: &Vec<Batch>,
        id: usize,
        path: String,
        schema: &TableSchema,
        m: u64,
        k: u32,
        seed: u64,
    ) -> (r: Self)
        requires
            all_readable(batches@, *schema),
            m <= u64::MAX - 7,
            (m + 7) / 8 <= usize::MAX,
        ensures
            is_run(row_entries(*schema, batches_rows(batches@))) ==> r.describes(
                row_entries(*schema, batches_rows(batches@)),
            ),
            r.index_of().describes(row_entries(*schema, batches_rows(batches@))),
            in_chunks(r.index_of().row_groups@, batches_rows(batches@).len()),
            filter_of(
                r.index_of().bloom,
                row_entries(*schema, batches_rows(batches@)),
                m,
                k,
            ),
            r.top_seq() == max_seq_of(row_entries(*schema, batches_rows(batches@))),
            r.index_of().bloom.seed == seed,
            r.number() == id,
            r.file() == path@,
    {
        let rows = collect_entries(batches, schema);
        Self::from_rows(rows.as_slice(), id, path, m, k, seed)
    }

    fn candidate_row_group(&self, key: &Key) -> (r: Option<usize>)
        ensures
            r matches Some(g) ==> g < self.index_of().row_groups@.len() && in_keys(
                key_view(*key),
                key_view(self.index_of().row_groups@[g as int].min_key),
                key_view(self.index_of().row_groups@[g as int].max_key),
            ),
            r is None && groups_ordered(self.index_of().row_groups@) ==> forall|g: int|
                0 <= g < self.index_of().row_groups@.len() ==> !in_keys(
                    key_view(*key),
                    key_view((#[trigger] self.index_of().row_groups@[g]).min_key),
                    key_view(self.index_of().row_groups@[g].max_key),
                ),
    {
        let groups = &self.index.row_groups;
        let ghost k = key_view(*key);
        let i: usize = groups_ending_before(groups, key);
        if i >= groups.len() {
            return None;
        }
        if key_less(key, &groups[i].min_key) {
            proof {
                if groups_ordered(groups@) {
                    assert forall|g: int| 0 <= g < groups@.len() implies !in_keys(
                        k,
                        key_view((#[trigger] groups@[g]).min_key),
                        key_view(groups@[g].max_key),
                    ) by {
                        if g > i {
                            assert(key_lt(
                                key_view(groups@[i as int].max_key),
                                key_view(groups@[g].min_key),
                            ));
                            assert(key_le(
                                key_view(groups@[i as int].min_key),
                                key_view(groups@[i as int].max_key),
                            ));
                        }
                    }
                }
            }
            None
        } else {
            Some(i)
        }
    }

    /// The row group to read for a key; `None` where the table cannot hold
    /// the key.
    pub fn locate(&self, key: &Key) -> (r: Option<usize>)
        requires
            self.wf(),
        ensures
            self.leads(key_view(*key), r),
            forall|rows: Seq<EntryView>| #[trigger]
                self.describes(rows) ==> match r {
                    None => newest(rows, key_view(*key)) is None,
                    Some(g) => {
                        let own = group_rows(self.index_of().row_groups@, rows, g as int);
                        is_run(own) && newest(own, key_view(*key)) == newest(rows, key_view(*key))
                    },
                },
    {
        let ghost k = key_view(*key);
        if self.entry_count == 0 || key_less(key, &self.min_key) || key_less(&self.max_key, key) {
            proof {
                assert forall|rows: Seq<EntryView>| #[trigger] self.describes(rows) implies newest(
                    rows,
                    k,
                ) is None by {
                    lemma_newest_none(rows, k);
                    assert forall|i: int| 0 <= i < rows.len() implies (#[trigger] rows[i]).0
                        != k by {
                        if 0 < i {
                            assert(key_lt(rows[0].0, rows[i].0));
                        }
                        if i < rows.len() - 1 {
                            assert(key_lt(rows[i].0, rows[rows.len() - 1].0));
                        }
                    }
                }
            }
            return None;
        }
        if !self.index.bloom.contains(key) {
            proof {
                assert forall|rows: Seq<EntryView>| #[trigger] self.describes(rows) implies newest(
                    rows,
                    k,
                ) is None by {
                    lemma_newest_none(rows, k);
                    assert forall|i: int| 0 <= i < rows.len() implies (#[trigger] rows[i]).0
                        != k by {
                        assert(self.index.bloom.may_contain(rows[i].0));
                    }
                }
            }
            return None;
        }
        let r = self.candidate_row_group(key);
        proof {
            assert forall|rows: Seq<EntryView>| #[trigger] self.describes(rows) implies (match r {
                None => newest(rows, k) is None,
                Some(g) => {
                    let own = group_rows(self.index_of().row_groups@, rows, g as int);
                    is_run(own) && newest(own, k) == newest(rows, k)
                },
            }) by {
                lemma_candidate(self.index, rows, k, r);
            }
        }
        r
    }

    /// The version under a key in the batches of the row group that was read.
    pub fn get(&self, key: &Key, schema: &TableSchema, batches: &Vec<Batch>) -> (r: Option<
        (u64, Option<Value>),
    >)
        requires
            all_readable(batches@, *schema),
        ensures
            match r {
                None => search(
                    row_entries(*schema, batches_rows(batches@)),
                    key_view(*key),
                ) is None,
                Some((seq, v)) => search(
                    row_entries(*schema, batches_rows(batches@)),
                    key_view(*key),
                ) == Some((seq, value_view(v))),
            },
    {
        let rows = collect_entries(batches, schema);
        let ghost s = entries_view(rows@);
        let mut i: usize = 0;
        assert(s.skip(0) =~= s);
        while i < rows.len()
            invariant
                i <= rows@.len(),
                s == entries_view(rows@),
                s == row_entries(*schema, batches_rows(batches@)),
                search(s, key_view(*key)) == search(s.skip(i as int), key_view(*key)),
            decreases rows@.len() - i,
        {
            assert(s.skip(i as int)[0] == entry_view(rows@[i as int]));
            assert(s.skip(i as int).skip(1) =~= s.skip(i + 1));
            if key_less(key, &rows[i].0) {
                return None;
            }
            if key_same(&rows[i].0, key) {
                return Some((rows[i].1, copy_value(&rows[i].2)));
            }
            i += 1;
        }
        None
    }

    fn overlapping_row_groups(&self, start: &Key, end: &Key) -> (r: Option<(usize, usize)>)
        ensures
            r matches Some((a, b)) ==> a <= b < self.index_of().row_groups@.len(),
            groups_ordered(self.index_of().row_groups@) ==> forall|g: int|
                0 <= g < self.index_of().row_groups@.len() && !(r matches Some((a, b)) && a <= g
                    <= b) ==> key_lt(
                    key_view((#[trigger] self.index_of().row_groups@[g]).max_key),
                    key_view(*start),
                ) || key_lt(
                    key_view(*end),
                    key_view(self.index_of().row_groups@[g].min_key),
                ),
            groups_ordered(self.index_of().row_groups@) && (r matches Some((a, b)) && (b > 0
                || !key_lt(key_view(*end), key_view(self.index_of().row_groups@[0].min_key))))
                ==> forall|g: int| #![trigger self.index_of().row_groups@[g]]
                r.unwrap().0 <= g <= r.unwrap().1 ==> touches(
                    self.index_of().row_groups@[g],
                    key_view(*start),
                    key_view(*end),
                ),
    {
        let groups = &self.index.row_groups;
        if groups.len() == 0 {
            return None;
        }
        let first: usize = groups_ending_before(groups, start);
        proof {
            if groups_ordered(groups@) {
                assert forall|g: int| first <= g < groups@.len() implies !key_lt(
                    key_view((#[trigger] groups@[g]).max_key),
                    key_view(*start),
                ) by {
                    if g > first {
                        assert(key_lt(
                            key_view(groups@[first as int].max_key),
                            key_view(groups@[g].min_key),
                        ));
                        assert(key_le(
                            key_view(groups@[g].min_key),
                            key_view(groups@[g].max_key),
                        ));
                    }
                }
            }
        }
        let last: usize = groups_starting_by(groups, end).saturating_sub(1);
        if first <= last {
            Some((first, last))
        } else {
            None
        }
    }

    /// The row groups to read for a range of keys, from the first to the last.
    pub fn scan_groups(&self, start: &Key, end: &Key) -> (r: Option<(usize, usize)>)
        ensures
            r matches Some((a, b)) ==> a <= b < self.index_of().row_groups@.len(),
            forall|rows: Seq<EntryView>| #[trigger]
                self.describes(rows) ==> self.spans(rows, key_view(*start), key_view(*end), r),
    {
        let ghost s = key_view(*start);
        let ghost e = key_view(*end);
        if self.entry_count == 0 || key_less(end, start) || key_less(end, &self.min_key)
            || key_less(&self.max_key, start) {
            proof {
                assert forall|rows: Seq<EntryView>| #[trigger] self.describes(rows) implies within(
                    rows,
                    s,
                    e,
                ) == Seq::<EntryView>::empty() by {
                    assert forall|i: int| 0 <= i < rows.len() implies !in_keys(
                        (#[trigger] rows[i]).0,
                        s,
                        e,
                    ) by {
                        if 0 < i {
                            assert(key_lt(rows[0].0, rows[i].0));
                        }
                        if i < rows.len() - 1 {
                            assert(key_lt(rows[i].0, rows[rows.len() - 1].0));
                        }
                    }
                    lemma_within_none(rows, s, e);
                }
            }
            return None;
        }
        let r = self.overlapping_row_groups(start, end);
        proof {
            assert forall|rows: Seq<EntryView>| #[trigger] self.describes(rows) implies (match r {
                None => within(rows, s, e) == Seq::<EntryView>::empty(),
                Some((a, b)) => {
                    let own = groups_rows(self.index_of().row_groups@, rows, a as int, b as int);
                    &&& is_run(own)
                    &&& within(own, s, e) == within(rows, s, e)
                    &&& forall|g: int| #![trigger self.index_of().row_groups@[g]]
                        a <= g <= b ==> touches(self.index_of().row_groups@[g], s, e)
                },
            }) by {
                lemma_overlap(self.index, rows, s, e, r);
                lemma_groups_ordered(self.index, rows);
                if r is Some {
                    assert(group_matches(self.index.row_groups@, rows, 0));
                    reveal_with_fuel(group_start, 2);
                }
            }
        }
        r
    }

    /// The rows in a range of keys in the batches of the row groups that were
    /// read.
    pub fn scan(&self, start: &Key, end: &Key, schema: &TableSchema, batches: &Vec<Batch>) -> (r:
        Vec<Entry>)
        requires
            all_readable(batches@, *schema),
        ensures
            entries_view(r@) == scanned(
                row_entries(*schema, batches_rows(batches@)),
                key_view(*start),
                key_view(*end),
            ),
    {
        let rows = collect_entries(batches, schema);
        scan_rows(rows, start, end)
    }

    /// Reads the rows in a range of keys batch by batch.
    pub fn scan_iter(&self, start: &Key, end: &Key) -> (r: SSTableIter)
        ensures
            r.wf(),
            r.pending() == Seq::<EntryView>::empty(),
            r.from() == key_view(*start),
            r.to() == key_view(*end),
    {
        let current: Vec<Entry> = Vec::new();
        let r = SSTableIter { current, pos: 0, start: copy_key(start), end: copy_key(end) };
        assert(r.pending() =~= Seq::empty());
        r
    }

    /// The row groups to read for a range of keys and of timestamps.
    pub fn scan_batches(&self, start: &Key, end: &Key, ts_range: Option<(i64, i64)>) -> (r: Vec<
        usize,
    >)
        ensures
            forall|x: int|
                0 <= x < r@.len() ==> (#[trigger] r@[x]) < self.index_of().row_groups@.len(),
            forall|x: int, y: int|
                0 <= x < y < r@.len() ==> (#[trigger] r@[x]) < (#[trigger] r@[y]),
            forall|x: int|
                0 <= x < r@.len() ==> overlaps(
                    self.index_of().row_groups@[(#[trigger] r@[x]) as int].min_ts,
                    self.index_of().row_groups@[r@[x] as int].max_ts,
                    ts_range,
                ),
            forall|rows: Seq<EntryView>, x: int| #![trigger self.describes(rows), r@[x]]
                self.describes(rows) && 0 <= x < r@.len() ==> touches(
                    self.index_of().row_groups@[r@[x] as int],
                    key_view(*start),
                    key_view(*end),
                ),
            forall|rows: Seq<EntryView>, i: int| #![trigger self.describes(rows), rows[i]]
                self.describes(rows) && 0 <= i < rows.len() && in_keys(
                    rows[i].0,
                    key_view(*start),
                    key_view(*end),
                ) && in_times(rows[i].0.1, ts_range) ==> in_groups(
                    self.index_of().row_groups@,
                    r@,
                    i,
                ),
    {
        let ghost s = key_view(*start);
        let ghost e = key_view(*end);
        let groups = &self.index.row_groups;
        let mut out: Vec<usize> = Vec::new();
        let range = self.scan_groups(start, end);
        let (first, last) = match range {
            Some(x) => x,
            None => {
                proof {
                    assert forall|rows: Seq<EntryView>, i: int|
                        #![trigger self.describes(rows), rows[i]]
                        self.describes(rows) && 0 <= i < rows.len() && in_keys(
                            rows[i].0,
                            s,
                            e,
                        ) && in_times(rows[i].0.1, ts_range) implies in_groups(
                        groups@,
                        out@,
                        i,
                    ) by {
                        lemma_within_some(rows, s, e, i);
                    }
                }
                return out;
            },
        };
        let n: usize = groups.len();
        let mut g: usize = first;
        while g <= last
            invariant
                first <= g <= last + 1,
                n == groups@.len(),
                last < n,
                groups == &self.index.row_groups,
                forall|x: int| 0 <= x < out@.len() ==> (#[trigger] out@[x]) < g,
                forall|x: int, y: int|
                    0 <= x < y < out@.len() ==> (#[trigger] out@[x]) < (#[trigger] out@[y]),
                forall|x: int|
                    0 <= x < out@.len() ==> first <= (#[trigger] out@[x]) && overlaps(
                        groups@[out@[x] as int].min_ts,
                        groups@[out@[x] as int].max_ts,
                        ts_range,
                    ),
                forall|x: int|
                    first <= x < g && !out@.contains(x as usize) ==> !overlaps(
                        (#[trigger] groups@[x]).min_ts,
                        groups@[x].max_ts,
                        ts_range,
                    ),
            decreases last + 1 - g,
        {
            let hit = match ts_range {
                Some((low, high)) => groups[g].max_ts >= low && groups[g].min_ts <= high,
                None => true,
            };
            let ghost before = out@;
            if hit {
                out.push(g);
                assert(out@[out@.len() - 1] == g);
            }
            proof {
                assert forall|x: int| first <= x < g + 1 && !out@.contains(x as usize) implies
                    !overlaps((#[trigger] groups@[x]).min_ts, groups@[x].max_ts, ts_range) by {
                    if x < g {
                        if before.contains(x as usize) {
                            let y = choose|y: int| 0 <= y < before.len() && before[y] == x as usize;
                            assert(out@[y] == x as usize);
                        }
                    }
                }
            }
            g += 1;
        }
        proof {
            assert forall|rows: Seq<EntryView>, i: int| #![trigger self.describes(rows), rows[i]]
                self.describes(rows) && 0 <= i < rows.len() && in_keys(rows[i].0, s, e) && in_times(
                    rows[i].0.1,
                    ts_range,
                ) implies in_groups(groups@, out@, i) by {
                let h = lemma_row_in_group(self.index, rows, i);
                lemma_in_groups(
                    self.index,
                    rows,
                    s,
                    e,
                    first as int,
                    last as int,
                    i,
                    h,
                );
                assert(group_matches(groups@, rows, h));
                let own = group_rows(groups@, rows, h);
                assert(own[i - group_start(groups@, h)] == rows[i]);
                assert(overlaps(groups@[h].min_ts, groups@[h].max_ts, ts_range));
                assert(out@.contains(h as usize));
                let y = choose|y: int| 0 <= y < out@.len() && out@[y] == h as usize;
                assert(out@[y] == h);
            }
        }
        out
    }

    /// The lowest and highest timestamp; `None` where there are no rows.
    pub fn ts_extent(&self) -> (r: Option<(i64, i64)>)
        ensures
            r is None <==> self.index_of().row_groups@.len() == 0,
            r == spec_extent(self.index_of().row_groups@),
            forall|rows: Seq<EntryView>| #[trigger]
                self.describes(rows) ==> (r is None <==> rows.len() == 0) && (
                r matches Some((low, high)) ==> has_extent(rows, low, high)),
    {
        let r = self.index.ts_extent();
        proof {
            lemma_spec_extent(self.index.row_groups@, r);
            assert forall|rows: Seq<EntryView>| #[trigger] self.describes(rows) implies (r is None
                <==> rows.len() == 0) && (r matches Some((low, high)) ==> has_extent(
                rows,
                low,
                high,
            )) by {
                lemma_extent(self.index, rows, r);
            }
        }
        r
    }

    /// The number of the table.
    pub fn id(&self) -> (r: usize)
        ensures
            r == self.number(),
    {
        self.id
    }

    /// The name of its file.
    pub fn path(&self) -> (r: &String)
        ensures
            r@ == self.file(),
    {
        &self.path
    }

    /// How many rows there are.
    pub fn entry_count(&self) -> (r: usize)
        ensures
            r == self.count(),
    {
        self.entry_count
    }

    /// The highest sequence number.
    pub fn max_seq(&self) -> (r: u64)
        ensures
            r == self.top_seq(),
    {
        self.max_seq
    }

    /// The first key.
    pub fn min_key(&self) -> (r: &Key)
        ensures
            key_view(*r) == self.first_key(),
    {
        &self.min_key
    }

    /// The last key.
    pub fn max_key(&self) -> (r: &Key)
        ensures
            key_view(*r) == self.last_key(),
    {
        &self.max_key
    }

    /// The index.
    pub fn index(&self) -> (r: &SstableIndex)
        ensures
            *r == self.index_of(),
    {
        &self.index
    }
}

/// The lowest of the lowest timestamps and the highest of the highest.
pub open spec fn spec_extent(groups: Seq<RowGroupMeta>) -> Option<(i64, i64)>
    decreases groups.len(),
{
    if groups.len() == 0 {
        None
    } else {
        let g = groups.last();
        match spec_extent(groups.drop_last()) {
            None => Some((g.min_ts, g.max_ts)),
            Some((low, high)) => Some(
                (
                    if g.min_ts < low {
                        g.min_ts
                    } else {
                        low
                    },
                    if g.max_ts > high {
                        g.max_ts
                    } else {
                        high
                    },
                ),
            ),
        }
    }
}

proof fn lemma_extent_bounds(groups: Seq<RowGroupMeta>)
    ensures
        spec_extent(groups) is None <==> groups.len() == 0,
        spec_extent(groups) matches Some((low, high)) ==> {
            &&& forall|g: int| #![trigger groups[g]]
                0 <= g < groups.len() ==> low <= groups[g].min_ts && groups[g].max_ts <= high
            &&& exists|g: int| #![trigger groups[g]]
                0 <= g < groups.len() && groups[g].min_ts == low
            &&& exists|g: int| #![trigger groups[g]]
                0 <= g < groups.len() && groups[g].max_ts == high
        },
    decreases groups.len(),
{
    if groups.len() > 0 {
        let p = groups.drop_last();
        lemma_extent_bounds(p);
        let n = groups.len() - 1;
        assert(groups[n] == groups.last());
        assert forall|g: int| #![trigger groups[g]] 0 <= g < n implies groups[g] == p[g] by {}
        match spec_extent(p) {
            Some((low, high)) => {
                let a = choose|g: int| #![trigger p[g]] 0 <= g < p.len() && p[g].min_ts == low;
                assert(groups[a].min_ts == low);
                let b = choose|g: int| #![trigger p[g]] 0 <= g < p.len() && p[g].max_ts == high;
                assert(groups[b].max_ts == high);
            },
            None => {},
        }
    }
}

proof fn lemma_spec_extent(groups: Seq<RowGroupMeta>, r: Option<(i64, i64)>)
    requires
        r is None <==> groups.len() == 0,
        r matches Some((low, high)) ==> {
            &&& forall|g: int| #![trigger groups[g]]
                0 <= g < groups.len() ==> low <= groups[g].min_ts && groups[g].max_ts <= high
            &&& exists|g: int| #![trigger groups[g]]
                0 <= g < groups.len() && groups[g].min_ts == low
            &&& exists|g: int| #![trigger groups[g]]
                0 <= g < groups.len() && groups[g].max_ts == high
        },
    ensures
        r == spec_extent(groups),
{
    lemma_extent_bounds(groups);
}

/// The extent of a table holds the timestamps of all its rows.
pub proof fn lemma_described_extent(t: SSTable, rows: Seq<EntryView>)
    requires
        t.describes(rows),
    ensures
        spec_extent(t.index_of().row_groups@) matches Some((low, high)) ==> has_extent(
            rows,
            low,
            high,
        ),
{
    let r = spec_extent(t.index.row_groups@);
    lemma_extent_bounds(t.index.row_groups@);
    lemma_extent(t.index, rows, r);
}

/// The extent of row groups: none where there are no groups, and else the lowest of
/// their lowest timestamps and the highest of their highest.
pub proof fn law_extent_is_of_groups(groups: Seq<RowGroupMeta>)
    ensures
        spec_extent(groups) is None <==> groups.len() == 0,
        spec_extent(groups) matches Some((low, high)) ==> {
            &&& forall|g: int| #![trigger groups[g]]
                0 <= g < groups.len() ==> low <= groups[g].min_ts && groups[g].max_ts <= high
            &&& exists|g: int| #![trigger groups[g]]
                0 <= g < groups.len() && groups[g].min_ts == low
            &&& exists|g: int| #![trigger groups[g]]
                0 <= g < groups.len() && groups[g].max_ts == high
        },
{
    lemma_extent_bounds(groups);
}

/// The extent of a table reaches from the oldest to the youngest of its rows.
pub proof fn law_extent_is_of_rows(t: SSTable, rows: Seq<EntryView>)
    requires
        t.describes(rows),
    ensures
        spec_extent(t.index_of().row_groups@) is None <==> rows.len() == 0,
        spec_extent(t.index_of().row_groups@) matches Some((low, high)) ==> {
            &&& forall|i: int| 0 <= i < rows.len() ==> low <= (#[trigger] rows[i]).0.1 <= high
            &&& exists|i: int| 0 <= i < rows.len() && (#[trigger] rows[i]).0.1 == low
            &&& exists|i: int| 0 <= i < rows.len() && (#[trigger] rows[i]).0.1 == high
        },
{
    lemma_extent_bounds(t.index_of().row_groups@);
    lemma_extent(t.index_of(), rows, spec_extent(t.index_of().row_groups@));
}

/// The row group and the range have a timestamp in common.
pub open spec fn overlaps(min_ts: i64, max_ts: i64, range: Option<(i64, i64)>) -> bool {
    match range {
        Some((low, high)) => max_ts >= low && min_ts <= high,
        None => true,
    }
}

/// Row `i` lies in one of the listed row groups.
pub open spec fn in_groups(groups: Seq<RowGroupMeta>, list: Seq<usize>, i: int) -> bool {
    exists|x: int| #![trigger list[x]]
        0 <= x < list.len() && group_start(groups, list[x] as int) <= i < group_start(
            groups,
            list[x] + 1,
        )
}

/// The rows of the row groups from `a` to `b`.
pub open spec fn groups_rows(
    groups: Seq<RowGroupMeta>,
    rows: Seq<EntryView>,
    a: int,
    b: int,
) -> Seq<EntryView> {
    rows.subrange(group_start(groups, a), group_start(groups, b + 1))
}

/// All batches have the columns of the schema, and their rows have timestamps.
pub open spec fn all_readable(batches: Seq<Batch>, schema: TableSchema) -> bool {
    forall|b: int| 0 <= b < batches.len() ==> (#[trigger] batches[b]).readable(schema)
}

proof fn lemma_within_some(rows: Seq<EntryView>, start: KeyView, end: KeyView, i: int)
    requires
        0 <= i < rows.len(),
        in_keys(rows[i].0, start, end),
    ensures
        within(rows, start, end).len() > 0,
    decreases rows.len(),
{
    if i < rows.len() - 1 {
        lemma_within_some(rows.drop_last(), start, end, i);
        assert(rows.drop_last()[i] == rows[i]);
    }
}

proof fn lemma_bounds(index: SstableIndex, rows: Seq<EntryView>)
    requires
        index.describes(rows),
        is_run(rows),
        rows.len() <= usize::MAX,
    ensures
        wrapped(
            group_start(index.row_groups@, index.row_groups@.len() as int) as nat,
        ) == rows.len(),
        rows.len() > 0 ==> index.row_groups@.len() > 0 && key_view(index.row_groups@[0].min_key)
            == rows[0].0 && key_view(
            index.row_groups@[index.row_groups@.len() - 1].max_key,
        ) == rows[rows.len() - 1].0,
{
    lemma_wrapped_small(rows.len());
    let groups = index.row_groups@;
    if rows.len() > 0 {
        let g = lemma_row_in_group(index, rows, 0);
        let n = groups.len() as int;
        assert(group_matches(groups, rows, 0));
        assert(group_matches(groups, rows, n - 1));
        assert(group_start(groups, 0) == 0) by {
            reveal_with_fuel(group_start, 2);
        }
        let a = group_rows(groups, rows, 0);
        let b = group_rows(groups, rows, n - 1);
        assert(a[0] == rows[0]);
        assert(b[b.len() - 1] == rows[rows.len() - 1]);
    }
}

proof fn lemma_candidate(
    index: SstableIndex,
    rows: Seq<EntryView>,
    k: KeyView,
    r: Option<usize>,
)
    requires
        index.describes(rows),
        is_run(rows),
        r matches Some(g) ==> g < index.row_groups@.len() && in_keys(
            k,
            key_view(index.row_groups@[g as int].min_key),
            key_view(index.row_groups@[g as int].max_key),
        ),
        r is None && groups_ordered(index.row_groups@) ==> forall|g: int|
            0 <= g < index.row_groups@.len() ==> !in_keys(
                k,
                key_view((#[trigger] index.row_groups@[g]).min_key),
                key_view(index.row_groups@[g].max_key),
            ),
    ensures
        match r {
            None => newest(rows, k) is None,
            Some(g) => {
                let own = group_rows(index.row_groups@, rows, g as int);
                is_run(own) && newest(own, k) == newest(rows, k)
            },
        },
{
    let groups = index.row_groups@;
    lemma_groups_ordered(index, rows);
    lemma_run_lookup(rows, k);
    match r {
        None => {
            assert forall|i: int| 0 <= i < rows.len() implies (#[trigger] rows[i]).0 != k by {
                let g = lemma_row_in_group(index, rows, i);
                lemma_group_keys(index, rows, g, i);
                let rg = groups[g];
            }
        },
        Some(g) => {
            let g = g as int;
            assert(group_matches(groups, rows, g));
            let a = group_start(groups, g);
            let b = group_start(groups, g + 1);
            let own = group_rows(groups, rows, g);
            lemma_run_part(rows, a, b);
            lemma_run_lookup(own, k);
            if newest(rows, k) is Some {
                let i = choose|i: int| 0 <= i < rows.len() && (#[trigger] rows[i]).0 == k;
                let h = lemma_row_in_group(index, rows, i);
                lemma_group_keys(index, rows, h, i);
                if h < g {
                    assert(key_lt(key_view(groups[h].max_key), key_view(groups[g].min_key)));
                } else if g < h {
                    assert(key_lt(key_view(groups[g].max_key), key_view(groups[h].min_key)));
                }
                assert(own[i - a] == rows[i]);
            } else {
                assert forall|i: int| 0 <= i < own.len() implies (#[trigger] own[i]).0 != k by {
                    assert(own[i] == rows[a + i]);
                }
            }
        },
    }
}

proof fn lemma_in_groups(
    index: SstableIndex,
    rows: Seq<EntryView>,
    s: KeyView,
    e: KeyView,
    a: int,
    b: int,
    i: int,
    h: int,
)
    requires
        index.describes(rows),
        is_run(rows),
        0 <= a <= b < index.row_groups@.len(),
        0 <= i < rows.len(),
        0 <= h < index.row_groups@.len(),
        group_start(index.row_groups@, h) <= i < group_start(index.row_groups@, h + 1),
        in_keys(rows[i].0, s, e),
        within(groups_rows(index.row_groups@, rows, a, b), s, e) == within(rows, s, e),
    ensures
        a <= h <= b,
{
    let groups = index.row_groups@;
    let x = group_start(groups, a);
    let y = group_start(groups, b + 1);
    lemma_group_start(groups, a, b + 1);
    assert(group_matches(groups, rows, a));
    assert(group_matches(groups, rows, b));
    let own = rows.subrange(x, y);
    let left = rows.subrange(0, x);
    let right = rows.subrange(y, rows.len() as int);
    assert(rows =~= left + own + right);
    lemma_within_concat(left + own, right, s, e);
    lemma_within_concat(left, own, s, e);
    if i < x {
        assert(left[i] == rows[i]);
        lemma_within_some(left, s, e, i);
    } else if i >= y {
        assert(right[i - y] == rows[i]);
        lemma_within_some(right, s, e, i - y);
    }
    if h < a {
        lemma_group_start(groups, h + 1, a);
    } else if h > b {
        lemma_group_start(groups, b + 1, h);
    }
}

proof fn lemma_overlap(
    index: SstableIndex,
    rows: Seq<EntryView>,
    s: KeyView,
    e: KeyView,
    r: Option<(usize, usize)>,
)
    requires
        index.describes(rows),
        is_run(rows),
        r matches Some((a, b)) ==> a <= b < index.row_groups@.len(),
        groups_ordered(index.row_groups@) ==> forall|g: int|
            0 <= g < index.row_groups@.len() && !(r matches Some((a, b)) && a <= g <= b) ==> key_lt(
                key_view((#[trigger] index.row_groups@[g]).max_key),
                s,
            ) || key_lt(e, key_view(index.row_groups@[g].min_key)),
    ensures
        match r {
            None => within(rows, s, e) == Seq::<EntryView>::empty(),
            Some((a, b)) => {
                let own = groups_rows(index.row_groups@, rows, a as int, b as int);
                is_run(own) && within(own, s, e) == within(rows, s, e)
            },
        },
{
    let groups = index.row_groups@;
    lemma_groups_ordered(index, rows);
    assert forall|i: int|
        0 <= i < rows.len() && in_keys((#[trigger] rows[i]).0, s, e) implies r matches Some((a, b))
        && group_start(groups, a as int) <= i < group_start(groups, b + 1) by {
        let g = lemma_row_in_group(index, rows, i);
        lemma_group_keys(index, rows, g, i);
        let rg = groups[g];
        match r {
            Some((a, b)) => {
                if a <= g <= b {
                    lemma_group_start(groups, a as int, g);
                    lemma_group_start(groups, g + 1, b + 1);
                }
            },
            None => {},
        }
    }
    match r {
        None => {
            lemma_within_none(rows, s, e);
        },
        Some((a, b)) => {
            let x = group_start(groups, a as int);
            let y = group_start(groups, b + 1);
            lemma_group_start(groups, a as int, b + 1);
            assert(group_matches(groups, rows, a as int));
            assert(group_matches(groups, rows, b as int));
            let own = rows.subrange(x, y);
            let left = rows.subrange(0, x);
            let right = rows.subrange(y, rows.len() as int);
            lemma_run_part(rows, x, y);
            assert(rows =~= left + own + right);
            assert forall|i: int| 0 <= i < left.len() implies !in_keys(
                (#[trigger] left[i]).0,
                s,
                e,
            ) by {
                assert(left[i] == rows[i]);
            }
            assert forall|i: int| 0 <= i < right.len() implies !in_keys(
                (#[trigger] right[i]).0,
                s,
                e,
            ) by {
                assert(right[i] == rows[y + i]);
            }
            lemma_within_none(left, s, e);
            lemma_within_none(right, s, e);
            lemma_within_concat(left + own, right, s, e);
            lemma_within_concat(left, own, s, e);
            assert(within(own, s, e) =~= within(rows, s, e));
        },
    }
}

proof fn lemma_extent(index: SstableIndex, rows: Seq<EntryView>, r: Option<(i64, i64)>)
    requires
        index.describes(rows),
        r is None <==> index.row_groups@.len() == 0,
        r matches Some((low, high)) ==> {
            &&& forall|g: int| #![trigger index.row_groups@[g]]
                0 <= g < index.row_groups@.len() ==> low <= index.row_groups@[g].min_ts
                    && index.row_groups@[g].max_ts <= high
            &&& exists|g: int| #![trigger index.row_groups@[g]]
                0 <= g < index.row_groups@.len() && index.row_groups@[g].min_ts == low
            &&& exists|g: int| #![trigger index.row_groups@[g]]
                0 <= g < index.row_groups@.len() && index.row_groups@[g].max_ts == high
        },
    ensures
        r is None <==> rows.len() == 0,
        r matches Some((low, high)) ==> has_extent(rows, low, high),
{
    let groups = index.row_groups@;
    match r {
        None => {
            assert(group_start(groups, 0) == 0) by {
                reveal_with_fuel(group_start, 2);
            }
        },
        Some((low, high)) => {
            assert(group_matches(groups, rows, 0));
            assert forall|i: int| 0 <= i < rows.len() implies low <= (#[trigger] rows[i]).0.1
                <= high by {
                let g = lemma_row_in_group(index, rows, i);
                assert(group_matches(groups, rows, g));
                let own = group_rows(groups, rows, g);
                assert(own[i - group_start(groups, g)] == rows[i]);
                let rg = groups[g];
            }
            let a = choose|g: int| #![trigger groups[g]]
                0 <= g < groups.len() && groups[g].min_ts == low;
            assert(group_matches(groups, rows, a));
            let own = group_rows(groups, rows, a);
            let x = choose|x: int| 0 <= x < own.len() && (#[trigger] own[x]).0.1 == low;
            assert(rows[group_start(groups, a) + x] == own[x]);
            let b = choose|g: int| #![trigger groups[g]]
                0 <= g < groups.len() && groups[g].max_ts == high;
            assert(group_matches(groups, rows, b));
            let other = group_rows(groups, rows, b);
            let y = choose|y: int| 0 <= y < other.len() && (#[trigger] other[y]).0.1 == high;
            assert(rows[group_start(groups, b) + y] == other[y]);
        },
    }
}

/// Calls `rand::random`. Nothing is claimed of the number: it is a different
/// one each time.
#[verifier::external_body]
fn random_seed() -> (r: u64)
{
    rand::random::<u64>()
}

/// The rows are the entries of a skip list in the order of their keys, with
/// or without the deletions.
pub open spec fn lists(
    rows: Seq<EntryView>,
    list: Map<KeyView, (u64, Option<Seq<u8>>)>,
    keep_tombstones: bool,
) -> bool {
    &&& is_run(rows)
    &&& forall|k: KeyView|
        #[trigger] newest(rows, k) == if list.dom().contains(k) && (keep_tombstones
            || list[k].1 is Some) {
            Some(list[k])
        } else {
            None
        }
}

/// Row `i` of the list is the row of some batch: the batches hold the rows in
/// order, and all but the last are full.
pub open spec fn chunks_of(schema: TableSchema, batches: Seq<Batch>, rows: Seq<EntryView>) -> bool {
    &&& all_readable(batches, schema)
    &&& batches_rows(batches).len() == rows.len()
    &&& forall|i: int| #![trigger batches_rows(batches)[i]]
        0 <= i < rows.len() ==> {
            &&& batches_rows(batches)[i].0 == rows[i].1
            &&& batches_rows(batches)[i].1 == op_of(rows[i].2)
            &&& holds_entry(schema, batches_rows(batches)[i].2, rows[i])
        }
    &&& forall|b: int| #![trigger batches[b]]
        0 <= b < batches.len() ==> 0 < batches[b].rows().len() <= CHUNK_ROWS && (b < batches.len()
            - 1 ==> batches[b].rows().len() == CHUNK_ROWS)
}

proof fn lemma_lists_all(s: Seq<EntryView>, list: Map<KeyView, (u64, Option<Seq<u8>>)>)
    requires
        is_run(s),
        forall|k: KeyView|
            #[trigger] newest(s, k) == if list.dom().contains(k) {
                Some(list[k])
            } else {
                None
            },
    ensures
        lists(s, list, true),
{
}

/// The rows that are no deletions.
pub open spec fn live(s: Seq<EntryView>) -> Seq<EntryView>
    decreases s.len(),
{
    if s.len() == 0 {
        Seq::empty()
    } else if s.last().2 is Some {
        live(s.drop_last()).push(s.last())
    } else {
        live(s.drop_last())
    }
}

proof fn lemma_live(s: Seq<EntryView>)
    requires
        is_run(s),
    ensures
        is_run(live(s)),
        forall|k: KeyView|
            #[trigger] newest(live(s), k) == match newest(s, k) {
                Some((q, Some(v))) => Some((q, Some(v))),
                _ => None,
            },
        forall|i: int|
            0 <= i < live(s).len() ==> exists|j: int|
                0 <= j < s.len() && #[trigger] s[j] == (#[trigger] live(s)[i]),
    decreases s.len(),
{
    if s.len() > 0 {
        let p = s.drop_last();
        let e = s.last();
        assert(p =~= s.subrange(0, s.len() - 1));
        lemma_run_part(s, 0, s.len() - 1);
        lemma_live(p);
        let t = live(s);
        assert forall|i: int| 0 <= i < t.len() implies exists|j: int|
            0 <= j < s.len() && #[trigger] s[j] == (#[trigger] t[i]) by {
            if i < live(p).len() {
                assert(t[i] == live(p)[i]);
                let j = choose|j: int| 0 <= j < p.len() && #[trigger] p[j] == live(p)[i];
                assert(s[j] == t[i]);
            } else {
                assert(s[s.len() - 1] == t[i]);
            }
        }
        assert forall|i: int, j: int| #![trigger t[i], t[j]] 0 <= i < j < t.len() implies key_lt(
            t[i].0,
            t[j].0,
        ) by {
            if j < live(p).len() {
                assert(t[i] == live(p)[i] && t[j] == live(p)[j]);
            } else {
                assert(t[i] == live(p)[i]);
                let x = choose|x: int| 0 <= x < p.len() && #[trigger] p[x] == live(p)[i];
                assert(p[x] == s[x]);
                assert(key_lt(s[x].0, s[s.len() - 1].0));
            }
        }
        assert forall|k: KeyView| #[trigger] newest(t, k) == (match newest(s, k) {
            Some((q, Some(v))) => Some((q, Some(v))),
            _ => None,
        }) by {
            assert(newest(live(p), k) == match newest(p, k) {
                Some((q, Some(v))) => Some((q, Some(v))),
                _ => None,
            });
            if k == e.0 {
                assert forall|i: int| 0 <= i < p.len() implies (#[trigger] p[i]).0 != k by {
                    assert(p[i] == s[i]);
                    assert(key_lt(s[i].0, s[s.len() - 1].0));
                }
                lemma_newest_none(p, k);
            }
            if e.2 is Some {
                assert(t.drop_last() =~= live(p));
            }
        }
    }
}

proof fn lemma_lists_kept(
    s: Seq<EntryView>,
    kept: Seq<EntryView>,
    list: Map<KeyView, (u64, Option<Seq<u8>>)>,
)
    requires
        is_run(s),
        kept == live(s),
        forall|k: KeyView|
            #[trigger] newest(s, k) == if list.dom().contains(k) {
                Some(list[k])
            } else {
                None
            },
    ensures
        lists(kept, list, false),
{
    lemma_live(s);
    assert forall|k: KeyView|
        #[trigger] newest(kept, k) == if list.dom().contains(k) && list[k].1 is Some {
            Some(list[k])
        } else {
            None
        } by {
        assert(newest(s, k) == if list.dom().contains(k) {
            Some(list[k])
        } else {
            None
        });
    }
}

fn without_tombstones(rows: Vec<Entry>) -> (r: Vec<Entry>)
    ensures
        entries_view(r@) == live(entries_view(rows@)),
{
    let ghost s = entries_view(rows@);
    let mut out: Vec<Entry> = Vec::new();
    let mut i: usize = 0;
    assert(s.take(0) =~= Seq::empty());
    assert(entries_view(out@) =~= live(s.take(0)));
    while i < rows.len()
        invariant
            i <= rows@.len(),
            s == entries_view(rows@),
            entries_view(out@) == live(s.take(i as int)),
        decreases rows@.len() - i,
    {
        let e = &rows[i];
        proof {
            assert(s.take(i + 1).drop_last() =~= s.take(i as int));
            assert(s.take(i + 1).last() == entry_view(rows@[i as int]));
        }
        if e.2.is_some() {
            let ghost before = entries_view(out@);
            out.push((copy_key(&e.0), e.1, copy_value(&e.2)));
            assert(entries_view(out@) =~= before.push(entry_view(rows@[i as int])));
        }
        i += 1;
    }
    assert(s.take(i as int) =~= s);
    out
}

/// The rows of batches, in order.
pub fn collect_entries(batches: &Vec<Batch>, schema: &TableSchema) -> (r: Vec<Entry>)
    requires
        all_readable(batches@, *schema),
    ensures
        entries_view(r@) == row_entries(*schema, batches_rows(batches@)),
{
    let mut out: Vec<Entry> = Vec::new();
    let mut b: usize = 0;
    assert(batches@.take(0) =~= Seq::empty());
    assert(entries_view(out@) =~= row_entries(*schema, batches_rows(batches@.take(0))));
    while b < batches.len()
        invariant
            b <= batches@.len(),
            all_readable(batches@, *schema),
            entries_view(out@) == row_entries(*schema, batches_rows(batches@.take(b as int))),
        decreases batches@.len() - b,
    {
        assert(batches@[b as int].readable(*schema));
        let mut more = entries_of(&batches[b], schema);
        let ghost before = entries_view(out@);
        let ghost added = entries_view(more@);
        out.append(&mut more);
        proof {
            let t = batches@.take(b + 1);
            assert(t.drop_last() =~= batches@.take(b as int));
            assert(t.last() == batches@[b as int]);
            assert(entries_view(out@) =~= before + added);
            assert(row_entries(*schema, batches_rows(t)) =~= before + added);
        }
        b += 1;
    }
    assert(batches@.take(b as int) =~= batches@);
    out
}

fn scan_rows(rows: Vec<Entry>, start: &Key, end: &Key) -> (r: Vec<Entry>)
    ensures
        entries_view(r@) == scanned(entries_view(rows@), key_view(*start), key_view(*end)),
{
    let ghost s = entries_view(rows@);
    let ghost want = scanned(s, key_view(*start), key_view(*end));
    let mut out: Vec<Entry> = Vec::new();
    let mut i: usize = 0;
    assert(s.skip(0) =~= s);
    assert(entries_view(out@) + scanned(s.skip(0), key_view(*start), key_view(*end)) =~= want);
    while i < rows.len()
        invariant
            i <= rows@.len(),
            s == entries_view(rows@),
            want == scanned(s, key_view(*start), key_view(*end)),
            entries_view(out@) + scanned(s.skip(i as int), key_view(*start), key_view(*end))
                == want,
        decreases rows@.len() - i,
    {
        let e = &rows[i];
        let ghost rest = s.skip(i as int);
        let ghost before = entries_view(out@);
        assert(rest[0] == entry_view(rows@[i as int]));
        assert(rest.skip(1) =~= s.skip(i + 1));
        if key_less(end, &e.0) {
            assert(before + scanned(rest, key_view(*start), key_view(*end)) =~= before);
            return out;
        }
        if !key_less(&e.0, start) {
            out.push((copy_key(&e.0), e.1, copy_value(&e.2)));
            assert(entries_view(out@) =~= before.push(rest[0]));
            assert(before + scanned(rest, key_view(*start), key_view(*end)) =~= entries_view(out@)
                + scanned(rest.skip(1), key_view(*start), key_view(*end)));
        }
        i += 1;
    }
    assert(entries_view(out@) + scanned(
        s.skip(i as int),
        key_view(*start),
        key_view(*end),
    ) =~= entries_view(out@));
    out
}

/// Rows in batches of [`CHUNK_ROWS`].
fn chunk_batches(rows: &[Entry], schema: &TableSchema) -> (r: Result<Vec<Batch>, BatchError>)
    requires
        schema.in_range(),
        forall|i: int|
            0 <= i < rows@.len() ==> can_encode(*schema, entry_view(#[trigger] rows@[i])),
    ensures
        r is Ok <==> rows@.len() == 0 || schema.is_sound(),
        r matches Ok(batches) ==> chunks_of(*schema, batches@, entries_view(rows@)),
{
    let ghost s = entries_view(rows@);
    let mut out: Vec<Batch> = Vec::new();
    let mut i: usize = 0;
    while i < rows.len()
        invariant
            i <= rows@.len(),
            s == entries_view(rows@),
            schema.in_range(),
            i > 0 ==> schema.is_sound(),
            forall|j: int|
                0 <= j < rows@.len() ==> can_encode(*schema, entry_view(#[trigger] rows@[j])),
            all_readable(out@, *schema),
            batches_rows(out@).len() == i,
            forall|j: int| #![trigger batches_rows(out@)[j]]
                0 <= j < i ==> {
                    &&& batches_rows(out@)[j].0 == s[j].1
                    &&& batches_rows(out@)[j].1 == op_of(s[j].2)
                    &&& holds_entry(*schema, batches_rows(out@)[j].2, s[j])
                },
            forall|b: int| #![trigger out@[b]]
                0 <= b < out@.len() ==> 0 < out@[b].rows().len() <= CHUNK_ROWS && (i < rows@.len()
                    || b < out@.len() - 1 ==> out@[b].rows().len() == CHUNK_ROWS),
        decreases rows@.len() - i,
    {
        let end: usize = if rows.len() - i > CHUNK_ROWS {
            i + CHUNK_ROWS
        } else {
            rows.len()
        };
        let part = vstd::slice::slice_subrange(rows, i, end);
        proof {
            assert forall|j: int| 0 <= j < part@.len() implies can_encode(
                *schema,
                entry_view(#[trigger] part@[j]),
            ) by {
                assert(part@[j] == rows@[i + j]);
            }
        }
        let b = match internal_batch_from_rows(part, schema) {
            Ok(b) => b,
            Err(e) => return Err(e),
        };
        let ghost before = out@;
        out.push(b);
        proof {
            assert(out@.drop_last() =~= before);
            let all = batches_rows(out@);
            assert(all == batches_rows(before) + b.rows());
            assert forall|j: int| #![trigger all[j]] 0 <= j < end implies {
                &&& all[j].0 == s[j].1
                &&& all[j].1 == op_of(s[j].2)
                &&& holds_entry(*schema, all[j].2, s[j])
            } by {
                if j < i {
                    assert(all[j] == batches_rows(before)[j]);
                } else {
                    assert(all[j] == b.rows()[j - i]);
                    assert(part@[j - i] == rows@[j]);
                    assert(s[j] == entry_view(rows@[j]));
                }
            }
            assert forall|x: int| 0 <= x < out@.len() implies (#[trigger] out@[x]).readable(
                *schema,
            ) by {
                if x < before.len() {
                    assert(out@[x] == before[x]);
                }
            }
            assert forall|x: int| #![trigger out@[x]] 0 <= x < out@.len() implies 0
                < out@[x].rows().len() <= CHUNK_ROWS && (end < rows@.len() || x < out@.len() - 1
                ==> out@[x].rows().len() == CHUNK_ROWS) by {
                if x < before.len() {
                    assert(out@[x] == before[x]);
                }
            }
        }
        i = end;
    }
    Ok(out)
}

/// Hands out the rows in a range of keys, batch by batch.
pub struct SSTableIter {
    current: Vec<Entry>,
    pos: usize,
    start: Key,
    end: Key,
}

impl SSTableIter {
    /// The rows that are still to be handed out before the next batch.
    pub closed spec fn pending(&self) -> Seq<EntryView> {
        entries_view(self.current@).skip(self.pos as int)
    }

    pub closed spec fn wf(&self) -> bool {
        self.pos <= self.current@.len()
    }

    /// Where the range starts.
    pub closed spec fn from(&self) -> KeyView {
        key_view(self.start)
    }

    /// Where the range ends.
    pub closed spec fn to(&self) -> KeyView {
        key_view(self.end)
    }

    /// Whether another batch is needed to go on.
    pub fn needs_batch(&self) -> (r: bool)
        ensures
            r == (self.pending().len() == 0) || !self.wf(),
    {
        self.pos >= self.current.len()
    }

    /// Takes the rows of the next batch in place of what was there.
    pub fn fill(&mut self, batch: &Batch, schema: &TableSchema)
        requires
            batch.readable(*schema),
        ensures
            final(self).wf(),
            final(self).from() == old(self).from(),
            final(self).to() == old(self).to(),
            final(self).pending() == scanned(
                row_entries(*schema, batch.rows()),
                old(self).from(),
                old(self).to(),
            ),
    {
        let rows = entries_of(batch, schema);
        self.current = scan_rows(rows, &self.start, &self.end);
        self.pos = 0;
        assert(self.pending() =~= entries_view(self.current@));
    }

    /// The next row, if there is one before the next batch.
    pub fn next(&mut self) -> (r: Option<Entry>)
        requires
            old(self).wf(),
        ensures
            final(self).wf(),
            final(self).from() == old(self).from(),
            final(self).to() == old(self).to(),
            match r {
                None => old(self).pending().len() == 0 && final(self).pending()
                    == old(self).pending(),
                Some(e) => old(self).pending().len() > 0 && entry_view(e) == old(self).pending()[0]
                    && final(self).pending() == old(self).pending().skip(1),
            },
    {
        if self.pos >= self.current.len() {
            return None;
        }
        let e = &self.current[self.pos];
        let item: Entry = (copy_key(&e.0), e.1, copy_value(&e.2));
        self.pos += 1;
        assert(self.pending() =~= old(self).pending().skip(1));
        Some(item)
    }
}

/// The rows with timestamps in the range, in order.
pub open spec fn timely(schema: TableSchema, rows: Seq<BatchRow>, range: Option<(i64, i64)>) -> Seq<
    BatchRow,
>
    decreases rows.len(),
{
    if rows.len() == 0 {
        Seq::empty()
    } else {
        let before = timely(schema, rows.drop_last(), range);
        if in_times(key_of(schema, rows.last().2).1, range) {
            before.push(rows.last())
        } else {
            before
        }
    }
}

/// Keeps the rows of a batch with timestamps in the range.
pub fn select_times(batch: &Batch, schema: &TableSchema, ts_range: Option<(i64, i64)>) -> (r: Batch)
    requires
        batch.readable(*schema),
    ensures
        r.readable(*schema),
        r.rows() == timely(*schema, batch.rows(), ts_range),
{
    let ghost all = batch.rows();
    let mut out = Batch::empty(schema.columns.len());
    let mut i: usize = 0;
    assert(all.take(0) =~= Seq::empty());
    while i < batch.num_rows()
        invariant
            i <= all.len(),
            all == batch.rows(),
            batch.readable(*schema),
            out.readable(*schema),
            out.rows() == timely(*schema, all.take(i as int), ts_range),
        decreases all.len() - i,
    {
        proof {
            assert(all.take(i + 1).drop_last() =~= all.take(i as int));
            assert(all.take(i + 1).last() == all[i as int]);
            assert(is_timed(*schema, all[i as int].2));
        }
        let ts: i64 = batch.ts_value(schema.time_index, i);
        let keep = match ts_range {
            Some((low, high)) => low <= ts && ts <= high,
            None => true,
        };
        if keep {
            let cells = batch.row_cells(i);
            let ghost before = out.rows();
            out.push(batch.seq_value(i), batch.op_type(i), cells);
            proof {
                assert forall|j: int| 0 <= j < out.rows().len() implies is_timed(
                    *schema,
                    (#[trigger] out.rows()[j]).2,
                ) by {
                    if j < before.len() {
                        assert(out.rows()[j] == before[j]);
                    }
                }
            }
        }
        i += 1;
    }
    assert(all.take(i as int) =~= all);
    out
}

/// A key whose bits are not all set is in none of the rows.
pub proof fn law_no_false_negatives(t: SSTable, rows: Seq<EntryView>, k: KeyView)
    requires
        t.describes(rows),
        !t.index_of().bloom.may_contain(k),
    ensures
        newest(rows, k) is None,
{
    lemma_newest_none(rows, k);
    assert forall|i: int| 0 <= i < rows.len() implies (#[trigger] rows[i]).0 != k by {
        assert(t.index_of().bloom.may_contain(rows[i].0));
    }
}

/// Where no row group is to be read for a key, no row has it.
pub proof fn law_no_row_group_no_row(t: SSTable, rows: Seq<EntryView>, k: KeyView)
    requires
        t.describes(rows),
        t.leads(k, None),
    ensures
        newest(rows, k) is None,
{
    lemma_groups_ordered(t.index_of(), rows);
    if t.may_hold(k) {
        lemma_candidate(t.index_of(), rows, k, None);
    } else {
        lemma_newest_none(rows, k);
        assert forall|i: int| 0 <= i < rows.len() implies (#[trigger] rows[i]).0 != k by {
            assert(t.index_of().bloom.may_contain(rows[i].0));
            if 0 < i {
                assert(key_lt(rows[0].0, rows[i].0));
            }
            if i < rows.len() - 1 {
                assert(key_lt(rows[i].0, rows[rows.len() - 1].0));
            }
        }
    }
}

/// Searching the one row group whose range has the key finds what searching
/// all rows would find.
pub proof fn law_one_row_group_suffices(t: SSTable, rows: Seq<EntryView>, g: usize, k: KeyView)
    requires
        t.describes(rows),
        g < t.index_of().row_groups@.len(),
        in_keys(
            k,
            key_view(t.index_of().row_groups@[g as int].min_key),
            key_view(t.index_of().row_groups@[g as int].max_key),
        ),
    ensures
        search(group_rows(t.index_of().row_groups@, rows, g as int), k) == newest(rows, k),
{
    lemma_candidate(t.index_of(), rows, k, Some(g));
    lemma_search_run(group_rows(t.index_of().row_groups@, rows, g as int), k);
}

/// Scanning the row groups from `a` to `b` finds all rows in a range of keys
/// that no other row group touches.
pub proof fn law_scan_finds_all(
    t: SSTable,
    rows: Seq<EntryView>,
    a: usize,
    b: usize,
    start: KeyView,
    end: KeyView,
)
    requires
        t.describes(rows),
        a <= b < t.index_of().row_groups@.len(),
        forall|g: int|
            0 <= g < t.index_of().row_groups@.len() && !(a <= g <= b) ==> key_lt(
                key_view((#[trigger] t.index_of().row_groups@[g]).max_key),
                start,
            ) || key_lt(end, key_view(t.index_of().row_groups@[g].min_key)),
    ensures
        scanned(
            groups_rows(t.index_of().row_groups@, rows, a as int, b as int),
            start,
            end,
        ) == within(rows, start, end),
{
    lemma_overlap(t.index_of(), rows, start, end, Some((a, b)));
    lemma_scanned_run(groups_rows(t.index_of().row_groups@, rows, a as int, b as int), start, end);
}

/// A scan gives exactly the rows that are neither before the start nor after the end
/// of the range, in their order.
pub proof fn law_rows_between_keys(s: Seq<EntryView>, start: KeyView, end: KeyView)
    ensures
        within(s, start, end) == s.filter(
            |e: EntryView| !key_lt(e.0, start) && !key_lt(end, e.0),
        ),
        forall|k: KeyView| #[trigger]
            in_keys(k, start, end) <==> !key_lt(k, start) && !key_lt(end, k),
    decreases s.len(),
{
    reveal(Seq::filter);
    let f = |e: EntryView| !key_lt(e.0, start) && !key_lt(end, e.0);
    assert forall|k: KeyView| #[trigger] in_keys(k, start, end) <==> !key_lt(k, start) && !key_lt(
        end,
        k,
    ) by {
        crate::order::law_keys_are_in_order(start, k);
        crate::order::law_keys_are_in_order(k, end);
    }
    if s.len() > 0 {
        law_rows_between_keys(s.drop_last(), start, end);
        assert(s.filter(f) == if f(s.last()) {
            s.drop_last().filter(f).push(s.last())
        } else {
            s.drop_last().filter(f)
        });
        assert(in_keys(s.last().0, start, end) == f(s.last()));
    }
}

/// A filter by time keeps exactly the rows whose timestamps are not below the lower
/// and not above the upper end, in their order, and all where there is no range.
pub proof fn law_rows_between_times(
    schema: TableSchema,
    rows: Seq<BatchRow>,
    low: i64,
    high: i64,
    ts: i64,
)
    ensures
        timely(schema, rows, Some((low, high))) == rows.filter(
            |r: BatchRow| low <= key_of(schema, r.2).1 && key_of(schema, r.2).1 <= high,
        ),
        timely(schema, rows, None) == rows,
        in_times(ts, Some((low, high))) <==> low <= ts && ts <= high,
        in_times(ts, None),
    decreases rows.len(),
{
    reveal(Seq::filter);
    let f = |r: BatchRow| low <= key_of(schema, r.2).1 && key_of(schema, r.2).1 <= high;
    if rows.len() > 0 {
        law_rows_between_times(schema, rows.drop_last(), low, high, ts);
        assert(rows.filter(f) == if f(rows.last()) {
            rows.drop_last().filter(f).push(rows.last())
        } else {
            rows.drop_last().filter(f)
        });
        assert(rows =~= rows.drop_last().push(rows.last()));
    }
    assert(timely(schema, rows, None) =~= rows);
}

/// Times from `a` to `b` overlap a range exactly where some timestamp is in both.
pub proof fn law_overlaps_share_a_time(a: i64, b: i64, range: Option<(i64, i64)>)
    requires
        a <= b,
        range matches Some((low, high)) ==> low <= high,
    ensures
        overlaps(a, b, range) <==> exists|ts: i64| #[trigger]
            in_times(ts, range) && a <= ts <= b,
{
    if overlaps(a, b, range) {
        match range {
            Some((low, high)) => {
                if low <= a {
                    assert(in_times(a, range));
                } else {
                    assert(in_times(low, range));
                }
            },
            None => {
                assert(in_times(a, range));
            },
        }
    }
}

/// A row group touches a range of keys wherever some key is in both.
pub proof fn law_touching_groups(g: RowGroupMeta, start: KeyView, end: KeyView, k: KeyView)
    ensures
        in_keys(k, key_view(g.min_key), key_view(g.max_key)) && in_keys(k, start, end) ==> touches(
            g,
            start,
            end,
        ),
        touches(g, start, end) <==> !key_lt(key_view(g.max_key), start) && !key_lt(
            end,
            key_view(g.min_key),
        ),
{
}

/// Dropping deletions leaves exactly the rows with a value, in their order.
pub proof fn law_live_rows_have_values(s: Seq<EntryView>)
    ensures
        live(s) == s.filter(|e: EntryView| e.2 is Some),
    decreases s.len(),
{
    reveal(Seq::filter);
    let f = |e: EntryView| e.2 is Some;
    if s.len() > 0 {
        law_live_rows_have_values(s.drop_last());
        assert(s.filter(f) == if f(s.last()) {
            s.drop_last().filter(f).push(s.last())
        } else {
            s.drop_last().filter(f)
        });
    }
}

/// A table of a skip list has a row for every entry, with its key, number and value,
/// and for deletions only where they are kept; the rows are in the order of their
/// keys.
pub proof fn law_tables_list_entries(
    rows: Seq<EntryView>,
    list: Map<KeyView, (u64, Option<Seq<u8>>)>,
    keep_tombstones: bool,
    k: KeyView,
    seq: u64,
    value: Option<Seq<u8>>,
)
    requires
        lists(rows, list, keep_tombstones),
    ensures
        rows.contains((k, seq, value)) <==> list.dom().contains(k) && list[k] == (seq, value) && (
        keep_tombstones || value is Some),
        forall|i: int, j: int| #![trigger rows[i], rows[j]]
            0 <= i < j < rows.len() ==> key_lt(rows[i].0, rows[j].0),
{
    lemma_run_lookup(rows, k);
    if rows.contains((k, seq, value)) {
        let i = choose|i: int| 0 <= i < rows.len() && rows[i] == (k, seq, value);
        assert(rows[i].0 == k);
    }
    if list.dom().contains(k) && list[k] == (seq, value) && (keep_tombstones || value is Some) {
        assert(newest(rows, k) == Some((seq, value)));
        crate::entries::lemma_newest_is_max(rows, k);
    }
}

/// A scan of rows in any order gives those in the range up to the first row that is
/// beyond its end.
pub proof fn law_scan_stops_beyond_the_end(
    s: Seq<EntryView>,
    start: KeyView,
    end: KeyView,
    n: int,
)
    requires
        0 <= n <= s.len(),
        forall|i: int| 0 <= i < n ==> !key_lt(end, (#[trigger] s[i]).0),
        n < s.len() ==> key_lt(end, s[n].0),
    ensures
        scanned(s, start, end) == within(s.take(n), start, end),
    decreases n,
{
    if n == 0 {
        assert(s.take(0) =~= Seq::<EntryView>::empty());
        if s.len() > 0 {
            assert(key_lt(end, s[0].0));
        }
        assert(scanned(s, start, end) =~= within(s.take(n), start, end));
    } else {
        let t = s.skip(1);
        assert forall|i: int| 0 <= i < n - 1 implies !key_lt(end, (#[trigger] t[i]).0) by {
            assert(t[i] == s[i + 1]);
        }
        law_scan_stops_beyond_the_end(t, start, end, n - 1);
        let head = s.take(1);
        assert(s.take(n) =~= head + t.take(n - 1));
        lemma_within_concat(head, t.take(n - 1), start, end);
        assert(!key_lt(end, s[0].0));
        assert(head.drop_last() =~= Seq::<EntryView>::empty());
        assert(head.last() == s[0]);
        assert(within(head.drop_last(), start, end) =~= Seq::<EntryView>::empty());
        assert(within(head, start, end) =~= if key_le(start, s[0].0) {
            seq![s[0]]
        } else {
            Seq::<EntryView>::empty()
        });
        assert(scanned(s, start, end) =~= within(head, start, end) + scanned(t, start, end));
    }
}

/// A search in rows in any order finds the first row under the key, unless a row with a
/// higher key comes before.
pub proof fn law_search_stops_beyond_the_key(s: Seq<EntryView>, k: KeyView, n: int)
    requires
        0 <= n <= s.len(),
        forall|i: int| 0 <= i < n ==> key_lt((#[trigger] s[i]).0, k),
        n < s.len() ==> !key_lt(s[n].0, k),
    ensures
        search(s, k) == if n < s.len() && s[n].0 == k {
            Some((s[n].1, s[n].2))
        } else {
            None
        },
    decreases n,
{
    if n > 0 {
        let t = s.skip(1);
        assert forall|i: int| 0 <= i < n - 1 implies key_lt((#[trigger] t[i]).0, k) by {
            assert(t[i] == s[i + 1]);
        }
        assert(key_lt(s[0].0, k));
        law_search_stops_beyond_the_key(t, k, n - 1);
    }
}

} // verus!
