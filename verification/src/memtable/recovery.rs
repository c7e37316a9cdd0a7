//! What a region is made of when its directory is opened.

use vstd::prelude::*;
use crate::entries::{
    entries_view, entry_view, fresher, is_run, lemma_newest_in_run, lemma_newest_none,
    lemma_newest_push, newest, EntryView,
};
use crate::memtable::columnar::{lemma_can_log, ColumnarMemtable};
use crate::memtable::compaction::{
    all_below, by_number, distinct, lemma_sorted_rises, names_view, rises, sort_tables, sorted,
};
use crate::memtable::traits::{entry_op, op_entries, op_entry, Memtable};
use crate::memtable::wal::{
    appended, left_unsynced_singly, ops_view, recovered, sync_falls_due, Append, Operation, Wal,
};
use crate::names::{
    chars_lt, is_sst_file, is_wal_file, lemma_chars_order, name_less, name_same, names_sst,
    names_wal, sst_id, sst_id_of,
};
use crate::order::{group_key_order, key_lt};
use crate::run::Run;
use crate::sstable::index::{in_chunks, law_same_index_describes, same_index, SstableIndex};
use crate::sstable::sstable::SSTable;
use crate::types::{copy_bytes, copy_key, copy_value, key_view, Key, KeyView};

verus! {

/// What the manifest says of a table.
#[derive(Debug)]
pub struct ManifestEntry {
    pub id: usize,
    pub path: String,
    pub min_key: Key,
    pub max_key: Key,
    pub entry_count: usize,
}

/// The entry is that of the table.
pub open spec fn lists_table(e: ManifestEntry, t: SSTable) -> bool {
    &&& e.id == t.number()
    &&& e.path@ == t.file()
    &&& key_view(e.min_key) == t.first_key()
    &&& key_view(e.max_key) == t.last_key()
    &&& e.entry_count == t.count()
}

/// What the manifest is to say of the tables, in order.
pub fn manifest_of(ssts: &Vec<SSTable>) -> (r: Vec<ManifestEntry>)
    ensures
        r@.len() == ssts@.len(),
        forall|i: int| #![trigger r@[i]]
            0 <= i < r@.len() ==> lists_table(r@[i], ssts@[i]),
{
    let mut out: Vec<ManifestEntry> = Vec::new();
    let mut i: usize = 0;
    while i < ssts.len()
        invariant
            i <= ssts@.len(),
            out@.len() == i,
            forall|x: int| #![trigger out@[x]] 0 <= x < i ==> lists_table(out@[x], ssts@[x]),
        decreases ssts@.len() - i,
    {
        let t = &ssts[i];
        out.push(
            ManifestEntry {
                id: t.id(),
                path: t.path().clone(),
                min_key: copy_key(t.min_key()),
                max_key: copy_key(t.max_key()),
                entry_count: t.entry_count(),
            },
        );
        i += 1;
    }
    out
}

/// How many entries, from the first on, have a number up to `id`.
pub open spec fn entry_place(s: Seq<ManifestEntry>, id: usize) -> nat
    decreases s.len(),
{
    if s.len() == 0 {
        0
    } else if s.last().id <= id {
        s.len()
    } else {
        entry_place(s.drop_last(), id)
    }
}

/// Entries in the order of their numbers; those with the same number keep
/// their order.
pub open spec fn entries_by_number(s: Seq<ManifestEntry>) -> Seq<ManifestEntry>
    decreases s.len(),
{
    if s.len() == 0 {
        Seq::empty()
    } else {
        let before = entries_by_number(s.drop_last());
        before.insert(entry_place(before, s.last().id) as int, s.last())
    }
}

/// The numbers never go down.
pub open spec fn is_by_number(s: Seq<ManifestEntry>) -> bool {
    forall|i: int, j: int|
        0 <= i < j < s.len() ==> (#[trigger] s[i]).id <= (#[trigger] s[j]).id
}

fn insert_entry(list: &mut Vec<ManifestEntry>, e: ManifestEntry)
    ensures
        final(list)@ == old(list)@.insert(entry_place(old(list)@, e.id) as int, e),
        is_by_number(old(list)@) ==> is_by_number(final(list)@),
{
    let id: usize = e.id;
    let ghost all = list@;
    let mut p: usize = list.len();
    assert(all.take(p as int) =~= all);
    while p > 0 && list[p - 1].id > id
        invariant
            p <= all.len(),
            list@ == all,
            entry_place(all, id) == entry_place(all.take(p as int), id),
            forall|x: int| p <= x < all.len() ==> (#[trigger] all[x]).id > id,
        decreases p,
    {
        assert(all.take(p as int).last() == all[p - 1]);
        assert(all.take(p as int).drop_last() =~= all.take(p - 1));
        p -= 1;
    }
    proof {
        if p > 0 {
            assert(all.take(p as int).last() == all[p - 1]);
        }
        assert(entry_place(all, id) == p);
    }
    list.insert(p, e);
    proof {
        let now = list@;
        if is_by_number(all) {
            assert forall|i: int, j: int| 0 <= i < j < now.len() implies (#[trigger] now[i]).id <= (
            #[trigger] now[j]).id by {
                let a = if i < p {
                    i
                } else {
                    i - 1
                };
                let b = if j < p {
                    j
                } else {
                    j - 1
                };
                if i != p && j != p {
                    assert(now[i] == all[a] && now[j] == all[b]);
                } else if i == p {
                    assert(now[j] == all[b]);
                } else {
                    assert(now[i] == all[i]);
                    if i < p - 1 {
                        assert(all[i].id <= all[p - 1].id);
                    }
                }
            }
        }
    }
}

/// Puts the entries of a manifest into the order of their numbers.
pub fn sort_entries(entries: Vec<ManifestEntry>) -> (r: Vec<ManifestEntry>)
    ensures
        r@ == entries_by_number(entries@),
        is_by_number(r@),
{
    let ghost all = entries@;
    let mut rest: Vec<ManifestEntry> = entries;
    let mut turned: Vec<ManifestEntry> = Vec::new();
    while rest.len() > 0
        invariant
            rest@.len() + turned@.len() == all.len(),
            rest@ == all.take(rest@.len() as int),
            turned@ == all.skip(rest@.len() as int).reverse(),
        decreases rest@.len(),
    {
        let ghost n = rest@.len() as int;
        match rest.pop() {
            Some(e) => {
                turned.push(e);
                assert(rest@ =~= all.take(n - 1));
                assert(turned@ =~= all.skip(n - 1).reverse());
            },
            None => {},
        }
    }
    assert(turned@ =~= all.reverse());
    let mut out: Vec<ManifestEntry> = Vec::new();
    let ghost mut done: int = 0;
    assert(all.take(0) =~= Seq::empty());
    while turned.len() > 0
        invariant
            0 <= done <= all.len(),
            turned@.len() == all.len() - done,
            turned@ == all.skip(done).reverse(),
            out@ == entries_by_number(all.take(done)),
            is_by_number(out@),
        decreases turned@.len(),
    {
        match turned.pop() {
            Some(e) => {
                assert(e == all[done]);
                assert(turned@ =~= all.skip(done + 1).reverse());
                assert(all.take(done + 1).drop_last() =~= all.take(done));
                insert_entry(&mut out, e);
                proof {
                    done = done + 1;
                }
            },
            None => {},
        }
    }
    assert(all.take(done) =~= all);
    out
}

/// The highest number of tables.
pub open spec fn top_number(ssts: Seq<SSTable>) -> Option<usize>
    decreases ssts.len(),
{
    if ssts.len() == 0 {
        None
    } else {
        match top_number(ssts.drop_last()) {
            None => Some(ssts.last().number()),
            Some(n) => Some(
                if ssts.last().number() > n {
                    ssts.last().number()
                } else {
                    n
                },
            ),
        }
    }
}

/// The name is that of one of the tables.
pub open spec fn is_known(ssts: Seq<SSTable>, name: Seq<char>) -> bool {
    exists|i: int| 0 <= i < ssts.len() && (#[trigger] ssts[i]).file() == name
}

/// The file is a table that the manifest does not know, and it is younger than
/// all that it knows.
pub open spec fn is_stray(ssts: Seq<SSTable>, name: Seq<char>) -> bool {
    &&& names_sst(name)
    &&& !is_known(ssts, name)
    &&& sst_id_of(name) is Some
    &&& top_number(ssts) matches Some(top) ==> sst_id_of(name).unwrap() > top
}

/// How many of the files, from the first on, have a number up to `id`.
pub open spec fn file_place(s: Seq<(usize, Seq<char>)>, id: usize) -> nat
    decreases s.len(),
{
    if s.len() == 0 {
        0
    } else if s.last().0 <= id {
        s.len()
    } else {
        file_place(s.drop_last(), id)
    }
}

/// The files among the names that are to be adopted, in the order of their
/// numbers.
pub open spec fn strays(ssts: Seq<SSTable>, names: Seq<Seq<char>>) -> Seq<(usize, Seq<char>)>
    decreases names.len(),
{
    if names.len() == 0 {
        Seq::empty()
    } else {
        let before = strays(ssts, names.drop_last());
        let name = names.last();
        if is_stray(ssts, name) {
            let id = sst_id_of(name).unwrap();
            before.insert(file_place(before, id) as int, (id, name))
        } else {
            before
        }
    }
}

/// What a list of numbered files stands for.
pub open spec fn files_view(s: Seq<(usize, String)>) -> Seq<(usize, Seq<char>)> {
    Seq::new(s.len(), |i: int| (s[i].0, s[i].1@))
}

/// The tables that were found so far, and the number of the next table.
pub struct Registry {
    ssts: Vec<SSTable>,
    sst_id: usize,
}

impl Registry {
    /// The tables that were found.
    pub closed spec fn tables(&self) -> Seq<SSTable> {
        self.ssts@
    }

    /// The number of the next table.
    pub closed spec fn next_id(&self) -> usize {
        self.sst_id
    }

    /// All filters can be asked, and the next number is above all others.
    pub open spec fn wf(&self) -> bool {
        &&& forall|j: int| 0 <= j < self.tables().len() ==> (#[trigger] self.tables()[j]).wf()
        &&& all_below(self.tables(), self.next_id())
    }

    /// No tables yet.
    pub fn new() -> (r: Registry)
        ensures
            r.tables() == Seq::<SSTable>::empty(),
            r.next_id() == 0,
            r.wf(),
    {
        let r = Registry { ssts: Vec::new(), sst_id: 0 };
        assert(r.tables() =~= Seq::empty());
        r
    }

    fn note(&mut self, t: SSTable)
        requires
            old(self).wf(),
            t.wf(),
            t.number() < usize::MAX,
        ensures
            final(self).wf(),
            final(self).tables() == old(self).tables().push(t),
            final(self).next_id() == if t.number() >= old(self).next_id() {
                (t.number() + 1) as usize
            } else {
                old(self).next_id()
            },
    {
        let id: usize = t.id();
        let ghost before = self.ssts@;
        if id >= self.sst_id {
            self.sst_id = id + 1;
        }
        self.ssts.push(t);
        proof {
            assert forall|j: int| 0 <= j < self.tables().len() implies (
            #[trigger] self.tables()[j]).wf() by {
                if j < before.len() {
                    assert(self.tables()[j] == before[j]);
                    assert(old(self).tables()[j].wf());
                }
            }
        }
    }

    /// Takes over a table that the manifest lists, with the index in its file.
    pub fn register(&mut self, entry: ManifestEntry, index: SstableIndex)
        requires
            old(self).wf(),
            index.bloom.wf(),
            entry.id < usize::MAX,
        ensures
            final(self).wf(),
            final(self).tables().len() == old(self).tables().len() + 1,
            final(self).tables().drop_last() == old(self).tables(),
            lists_table(entry, final(self).tables().last()),
            final(self).tables().last().index_of() == index,
            final(self).tables().last().top_seq() == index.max_seq,
            final(self).next_id() == if entry.id >= old(self).next_id() {
                (entry.id + 1) as usize
            } else {
                old(self).next_id()
            },
    {
        let t = SSTable::new(
            entry.id,
            entry.path,
            entry.min_key,
            entry.max_key,
            entry.entry_count,
            index,
        );
        self.note(t);
        assert(self.tables().drop_last() =~= old(self).tables());
    }

    fn knows(&self, name: &String) -> (r: bool)
        ensures
            r == is_known(self.tables(), name@),
    {
        let mut i: usize = 0;
        while i < self.ssts.len()
            invariant
                i <= self.ssts@.len(),
                forall|x: int| 0 <= x < i ==> (#[trigger] self.ssts@[x]).file() != name@,
            decreases self.ssts@.len() - i,
        {
            if name_same(self.ssts[i].path().as_str(), name.as_str()) {
                assert(self.ssts@[i as int].file() == name@);
                return true;
            }
            i += 1;
        }
        false
    }

    fn top(&self) -> (r: Option<usize>)
        ensures
            r == top_number(self.tables()),
    {
        let mut top: Option<usize> = None;
        let n: usize = self.ssts.len();
        let mut i: usize = 0;
        assert(self.ssts@.take(0) =~= Seq::empty());
        while i < n
            invariant
                i <= n,
                n == self.ssts@.len(),
                top == top_number(self.ssts@.take(i as int)),
            decreases n - i,
        {
            proof {
                assert(self.ssts@.take(i + 1).drop_last() =~= self.ssts@.take(i as int));
                assert(self.ssts@.take(i + 1).last() == self.ssts@[i as int]);
            }
            let id: usize = self.ssts[i].id();
            top = match top {
                None => Some(id),
                Some(t) => Some(
                    if id > t {
                        id
                    } else {
                        t
                    },
                ),
            };
            i += 1;
        }
        assert(self.ssts@.take(n as int) =~= self.ssts@);
        top
    }

    /// The table files among the names in the directory that the manifest does
    /// not list and that are younger than all that it lists, in the order of
    /// their numbers.
    pub fn scan_sst_files(&self, names: &Vec<String>) -> (r: Vec<(usize, String)>)
        ensures
            files_view(r@) == strays(self.tables(), names_view(names@)),
    {
        let top = self.top();
        let ghost all = names_view(names@);
        let ghost known = self.tables();
        let mut out: Vec<(usize, String)> = Vec::new();
        let mut i: usize = 0;
        assert(all.take(0) =~= Seq::empty());
        assert(files_view(out@) =~= Seq::empty());
        while i < names.len()
            invariant
                i <= names@.len(),
                known == self.tables(),
                top == top_number(known),
                all == names_view(names@),
                files_view(out@) == strays(known, all.take(i as int)),
            decreases names@.len() - i,
        {
            let name = &names[i];
            proof {
                assert(all.take(i + 1).drop_last() =~= all.take(i as int));
                assert(all.take(i + 1).last() == name@);
            }
            if is_sst_file(name.as_str()) && !self.knows(name) {
                match sst_id(name.as_str()) {
                    Some(id) => {
                        let younger = match top {
                            Some(t) => id > t,
                            None => true,
                        };
                        if younger {
                            insert_file(&mut out, id, name);
                        }
                    },
                    None => {},
                }
            }
            i += 1;
        }
        assert(all.take(i as int) =~= all);
        out
    }

    /// Takes over a table file that the manifest does not list, with the index
    /// in it.
    pub fn adopt(&mut self, id: usize, name: String, index: SstableIndex)
        requires
            old(self).wf(),
            index.bloom.wf(),
            sst_id_of(name@) == Some(id),
            id < usize::MAX,
        ensures
            final(self).wf(),
            final(self).tables().len() == old(self).tables().len() + 1,
            final(self).tables().drop_last() == old(self).tables(),
            final(self).tables().last().number() == id,
            final(self).tables().last().file() == name@,
            final(self).tables().last().index_of() == index,
            forall|rows: Seq<EntryView>| #[trigger]
                index.describes(rows) && is_run(rows) && rows.len() <= usize::MAX
                    ==> final(self).tables().last().describes(rows),
            final(self).next_id() == if id >= old(self).next_id() {
                (id + 1) as usize
            } else {
                old(self).next_id()
            },
    {
        match SSTable::open_from_path(name, index) {
            Some(t) => {
                self.note(t);
                assert(self.tables().drop_last() =~= old(self).tables());
            },
            None => {},
        }
    }

    /// The tables in the order of their numbers, and the number of the next
    /// one.
    pub fn finish(self) -> (r: (Vec<SSTable>, usize))
        requires
            self.wf(),
        ensures
            r.0@ == sorted(self.tables()),
            by_number(r.0@),
            r.1 == self.next_id(),
            all_below(r.0@, r.1),
            distinct(self.tables()) ==> rises(r.0@),
            forall|j: int| 0 <= j < r.0@.len() ==> (#[trigger] r.0@[j]).wf(),
    {
        let Registry { ssts, sst_id } = self;
        let ghost all = ssts@;
        let r = sort_tables(ssts);
        proof {
            if distinct(all) {
                lemma_sorted_rises(all);
            }
            assert forall|j: int| 0 <= j < r@.len() implies (#[trigger] r@[j]).wf()
                && r@[j].number() < sst_id by {
                r@.to_multiset_ensures();
                all.to_multiset_ensures();
                assert(r@.contains(r@[j]));
                assert(all.to_multiset().count(r@[j]) > 0);
                assert(all.contains(r@[j]));
                let x = choose|x: int| 0 <= x < all.len() && all[x] == r@[j];
                assert(self.tables()[x].wf());
            }
        }
        (r, sst_id)
    }
}

fn insert_file(list: &mut Vec<(usize, String)>, id: usize, name: &String)
    ensures
        files_view(final(list)@) == files_view(old(list)@).insert(
            file_place(files_view(old(list)@), id) as int,
            (id, name@),
        ),
{
    let ghost all = list@;
    let ghost seen = files_view(all);
    let mut p: usize = list.len();
    assert(seen.take(p as int) =~= seen);
    while p > 0 && list[p - 1].0 > id
        invariant
            p <= all.len(),
            list@ == all,
            seen == files_view(all),
            file_place(seen, id) == file_place(seen.take(p as int), id),
        decreases p,
    {
        assert(seen.take(p as int).last() == seen[p - 1]);
        assert(seen.take(p as int).drop_last() =~= seen.take(p - 1));
        p -= 1;
    }
    proof {
        if p > 0 {
            assert(seen.take(p as int).last() == seen[p - 1]);
        }
        assert(file_place(seen, id) == p);
    }
    list.insert(p, (id, name.clone()));
    assert(files_view(list@) =~= seen.insert(p as int, (id, name@)));
}

/// A table that is taken over from the manifest is one of the same rows as the
/// table that the manifest was written for.
pub proof fn law_manifest_keeps_tables(
    t: SSTable,
    e: ManifestEntry,
    back: SSTable,
    rows: Seq<EntryView>,
)
    requires
        t.describes(rows),
        lists_table(e, t),
        lists_table(e, back),
        same_index(back.index_of(), t.index_of()),
        back.top_seq() == back.index_of().max_seq,
    ensures
        back.describes(rows),
        in_chunks(t.index_of().row_groups@, rows.len()) ==> in_chunks(
            back.index_of().row_groups@,
            rows.len(),
        ),
        back.number() == t.number(),
        back.file() == t.file(),
{
    law_same_index_describes(back.index_of(), t.index_of(), rows);
}

proof fn lemma_file_place(s: Seq<(usize, Seq<char>)>, id: usize)
    ensures
        file_place(s, id) <= s.len(),
    decreases s.len(),
{
    if s.len() > 0 && s.last().0 > id {
        lemma_file_place(s.drop_last(), id);
    }
}

proof fn lemma_top_number(ssts: Seq<SSTable>, i: int)
    requires
        0 <= i < ssts.len(),
    ensures
        top_number(ssts) matches Some(top) && ssts[i].number() <= top,
    decreases ssts.len(),
{
    if i < ssts.len() - 1 {
        lemma_top_number(ssts.drop_last(), i);
        assert(ssts.drop_last()[i] == ssts[i]);
    }
}

/// The files that are adopted have numbers above those of all tables that the
/// manifest lists, and no two of them have the same number where no two table
/// files in the directory have. So the numbers of all tables differ, if those
/// in the manifest do.
pub proof fn law_adopted_numbers_are_new(ssts: Seq<SSTable>, names: Seq<Seq<char>>)
    requires
        forall|i: int, j: int| #![trigger names[i], names[j]]
            0 <= i < j < names.len() && is_stray(ssts, names[i]) && is_stray(ssts, names[j])
                ==> sst_id_of(names[i]) != sst_id_of(names[j]),
    ensures
        forall|x: int, i: int| #![trigger strays(ssts, names)[x], ssts[i]]
            0 <= x < strays(ssts, names).len() && 0 <= i < ssts.len() ==> ssts[i].number()
                < strays(ssts, names)[x].0,
        forall|x: int, y: int| #![trigger strays(ssts, names)[x], strays(ssts, names)[y]]
            0 <= x < y < strays(ssts, names).len() ==> strays(ssts, names)[x].0 != strays(
                ssts,
                names,
            )[y].0,
    decreases names.len(),
{
    law_strays_are_adopted(ssts, names);
    let s = strays(ssts, names);
    assert forall|x: int, i: int| #![trigger s[x], ssts[i]]
        0 <= x < s.len() && 0 <= i < ssts.len() implies ssts[i].number() < s[x].0 by {
        lemma_top_number(ssts, i);
    }
    if names.len() > 0 {
        let p = names.drop_last();
        let name = names.last();
        let n = names.len() - 1;
        assert(names[n] == name);
        assert forall|i: int, j: int| #![trigger p[i], p[j]]
            0 <= i < j < p.len() && is_stray(ssts, p[i]) && is_stray(
                ssts,
                p[j],
            ) implies sst_id_of(p[i]) != sst_id_of(p[j]) by {
            assert(p[i] == names[i] && p[j] == names[j]);
        }
        law_adopted_numbers_are_new(ssts, p);
        law_strays_are_adopted(ssts, p);
        let q = strays(ssts, p);
        if is_stray(ssts, name) {
            let id = sst_id_of(name).unwrap();
            let at = file_place(q, id) as int;
            lemma_file_place(q, id);
            assert forall|x: int| 0 <= x < q.len() implies (#[trigger] q[x]).0 != id by {
                let i = choose|i: int| 0 <= i < p.len() && p[i] == q[x].1;
                assert(names[i] == p[i]);
            }
            assert forall|x: int, y: int| #![trigger s[x], s[y]]
                0 <= x < y < s.len() implies s[x].0 != s[y].0 by {
                let a = if x < at {
                    x
                } else {
                    x - 1
                };
                let b = if y < at {
                    y
                } else {
                    y - 1
                };
                if x != at {
                    assert(s[x] == q[a]);
                }
                if y != at {
                    assert(s[y] == q[b]);
                }
            }
        }
    }
}

/// Exactly the table files that the manifest does not list, and that are
/// younger than all that it lists, are adopted. Where the manifest is lost,
/// that is every file with the name of a table.
pub proof fn law_strays_are_adopted(ssts: Seq<SSTable>, names: Seq<Seq<char>>)
    ensures
        forall|i: int| #![trigger names[i]]
            0 <= i < names.len() && is_stray(ssts, names[i]) ==> strays(ssts, names).contains(
                (sst_id_of(names[i]).unwrap(), names[i]),
            ),
        forall|x: int| #![trigger strays(ssts, names)[x]]
            0 <= x < strays(ssts, names).len() ==> {
                let (id, name) = strays(ssts, names)[x];
                names.contains(name) && is_stray(ssts, name) && sst_id_of(name) == Some(id)
            },
        ssts.len() == 0 ==> forall|i: int| #![trigger names[i]]
            0 <= i < names.len() ==> (is_stray(ssts, names[i]) <==> names_sst(names[i])
                && sst_id_of(names[i]) is Some),
    decreases names.len(),
{
    if names.len() > 0 {
        let p = names.drop_last();
        let n = names.len() - 1;
        let name = names.last();
        law_strays_are_adopted(ssts, p);
        let before = strays(ssts, p);
        let r = strays(ssts, names);
        let id = sst_id_of(name).unwrap();
        let at = file_place(before, id) as int;
        lemma_file_place(before, id);
        assert forall|x: int| #![trigger before[x]] 0 <= x < before.len() implies r.contains(
            before[x],
        ) by {
            if is_stray(ssts, name) {
                if x < at {
                    assert(r[x] == before[x]);
                } else {
                    assert(r[x + 1] == before[x]);
                }
            } else {
                assert(r[x] == before[x]);
            }
        }
        assert forall|i: int| #![trigger names[i]]
            0 <= i < names.len() && is_stray(ssts, names[i]) implies r.contains(
            (sst_id_of(names[i]).unwrap(), names[i]),
        ) by {
            if i < n {
                assert(p[i] == names[i]);
                assert(before.contains((sst_id_of(p[i]).unwrap(), p[i])));
                let x = choose|x: int|
                    0 <= x < before.len() && before[x] == (sst_id_of(p[i]).unwrap(), p[i]);
                assert(r.contains(before[x]));
            } else {
                assert(r[at] == (id, name));
            }
        }
        assert forall|x: int| #![trigger r[x]] 0 <= x < r.len() implies ({
            let (i, m) = r[x];
            names.contains(m) && is_stray(ssts, m) && sst_id_of(m) == Some(i)
        }) by {
            if is_stray(ssts, name) && x == at {
                assert(names[n] == name);
            } else {
                let y = if is_stray(ssts, name) && x > at {
                    x - 1
                } else {
                    x
                };
                assert(r[x] == before[y]);
                let z = choose|z: int| 0 <= z < p.len() && p[z] == before[y].1;
                assert(names[z] == before[y].1);
            }
        }
    }
}

/// The names are in order.
pub open spec fn in_name_order(s: Seq<Seq<char>>) -> bool {
    forall|i: int, j: int|
        0 <= i < j < s.len() ==> !chars_lt(#[trigger] s[j], #[trigger] s[i])
}

/// How many of the names, from the first on, do not come after `name`.
pub open spec fn name_place(s: Seq<Seq<char>>, name: Seq<char>) -> nat
    decreases s.len(),
{
    if s.len() == 0 {
        0
    } else if !chars_lt(name, s.last()) {
        s.len()
    } else {
        name_place(s.drop_last(), name)
    }
}

/// The names of logs, in order.
pub open spec fn log_names(names: Seq<Seq<char>>) -> Seq<Seq<char>>
    decreases names.len(),
{
    if names.len() == 0 {
        Seq::empty()
    } else {
        let before = log_names(names.drop_last());
        if names_wal(names.last()) {
            before.insert(name_place(before, names.last()) as int, names.last())
        } else {
            before
        }
    }
}

proof fn lemma_name_place(s: Seq<Seq<char>>, name: Seq<char>)
    requires
        in_name_order(s),
    ensures
        name_place(s, name) <= s.len(),
        in_name_order(s.insert(name_place(s, name) as int, name)),
        forall|i: int| name_place(s, name) <= i < s.len() ==> chars_lt(name, #[trigger] s[i]),
    decreases s.len(),
{
    let p = name_place(s, name) as int;
    let now = s.insert(p, name);
    if s.len() > 0 && chars_lt(name, s.last()) {
        let d = s.drop_last();
        assert forall|i: int, j: int| 0 <= i < j < d.len() implies !chars_lt(
            #[trigger] d[j],
            #[trigger] d[i],
        ) by {
            assert(d[i] == s[i] && d[j] == s[j]);
        }
        lemma_name_place(d, name);
        assert forall|i: int| p <= i < s.len() implies chars_lt(name, #[trigger] s[i]) by {
            if i < d.len() {
                assert(d[i] == s[i]);
            }
        }
    }
    lemma_last_before(s, name);
    assert forall|i: int, j: int| 0 <= i < j < now.len() implies !chars_lt(
        #[trigger] now[j],
        #[trigger] now[i],
    ) by {
        if j < p {
            assert(now[i] == s[i] && now[j] == s[j]);
        } else if i > p {
            assert(now[i] == s[i - 1] && now[j] == s[j - 1]);
        } else if i == p {
            assert(now[j] == s[j - 1]);
            lemma_chars_order(name, s[j - 1], name);
        } else if j == p {
            assert(now[i] == s[i]);
            if i < p - 1 {
                assert(!chars_lt(s[p - 1], s[i]));
                lemma_chars_order(name, s[p - 1], s[i]);
            }
        } else {
            assert(now[i] == s[i] && now[j] == s[j - 1]);
        }
    }
}

proof fn lemma_last_before(s: Seq<Seq<char>>, name: Seq<char>)
    ensures
        name_place(s, name) > 0 ==> name_place(s, name) <= s.len() && !chars_lt(
            name,
            s[name_place(s, name) - 1],
        ),
    decreases s.len(),
{
    if s.len() > 0 && chars_lt(name, s.last()) {
        lemma_last_before(s.drop_last(), name);
    }
}

/// The log to go on with is the last in the order of names.
pub proof fn law_logs_in_order(names: Seq<Seq<char>>)
    ensures
        in_name_order(log_names(names)),
    decreases names.len(),
{
    if names.len() > 0 {
        law_logs_in_order(names.drop_last());
        lemma_name_place(log_names(names.drop_last()), names.last());
    }
}

/// Tells the log to go on with, the last in the order of names, from the
/// orphaned ones, which come before it.
pub fn choose_logs(names: &Vec<String>) -> (r: (Vec<String>, Option<String>))
    ensures
        match r.1 {
            None => log_names(names_view(names@)).len() == 0 && r.0@.len() == 0,
            Some(active) => names_view(r.0@).push(active@) == log_names(names_view(names@)),
        },
{
    let ghost all = names_view(names@);
    let mut logs: Vec<String> = Vec::new();
    let mut i: usize = 0;
    assert(all.take(0) =~= Seq::empty());
    assert(names_view(logs@) =~= Seq::empty());
    while i < names.len()
        invariant
            i <= names@.len(),
            all == names_view(names@),
            names_view(logs@) == log_names(all.take(i as int)),
        decreases names@.len() - i,
    {
        let name = &names[i];
        proof {
            assert(all.take(i + 1).drop_last() =~= all.take(i as int));
            assert(all.take(i + 1).last() == name@);
        }
        if is_wal_file(name.as_str()) {
            let ghost before = logs@;
            let ghost seen = names_view(before);
            let mut p: usize = logs.len();
            assert(seen.take(p as int) =~= seen);
            while p > 0 && name_less(name.as_str(), logs[p - 1].as_str())
                invariant
                    p <= before.len(),
                    logs@ == before,
                    seen == names_view(before),
                    name_place(seen, name@) == name_place(seen.take(p as int), name@),
                decreases p,
            {
                assert(seen.take(p as int).last() == seen[p - 1]);
                assert(seen.take(p as int).drop_last() =~= seen.take(p - 1));
                p -= 1;
            }
            proof {
                if p > 0 {
                    assert(seen.take(p as int).last() == seen[p - 1]);
                }
                assert(name_place(seen, name@) == p);
            }
            logs.insert(p, name.clone());
            assert(names_view(logs@) =~= seen.insert(p as int, name@));
        }
        i += 1;
    }
    assert(all.take(i as int) =~= all);
    let ghost found = logs@;
    let active = logs.pop();
    proof {
        if active is Some {
            assert(names_view(logs@).push(active.unwrap()@) =~= names_view(found));
        }
    }
    (logs, active)
}

/// The newest version of every row that a log holds.
fn latest_in(log: &[u8]) -> (r: Run)
    ensures
        forall|k: KeyView|
            #[trigger] newest(r@, k) == newest(op_entries(recovered(log@)), k),
{
    let ops = Wal::recover(log);
    let ghost all = op_entries(recovered(log@));
    let mut latest = Run::new();
    let mut i: usize = 0;
    assert(all.take(0) =~= Seq::empty());
    assert(ops_view(ops@).len() == ops@.len());
    while i < ops.len()
        invariant
            i <= ops@.len(),
            all.len() == ops@.len(),
            ops_view(ops@) == recovered(log@),
            all == op_entries(recovered(log@)),
            forall|k: KeyView|
                #[trigger] newest(latest@, k) == newest(all.take(i as int), k),
        decreases ops@.len() - i,
    {
        let ghost before = latest@;
        proof {
            assert(all.take(i + 1).drop_last() =~= all.take(i as int));
            assert(ops_view(ops@)[i as int] == ops@[i as int]@);
            assert(all.take(i + 1).last() == op_entry(ops@[i as int]@));
        }
        match &ops[i] {
            Operation::Insert { key, seq, value } => {
                latest.absorb(copy_key(key), *seq, Some(copy_bytes(value)));
            },
            Operation::Update { key, seq, value } => {
                latest.absorb(copy_key(key), *seq, Some(copy_bytes(value)));
            },
            Operation::Delete { key, seq } => {
                latest.absorb(copy_key(key), *seq, None);
            },
        }
        proof {
            assert forall|k: KeyView| #[trigger] newest(latest@, k) == newest(
                all.take(i + 1),
                k,
            ) by {
                assert(newest(before, k) == newest(all.take(i as int), k));
            }
        }
        i += 1;
    }
    assert(all.take(i as int) =~= all);
    latest
}

/// What is appended for entries that are logged one by one.
pub open spec fn appends_entries(appends: Seq<Append>, added: Seq<EntryView>) -> bool {
    &&& appends.len() == added.len()
    &&& forall|i: int| #![trigger appends[i]]
        0 <= i < appends.len() ==> appends[i].bytes@ == appended(seq![entry_op(added[i])])
}

/// What is appended one by one is synced as the default policy has it.
pub open spec fn syncs_in_turn(appends: Seq<Append>, unsynced: nat) -> bool {
    forall|i: int| #![trigger appends[i]]
        0 <= i < appends.len() ==> appends[i].sync == sync_falls_due(
            left_unsynced_singly(unsynced, i as nat),
            1,
        )
}

/// `h` and some further entries, which are logged by what is appended.
pub open spec fn goes_on(
    now: Seq<EntryView>,
    h: Seq<EntryView>,
    appends: Seq<Append>,
) -> bool {
    &&& now.len() == h.len() + appends.len()
    &&& now.take(h.len() as int) == h
    &&& appends_entries(appends, now.skip(h.len() as int))
}

/// `now` is `h` and, in the order of their keys, exactly the newest entries of
/// `orphan` that are newer than what `h` has under their keys.
pub open spec fn merged_in(
    now: Seq<EntryView>,
    h: Seq<EntryView>,
    orphan: Seq<EntryView>,
) -> bool {
    &&& h.len() <= now.len()
    &&& now.take(h.len() as int) == h
    &&& is_run(now.skip(h.len() as int))
    &&& forall|i: int|
        h.len() <= i < now.len() ==> newest(orphan, (#[trigger] now[i]).0) == Some(
            (now[i].1, now[i].2),
        ) && (newest(h, now[i].0) matches Some((s, _)) ==> s < now[i].1)
    &&& forall|k: KeyView|
        #[trigger] newest(now, k) == fresher(newest(h, k), newest(orphan, k))
}

/// Takes over from an orphaned log what is newer than in the active memtable.
/// It tells what is to be appended to the log of the memtable.
pub fn merge_orphan(active: &mut ColumnarMemtable, log: &[u8]) -> (r: Vec<Append>)
    requires
        old(active).wf(),
    ensures
        final(active).wf(),
        final(active).log_name() == old(active).log_name(),
        goes_on(final(active).history(), old(active).history(), r@),
        syncs_in_turn(r@, old(active).unsynced()),
        final(active).unsynced() == left_unsynced_singly(old(active).unsynced(), r@.len()),
        merged_in(
            final(active).history(),
            old(active).history(),
            op_entries(recovered(log@)),
        ),
{
    let latest = latest_in(log);
    let rows = latest.rows();
    let ghost h = active.history();
    let ghost all = entries_view(rows@);
    let mut out: Vec<Append> = Vec::new();
    let mut i: usize = 0;
    proof {
        assert(h.take(h.len() as int) =~= h);
        assert(h.skip(h.len() as int) =~= Seq::empty());
        assert(all.take(0) =~= Seq::empty());
    }
    while i < rows.len()
        invariant
            i <= rows@.len(),
            active.wf(),
            active.log_name() == old(active).log_name(),
            h == old(active).history(),
            all == entries_view(rows@),
            is_run(all),
            goes_on(active.history(), h, out@),
            syncs_in_turn(out@, old(active).unsynced()),
            active.unsynced() == left_unsynced_singly(old(active).unsynced(), out@.len()),
            is_run(active.history().skip(h.len() as int)),
            forall|x: int|
                h.len() <= x < active.history().len() ==> all.take(i as int).contains(
                    #[trigger] active.history()[x],
                ) && (newest(h, active.history()[x].0) matches Some((s, _)) ==> s
                    < active.history()[x].1),
            forall|k: KeyView|
                #[trigger] newest(active.history(), k) == fresher(
                    newest(h, k),
                    newest(all.take(i as int), k),
                ),
        decreases rows@.len() - i,
    {
        let e = &rows[i];
        let ghost before = active.history();
        let ghost had = out@;
        let ghost view = entry_view(*e);
        proof {
            assert(all.take(i + 1).drop_last() =~= all.take(i as int));
            assert(all.take(i + 1).last() == view);
            lemma_unseen(all, i as int);
            assert(newest(before, view.0) == fresher(
                newest(h, view.0),
                newest(all.take(i as int), view.0),
            ));
            lemma_can_log(*active, 1);
        }
        let keep = match active.get(&e.0) {
            Some((s, _)) => s >= e.1,
            None => false,
        };
        if !keep {
            let pending = active.write(copy_key(&e.0), e.1, copy_value(&e.2));
            let append = Append {
                bytes: copy_bytes(&pending.append.bytes),
                sync: pending.append.sync,
            };
            active.finish_write(pending);
            out.push(append);
            proof {
                let now = active.history();
                assert(now =~= before.push(view));
                assert(now.take(h.len() as int) =~= before.take(h.len() as int));
                let added = now.skip(h.len() as int);
                let old_added = before.skip(h.len() as int);
                assert(added =~= old_added.push(view));
                assert forall|x: int, y: int| #![trigger added[x], added[y]]
                    0 <= x < y < added.len() implies key_lt(added[x].0, added[y].0) by {
                    assert(added[x] == old_added[x]);
                    if y < old_added.len() {
                        assert(added[y] == old_added[y]);
                    } else {
                        assert(before[h.len() + x] == old_added[x]);
                        let j = choose|j: int|
                            0 <= j < all.take(i as int).len() && all.take(i as int)[j]
                                == old_added[x];
                        assert(key_lt(all[j].0, all[i as int].0));
                    }
                }
                assert forall|x: int| #![trigger out@[x]] 0 <= x < out@.len() implies out@[x].bytes@
                    == appended(seq![entry_op(added[x])]) by {
                    if x < had.len() {
                        assert(out@[x] == had[x]);
                        assert(had[x].bytes@ == appended(seq![entry_op(old_added[x])]));
                    }
                }
            }
        }
        proof {
            assert forall|x: int| h.len() <= x < active.history().len() implies all.take(
                i + 1,
            ).contains(#[trigger] active.history()[x]) && (newest(
                h,
                active.history()[x].0,
            ) matches Some((s, _)) ==> s < active.history()[x].1) by {
                if x < before.len() {
                    assert(active.history()[x] == before[x]);
                    let j = choose|j: int|
                        0 <= j < all.take(i as int).len() && all.take(i as int)[j] == before[x];
                    assert(all.take(i + 1)[j] == before[x]);
                } else {
                    assert(all.take(i + 1)[i as int] == view);
                }
            }
            assert forall|k: KeyView| #[trigger] newest(active.history(), k) == fresher(
                newest(h, k),
                newest(all.take(i + 1), k),
            ) by {
                assert(newest(before, k) == fresher(newest(h, k), newest(all.take(i as int), k)));
                lemma_newest_push(before, view, k);
            }
        }
        i += 1;
    }
    proof {
        assert(all.take(i as int) =~= all);
        let now = active.history();
        let orphan = op_entries(recovered(log@));
        assert forall|x: int| h.len() <= x < now.len() implies newest(
            orphan,
            (#[trigger] now[x]).0,
        ) == Some((now[x].1, now[x].2)) by {
            let j = choose|j: int| 0 <= j < all.len() && all[j] == now[x];
            lemma_newest_in_run(all, j);
            assert(newest(all, now[x].0) == newest(orphan, now[x].0));
        }
    }
    out
}

proof fn lemma_unseen(run: Seq<EntryView>, i: int)
    requires
        is_run(run),
        0 <= i < run.len(),
    ensures
        newest(run.take(i), run[i].0) is None,
{
    broadcast use group_key_order;

    let p = run.take(i);
    lemma_newest_none(p, run[i].0);
    assert forall|j: int| 0 <= j < p.len() implies (#[trigger] p[j]).0 != run[i].0 by {
        assert(p[j] == run[j]);
        assert(key_lt(run[j].0, run[i].0));
    }
}

/// The entries of a manifest are put one after the other right behind the last whose
/// number is not higher, so those with the same number keep their order.
pub proof fn law_manifest_entries_are_put_in_order(
    s: Seq<ManifestEntry>,
    e: ManifestEntry,
    id: usize,
)
    ensures
        entries_by_number(Seq::<ManifestEntry>::empty()) == Seq::<ManifestEntry>::empty(),
        entries_by_number(s.push(e)) == entries_by_number(s).insert(
            entry_place(entries_by_number(s), e.id) as int,
            e,
        ),
        entry_place(s, id) <= s.len(),
        forall|x: int| entry_place(s, id) <= x < s.len() ==> (#[trigger] s[x]).id > id,
        entry_place(s, id) > 0 ==> s[entry_place(s, id) - 1].id <= id,
{
    assert(s.push(e).drop_last() =~= s);
    lemma_entry_place(s, id);
}

proof fn lemma_entry_place(s: Seq<ManifestEntry>, id: usize)
    ensures
        entry_place(s, id) <= s.len(),
        forall|x: int| entry_place(s, id) <= x < s.len() ==> (#[trigger] s[x]).id > id,
        entry_place(s, id) > 0 ==> s[entry_place(s, id) - 1].id <= id,
    decreases s.len(),
{
    if s.len() > 0 && s.last().id > id {
        let p = s.drop_last();
        lemma_entry_place(p, id);
        assert forall|x: int| entry_place(s, id) <= x < s.len() implies (
        #[trigger] s[x]).id > id by {
            if x < p.len() {
                assert(p[x] == s[x]);
            }
        }
    }
}

/// The manifest lists a table by its number, file, first and last key and count.
pub proof fn law_manifest_lists_tables(e: ManifestEntry, t: SSTable)
    ensures
        lists_table(e, t) <==> e.id == t.number() && e.path@ == t.file() && e.min_key.0@
            == t.first_key().0 && e.min_key.1 == t.first_key().1 && e.max_key.0@ == t.last_key().0
            && e.max_key.1 == t.last_key().1 && e.entry_count == t.count(),
{
}

/// A file is adopted exactly where its name is that of a table, no table has that file
/// yet, and its number is above those of all tables.
pub proof fn law_younger_files_are_strays(ssts: Seq<SSTable>, name: Seq<char>)
    ensures
        is_stray(ssts, name) <==> names_sst(name) && (sst_id_of(name) matches Some(id) && forall|
            i: int,
        | #![trigger ssts[i]]
            0 <= i < ssts.len() ==> ssts[i].file() != name && ssts[i].number() < id),
        ssts.len() == 0 ==> top_number(ssts) is None,
        ssts.len() > 0 ==> (top_number(ssts) matches Some(top) && (exists|i: int|
            0 <= i < ssts.len() && (#[trigger] ssts[i]).number() == top) && forall|i: int|
            0 <= i < ssts.len() ==> (#[trigger] ssts[i]).number() <= top),
{
    lemma_top_is_one(ssts);
    assert forall|i: int| #![trigger ssts[i]] 0 <= i < ssts.len() implies (top_number(
        ssts,
    ) matches Some(top) && ssts[i].number() <= top) by {
        lemma_top_number(ssts, i);
    }
    if names_sst(name) && (sst_id_of(name) matches Some(id) && forall|i: int| #![trigger ssts[i]]
        0 <= i < ssts.len() ==> ssts[i].file() != name && ssts[i].number() < id) {
        if ssts.len() > 0 {
            let i = choose|i: int|
                0 <= i < ssts.len() && Some((#[trigger] ssts[i]).number()) == top_number(ssts);
            assert(ssts[i].number() < sst_id_of(name).unwrap());
        }
    }
}

proof fn lemma_top_is_one(ssts: Seq<SSTable>)
    ensures
        ssts.len() > 0 ==> exists|i: int|
            0 <= i < ssts.len() && Some((#[trigger] ssts[i]).number()) == top_number(ssts),
    decreases ssts.len(),
{
    if ssts.len() > 0 {
        let p = ssts.drop_last();
        lemma_top_is_one(p);
        assert(ssts[ssts.len() - 1] == ssts.last());
        if p.len() > 0 {
            let i = choose|i: int|
                0 <= i < p.len() && Some((#[trigger] p[i]).number()) == top_number(p);
            assert(ssts[i] == p[i]);
        }
    }
}

/// The logs are all files with the name of a log, each as often as it occurs, in the
/// order of their names.
pub proof fn law_all_logs_are_found(names: Seq<Seq<char>>)
    ensures
        log_names(names).to_multiset() == names.filter(
            |name: Seq<char>| names_wal(name),
        ).to_multiset(),
        forall|i: int, j: int| #![trigger log_names(names)[i], log_names(names)[j]]
            0 <= i < j < log_names(names).len() ==> !chars_lt(
                log_names(names)[j],
                log_names(names)[i],
            ),
    decreases names.len(),
{
    reveal(Seq::filter);
    law_logs_in_order(names);
    let f = |name: Seq<char>| names_wal(name);
    if names.len() > 0 {
        let p = names.drop_last();
        let name = names.last();
        law_all_logs_are_found(p);
        law_logs_in_order(p);
        assert(names.filter(f) == if f(name) {
            p.filter(f).push(name)
        } else {
            p.filter(f)
        });
        if names_wal(name) {
            let before = log_names(p);
            lemma_name_place(before, name);
            vstd::seq_lib::to_multiset_insert(before, name_place(before, name) as int, name);
            p.filter(f).to_multiset_ensures();
        }
    } else {
        assert(log_names(names) =~= names.filter(f));
    }
}

/// What is taken over from an orphaned log comes after what was there, and each row of
/// it is one of the log that is newer than every row under its key; no key comes
/// twice.
pub proof fn law_only_newer_rows_are_taken_over(
    now: Seq<EntryView>,
    h: Seq<EntryView>,
    orphan: Seq<EntryView>,
    i: int,
)
    requires
        merged_in(now, h, orphan),
        h.len() <= i < now.len(),
    ensures
        h.is_prefix_of(now),
        orphan.contains(now[i]),
        forall|j: int|
            0 <= j < orphan.len() && (#[trigger] orphan[j]).0 == now[i].0 ==> orphan[j].1
                <= now[i].1,
        forall|j: int| 0 <= j < h.len() && (#[trigger] h[j]).0 == now[i].0 ==> h[j].1 < now[i].1,
        forall|j: int| h.len() <= j < now.len() && j != i ==> (#[trigger] now[j]).0 != now[i].0,
{
    let k = now[i].0;
    crate::entries::lemma_newest_is_max(orphan, k);
    lemma_newest_none(h, k);
    if newest(h, k) is Some {
        crate::entries::lemma_newest_is_max(h, k);
    }
    let added = now.skip(h.len() as int);
    assert forall|j: int| h.len() <= j < now.len() && j != i implies (#[trigger] now[j]).0 != k by {
        crate::order::key_order_irreflexive(k);
        let (a, b) = (i - h.len(), j - h.len());
        assert(added[a] == now[i] && added[b] == now[j]);
        if a < b {
            assert(key_lt(added[a].0, added[b].0));
        } else {
            assert(key_lt(added[b].0, added[a].0));
        }
    }
}

/// What is appended for rows that are taken over: one frame for each, in their order,
/// synced when it is due.
pub proof fn law_rows_are_logged_one_by_one(
    now: Seq<EntryView>,
    h: Seq<EntryView>,
    appends: Seq<Append>,
    unsynced: nat,
    i: int,
)
    requires
        goes_on(now, h, appends),
        syncs_in_turn(appends, unsynced),
        0 <= i < appends.len(),
    ensures
        now.len() == h.len() + appends.len(),
        h.is_prefix_of(now),
        appends[i].bytes@ == appended(seq![entry_op(now[h.len() + i])]),
        appends[i].sync == (left_unsynced_singly(unsynced, i as nat) + 1 >= 100),
{
    assert(now.skip(h.len() as int)[i] == now[h.len() + i]);
}

/// What a list of numbered files stands for: number and name of each, in order.
pub proof fn law_files_stand_for_themselves(s: Seq<(usize, String)>, names: Seq<String>)
    ensures
        files_view(s).len() == s.len(),
        forall|i: int| #![trigger files_view(s)[i]]
            0 <= i < s.len() ==> files_view(s)[i].0 == s[i].0 && files_view(s)[i].1 == s[i].1@,
        names_view(names).len() == names.len(),
        forall|i: int| #![trigger names_view(names)[i]]
            0 <= i < names.len() ==> names_view(names)[i] == names[i]@,
{
}

} // verus!
