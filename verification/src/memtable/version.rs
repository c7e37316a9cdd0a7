//! The layers of a region at one moment, and what they say of a key.

use vstd::prelude::*;
use crate::batch::{batches_rows, row_entries, Batch};
use crate::entries::{
    best_of, flat_rows, fresher, lemma_best_of, lemma_flat_rows, lemma_newest_bounded,
    lemma_newest_is_max, lemma_newest_none, newest, visible, EntryView,
};
use crate::memtable::columnar::{ColumnarMemtable, FrozenColumnar};
use crate::memtable::traits::{ImmutableMemtable, Memtable};
use crate::schema::TableSchema;
use crate::sstable::index::group_rows;
use crate::sstable::sstable::{all_readable, search, SSTable};
use crate::types::{copy_key, copy_value, key_view, value_view, Key, KeyView, Value};

verus! {

/// The layers of a region: the memtable that is written to, those that wait
/// to be flushed, and the tables.
pub struct Version {
    pub active: ColumnarMemtable,
    pub immutables: Vec<FrozenColumnar>,
    pub ssts: Vec<SSTable>,
    pub seq: u64,
}

/// The rows of frozen memtables, the last one first.
pub open spec fn frozen_layers(immutables: Seq<FrozenColumnar>) -> Seq<Seq<EntryView>> {
    Seq::new(immutables.len(), |i: int| immutables[immutables.len() - 1 - i].history())
}

/// The rows of tables, the last one first.
pub open spec fn table_layers(tables: Seq<Seq<EntryView>>) -> Seq<Seq<EntryView>> {
    Seq::new(tables.len(), |i: int| tables[tables.len() - 1 - i])
}

impl Version {
    /// All layers are arranged as reads and writes need it.
    pub open spec fn wf(&self) -> bool {
        &&& self.active.wf()
        &&& forall|i: int|
            0 <= i < self.immutables@.len() ==> (#[trigger] self.immutables@[i]).wf()
        &&& forall|j: int| 0 <= j < self.ssts@.len() ==> (#[trigger] self.ssts@[j]).wf()
    }

    /// `tables` are the rows that the tables hold in their files.
    pub open spec fn holds(&self, tables: Seq<Seq<EntryView>>) -> bool {
        &&& tables.len() == self.ssts@.len()
        &&& forall|j: int|
            0 <= j < tables.len() ==> (#[trigger] self.ssts@[j]).describes(tables[j])
    }

    /// The rows of all layers, in the order in which they are asked.
    pub open spec fn layers(&self, tables: Seq<Seq<EntryView>>) -> Seq<Seq<EntryView>> {
        seq![self.active.history()] + frozen_layers(self.immutables@) + table_layers(tables)
    }

    /// All rows, layer by layer.
    pub open spec fn rows(&self, tables: Seq<Seq<EntryView>>) -> Seq<EntryView> {
        flat_rows(self.layers(tables))
    }

    /// A version without frozen memtables.
    pub fn new(active: ColumnarMemtable, ssts: Vec<SSTable>, seq: u64) -> (r: Version)
        ensures
            r.active == active,
            r.ssts == ssts,
            r.seq == seq,
            r.immutables@.len() == 0,
    {
        Version { active, immutables: Vec::new(), ssts, seq }
    }

    /// Freezes the active memtable and puts another in its place.
    pub fn freeze(&mut self, new_active: ColumnarMemtable)
        requires
            old(self).wf(),
            new_active.wf(),
        ensures
            final(self).wf(),
            final(self).active == new_active,
            final(self).ssts == old(self).ssts,
            final(self).seq == old(self).seq,
            final(self).immutables@.len() == old(self).immutables@.len() + 1,
            forall|i: int|
                0 <= i < old(self).immutables@.len() ==> #[trigger] final(self).immutables@[i]
                    == old(self).immutables@[i],
            final(self).immutables@[old(self).immutables@.len() as int].history()
                == old(self).active.history(),
            final(self).immutables@[old(self).immutables@.len() as int].log_name()
                == old(self).active.log_name(),
    {
        let ghost before = self.immutables@;
        let mut held = new_active;
        std::mem::swap(&mut held, &mut self.active);
        self.immutables.push(held.freeze());
        proof {
            assert forall|i: int| 0 <= i < self.immutables@.len() implies (
            #[trigger] self.immutables@[i]).wf() by {
                if i < before.len() {
                    assert(self.immutables@[i] == before[i]);
                }
            }
        }
    }

    /// The version with the active memtable frozen and another in its place.
    pub fn with_frozen(self, new_active: ColumnarMemtable) -> (r: Version)
        requires
            self.wf(),
            new_active.wf(),
        ensures
            r.wf(),
            r.active == new_active,
            r.ssts == self.ssts,
            r.seq == self.seq,
            r.immutables@.len() == self.immutables@.len() + 1,
            forall|i: int|
                0 <= i < self.immutables@.len() ==> #[trigger] r.immutables@[i]
                    == self.immutables@[i],
            r.immutables@[self.immutables@.len() as int].history() == self.active.history(),
            r.immutables@[self.immutables@.len() as int].log_name() == self.active.log_name(),
    {
        let mut v = self;
        v.freeze(new_active);
        v
    }

    /// The newest version in the memtables.
    pub fn get_in_memory(&self, key: &Key) -> (r: Option<(u64, Option<Value>)>)
        requires
            self.wf(),
        ensures
            found_view(r) == best_of(
                seq![self.active.history()] + frozen_layers(self.immutables@),
                key_view(*key),
            ),
    {
        let ghost k = key_view(*key);
        let ghost layers = seq![self.active.history()] + frozen_layers(self.immutables@);
        let mut best = self.active.get(key);
        let n: usize = self.immutables.len();
        let mut i: usize = 0;
        proof {
            let one = layers.take(1);
            assert(one =~= seq![self.active.history()]);
            assert(one.drop_last() =~= Seq::empty());
            assert(best_of(one.drop_last(), k) is None);
        }
        while i < n
            invariant
                i <= n,
                n == self.immutables@.len(),
                self.wf(),
                k == key_view(*key),
                layers == seq![self.active.history()] + frozen_layers(self.immutables@),
                found_view(best) == best_of(layers.take(i + 1), k),
            decreases n - i,
        {
            let imm = &self.immutables[n - 1 - i];
            proof {
                assert(imm.wf());
                assert(layers.take(i + 2).drop_last() =~= layers.take(i + 1));
                assert(layers.take(i + 2).last() == imm.history());
                lemma_newest_bounded(imm.history(), k);
            }
            let due = match &best {
                Some((s, _)) => imm.max_seq() > *s,
                None => true,
            };
            if due {
                best = keep_fresher(best, imm.get(key));
            }
            i += 1;
        }
        assert(layers.take(n + 1) =~= layers);
        best
    }
}

/// What a found version stands for.
pub open spec fn found_view(r: Option<(u64, Option<Value>)>) -> Option<(u64, Option<Seq<u8>>)> {
    match r {
        Some((seq, v)) => Some((seq, value_view(v))),
        None => None,
    }
}

/// The fresher of two found versions.
pub fn keep_fresher(
    a: Option<(u64, Option<Value>)>,
    b: Option<(u64, Option<Value>)>,
) -> (r: Option<(u64, Option<Value>)>)
    ensures
        found_view(r) == fresher(found_view(a), found_view(b)),
{
    let newer = match (&a, &b) {
        (None, _) => true,
        (Some(_), None) => false,
        (Some(x), Some(y)) => x.0 < y.0,
    };
    if newer {
        b
    } else {
        a
    }
}

/// A search for the newest version under a key. The memtables were asked; the
/// tables are asked from the last to the first.
pub struct Lookup {
    key: Key,
    best: Option<(u64, Option<Value>)>,
    next: usize,
    hits: Ghost<Map<int, Option<(u64, Option<Seq<u8>>)>>>,
}

impl Lookup {
    /// The key that is looked for.
    pub closed spec fn target(&self) -> KeyView {
        key_view(self.key)
    }

    /// The newest version so far.
    pub closed spec fn best_view(&self) -> Option<(u64, Option<Seq<u8>>)> {
        found_view(self.best)
    }

    /// How many tables are still to be asked.
    pub closed spec fn left(&self) -> usize {
        self.next
    }

    /// What was found in the tables that were read.
    pub closed spec fn answers(&self) -> Map<int, Option<(u64, Option<Seq<u8>>)>> {
        self.hits@
    }

    /// What was found in the tables that were read is what they hold.
    pub open spec fn truthful(&self, tables: Seq<Seq<EntryView>>) -> bool {
        forall|j: int| #[trigger]
            self.answers().dom().contains(j) ==> 0 <= j < tables.len() && self.answers()[j]
                == newest(tables[j], self.target())
    }

    /// The best so far is the best of the layers that were asked.
    pub open spec fn wf(&self, v: Version) -> bool {
        &&& self.left() <= v.ssts@.len()
        &&& forall|j: int| #[trigger] self.answers().dom().contains(j) ==> self.left() <= j
        &&& forall|tables: Seq<Seq<EntryView>>| #[trigger]
            v.holds(tables) && self.truthful(tables) ==> self.best_view() == best_of(
                v.layers(tables).take(
                    1 + v.immutables@.len() + (v.ssts@.len() - self.left()),
                ),
                self.target(),
            )
    }

    /// Starts a search.
    pub fn start(v: &Version, key: &Key) -> (r: Self)
        requires
            v.wf(),
        ensures
            r.wf(*v),
            r.target() == key_view(*key),
            r.left() == v.ssts@.len(),
            r.answers() == Map::<int, Option<(u64, Option<Seq<u8>>)>>::empty(),
    {
        let best = v.get_in_memory(key);
        let r = Lookup {
            key: copy_key(key),
            best,
            next: v.ssts.len(),
            hits: Ghost(Map::empty()),
        };
        proof {
            assert forall|tables: Seq<Seq<EntryView>>| #[trigger]
                v.holds(tables) && r.truthful(tables) implies r.best_view() == best_of(
                v.layers(tables).take(1 + v.immutables@.len() + (v.ssts@.len() - r.left())),
                r.target(),
            ) by {
                assert(v.layers(tables).take((1 + v.immutables@.len()) as int) =~= seq![
                    v.active.history(),
                ] + frozen_layers(v.immutables@));
            }
        }
        r
    }

    /// Passes over the tables that cannot hold a newer version, and says which
    /// row group of which table is to be read next.
    pub fn step(&mut self, v: &Version) -> (r: Option<(usize, usize)>)
        requires
            v.wf(),
            old(self).wf(*v),
        ensures
            final(self).wf(*v),
            final(self).target() == old(self).target(),
            final(self).best_view() == old(self).best_view(),
            final(self).answers() == old(self).answers(),
            final(self).left() <= old(self).left(),
            match r {
                None => final(self).left() == 0,
                Some((j, g)) => {
                    &&& j + 1 == final(self).left()
                    &&& g < v.ssts@[j as int].index_of().row_groups@.len()
                    &&& forall|rows: Seq<EntryView>| #[trigger]
                        v.ssts@[j as int].describes(rows) ==> search(
                            group_rows(v.ssts@[j as int].index_of().row_groups@, rows, g as int),
                            final(self).target(),
                        ) == newest(rows, final(self).target())
                },
            },
    {
        while self.next > 0
            invariant
                v.wf(),
                self.wf(*v),
                self.target() == old(self).target(),
                self.best_view() == old(self).best_view(),
                self.answers() == old(self).answers(),
                self.left() <= old(self).left(),
            decreases self.next,
        {
            let j: usize = self.next - 1;
            let ghost k = self.target();
            let ghost before = *self;
            let sst = &v.ssts[j];
            assert(v.ssts@[j as int].wf());
            let due = match &self.best {
                Some((s, _)) => sst.max_seq() > *s,
                None => true,
            };
            if due {
                match sst.locate(&self.key) {
                    Some(g) => {
                        proof {
                            assert forall|rows: Seq<EntryView>| #[trigger]
                                v.ssts@[j as int].describes(rows) implies search(
                                group_rows(
                                    v.ssts@[j as int].index_of().row_groups@,
                                    rows,
                                    g as int,
                                ),
                                k,
                            ) == newest(rows, k) by {
                                crate::sstable::sstable::lemma_search_run(
                                    group_rows(
                                        v.ssts@[j as int].index_of().row_groups@,
                                        rows,
                                        g as int,
                                    ),
                                    k,
                                );
                            }
                        }
                        return Some((j, g));
                    },
                    None => {},
                }
            }
            self.next = j;
            proof {
                assert forall|tables: Seq<Seq<EntryView>>| #[trigger]
                    v.holds(tables) && self.truthful(tables) implies self.best_view() == best_of(
                    v.layers(tables).take(
                        1 + v.immutables@.len() + (v.ssts@.len() - self.left()),
                    ),
                    self.target(),
                ) by {
                    assert(before.truthful(tables));
                    lemma_next_layer(*v, tables, j as int);
                    assert(v.ssts@[j as int].describes(tables[j as int]));
                    lemma_newest_bounded(tables[j as int], k);
                }
            }
        }
        None
    }

    /// Takes the batches of the row group that was read.
    pub fn answer(&mut self, v: &Version, schema: &TableSchema, batches: &Vec<Batch>)
        requires
            old(self).wf(*v),
            0 < old(self).left(),
            all_readable(batches@, *schema),
        ensures
            final(self).wf(*v),
            final(self).target() == old(self).target(),
            final(self).left() == old(self).left() - 1,
            final(self).answers() == old(self).answers().insert(
                old(self).left() - 1,
                search(row_entries(*schema, batches_rows(batches@)), old(self).target()),
            ),
    {
        let j: usize = self.next - 1;
        let ghost k = self.target();
        let ghost before = *self;
        let hit = v.ssts[j].get(&self.key, schema, batches);
        let ghost answer = search(row_entries(*schema, batches_rows(batches@)), k);
        let mut held: Option<(u64, Option<Value>)> = None;
        std::mem::swap(&mut held, &mut self.best);
        self.best = keep_fresher(held, hit);
        self.next = j;
        self.hits = Ghost(self.hits@.insert(j as int, answer));
        proof {
            assert forall|x: int| #[trigger] self.answers().dom().contains(x) implies self.left()
                <= x by {
                if x != j {
                    assert(before.answers().dom().contains(x));
                }
            }
            assert forall|tables: Seq<Seq<EntryView>>| #[trigger]
                v.holds(tables) && self.truthful(tables) implies self.best_view() == best_of(
                v.layers(tables).take(1 + v.immutables@.len() + (v.ssts@.len() - self.left())),
                self.target(),
            ) by {
                assert(before.truthful(tables)) by {
                    assert forall|x: int| #[trigger] before.answers().dom().contains(
                        x,
                    ) implies 0 <= x < tables.len() && before.answers()[x] == newest(
                        tables[x],
                        before.target(),
                    ) by {
                        assert(self.answers().dom().contains(x));
                    }
                }
                assert(self.answers().dom().contains(j as int));
                lemma_next_layer(*v, tables, j as int);
            }
        }
    }

    /// The newest version, when all tables were asked.
    pub fn found(&self, v: &Version) -> (r: &Option<(u64, Option<Value>)>)
        requires
            self.wf(*v),
            self.left() == 0,
        ensures
            found_view(*r) == self.best_view(),
            forall|tables: Seq<Seq<EntryView>>| #[trigger]
                v.holds(tables) && self.truthful(tables) ==> found_view(*r) == newest(
                    v.rows(tables),
                    self.target(),
                ),
    {
        proof {
            assert forall|tables: Seq<Seq<EntryView>>| #[trigger]
                v.holds(tables) && self.truthful(tables) implies self.best_view() == newest(
                v.rows(tables),
                self.target(),
            ) by {
                lemma_best_of(v.layers(tables), self.target());
                assert(v.layers(tables).take(
                    (1 + v.immutables@.len() + v.ssts@.len()) as int,
                ) =~= v.layers(tables));
            }
        }
        &self.best
    }

    /// The value that a reader sees, when all tables were asked.
    pub fn value(&self, v: &Version) -> (r: Option<Value>)
        requires
            self.wf(*v),
            self.left() == 0,
        ensures
            value_view(r) == visible(self.best_view()),
            forall|tables: Seq<Seq<EntryView>>| #[trigger]
                v.holds(tables) && self.truthful(tables) ==> value_view(r) == visible(
                    newest(v.rows(tables), self.target()),
                ),
    {
        match self.found(v) {
            Some((_, value)) => copy_value(value),
            None => None,
        }
    }

    /// The sequence number of the newest version, when all tables were asked.
    pub fn seq(&self, v: &Version) -> (r: Option<u64>)
        requires
            self.wf(*v),
            self.left() == 0,
        ensures
            r == seq_of(self.best_view()),
            forall|tables: Seq<Seq<EntryView>>| #[trigger]
                v.holds(tables) && self.truthful(tables) ==> r == seq_of(
                    newest(v.rows(tables), self.target()),
                ),
    {
        match self.found(v) {
            Some((seq, _)) => Some(*seq),
            None => None,
        }
    }
}

/// The sequence number of a version.
pub open spec fn seq_of(v: Option<(u64, Option<Seq<u8>>)>) -> Option<u64> {
    match v {
        Some((seq, _)) => Some(seq),
        None => None,
    }
}

proof fn lemma_next_layer(v: Version, tables: Seq<Seq<EntryView>>, j: int)
    requires
        v.holds(tables),
        0 <= j < v.ssts@.len(),
    ensures
        ({
            let n = 1 + v.immutables@.len() + (v.ssts@.len() - (j + 1));
            let more = v.layers(tables).take(n + 1);
            &&& more.len() > 0
            &&& more.drop_last() == v.layers(tables).take(n)
            &&& more.last() == tables[j]
        }),
{
    let n = 1 + v.immutables@.len() + (v.ssts@.len() - (j + 1));
    let more = v.layers(tables).take(n + 1);
    assert(more.drop_last() =~= v.layers(tables).take(n));
    assert(table_layers(tables)[v.ssts@.len() - (j + 1)] == tables[j]);
}

/// The layers are asked in this order: the active memtable, the frozen ones from the
/// youngest to the oldest, the tables from the youngest to the oldest.
pub proof fn law_layers_are_asked_from_the_youngest(v: Version, tables: Seq<Seq<EntryView>>)
    ensures
        v.layers(tables).len() == 1 + v.immutables@.len() + tables.len(),
        v.layers(tables)[0] == v.active.history(),
        forall|i: int| #![trigger v.immutables@[i]]
            0 <= i < v.immutables@.len() ==> v.layers(tables)[v.immutables@.len() - i]
                == v.immutables@[i].history(),
        forall|j: int| #![trigger tables[j]]
            0 <= j < tables.len() ==> v.layers(tables)[v.immutables@.len() + tables.len() - j]
                == tables[j],
        v.rows(tables) == flat_rows(v.layers(tables)),
{
}

/// Every layer counts: what is read under a key is a row of some layer, and no layer
/// has a row under the key with a higher number.
pub proof fn law_every_layer_counts(v: Version, tables: Seq<Seq<EntryView>>, k: KeyView)
    ensures
        newest(v.rows(tables), k) matches Some((seq, value)) ==> v.active.history().contains(
            (k, seq, value),
        ) || (exists|i: int|
            0 <= i < v.immutables@.len() && (#[trigger] v.immutables@[i]).history().contains(
                (k, seq, value),
            )) || (exists|j: int|
            0 <= j < tables.len() && (#[trigger] tables[j]).contains((k, seq, value))),
        forall|e: EntryView| #[trigger] v.active.history().contains(e) && e.0 == k ==> (newest(
            v.rows(tables),
            k,
        ) matches Some((seq, _)) && e.1 <= seq),
        forall|i: int, e: EntryView|
            0 <= i < v.immutables@.len() && #[trigger] v.immutables@[i].history().contains(e) && e.0
                == k ==> (newest(v.rows(tables), k) matches Some((seq, _)) && e.1 <= seq),
        forall|j: int, e: EntryView|
            0 <= j < tables.len() && #[trigger] tables[j].contains(e) && e.0 == k ==> (newest(
                v.rows(tables),
                k,
            ) matches Some((seq, _)) && e.1 <= seq),
{
    let layers = v.layers(tables);
    let rows = v.rows(tables);
    let n = v.immutables@.len();
    law_layers_are_asked_from_the_youngest(v, tables);
    lemma_flat_rows(layers);
    lemma_newest_none(rows, k);
    if newest(rows, k) is Some {
        lemma_newest_is_max(rows, k);
        let (seq, value) = newest(rows, k).unwrap();
        let x = choose|x: int| 0 <= x < rows.len() && #[trigger] rows[x] == (k, seq, value);
        assert(flat_rows(layers)[x] == (k, seq, value));
        let l = choose|l: int|
            0 <= l < layers.len() && (#[trigger] layers[l]).contains(flat_rows(layers)[x]);
        if 0 < l <= n {
            assert(layers[n - (n - l)] == v.immutables@[n - l].history());
        } else if l > n {
            let j = n + tables.len() - l;
            assert(layers[n + tables.len() - j] == tables[j]);
        }
    }
    assert forall|l: int, e: EntryView|
        0 <= l < layers.len() && #[trigger] layers[l].contains(e) && e.0 == k implies (newest(
        rows,
        k,
    ) matches Some((seq, _)) && e.1 <= seq) by {
        let x = choose|x: int| 0 <= x < layers[l].len() && layers[l][x] == e;
        assert(flat_rows(layers).contains(layers[l][x]));
        let y = choose|y: int| 0 <= y < rows.len() && rows[y] == e;
        assert(rows[y].0 == k);
        lemma_newest_is_max(rows, k);
    }
    assert forall|e: EntryView| #[trigger] v.active.history().contains(e) && e.0 == k implies (
    newest(rows, k) matches Some((seq, _)) && e.1 <= seq) by {
        assert(layers[0].contains(e));
    }
    assert forall|i: int, e: EntryView|
        0 <= i < v.immutables@.len() && #[trigger] v.immutables@[i].history().contains(e) && e.0
            == k implies (newest(rows, k) matches Some((seq, _)) && e.1 <= seq) by {
        assert(layers[n - i] == v.immutables@[i].history());
        assert(layers[n - i].contains(e));
    }
    assert forall|j: int, e: EntryView|
        0 <= j < tables.len() && #[trigger] tables[j].contains(e) && e.0 == k implies (newest(
        rows,
        k,
    ) matches Some((seq, _)) && e.1 <= seq) by {
        assert(layers[n + tables.len() - j] == tables[j]);
        assert(layers[n + tables.len() - j].contains(e));
    }
}

/// What a found version stands for: its number and value as they are.
pub proof fn law_found_versions_stand_for_themselves(seq: u64, v: Option<Value>)
    ensures
        found_view(Some((seq, v))) == Some((seq, value_view(v))),
        found_view(None) is None,
        seq_of(Some((seq, value_view(v)))) == Some(seq),
        seq_of(None) is None,
{
}

} // verus!
