//! Merges sorted sources into one sorted stream with the newest version of
//! every row.
//!
//! The merge does not read its sources. It says which source it needs a batch
//! of; the batch, or the news that there is none, is handed to it.

use vstd::prelude::*;
use crate::batch::{is_timed, key_at, keyed, keyed_rows, Batch, KeyedRow, Cells, OP_DELETE};
use crate::entries::{
    best_of, flat_rows, is_run, lemma_best_of, lemma_newest_concat, lemma_newest_none, newest,
};
use crate::order::{group_key_order, key_le, key_less, key_lt, key_same};
use crate::run::lemma_run_lookup;
use crate::schema::TableSchema;
use crate::types::{copy_key, key_view, Key, KeyView};

verus! {

broadcast use group_key_order;

/// How many rows a batch of the merged stream has at most.
pub const BATCH_ROWS: usize = 10_000;

/// What the merge does next.
pub enum MergeStep {
    /// It needs the next batch of a source.
    NeedBatch(usize),
    /// It hands out a batch.
    Output(Batch),
    /// All rows were handed out.
    Done,
}

/// Why a batch of a source is refused.
#[derive(Debug, Clone, Copy, PartialEq, Eq, Structural)]
pub enum MergeError {
    /// A row of the source does not follow the row before it.
    Unsorted(usize),
}

/// Where the merge is in one source.
struct Cursor {
    batch: Batch,
    keys: Vec<Key>,
    row: usize,
    last: Option<Key>,
    finished: bool,
}

/// What the merged stream shows of the newest version: deletions only where
/// they are to be kept.
pub open spec fn shown(v: Option<(u64, (i8, Cells))>, keep_tombstones: bool) -> Option<
    (u64, (i8, Cells)),
> {
    match v {
        Some((seq, (op, cells))) => if keep_tombstones || op != OP_DELETE {
            v
        } else {
            None
        },
        None => None,
    }
}

/// `rows` is the sorted stream of the newest versions in the sources.
pub open spec fn is_merge(
    rows: Seq<KeyedRow>,
    sources: Seq<Seq<KeyedRow>>,
    keep_tombstones: bool,
) -> bool {
    &&& is_run(rows)
    &&& forall|k: KeyView|
        #[trigger] newest(rows, k) == shown(newest(flat_rows(sources), k), keep_tombstones)
}

/// The first `pos[s]` rows of every source.
pub open spec fn firsts(fed: Seq<Seq<KeyedRow>>, pos: Seq<int>) -> Seq<Seq<KeyedRow>> {
    Seq::new(fed.len(), |s: int| fed[s].take(pos[s]))
}

impl Cursor {
    spec fn wf(&self, schema: TableSchema, fed: Seq<KeyedRow>) -> bool {
        let own = keyed_rows(schema, self.batch.rows());
        &&& self.batch.readable(schema)
        &&& self.keys@.len() == own.len()
        &&& forall|i: int| 0 <= i < own.len() ==> key_view(#[trigger] self.keys@[i]) == own[i].0
        &&& self.row <= self.keys@.len()
        &&& own.len() <= fed.len()
        &&& fed.skip(fed.len() - own.len()) == own
        &&& is_run(fed)
        &&& match self.last {
            None => fed.len() == 0,
            Some(k) => fed.len() > 0 && key_view(k) == fed[fed.len() - 1].0,
        }
    }

    /// How many rows of the source were taken.
    spec fn pos(&self, fed: Seq<KeyedRow>) -> int {
        fed.len() - self.keys@.len() + self.row
    }

    spec fn left(&self) -> nat {
        (self.keys@.len() - self.row) as nat
    }
}

/// How many rows are left in the batches at hand.
spec fn total_left(cursors: Seq<Cursor>) -> nat
    decreases cursors.len(),
{
    if cursors.len() == 0 {
        0
    } else {
        total_left(cursors.drop_last()) + cursors.last().left()
    }
}

proof fn lemma_total_left(a: Seq<Cursor>, b: Seq<Cursor>, at: int)
    requires
        a.len() == b.len(),
        0 <= at < a.len(),
        forall|s: int| 0 <= s < a.len() ==> (#[trigger] b[s]).left() <= a[s].left(),
        b[at].left() < a[at].left(),
    ensures
        total_left(b) < total_left(a),
    decreases a.len(),
{
    let n = a.len() - 1;
    if at < n {
        assert forall|s: int| 0 <= s < n implies (#[trigger] b.drop_last()[s]).left()
            <= a.drop_last()[s].left() by {
            assert(b.drop_last()[s] == b[s]);
        }
        lemma_total_left(a.drop_last(), b.drop_last(), at);
        assert(b[n].left() <= a[n].left());
    } else {
        assert forall|s: int| 0 <= s < n implies (#[trigger] b.drop_last()[s]).left()
            <= a.drop_last()[s].left() by {
            assert(b.drop_last()[s] == b[s]);
        }
        lemma_total_le(a.drop_last(), b.drop_last());
    }
}

proof fn lemma_total_le(a: Seq<Cursor>, b: Seq<Cursor>)
    requires
        a.len() == b.len(),
        forall|s: int| 0 <= s < a.len() ==> (#[trigger] b[s]).left() <= a[s].left(),
    ensures
        total_left(b) <= total_left(a),
    decreases a.len(),
{
    if a.len() > 0 {
        let n = a.len() - 1;
        assert forall|s: int| 0 <= s < n implies (#[trigger] b.drop_last()[s]).left()
            <= a.drop_last()[s].left() by {
            assert(b.drop_last()[s] == b[s]);
        }
        lemma_total_le(a.drop_last(), b.drop_last());
        assert(b[n].left() <= a[n].left());
    }
}

/// Merges sorted sources.
pub struct MergeBatchIter {
    cursors: Vec<Cursor>,
    out: Batch,
    keep_tombstones: bool,
    fed: Ghost<Seq<Seq<KeyedRow>>>,
    handed: Ghost<Seq<KeyedRow>>,
}

/// What was taken of `x` comes before what is left of `y`.
spec fn ahead(x: Seq<KeyedRow>, p: int, y: Seq<KeyedRow>, q: int) -> bool {
    0 < p && q < y.len() ==> key_lt(x[p - 1].0, y[q].0)
}

/// What was taken of `x` does not reach beyond what `y` has given.
spec fn behind(x: Seq<KeyedRow>, p: int, y: Seq<KeyedRow>) -> bool {
    0 < p ==> y.len() > 0 && key_le(x[p - 1].0, y[y.len() - 1].0)
}

spec fn positions(cursors: Seq<Cursor>, fed: Seq<Seq<KeyedRow>>) -> Seq<int> {
    Seq::new(cursors.len(), |s: int| cursors[s].pos(fed[s]))
}

spec fn all_wf(cursors: Seq<Cursor>, fed: Seq<Seq<KeyedRow>>, schema: TableSchema) -> bool {
    &&& fed.len() == cursors.len()
    &&& forall|s: int| 0 <= s < cursors.len() ==> (#[trigger] cursors[s]).wf(schema, fed[s])
}

spec fn all_ahead(fed: Seq<Seq<KeyedRow>>, pos: Seq<int>) -> bool {
    forall|a: int, b: int|
        0 <= a < fed.len() && 0 <= b < fed.len() ==> #[trigger] ahead(
            fed[a],
            pos[a],
            fed[b],
            pos[b],
        )
}

spec fn all_behind(cursors: Seq<Cursor>, fed: Seq<Seq<KeyedRow>>, pos: Seq<int>) -> bool {
    forall|a: int, b: int|
        0 <= a < fed.len() && 0 <= b < fed.len() && !cursors[b].finished ==> #[trigger] behind(
            fed[a],
            pos[a],
            fed[b],
        )
}

/// The state of a merge, seen as rows.
spec fn merge_state(
    cursors: Seq<Cursor>,
    fed: Seq<Seq<KeyedRow>>,
    emitted: Seq<KeyedRow>,
    schema: TableSchema,
    keep_tombstones: bool,
) -> bool {
    &&& all_wf(cursors, fed, schema)
    &&& all_ahead(fed, positions(cursors, fed))
    &&& all_behind(cursors, fed, positions(cursors, fed))
    &&& is_merge(emitted, firsts(fed, positions(cursors, fed)), keep_tombstones)
}

/// The keys of a batch, if each follows the one before it.
fn extract_keys(batch: &Batch, schema: &TableSchema, prev_tail: &Option<Key>) -> (r: Option<
    Vec<Key>,
>)
    requires
        batch.readable(*schema),
    ensures
        match r {
            None => !follows(*prev_tail, keyed_rows(*schema, batch.rows())),
            Some(keys) => {
                &&& follows(*prev_tail, keyed_rows(*schema, batch.rows()))
                &&& keys@.len() == batch.rows().len()
                &&& forall|i: int|
                    0 <= i < keys@.len() ==> key_view(#[trigger] keys@[i]) == keyed_rows(
                        *schema,
                        batch.rows(),
                    )[i].0
            },
        },
{
    let ghost own = keyed_rows(*schema, batch.rows());
    let mut out: Vec<Key> = Vec::new();
    let mut i: usize = 0;
    while i < batch.num_rows()
        invariant
            i <= own.len(),
            batch.readable(*schema),
            own == keyed_rows(*schema, batch.rows()),
            out@.len() == i,
            forall|j: int| 0 <= j < i ==> key_view(#[trigger] out@[j]) == own[j].0,
            i > 0 && prev_tail is Some ==> key_lt(key_view(prev_tail->0), own[0].0),
            forall|a: int, b: int| #![trigger own[a], own[b]]
                0 <= a < b < i ==> key_lt(own[a].0, own[b].0),
        decreases own.len() - i,
    {
        let key = key_at(batch, schema, i);
        assert(key_view(key) == own[i as int].0);
        if i == 0 {
            let sorted = match prev_tail {
                Some(p) => key_less(p, &key),
                None => true,
            };
            if !sorted {
                assert(!follows(*prev_tail, own));
                return None;
            }
        } else {
            assert(key_view(out@[i - 1]) == own[i - 1].0);
            if !key_less(&out[i - 1], &key) {
                assert(!key_lt(own[i - 1].0, own[i as int].0));
                assert(!is_run(own));
                return None;
            }
            assert forall|a: int, b: int| #![trigger own[a], own[b]]
                0 <= a < b < i + 1 implies key_lt(own[a].0, own[b].0) by {
                if b == i && a < i - 1 {
                    assert(key_lt(own[a].0, own[i - 1].0));
                }
            }
        }
        out.push(key);
        i += 1;
    }
    Some(out)
}

/// The rows are in the order of their keys, and the first follows `prev`.
pub open spec fn follows(prev: Option<Key>, rows: Seq<KeyedRow>) -> bool {
    &&& is_run(rows)
    &&& rows.len() > 0 && prev is Some ==> key_lt(key_view(prev->0), rows[0].0)
}

impl MergeBatchIter {
    /// What the sources have given so far.
    pub closed spec fn fed(&self) -> Seq<Seq<KeyedRow>> {
        self.fed@
    }

    /// What was handed out so far.
    pub closed spec fn handed(&self) -> Seq<KeyedRow> {
        self.handed@
    }

    /// Whether deletions are handed out too.
    pub closed spec fn keeps(&self) -> bool {
        self.keep_tombstones
    }

    /// The source has no more batches.
    pub closed spec fn is_finished(&self, src: int) -> bool {
        self.cursors@[src].finished
    }

    /// All rows that the source has given were taken.
    pub closed spec fn is_drained(&self, src: int) -> bool {
        self.cursors@[src].row == self.cursors@[src].keys@.len()
    }

    /// The merge waits for a batch of the source.
    pub open spec fn awaits(&self, src: int) -> bool {
        0 <= src < self.fed().len() && !self.is_finished(src) && self.is_drained(src)
    }

    /// No source has more batches, and all rows that they have given were taken.
    pub open spec fn is_over(&self) -> bool {
        forall|s: int|
            0 <= s < self.fed().len() ==> #[trigger] self.is_finished(s) && self.is_drained(s)
    }

    /// What was given, taken, buffered and handed out fits together.
    pub closed spec fn wf(&self, schema: TableSchema) -> bool {
        self.holds(schema) && self.out.rows().len() < BATCH_ROWS
    }

    spec fn holds(&self, schema: TableSchema) -> bool {
        &&& self.out.readable(schema)
        &&& self.out.rows().len() <= BATCH_ROWS
        &&& merge_state(
            self.cursors@,
            self.fed@,
            self.handed@ + keyed_rows(schema, self.out.rows()),
            schema,
            self.keep_tombstones,
        )
    }

    /// A merge of some number of sources. Deletions are dropped unless they
    /// are to be kept.
    pub fn new(sources: usize, keep_tombstones: bool, schema: &TableSchema) -> (r: Self)
        requires
            schema.in_range(),
        ensures
            r.wf(*schema),
            r.fed().len() == sources,
            forall|s: int|
                0 <= s < sources ==> (#[trigger] r.fed()[s]) == Seq::<KeyedRow>::empty()
                    && r.awaits(s),
            r.handed() == Seq::<KeyedRow>::empty(),
            r.keeps() == keep_tombstones,
    {
        let ghost none: Seq<Seq<KeyedRow>> = Seq::new(sources as nat, |s: int| Seq::empty());
        let mut cursors: Vec<Cursor> = Vec::new();
        while cursors.len() < sources
            invariant
                cursors@.len() <= sources,
                schema.in_range(),
                forall|s: int|
                    0 <= s < cursors@.len() ==> (#[trigger] cursors@[s]).wf(
                        *schema,
                        Seq::<KeyedRow>::empty(),
                    ) && !cursors@[s].finished && cursors@[s].row == 0 && cursors@[s].keys@.len()
                        == 0,
            decreases sources - cursors@.len(),
        {
            let cursor = Cursor {
                batch: Batch::empty(schema.columns.len()),
                keys: Vec::new(),
                row: 0,
                last: None,
                finished: false,
            };
            proof {
                let own = keyed_rows(*schema, cursor.batch.rows());
                assert(own =~= Seq::<KeyedRow>::empty());
                assert(Seq::<KeyedRow>::empty().skip(0) =~= own);
            }
            cursors.push(cursor);
        }
        let r = MergeBatchIter {
            cursors,
            out: Batch::empty(schema.columns.len()),
            keep_tombstones,
            fed: Ghost(none),
            handed: Ghost(Seq::empty()),
        };
        proof {
            let emitted = r.handed@ + keyed_rows(*schema, r.out.rows());
            assert(emitted =~= Seq::<KeyedRow>::empty());
            let pos = positions(r.cursors@, none);
            let f = firsts(none, pos);
            assert forall|k: KeyView| #[trigger] newest(emitted, k) == shown(
                newest(flat_rows(f), k),
                keep_tombstones,
            ) by {
                lemma_best_of(f, k);
                lemma_all_empty(f, k);
            }
        }
        r
    }

    /// Takes the next batch of a source. It is refused where its rows are not
    /// in the order of their keys or do not follow those of the batch before.
    pub fn supply(&mut self, src: usize, batch: Batch, schema: &TableSchema) -> (r: Result<
        (),
        MergeError,
    >)
        requires
            old(self).wf(*schema),
            old(self).awaits(src as int),
            batch.readable(*schema),
        ensures
            final(self).wf(*schema),
            final(self).handed() == old(self).handed(),
            final(self).keeps() == old(self).keeps(),
            ({
                let more = keyed_rows(*schema, batch.rows());
                let all = old(self).fed()[src as int] + more;
                &&& r is Ok <==> is_run(all)
                &&& r is Err ==> r == Err::<(), _>(MergeError::Unsorted(src))
                &&& final(self).fed() == if r is Ok {
                    old(self).fed().update(src as int, all)
                } else {
                    old(self).fed()
                }
            }),
            forall|s: int|
                0 <= s < old(self).fed().len() ==> #[trigger] final(self).is_finished(s)
                    == old(self).is_finished(s),
    {
        let ghost before = self.cursors@;
        let ghost fed = self.fed@;
        let ghost own = fed[src as int];
        let ghost more = keyed_rows(*schema, batch.rows());
        let ghost all = own + more;
        let ghost emitted = self.handed@ + keyed_rows(*schema, self.out.rows());
        assert(before[src as int].wf(*schema, own));
        let keys = match extract_keys(&batch, schema, &self.cursors[src].last) {
            Some(keys) => keys,
            None => {
                proof {
                    lemma_follows(before[src as int].last, own, more);
                }
                return Err(MergeError::Unsorted(src));
            },
        };
        proof {
            lemma_follows(before[src as int].last, own, more);
        }
        let last: Option<Key> = if keys.len() > 0 {
            Some(copy_key(&keys[keys.len() - 1]))
        } else {
            match &self.cursors[src].last {
                Some(k) => Some(copy_key(k)),
                None => None,
            }
        };
        let cursor = Cursor { batch, keys, row: 0, last, finished: false };
        self.cursors.set(src, cursor);
        self.fed = Ghost(fed.update(src as int, all));
        proof {
            let now = self.cursors@;
            let next = self.fed@;
            assert(all.skip(all.len() - more.len()) =~= more);
            assert(cursor.wf(*schema, all));
            assert forall|s: int| 0 <= s < now.len() implies (#[trigger] now[s]).wf(
                *schema,
                next[s],
            ) by {
                if s != src {
                    assert(now[s] == before[s]);
                }
            }
            let p = positions(before, fed);
            let q = positions(now, next);
            assert(p =~= q);
            assert(firsts(next, q) =~= firsts(fed, p)) by {
                assert forall|s: int| 0 <= s < next.len() implies next[s].take(q[s])
                    == fed[s].take(p[s]) by {
                    if s == src {
                        assert(all.take(q[s]) =~= own.take(p[s]));
                    }
                }
            }
            let c = before[src as int];
            assert(p[src as int] == own.len());
            assert forall|a: int, b: int|
                0 <= a < next.len() && 0 <= b < next.len() implies #[trigger] ahead(
                next[a],
                q[a],
                next[b],
                q[b],
            ) by {
                assert(before[a].wf(*schema, fed[a]));
                assert(ahead(fed[a], p[a], fed[b], p[b]));
                assert(behind(fed[a], p[a], fed[src as int]));
                if b == src && q[a] > 0 && more.len() > 0 {
                    assert(next[a][q[a] - 1] == fed[a][p[a] - 1]);
                    assert(all[own.len() - 1] == own[own.len() - 1]);
                    assert(key_lt(all[own.len() - 1].0, all[own.len() as int].0));
                }
                if a == src && q[a] > 0 {
                    assert(next[a][q[a] - 1] == own[p[a] - 1]);
                }
            }
            assert forall|a: int, b: int|
                0 <= a < next.len() && 0 <= b < next.len()
                    && !now[b].finished implies #[trigger] behind(next[a], q[a], next[b]) by {
                assert(before[a].wf(*schema, fed[a]));
                assert(behind(fed[a], p[a], fed[b]));
                if q[a] > 0 {
                    assert(next[a][q[a] - 1] == fed[a][p[a] - 1]);
                    if b == src && more.len() > 0 {
                        assert(all[own.len() - 1] == own[own.len() - 1]);
                        assert(key_lt(all[own.len() - 1].0, all[all.len() - 1].0));
                    } else if b == src {
                        assert(all =~= own);
                    }
                }
            }
        }
        Ok(())
    }

    /// Takes note that a source has no more batches.
    pub fn finish(&mut self, src: usize, schema: &TableSchema)
        requires
            old(self).wf(*schema),
            old(self).awaits(src as int),
        ensures
            final(self).wf(*schema),
            final(self).fed() == old(self).fed(),
            final(self).handed() == old(self).handed(),
            final(self).keeps() == old(self).keeps(),
            forall|s: int|
                0 <= s < old(self).fed().len() ==> #[trigger] final(self).is_finished(s) == (s
                    == src || old(self).is_finished(s)),
    {
        let ghost before = self.cursors@;
        let ghost fed = self.fed@;
        assert(before[src as int].wf(*schema, fed[src as int]));
        self.cursors[src].finished = true;
        proof {
            let now = self.cursors@;
            let p = positions(before, fed);
            let q = positions(now, fed);
            assert(p =~= q);
            assert forall|s: int| 0 <= s < now.len() implies (#[trigger] now[s]).wf(
                *schema,
                fed[s],
            ) by {
                assert(before[s].wf(*schema, fed[s]));
            }
            assert forall|a: int, b: int|
                0 <= a < fed.len() && 0 <= b < fed.len()
                    && !now[b].finished implies #[trigger] behind(fed[a], q[a], fed[b]) by {
                assert(!before[b].finished);
                assert(behind(fed[a], p[a], fed[b]));
            }
        }
    }
}

/// The rows at the positions, where they have the key.
spec fn heads_at(fed: Seq<Seq<KeyedRow>>, pos: Seq<int>, k: KeyView) -> Seq<Seq<KeyedRow>> {
    Seq::new(
        fed.len(),
        |s: int|
            if pos[s] < fed[s].len() && fed[s][pos[s]].0 == k {
                seq![fed[s][pos[s]]]
            } else {
                Seq::empty()
            },
    )
}

proof fn lemma_single<T>(e: (KeyView, u64, T), k: KeyView)
    ensures
        newest(seq![e], k) == if e.0 == k {
            Some((e.1, e.2))
        } else {
            None
        },
{
    let s = seq![e];
    assert(s.drop_last() =~= Seq::empty());
    assert(newest(s.drop_last(), k) is None);
}

proof fn lemma_best_same(a: Seq<Seq<KeyedRow>>, b: Seq<Seq<KeyedRow>>, k: KeyView)
    requires
        a.len() == b.len(),
        forall|s: int| 0 <= s < a.len() ==> newest(#[trigger] a[s], k) == newest(b[s], k),
    ensures
        best_of(a, k) == best_of(b, k),
    decreases a.len(),
{
    if a.len() > 0 {
        let x = a.drop_last();
        let y = b.drop_last();
        assert forall|s: int| 0 <= s < x.len() implies newest(#[trigger] x[s], k) == newest(
            y[s],
            k,
        ) by {
            assert(x[s] == a[s] && y[s] == b[s]);
        }
        lemma_best_same(x, y, k);
        assert(newest(a[a.len() - 1], k) == newest(b[b.len() - 1], k));
    }
}

proof fn lemma_best_some(a: Seq<Seq<KeyedRow>>, k: KeyView)
    requires
        best_of(a, k) is Some,
    ensures
        exists|s: int| 0 <= s < a.len() && newest(#[trigger] a[s], k) is Some,
    decreases a.len(),
{
    let x = a.drop_last();
    if best_of(x, k) is Some {
        lemma_best_some(x, k);
        let s = choose|s: int| 0 <= s < x.len() && newest(#[trigger] x[s], k) is Some;
        assert(a[s] == x[s]);
    } else {
        assert(newest(a[a.len() - 1], k) is Some);
    }
}

/// The positions are within runs.
spec fn in_runs(fed: Seq<Seq<KeyedRow>>, pos: Seq<int>) -> bool {
    &&& fed.len() == pos.len()
    &&& forall|s: int| #![trigger fed[s]]
        0 <= s < fed.len() ==> is_run(fed[s]) && 0 <= pos[s] <= fed[s].len()
}

/// `k` is the lowest key at the positions, and `next` are the positions after
/// the rows under it.
spec fn takes_lowest(
    fed: Seq<Seq<KeyedRow>>,
    pos: Seq<int>,
    next: Seq<int>,
    k: KeyView,
    m: int,
) -> bool {
    &&& 0 <= m < fed.len()
    &&& pos[m] < fed[m].len()
    &&& fed[m][pos[m]].0 == k
    &&& next.len() == pos.len()
    &&& forall|s: int| #![trigger fed[s]]
        0 <= s < fed.len() && pos[s] < fed[s].len() ==> key_le(k, fed[s][pos[s]].0)
    &&& forall|s: int| #![trigger next[s]]
        0 <= s < fed.len() ==> next[s] == if pos[s] < fed[s].len() && fed[s][pos[s]].0 == k {
            pos[s] + 1
        } else {
            pos[s]
        }
}

/// What was taken before comes before the lowest key.
proof fn lemma_taken_lower(
    fed: Seq<Seq<KeyedRow>>,
    pos: Seq<int>,
    next: Seq<int>,
    k: KeyView,
    m: int,
    s: int,
    i: int,
)
    requires
        in_runs(fed, pos),
        all_ahead(fed, pos),
        takes_lowest(fed, pos, next, k, m),
        0 <= s < fed.len(),
        0 <= i < pos[s],
    ensures
        key_lt(fed[s][i].0, k),
{
    assert(ahead(fed[s], pos[s], fed[m], pos[m]));
    if i < pos[s] - 1 {
        assert(key_lt(fed[s][i].0, fed[s][pos[s] - 1].0));
    }
}

proof fn lemma_next_ahead(
    fed: Seq<Seq<KeyedRow>>,
    pos: Seq<int>,
    next: Seq<int>,
    k: KeyView,
    m: int,
)
    requires
        in_runs(fed, pos),
        all_ahead(fed, pos),
        takes_lowest(fed, pos, next, k, m),
    ensures
        in_runs(fed, next),
        all_ahead(fed, next),
{
    assert forall|a: int, b: int| 0 <= a < fed.len() && 0 <= b < fed.len() implies #[trigger] ahead(
        fed[a],
        next[a],
        fed[b],
        next[b],
    ) by {
        assert(ahead(fed[a], pos[a], fed[b], pos[b]));
        assert(next[a] >= pos[a] && next[b] >= pos[b]);
        if 0 < next[a] && next[b] < fed[b].len() {
            if next[b] > pos[b] {
                assert(key_lt(fed[b][pos[b]].0, fed[b][next[b]].0));
            }
            if next[a] == pos[a] {
                lemma_taken_lower(fed, pos, next, k, m, a, pos[a] - 1);
            }
        }
    }
}

/// The newest of what was taken of one source, after the lowest key.
proof fn lemma_next_newest(
    fed: Seq<Seq<KeyedRow>>,
    pos: Seq<int>,
    next: Seq<int>,
    k: KeyView,
    m: int,
    s: int,
    x: KeyView,
)
    requires
        in_runs(fed, pos),
        all_ahead(fed, pos),
        takes_lowest(fed, pos, next, k, m),
        0 <= s < fed.len(),
    ensures
        x != k ==> newest(fed[s].take(next[s]), x) == newest(fed[s].take(pos[s]), x),
        x == k ==> newest(fed[s].take(pos[s]), x) is None,
        x == k ==> newest(fed[s].take(next[s]), x) == newest(heads_at(fed, pos, k)[s], x),
{
    let t = fed[s].take(pos[s]);
    if x == k {
        assert forall|i: int| 0 <= i < t.len() implies (#[trigger] t[i]).0 != k by {
            lemma_taken_lower(fed, pos, next, k, m, s, i);
        }
        lemma_newest_none(t, k);
    }
    assert(next[s] == pos[s] || next[s] == pos[s] + 1);
    if next[s] == pos[s] + 1 {
        let u = fed[s].take(next[s]);
        assert(u.drop_last() =~= t);
        assert(u.last() == fed[s][pos[s]]);
        lemma_single(fed[s][pos[s]], x);
    }
}

/// Emitting the winner under the lowest key.
proof fn lemma_emit(
    fed: Seq<Seq<KeyedRow>>,
    pos: Seq<int>,
    next: Seq<int>,
    k: KeyView,
    m: int,
    before: Seq<KeyedRow>,
    after: Seq<KeyedRow>,
    keep_tombstones: bool,
)
    requires
        in_runs(fed, pos),
        all_ahead(fed, pos),
        takes_lowest(fed, pos, next, k, m),
        is_merge(before, firsts(fed, pos), keep_tombstones),
        after == match shown(best_of(heads_at(fed, pos, k), k), keep_tombstones) {
            Some((seq, row)) => before.push((k, seq, row)),
            None => before,
        },
    ensures
        is_merge(after, firsts(fed, next), keep_tombstones),
{
    let f = firsts(fed, pos);
    let g = firsts(fed, next);
    let heads = heads_at(fed, pos, k);
    let win = shown(best_of(heads, k), keep_tombstones);
    // nothing was emitted under the lowest key or a higher one
    assert forall|i: int| 0 <= i < before.len() implies key_lt((#[trigger] before[i]).0, k) by {
        let x = before[i].0;
        lemma_run_lookup(before, x);
        assert(newest(before, x) is Some);
        lemma_best_of(f, x);
        lemma_best_some(f, x);
        let s = choose|s: int| 0 <= s < f.len() && newest(#[trigger] f[s], x) is Some;
        lemma_newest_none(f[s], x);
        let j = choose|j: int| 0 <= j < f[s].len() && (#[trigger] f[s][j]).0 == x;
        assert(f[s][j] == fed[s][j]);
        lemma_taken_lower(fed, pos, next, k, m, s, j);
    }
    assert(is_run(after)) by {
        assert forall|i: int, j: int| #![trigger after[i], after[j]]
            0 <= i < j < after.len() implies key_lt(after[i].0, after[j].0) by {
            assert(after[i] == before[i]);
            if j < before.len() {
                assert(after[j] == before[j]);
            }
        }
    }
    assert forall|x: KeyView| #[trigger] newest(after, x) == shown(
        newest(flat_rows(g), x),
        keep_tombstones,
    ) by {
        lemma_best_of(f, x);
        lemma_best_of(g, x);
        assert(newest(before, x) == shown(newest(flat_rows(f), x), keep_tombstones));
        if win is Some {
            assert(after.drop_last() =~= before);
        }
        if x == k {
            assert forall|s: int| 0 <= s < g.len() implies newest(#[trigger] g[s], x) == newest(
                heads[s],
                x,
            ) by {
                lemma_next_newest(fed, pos, next, k, m, s, x);
            }
            lemma_best_same(g, heads, x);
            assert forall|i: int| 0 <= i < before.len() implies (#[trigger] before[i]).0 != x by {
                assert(key_lt(before[i].0, k));
            }
            lemma_newest_none(before, x);
        } else {
            assert forall|s: int| 0 <= s < g.len() implies newest(#[trigger] g[s], x) == newest(
                f[s],
                x,
            ) by {
                lemma_next_newest(fed, pos, next, k, m, s, x);
            }
            lemma_best_same(g, f, x);
        }
    }
}

/// The row at the cursor is the next row of the source.
proof fn lemma_head(c: Cursor, schema: TableSchema, fed: Seq<KeyedRow>)
    requires
        c.wf(schema, fed),
    ensures
        0 <= c.pos(fed) <= fed.len(),
        c.row < c.keys@.len() <==> c.pos(fed) < fed.len(),
        c.row < c.keys@.len() ==> fed[c.pos(fed)] == keyed(
            schema,
            c.batch.rows()[c.row as int],
        ) && key_view(c.keys@[c.row as int]) == fed[c.pos(fed)].0,
{
    let own = keyed_rows(schema, c.batch.rows());
    if c.row < c.keys@.len() {
        assert(fed.skip(fed.len() - own.len())[c.row as int] == fed[c.pos(fed)]);
    }
}

/// Moving past the rows under the lowest key moves the positions so.
proof fn lemma_took(
    before: Seq<Cursor>,
    now: Seq<Cursor>,
    fed: Seq<Seq<KeyedRow>>,
    schema: TableSchema,
    k: KeyView,
    m: int,
)
    requires
        all_wf(before, fed, schema),
        all_wf(now, fed, schema),
        0 <= m < before.len(),
        before[m].row < before[m].keys@.len(),
        key_view(before[m].keys@[before[m].row as int]) == k,
        forall|s: int|
            0 <= s < before.len() && (#[trigger] before[s]).row < before[s].keys@.len() ==> key_le(
                k,
                key_view(before[s].keys@[before[s].row as int]),
            ),
        forall|s: int| #![trigger now[s]]
            0 <= s < before.len() ==> now[s].keys == before[s].keys && now[s].row == if before[s].row
                < before[s].keys@.len() && key_view(before[s].keys@[before[s].row as int]) == k {
                before[s].row + 1
            } else {
                before[s].row as int
            },
    ensures
        in_runs(fed, positions(before, fed)),
        takes_lowest(fed, positions(before, fed), positions(now, fed), k, m),
{
    let pos = positions(before, fed);
    let next = positions(now, fed);
    assert forall|s: int| #![trigger fed[s]] 0 <= s < fed.len() implies is_run(fed[s]) && 0
        <= pos[s] <= fed[s].len() && (pos[s] < fed[s].len() ==> key_le(k, fed[s][pos[s]].0)) by {
        assert(before[s].wf(schema, fed[s]));
        lemma_head(before[s], schema, fed[s]);
    }
    assert(before[m].wf(schema, fed[m]));
    lemma_head(before[m], schema, fed[m]);
    assert forall|s: int| #![trigger next[s]] 0 <= s < fed.len() implies next[s] == if pos[s]
        < fed[s].len() && fed[s][pos[s]].0 == k {
        pos[s] + 1
    } else {
        pos[s]
    } by {
        assert(before[s].wf(schema, fed[s]));
        lemma_head(before[s], schema, fed[s]);
        assert(now[s].keys == before[s].keys);
    }
}

/// Unfinished sources have given rows up to the lowest key at least.
proof fn lemma_still_behind(
    before: Seq<Cursor>,
    now: Seq<Cursor>,
    fed: Seq<Seq<KeyedRow>>,
    schema: TableSchema,
    k: KeyView,
    m: int,
)
    requires
        all_wf(before, fed, schema),
        now.len() == before.len(),
        all_behind(before, fed, positions(before, fed)),
        in_runs(fed, positions(before, fed)),
        takes_lowest(fed, positions(before, fed), positions(now, fed), k, m),
        forall|s: int| #![trigger now[s]]
            0 <= s < before.len() ==> now[s].finished == before[s].finished,
        forall|s: int|
            0 <= s < before.len() ==> !(!(#[trigger] before[s]).finished && before[s].row
                == before[s].keys@.len()),
    ensures
        all_behind(now, fed, positions(now, fed)),
{
    let pos = positions(before, fed);
    let next = positions(now, fed);
    assert forall|a: int, b: int|
        0 <= a < fed.len() && 0 <= b < fed.len() && !now[b].finished implies #[trigger] behind(
        fed[a],
        next[a],
        fed[b],
    ) by {
        assert(now[b].finished == before[b].finished);
        assert(behind(fed[a], pos[a], fed[b]));
        assert(before[b].wf(schema, fed[b]));
        lemma_head(before[b], schema, fed[b]);
        assert(next[a] == pos[a] || next[a] == pos[a] + 1);
        if next[a] == pos[a] + 1 {
            assert(fed[a][next[a] - 1].0 == k);
            assert(key_le(k, fed[b][pos[b]].0));
            let n = fed[b].len() - 1;
            if pos[b] < n {
                assert(key_lt(fed[b][pos[b]].0, fed[b][n].0));
            }
        }
    }
}

impl MergeBatchIter {
    /// The first source that a batch is needed of.
    fn waiting(&self, schema: &TableSchema) -> (r: Option<usize>)
        requires
            self.wf(*schema),
        ensures
            match r {
                Some(src) => self.awaits(src as int),
                None => forall|s: int| !#[trigger] self.awaits(s),
            },
    {
        let mut s: usize = 0;
        while s < self.cursors.len()
            invariant
                s <= self.cursors@.len(),
                self.wf(*schema),
                forall|x: int| 0 <= x < s ==> !#[trigger] self.awaits(x),
            decreases self.cursors@.len() - s,
        {
            let c = &self.cursors[s];
            assert(c.wf(*schema, self.fed@[s as int]));
            if !c.finished && c.row >= c.keys.len() {
                return Some(s);
            }
            s += 1;
        }
        None
    }

    /// A source whose next row has the lowest key.
    fn lowest(&self, schema: &TableSchema) -> (r: Option<usize>)
        requires
            self.wf(*schema),
        ensures
            match r {
                None => forall|s: int|
                    0 <= s < self.cursors@.len() ==> (#[trigger] self.cursors@[s]).row
                        >= self.cursors@[s].keys@.len(),
                Some(m) => {
                    &&& m < self.cursors@.len()
                    &&& self.cursors@[m as int].row < self.cursors@[m as int].keys@.len()
                    &&& forall|s: int|
                        0 <= s < self.cursors@.len() && (#[trigger] self.cursors@[s]).row
                            < self.cursors@[s].keys@.len() ==> key_le(
                            key_view(
                                self.cursors@[m as int].keys@[self.cursors@[m as int].row as int],
                            ),
                            key_view(self.cursors@[s].keys@[self.cursors@[s].row as int]),
                        )
                },
            },
    {
        let mut best: Option<usize> = None;
        let mut s: usize = 0;
        while s < self.cursors.len()
            invariant
                s <= self.cursors@.len(),
                match best {
                    None => forall|x: int|
                        0 <= x < s ==> (#[trigger] self.cursors@[x]).row
                            >= self.cursors@[x].keys@.len(),
                    Some(m) => {
                        &&& m < s
                        &&& self.cursors@[m as int].row < self.cursors@[m as int].keys@.len()
                        &&& forall|x: int|
                            0 <= x < s && (#[trigger] self.cursors@[x]).row
                                < self.cursors@[x].keys@.len() ==> key_le(
                                key_view(
                                    self.cursors@[m as int].keys@[self.cursors@[m as int].row as int],
                                ),
                                key_view(self.cursors@[x].keys@[self.cursors@[x].row as int]),
                            )
                    },
                },
            decreases self.cursors@.len() - s,
        {
            let c = &self.cursors[s];
            if c.row < c.keys.len() {
                match best {
                    None => {
                        best = Some(s);
                    },
                    Some(m) => {
                        let b = &self.cursors[m];
                        if key_less(&c.keys[c.row], &b.keys[b.row]) {
                            best = Some(s);
                        }
                    },
                }
            }
            s += 1;
        }
        best
    }

    /// The source whose next row wins under the key: the one with the highest
    /// sequence number, the first of several.
    fn winner(&self, key: &Key, schema: &TableSchema) -> (r: Option<usize>)
        requires
            self.wf(*schema),
        ensures
            ({
                let pos = positions(self.cursors@, self.fed@);
                let best = best_of(heads_at(self.fed@, pos, key_view(*key)), key_view(*key));
                match r {
                    None => best is None,
                    Some(w) => {
                        &&& w < self.cursors@.len()
                        &&& self.cursors@[w as int].row < self.cursors@[w as int].keys@.len()
                        &&& self.fed@[w as int][pos[w as int]].0 == key_view(*key)
                        &&& best == Some(
                            (
                                self.fed@[w as int][pos[w as int]].1,
                                self.fed@[w as int][pos[w as int]].2,
                            ),
                        )
                    },
                }
            }),
    {
        let ghost k = key_view(*key);
        let ghost fed = self.fed@;
        let ghost pos = positions(self.cursors@, fed);
        let ghost heads = heads_at(fed, pos, k);
        let mut best: Option<usize> = None;
        let mut s: usize = 0;
        while s < self.cursors.len()
            invariant
                s <= self.cursors@.len(),
                self.wf(*schema),
                k == key_view(*key),
                fed == self.fed@,
                pos == positions(self.cursors@, fed),
                heads == heads_at(fed, pos, k),
                match best {
                    None => best_of(heads.take(s as int), k) is None,
                    Some(w) => {
                        &&& w < s
                        &&& self.cursors@[w as int].row < self.cursors@[w as int].keys@.len()
                        &&& fed[w as int][pos[w as int]].0 == k
                        &&& best_of(heads.take(s as int), k) == Some(
                            (fed[w as int][pos[w as int]].1, fed[w as int][pos[w as int]].2),
                        )
                    },
                },
            decreases self.cursors@.len() - s,
        {
            let c = &self.cursors[s];
            proof {
                assert(c.wf(*schema, fed[s as int]));
                lemma_head(*c, *schema, fed[s as int]);
                assert(heads.take(s + 1).drop_last() =~= heads.take(s as int));
                assert(heads.take(s + 1).last() == heads[s as int]);
                assert(pos[s as int] == c.pos(fed[s as int]));
                if pos[s as int] < fed[s as int].len() {
                    lemma_single(fed[s as int][pos[s as int]], k);
                }
            }
            if c.row < c.keys.len() && key_same(&c.keys[c.row], key) {
                let newer = match best {
                    None => true,
                    Some(w) => {
                        let b = &self.cursors[w];
                        proof {
                            assert(b.wf(*schema, fed[w as int]));
                            lemma_head(*b, *schema, fed[w as int]);
                        }
                        b.batch.seq_value(b.row) < c.batch.seq_value(c.row)
                    },
                };
                if newer {
                    best = Some(s);
                }
            }
            s += 1;
        }
        assert(heads.take(s as int) =~= heads);
        best
    }

    /// Moves past the rows under the key.
    fn advance(&mut self, key: &Key, schema: &TableSchema)
        requires
            all_wf(old(self).cursors@, old(self).fed@, *schema),
        ensures
            all_wf(final(self).cursors@, old(self).fed@, *schema),
            final(self).fed == old(self).fed,
            final(self).handed == old(self).handed,
            final(self).out == old(self).out,
            final(self).keep_tombstones == old(self).keep_tombstones,
            final(self).cursors@.len() == old(self).cursors@.len(),
            forall|s: int| #![trigger final(self).cursors@[s]]
                0 <= s < old(self).cursors@.len() ==> {
                    let c = old(self).cursors@[s];
                    let d = final(self).cursors@[s];
                    let hit = c.row < c.keys@.len() && key_view(c.keys@[c.row as int])
                        == key_view(*key);
                    &&& d.finished == c.finished
                    &&& d.keys == c.keys
                    &&& d.row == if hit {
                        c.row + 1
                    } else {
                        c.row as int
                    }
                },
    {
        let ghost before = self.cursors@;
        let ghost fed = self.fed@;
        let mut s: usize = 0;
        while s < self.cursors.len()
            invariant
                s <= before.len(),
                self.cursors@.len() == before.len(),
                all_wf(before, fed, *schema),
                self.fed@ == fed,
                self.fed == old(self).fed,
                self.handed == old(self).handed,
                self.out == old(self).out,
                self.keep_tombstones == old(self).keep_tombstones,
                forall|x: int| s <= x < before.len() ==> #[trigger] self.cursors@[x] == before[x],
                forall|x: int| #![trigger self.cursors@[x]]
                    0 <= x < s ==> {
                        let c = before[x];
                        let d = self.cursors@[x];
                        let hit = c.row < c.keys@.len() && key_view(c.keys@[c.row as int])
                            == key_view(*key);
                        &&& d.wf(*schema, fed[x])
                        &&& d.finished == c.finished
                        &&& d.keys == c.keys
                        &&& d.row == if hit {
                            c.row + 1
                        } else {
                            c.row as int
                        }
                    },
            decreases before.len() - s,
        {
            let ghost mid = self.cursors@;
            assert(self.cursors@[s as int] == before[s as int]);
            assert(before[s as int].wf(*schema, fed[s as int]));
            let row: usize = self.cursors[s].row;
            if row < self.cursors[s].keys.len() && key_same(&self.cursors[s].keys[row], key) {
                self.cursors[s].row = row + 1;
            }
            assert forall|x: int| 0 <= x < before.len() && x != s implies #[trigger] self.cursors@[x]
                == mid[x] by {}
            s += 1;
        }
    }

    /// Takes the rows under the lowest key and emits the winner.
    fn take_lowest(&mut self, m: usize, schema: &TableSchema)
        requires
            old(self).wf(*schema),
            forall|s: int| !#[trigger] old(self).awaits(s),
            m < old(self).cursors@.len(),
            old(self).cursors@[m as int].row < old(self).cursors@[m as int].keys@.len(),
            forall|s: int|
                0 <= s < old(self).cursors@.len() && (#[trigger] old(self).cursors@[s]).row
                    < old(self).cursors@[s].keys@.len() ==> key_le(
                    key_view(
                        old(self).cursors@[m as int].keys@[old(self).cursors@[m as int].row as int],
                    ),
                    key_view(old(self).cursors@[s].keys@[old(self).cursors@[s].row as int]),
                ),
        ensures
            final(self).holds(*schema),
            final(self).fed() == old(self).fed(),
            final(self).handed() == old(self).handed(),
            final(self).keeps() == old(self).keeps(),
            forall|s: int|
                0 <= s < old(self).fed().len() ==> #[trigger] final(self).is_finished(s)
                    == old(self).is_finished(s),
            total_left(final(self).cursors@) < total_left(old(self).cursors@),
    {
        let ghost before = self.cursors@;
        let ghost fed = self.fed@;
        let ghost pos = positions(before, fed);
        let ghost emitted = self.handed@ + keyed_rows(*schema, self.out.rows());
        let key = copy_key(&self.cursors[m].keys[self.cursors[m].row]);
        let ghost k = key_view(key);
        let ghost heads = heads_at(fed, pos, k);
        let ghost win = shown(best_of(heads, k), self.keep_tombstones);
        match self.winner(&key, schema) {
            None => {},
            Some(w) => {
                let c = &self.cursors[w];
                proof {
                    assert(c.wf(*schema, fed[w as int]));
                    lemma_head(*c, *schema, fed[w as int]);
                }
                let row: usize = c.row;
                let op: i8 = c.batch.op_type(row);
                if self.keep_tombstones || op != OP_DELETE {
                    let cells = c.batch.row_cells(row);
                    let seq: u64 = c.batch.seq_value(row);
                    let ghost r = c.batch.rows()[row as int];
                    let ghost had = self.out.rows();
                    assert(is_timed(*schema, r.2));
                    self.out.push(seq, op, cells);
                    proof {
                        assert(self.out.rows() == had.push(r));
                        assert(keyed_rows(*schema, self.out.rows()) =~= keyed_rows(
                            *schema,
                            had,
                        ).push(keyed(*schema, r)));
                        assert forall|j: int| 0 <= j < self.out.rows().len() implies is_timed(
                            *schema,
                            (#[trigger] self.out.rows()[j]).2,
                        ) by {
                            if j < had.len() {
                                assert(self.out.rows()[j] == had[j]);
                            }
                        }
                    }
                }
            },
        }
        let ghost after = self.handed@ + keyed_rows(*schema, self.out.rows());
        assert(after =~= match win {
            Some((seq, row)) => emitted.push((k, seq, row)),
            None => emitted,
        });
        self.advance(&key, schema);
        proof {
            let now = self.cursors@;
            let next = positions(now, fed);
            lemma_took(before, now, fed, *schema, k, m as int);
            lemma_next_ahead(fed, pos, next, k, m as int);
            lemma_emit(fed, pos, next, k, m as int, emitted, after, self.keep_tombstones);
            assert forall|s: int| 0 <= s < before.len() implies !(!(#[trigger] before[s]).finished
                && before[s].row == before[s].keys@.len()) by {
                assert(!old(self).awaits(s));
            }
            lemma_still_behind(before, now, fed, *schema, k, m as int);
            assert forall|s: int| 0 <= s < now.len() implies (#[trigger] now[s]).left()
                <= before[s].left() by {}
            lemma_total_left(before, now, m as int);
        }
    }

    /// Hands out what is buffered.
    fn take_output(&mut self, schema: &TableSchema) -> (r: Batch)
        requires
            old(self).holds(*schema),
        ensures
            final(self).wf(*schema),
            final(self).fed() == old(self).fed(),
            final(self).keeps() == old(self).keeps(),
            forall|s: int| #[trigger] final(self).is_finished(s) == old(self).is_finished(s),
            forall|s: int| #[trigger] final(self).is_drained(s) == old(self).is_drained(s),
            r == old(self).out,
            final(self).handed() == old(self).handed() + keyed_rows(*schema, r.rows()),
    {
        let mut r = Batch::empty(schema.columns.len());
        std::mem::swap(&mut r, &mut self.out);
        self.handed = Ghost(self.handed@ + keyed_rows(*schema, r.rows()));
        proof {
            assert(self.handed@ + keyed_rows(*schema, self.out.rows()) =~= self.handed@);
        }
        r
    }

    /// Goes on until a batch is needed or can be handed out.
    pub fn next_step(&mut self, schema: &TableSchema) -> (r: MergeStep)
        requires
            old(self).wf(*schema),
        ensures
            final(self).wf(*schema),
            final(self).fed() == old(self).fed(),
            final(self).keeps() == old(self).keeps(),
            forall|s: int|
                0 <= s < old(self).fed().len() ==> #[trigger] final(self).is_finished(s)
                    == old(self).is_finished(s),
            match r {
                MergeStep::NeedBatch(src) => {
                    &&& final(self).awaits(src as int)
                    &&& final(self).handed() == old(self).handed()
                },
                MergeStep::Output(batch) => {
                    &&& batch.readable(*schema)
                    &&& 0 < batch.rows().len() <= BATCH_ROWS
                    &&& batch.rows().len() <= 10_000
                    &&& batch.rows().len() < 10_000 ==> final(self).is_over()
                    &&& final(self).handed() == old(self).handed() + keyed_rows(
                        *schema,
                        batch.rows(),
                    )
                    &&& batch.rows().len() < BATCH_ROWS ==> final(self).is_over() && is_merge(
                        final(self).handed(),
                        final(self).fed(),
                        final(self).keeps(),
                    )
                },
                MergeStep::Done => {
                    &&& final(self).handed() == old(self).handed()
                    &&& final(self).is_over()
                    &&& is_merge(final(self).handed(), final(self).fed(), final(self).keeps())
                },
            },
    {
        loop
            invariant
                self.wf(*schema),
                self.fed() == old(self).fed(),
                self.keeps() == old(self).keeps(),
                self.handed() == old(self).handed(),
                forall|s: int|
                    0 <= s < old(self).fed().len() ==> #[trigger] self.is_finished(s)
                        == old(self).is_finished(s),
            decreases total_left(self.cursors@),
        {
            match self.waiting(schema) {
                Some(src) => {
                    return MergeStep::NeedBatch(src);
                },
                None => {},
            }
            match self.lowest(schema) {
                None => {
                    proof {
                        let fed = self.fed@;
                        let pos = positions(self.cursors@, fed);
                        assert(firsts(fed, pos) =~= fed) by {
                            assert forall|s: int| 0 <= s < fed.len() implies fed[s].take(pos[s])
                                == fed[s] by {
                                assert(self.cursors@[s].wf(*schema, fed[s]));
                                lemma_head(self.cursors@[s], *schema, fed[s]);
                                assert(fed[s].take(pos[s]) =~= fed[s]);
                            }
                        }
                        assert forall|s: int| 0 <= s < self.fed().len() implies (
                        #[trigger] self.is_finished(s)) && self.is_drained(s) by {
                            assert(!self.awaits(s));
                            assert(self.cursors@[s].wf(*schema, fed[s]));
                        }
                    }
                    if self.out.num_rows() > 0 {
                        return MergeStep::Output(self.take_output(schema));
                    }
                    assert(self.handed@ + keyed_rows(*schema, self.out.rows()) =~= self.handed@);
                    return MergeStep::Done;
                },
                Some(m) => {
                    self.take_lowest(m, schema);
                },
            }
            if self.out.num_rows() >= BATCH_ROWS {
                return MergeStep::Output(self.take_output(schema));
            }
        }
    }
}

proof fn lemma_all_empty(f: Seq<Seq<KeyedRow>>, k: KeyView)
    requires
        forall|s: int| 0 <= s < f.len() ==> (#[trigger] f[s]).len() == 0,
    ensures
        best_of(f, k) is None,
    decreases f.len(),
{
    if f.len() > 0 {
        assert forall|s: int| 0 <= s < f.drop_last().len() implies (
        #[trigger] f.drop_last()[s]).len() == 0 by {
            assert(f.drop_last()[s] == f[s]);
        }
        lemma_all_empty(f.drop_last(), k);
        assert(f[f.len() - 1].len() == 0);
    }
}

proof fn lemma_follows(prev: Option<Key>, own: Seq<KeyedRow>, more: Seq<KeyedRow>)
    requires
        is_run(own),
        match prev {
            None => own.len() == 0,
            Some(k) => own.len() > 0 && key_view(k) == own[own.len() - 1].0,
        },
    ensures
        follows(prev, more) <==> is_run(own + more),
{
    let all = own + more;
    let n = own.len() as int;
    if follows(prev, more) {
        assert forall|i: int, j: int| #![trigger all[i], all[j]]
            0 <= i < j < all.len() implies key_lt(all[i].0, all[j].0) by {
            if j < n {
                assert(all[i] == own[i] && all[j] == own[j]);
            } else if i >= n {
                assert(all[i] == more[i - n] && all[j] == more[j - n]);
            } else {
                assert(all[i] == own[i] && all[j] == more[j - n]);
                assert(key_lt(own[n - 1].0, more[0].0));
                if i < n - 1 {
                    assert(key_lt(own[i].0, own[n - 1].0));
                }
                if j > n {
                    assert(key_lt(more[0].0, more[j - n].0));
                }
            }
        }
    }
    if is_run(all) {
        assert forall|i: int, j: int| #![trigger more[i], more[j]]
            0 <= i < j < more.len() implies key_lt(more[i].0, more[j].0) by {
            assert(all[n + i] == more[i] && all[n + j] == more[j]);
        }
        if more.len() > 0 && n > 0 {
            assert(all[n - 1] == own[n - 1] && all[n] == more[0]);
        }
    }
}

/// `rows` is a beginning of the sorted stream of the newest versions in the
/// sources: up to its last key it shows what the whole stream shows.
pub open spec fn begins_merge(
    rows: Seq<KeyedRow>,
    sources: Seq<Seq<KeyedRow>>,
    keep_tombstones: bool,
) -> bool {
    &&& is_run(rows)
    &&& forall|k: KeyView|
        rows.len() > 0 && key_le(k, rows.last().0) ==> #[trigger] newest(rows, k) == shown(
            newest(flat_rows(sources), k),
            keep_tombstones,
        )
}

/// The sources give what they have given so far and then, unless they are
/// finished, some rows more.
pub open spec fn goes_on_with(m: MergeBatchIter, all: Seq<Seq<KeyedRow>>) -> bool {
    &&& all.len() == m.fed().len()
    &&& forall|s: int| #![trigger all[s]]
        0 <= s < all.len() ==> {
            &&& is_run(all[s])
            &&& m.fed()[s].len() <= all[s].len()
            &&& m.fed()[s] == all[s].take(m.fed()[s].len() as int)
            &&& m.is_finished(s) ==> all[s] == m.fed()[s]
        }
}

/// What was handed out, at whatever step, is a beginning of the merge of all
/// that the sources will give.
pub proof fn law_handed_begins_merge(
    m: MergeBatchIter,
    schema: TableSchema,
    all: Seq<Seq<KeyedRow>>,
)
    requires
        m.wf(schema),
        goes_on_with(m, all),
    ensures
        begins_merge(m.handed(), all, m.keeps()),
{
    let fed = m.fed@;
    let pos = positions(m.cursors@, fed);
    let f = firsts(fed, pos);
    let rows = m.handed@;
    let emitted = rows + keyed_rows(schema, m.out.rows());
    assert forall|i: int, j: int| #![trigger rows[i], rows[j]]
        0 <= i < j < rows.len() implies key_lt(rows[i].0, rows[j].0) by {
        assert(emitted[i] == rows[i] && emitted[j] == rows[j]);
    }
    if rows.len() > 0 {
        let n = rows.len() - 1;
        let last = rows[n].0;
        assert(emitted[n] == rows[n]);
        lemma_newest_none(emitted, last);
        assert(newest(emitted, last) == shown(newest(flat_rows(f), last), m.keep_tombstones));
        assert(newest(flat_rows(f), last) is Some);
        lemma_best_of(f, last);
        lemma_best_some(f, last);
        let a = choose|a: int| 0 <= a < f.len() && newest(#[trigger] f[a], last) is Some;
        lemma_newest_none(f[a], last);
        let x = choose|x: int| 0 <= x < f[a].len() && (#[trigger] f[a][x]).0 == last;
        assert(m.cursors@[a].wf(schema, fed[a]));
        lemma_head(m.cursors@[a], schema, fed[a]);
        let p = pos[a];
        assert(f[a][x] == fed[a][x]);
        if x < p - 1 {
            assert(key_lt(fed[a][x].0, fed[a][p - 1].0));
        }
        assert(key_le(last, fed[a][p - 1].0));
        assert forall|k: KeyView|
            key_le(k, last) implies #[trigger] newest(rows, k) == shown(
            newest(flat_rows(all), k),
            m.keep_tombstones,
        ) by {
            lemma_run_lookup(rows, k);
            lemma_run_lookup(emitted, k);
            if newest(rows, k) is Some {
                let i = choose|i: int| 0 <= i < rows.len() && (#[trigger] rows[i]).0 == k;
                assert(emitted[i] == rows[i]);
            } else {
                assert forall|i: int| 0 <= i < emitted.len() implies (
                #[trigger] emitted[i]).0 != k by {
                    if i < rows.len() {
                        assert(emitted[i] == rows[i]);
                    } else {
                        assert(key_lt(emitted[n].0, emitted[i].0));
                    }
                }
            }
            assert(newest(emitted, k) == shown(newest(flat_rows(f), k), m.keep_tombstones));
            assert forall|b: int| 0 <= b < f.len() implies newest(#[trigger] f[b], k) == newest(
                all[b],
                k,
            ) by {
                assert(m.cursors@[b].wf(schema, fed[b]));
                lemma_head(m.cursors@[b], schema, fed[b]);
                assert(ahead(fed[a], pos[a], fed[b], pos[b]));
                let q = pos[b];
                let whole = all[b];
                let rest = whole.skip(q);
                assert(f[b] =~= whole.take(q));
                assert(whole =~= f[b] + rest);
                lemma_newest_concat(f[b], rest, k);
                assert forall|i: int| 0 <= i < rest.len() implies (#[trigger] rest[i]).0 != k by {
                    assert(rest[i] == whole[q + i]);
                    if q + i < fed[b].len() {
                        assert(fed[b][q + i] == whole[q + i]);
                        assert(key_lt(fed[a][p - 1].0, fed[b][q].0));
                        if i > 0 {
                            assert(key_lt(fed[b][q].0, fed[b][q + i].0));
                        }
                    } else {
                        assert(!m.is_finished(b));
                        assert(behind(fed[a], pos[a], fed[b]));
                        let l = fed[b].len() - 1;
                        assert(fed[b][l] == whole[l]);
                        assert(key_lt(whole[l].0, whole[q + i].0));
                    }
                }
                lemma_newest_none(rest, k);
            }
            lemma_best_same(f, all, k);
            lemma_best_of(f, k);
            lemma_best_of(all, k);
        }
    }
}

/// After all of a merge nothing more can be handed out: a batch that is not
/// full is the last one.
pub proof fn law_nothing_follows_a_merge(
    rows: Seq<KeyedRow>,
    more: Seq<KeyedRow>,
    sources: Seq<Seq<KeyedRow>>,
    keep_tombstones: bool,
)
    requires
        is_merge(rows, sources, keep_tombstones),
        begins_merge(rows + more, sources, keep_tombstones),
    ensures
        more.len() == 0,
{
    if more.len() > 0 {
        let all = rows + more;
        let n = all.len() - 1;
        let k = all[n].0;
        lemma_run_lookup(all, k);
        assert(newest(all, k) is Some);
        assert(newest(rows, k) == shown(newest(flat_rows(sources), k), keep_tombstones));
        lemma_newest_none(rows, k);
        assert forall|i: int| 0 <= i < rows.len() implies (#[trigger] rows[i]).0 != k by {
            assert(all[i] == rows[i]);
            assert(key_lt(all[i].0, all[n].0));
        }
    }
}

/// The merged stream has, in the order of the keys, exactly the versions with the
/// highest numbers in the sources, and deletions, which are marked 1, only where they
/// are kept.
pub proof fn law_merge_has_newest_versions(
    rows: Seq<KeyedRow>,
    sources: Seq<Seq<KeyedRow>>,
    keep_tombstones: bool,
    k: KeyView,
    seq: u64,
    op: i8,
    cells: Cells,
)
    requires
        is_merge(rows, sources, keep_tombstones),
    ensures
        rows.contains((k, seq, (op, cells))) <==> newest(flat_rows(sources), k) == Some(
            (seq, (op, cells)),
        ) && (keep_tombstones || op != 1),
        forall|i: int, j: int| #![trigger rows[i], rows[j]]
            0 <= i < j < rows.len() ==> key_lt(rows[i].0, rows[j].0),
{
    lemma_run_lookup(rows, k);
    if rows.contains((k, seq, (op, cells))) {
        let i = choose|i: int| 0 <= i < rows.len() && rows[i] == (k, seq, (op, cells));
        assert(rows[i].0 == k);
    }
    if newest(flat_rows(sources), k) == Some((seq, (op, cells))) && (keep_tombstones || op != 1) {
        assert(newest(rows, k) == Some((seq, (op, cells))));
        crate::entries::lemma_newest_is_max(rows, k);
    }
}

/// A merge refuses rows that do not rise: the first must come after what was given
/// before, and each after the one before it.
pub proof fn law_rising_rows_follow(prev: Option<Key>, rows: Seq<KeyedRow>)
    ensures
        follows(prev, rows) <==> (forall|i: int, j: int| #![trigger rows[i], rows[j]]
            0 <= i < j < rows.len() ==> key_lt(rows[i].0, rows[j].0)) && (prev matches Some(k)
            ==> (rows.len() > 0 ==> key_lt(key_view(k), rows[0].0))),
{
}

} // verus!
