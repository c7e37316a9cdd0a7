//! What a query sees of the merged stream: the user's columns of rows that
//! are not deleted, as many as it asks for.

use vstd::prelude::*;
use crate::batch::{Batch, BatchRow, Cell, Cells, KeyedRow, OP_DELETE};
use crate::query::merge::MergeBatchIter;
use crate::schema::TableSchema;
use crate::types::value_view;

verus! {

/// Rows of the user's columns.
#[derive(Debug)]
pub struct UserBatch {
    pub cols: Vec<Vec<Cell>>,
    pub num_rows: usize,
}

/// Why rows cannot be handed out.
#[derive(Debug, Clone, Copy, PartialEq, Eq, Structural)]
pub enum StreamError {
    /// The query asks for a column that does not exist.
    NoSuchColumn,
}

impl UserBatch {
    pub open spec fn wf(&self) -> bool {
        forall|c: int| 0 <= c < self.cols@.len() ==> (#[trigger] self.cols@[c])@.len()
            == self.num_rows
    }

    /// The rows.
    pub open spec fn rows(&self) -> Seq<Cells> {
        Seq::new(
            self.num_rows as nat,
            |i: int| Seq::new(self.cols@.len(), |c: int| value_view(self.cols@[c]@[i])),
        )
    }

    /// Keeps the first `n` rows.
    pub fn slice_to(&mut self, n: usize)
        requires
            old(self).wf(),
            n <= old(self).num_rows,
        ensures
            final(self).wf(),
            final(self).num_rows == n,
            final(self).cols@.len() == old(self).cols@.len(),
            final(self).rows() == old(self).rows().take(n as int),
    {
        let ghost before = self.cols@;
        let ghost total = self.num_rows;
        let mut c: usize = 0;
        while c < self.cols.len()
            invariant
                c <= before.len(),
                self.cols@.len() == before.len(),
                n <= total,
                self.num_rows == total,
                forall|x: int| 0 <= x < before.len() ==> (#[trigger] before[x])@.len() == total,
                forall|x: int|
                    0 <= x < c ==> (#[trigger] self.cols@[x])@ == before[x]@.take(n as int),
                forall|x: int| c <= x < before.len() ==> #[trigger] self.cols@[x] == before[x],
            decreases before.len() - c,
        {
            let ghost mid = self.cols@;
            assert(before[c as int]@.len() == total);
            self.cols[c].truncate(n);
            assert(self.cols@[c as int]@ =~= before[c as int]@.take(n as int));
            assert forall|x: int| 0 <= x < before.len() && x != c implies #[trigger] self.cols@[x]
                == mid[x] by {}
            c += 1;
        }
        self.num_rows = n;
        proof {
            let a = self.rows();
            let b = old(self).rows().take(n as int);
            assert forall|i: int| 0 <= i < n implies a[i] == b[i] by {
                assert(a[i] =~= b[i]);
            }
            assert(a =~= b);
        }
    }
}

/// The rows that are not deleted, in order.
pub open spec fn stripped(rows: Seq<BatchRow>) -> Seq<Cells>
    decreases rows.len(),
{
    if rows.len() == 0 {
        Seq::empty()
    } else {
        let before = stripped(rows.drop_last());
        if rows.last().1 == OP_DELETE {
            before
        } else {
            before.push(rows.last().2)
        }
    }
}

/// The cells of the columns that the query asks for.
pub open spec fn project(cells: Cells, projection: Option<Seq<usize>>) -> Cells {
    match projection {
        Some(cols) => Seq::new(cols.len(), |j: int| cells[cols[j] as int]),
        None => cells,
    }
}

pub open spec fn project_all(rows: Seq<Cells>, projection: Option<Seq<usize>>) -> Seq<Cells> {
    Seq::new(rows.len(), |i: int| project(rows[i], projection))
}

pub open spec fn all_below(cols: Seq<usize>, n: nat) -> bool {
    forall|j: int| 0 <= j < cols.len() ==> (#[trigger] cols[j]) < n
}

/// All columns that the query asks for exist.
pub open spec fn columns_exist(projection: Option<Seq<usize>>, ncols: nat) -> bool {
    match projection {
        Some(cols) => all_below(cols, ncols),
        None => true,
    }
}

pub open spec fn projection_view(p: Option<Vec<usize>>) -> Option<Seq<usize>> {
    match p {
        Some(cols) => Some(cols@),
        None => None,
    }
}

/// As many rows as the query asks for.
pub open spec fn limited(rows: Seq<Cells>, limit: Option<usize>) -> Seq<Cells> {
    match limit {
        Some(n) => if rows.len() > n {
            rows.take(n as int)
        } else {
            rows
        },
        None => rows,
    }
}

/// What a query has got so far.
pub struct LSMStream {
    projection: Option<Vec<usize>>,
    limit: Option<usize>,
    emitted: usize,
    finished: bool,
    seen: Ghost<Seq<Cells>>,
    given: Ghost<Seq<Cells>>,
}

impl LSMStream {
    /// The columns that the query asks for.
    pub closed spec fn columns(&self) -> Option<Seq<usize>> {
        projection_view(self.projection)
    }

    /// How many rows the query asks for.
    pub closed spec fn row_limit(&self) -> Option<usize> {
        self.limit
    }

    /// The projected rows of all batches so far.
    pub closed spec fn seen(&self) -> Seq<Cells> {
        self.seen@
    }

    /// The rows that were handed out so far.
    pub closed spec fn given(&self) -> Seq<Cells> {
        self.given@
    }

    /// The query has got all rows that it asks for.
    pub closed spec fn is_done(&self) -> bool {
        self.finished
    }

    /// What was handed out is what was seen, as far as the query asks for it.
    pub closed spec fn wf(&self) -> bool {
        &&& self.given@ == limited(self.seen@, self.limit)
        &&& self.limit matches Some(n) ==> if self.finished {
            self.given@.len() == n
        } else {
            self.emitted == self.given@.len() && self.seen@.len() == self.given@.len() && (n > 0
                ==> self.emitted < n) && (n == 0 ==> self.emitted == 0)
        }
        &&& self.limit is None ==> !self.finished
    }

    /// The merge of the sources that the query reads. It drops deletions, which
    /// no query shows.
    pub fn merge(&self, sources: usize, schema: &TableSchema) -> (r: MergeBatchIter)
        requires
            schema.in_range(),
        ensures
            r.wf(*schema),
            r.fed().len() == sources,
            forall|s: int|
                0 <= s < r.fed().len() ==> (#[trigger] r.fed()[s]) == Seq::<KeyedRow>::empty()
                    && r.awaits(s),
            r.handed() == Seq::<KeyedRow>::empty(),
            !r.keeps(),
    {
        let r = MergeBatchIter::new(sources, false, schema);
        assert forall|s: int| 0 <= s < r.fed().len() implies (#[trigger] r.fed()[s]) == Seq::<
            KeyedRow,
        >::empty() && r.awaits(s) by {
            assert(r.fed()[s] == Seq::<KeyedRow>::empty());
            assert(!r.is_finished(s));
            assert(r.is_drained(s));
        }
        r
    }

    /// A query for some columns and some number of rows.
    pub fn new(projection: Option<Vec<usize>>, limit: Option<usize>) -> (r: Self)
        ensures
            r.wf(),
            r.columns() == projection_view(projection),
            r.row_limit() == limit,
            r.seen() == Seq::<Cells>::empty(),
            r.given() == Seq::<Cells>::empty(),
            !r.is_done(),
    {
        LSMStream {
            projection,
            limit,
            emitted: 0,
            finished: false,
            seen: Ghost(Seq::empty()),
            given: Ghost(Seq::empty()),
        }
    }

    /// Whether the query has got all rows that it asks for.
    pub fn finished(&self) -> (r: bool)
        ensures
            r == self.is_done(),
    {
        self.finished
    }

    /// The rows of a batch that are not deleted, in the columns asked for.
    fn strip_internal(&self, batch: &Batch) -> (r: Result<UserBatch, StreamError>)
        requires
            batch.fits(batch.cols@.len()),
        ensures
            r is Ok <==> columns_exist(self.columns(), batch.cols@.len()),
            r matches Ok(b) ==> b.wf() && b.rows() == project_all(
                stripped(batch.rows()),
                self.columns(),
            ),
    {
        let ncols: usize = batch.cols.len();
        let mut chosen: Vec<usize> = Vec::new();
        match &self.projection {
            Some(cols) => {
                let mut j: usize = 0;
                while j < cols.len()
                    invariant
                        j <= cols@.len(),
                        self.columns() == Some(cols@),
                        ncols == batch.cols@.len(),
                        chosen@ == cols@.take(j as int),
                        forall|x: int| 0 <= x < j ==> (#[trigger] cols@[x]) < ncols,
                    decreases cols@.len() - j,
                {
                    if cols[j] >= ncols {
                        assert(!all_below(cols@, batch.cols@.len())) by {
                            assert(!(cols@[j as int] < batch.cols@.len()));
                        }
                        return Err(StreamError::NoSuchColumn);
                    }
                    chosen.push(cols[j]);
                    assert(cols@.take(j + 1) =~= cols@.take(j as int).push(cols@[j as int]));
                    j += 1;
                }
                assert(cols@.take(j as int) =~= cols@);
            },
            None => {
                while chosen.len() < ncols
                    invariant
                        chosen@.len() <= ncols,
                        forall|x: int| 0 <= x < chosen@.len() ==> (#[trigger] chosen@[x]) == x,
                    decreases ncols - chosen@.len(),
                {
                    chosen.push(chosen.len());
                }
            },
        }
        let ghost all = batch.rows();
        let ghost want = self.columns();
        let mut cols: Vec<Vec<Cell>> = Vec::new();
        while cols.len() < chosen.len()
            invariant
                cols@.len() <= chosen@.len(),
                forall|c: int| 0 <= c < cols@.len() ==> (#[trigger] cols@[c])@.len() == 0,
            decreases chosen@.len() - cols@.len(),
        {
            cols.push(Vec::new());
        }
        let mut out = UserBatch { cols, num_rows: 0 };
        let mut i: usize = 0;
        assert(all.take(0) =~= Seq::empty());
        assert(out.rows() =~= project_all(stripped(all.take(0)), want));
        while i < batch.num_rows()
            invariant
                i <= all.len(),
                all == batch.rows(),
                batch.fits(ncols as nat),
                ncols == batch.cols@.len(),
                want == self.columns(),
                columns_exist(want, ncols as nat),
                out.wf(),
                out.cols@.len() == chosen@.len(),
                out.num_rows <= i,
                forall|x: int| 0 <= x < chosen@.len() ==> (#[trigger] chosen@[x]) < ncols,
                match want {
                    Some(cs) => chosen@ == cs,
                    None => chosen@.len() == ncols && forall|x: int|
                        0 <= x < ncols ==> (#[trigger] chosen@[x]) == x,
                },
                out.rows() == project_all(stripped(all.take(i as int)), want),
            decreases all.len() - i,
        {
            proof {
                assert(all.take(i + 1).drop_last() =~= all.take(i as int));
                assert(all.take(i + 1).last() == all[i as int]);
            }
            if batch.op_type(i) != OP_DELETE {
                let ghost before = out.rows();
                Self::push_row(&mut out, batch, &chosen, i);
                proof {
                    let cells = all[i as int].2;
                    assert(out.rows().last() =~= project(cells, want));
                    assert(project_all(stripped(all.take(i + 1)), want) =~= before.push(
                        project(cells, want),
                    ));
                }
            }
            i += 1;
        }
        assert(all.take(i as int) =~= all);
        Ok(out)
    }

    fn push_row(out: &mut UserBatch, batch: &Batch, chosen: &Vec<usize>, i: usize)
        requires
            old(out).wf(),
            old(out).cols@.len() == chosen@.len(),
            old(out).num_rows <= i,
            batch.fits(batch.cols@.len()),
            i < batch.rows().len(),
            forall|x: int| 0 <= x < chosen@.len() ==> (#[trigger] chosen@[x]) < batch.cols@.len(),
        ensures
            final(out).wf(),
            final(out).cols@.len() == chosen@.len(),
            final(out).num_rows == old(out).num_rows + 1,
            final(out).rows() == old(out).rows().push(
                Seq::new(
                    chosen@.len(),
                    |j: int| batch.rows()[i as int].2[chosen@[j] as int],
                ),
            ),
    {
        let ghost before = out.cols@;
        let ghost n = out.num_rows;
        let total: usize = batch.num_rows();
        let ghost row = Seq::new(
            chosen@.len(),
            |j: int| batch.rows()[i as int].2[chosen@[j] as int],
        );
        let mut c: usize = 0;
        while c < chosen.len()
            invariant
                c <= chosen@.len(),
                before.len() == chosen@.len(),
                out.cols@.len() == chosen@.len(),
                out.num_rows == n,
                batch.fits(batch.cols@.len()),
                i < batch.rows().len(),
                row == Seq::new(
                    chosen@.len(),
                    |j: int| batch.rows()[i as int].2[chosen@[j] as int],
                ),
                forall|x: int|
                    0 <= x < chosen@.len() ==> (#[trigger] chosen@[x]) < batch.cols@.len(),
                forall|x: int| 0 <= x < before.len() ==> (#[trigger] before[x])@.len() == n,
                forall|x: int|
                    0 <= x < c ==> (#[trigger] out.cols@[x])@.len() == n + 1
                        && out.cols@[x]@.take(n as int) == before[x]@ && value_view(
                        out.cols@[x]@[n as int],
                    ) == row[x],
                forall|x: int| c <= x < before.len() ==> #[trigger] out.cols@[x] == before[x],
            decreases chosen@.len() - c,
        {
            let ghost mid = out.cols@;
            assert(before[c as int]@.len() == n);
            let cell = batch.cell(chosen[c], i);
            out.cols[c].push(cell);
            assert(out.cols@[c as int]@.take(n as int) =~= before[c as int]@);
            assert forall|x: int| 0 <= x < before.len() && x != c implies #[trigger] out.cols@[x]
                == mid[x] by {}
            c += 1;
        }
        out.num_rows = out.num_rows + 1;
        proof {
            let a = out.rows();
            let b = old(out).rows();
            assert forall|x: int| 0 <= x < n + 1 implies a[x] == b.push(row)[x] by {
                if x < n {
                    assert forall|d: int| 0 <= d < before.len() implies value_view(
                        #[trigger] out.cols@[d]@[x],
                    ) == value_view(before[d]@[x]) by {
                        assert(out.cols@[d]@.take(n as int)[x] == out.cols@[d]@[x]);
                    }
                    assert(a[x] =~= b[x]);
                } else {
                    assert(a[x] =~= row);
                }
            }
            assert(a =~= b.push(row));
        }
    }

    /// Takes a batch of the merged stream. Rows to hand out come back, or
    /// nothing where the batch has none.
    pub fn refill(&mut self, batch: &Batch) -> (r: Result<Option<UserBatch>, StreamError>)
        requires
            old(self).wf(),
            !old(self).is_done(),
            batch.fits(batch.cols@.len()),
        ensures
            final(self).wf(),
            final(self).columns() == old(self).columns(),
            final(self).row_limit() == old(self).row_limit(),
            r is Ok <==> columns_exist(old(self).columns(), batch.cols@.len()),
            r is Err ==> final(self).seen() == old(self).seen() && final(self).given()
                == old(self).given() && !final(self).is_done(),
            r matches Ok(out) ==> {
                let more = project_all(stripped(batch.rows()), old(self).columns());
                &&& final(self).seen() == old(self).seen() + more
                &&& out is None <==> more.len() == 0
                &&& final(self).given() == limited(final(self).seen(), final(self).row_limit())
                &&& out matches Some(b) ==> b.wf() && final(self).given() == old(self).given()
                    + b.rows()
                &&& out is None ==> final(self).given() == old(self).given()
                &&& final(self).is_done() <==> more.len() > 0 && (
                final(self).row_limit() matches Some(n) && final(self).seen().len() >= n)
            },
    {
        let mut user = match self.strip_internal(batch) {
            Ok(b) => b,
            Err(e) => return Err(e),
        };
        let ghost more = user.rows();
        let ghost seen = self.seen@;
        let ghost given = self.given@;
        self.seen = Ghost(seen + more);
        if user.num_rows == 0 {
            assert(seen + more =~= seen);
            return Ok(None);
        }
        match self.limit {
            Some(lim) => {
                let remaining: usize = lim - self.emitted;
                if user.num_rows >= remaining {
                    user.slice_to(remaining);
                    self.emitted = lim;
                    self.finished = true;
                    self.given = Ghost(given + user.rows());
                    assert(given + more.take(remaining as int) =~= limited(
                        seen + more,
                        Some(lim),
                    ));
                    return Ok(Some(user));
                }
                self.emitted = self.emitted + user.num_rows;
            },
            None => {},
        }
        self.given = Ghost(given + more);
        Ok(Some(user))
    }
}

/// Exactly the rows that are not deletions are left, in their order, with all
/// their cells.
pub proof fn law_deletions_are_stripped(rows: Seq<BatchRow>)
    ensures
        stripped(rows) == rows.filter(|r: BatchRow| r.1 != 1).map_values(|r: BatchRow| r.2),
    decreases rows.len(),
{
    reveal(Seq::filter);
    if rows.len() > 0 {
        law_deletions_are_stripped(rows.drop_last());
        let live = |r: BatchRow| r.1 != 1;
        let cells = |r: BatchRow| r.2;
        assert(rows.filter(live) == if live(rows.last()) {
            rows.drop_last().filter(live).push(rows.last())
        } else {
            rows.drop_last().filter(live)
        });
        assert(stripped(rows) =~= rows.filter(live).map_values(cells));
    } else {
        assert(stripped(rows) =~= rows.filter(|r: BatchRow| r.1 != 1).map_values(
            |r: BatchRow| r.2,
        ));
    }
}

/// A row that is handed out has one cell for every column that the query asks
/// for: cell `j` is that of the `j`-th column it asks for. A query that names no
/// columns gets them all.
pub proof fn law_asked_columns_are_handed_out(rows: Seq<Cells>, cols: Seq<usize>)
    ensures
        project_all(rows, Some(cols)).len() == rows.len(),
        forall|i: int| #![trigger project_all(rows, Some(cols))[i]]
            0 <= i < rows.len() ==> project_all(rows, Some(cols))[i].len() == cols.len(),
        forall|i: int, j: int| #![trigger project_all(rows, Some(cols))[i][j]]
            0 <= i < rows.len() && 0 <= j < cols.len() ==> project_all(rows, Some(cols))[i][j]
                == rows[i][cols[j] as int],
        project_all(rows, None) == rows,
{
    assert(project_all(rows, None) =~= rows);
}

/// Of the rows that there are, the first ones are handed out, as many as the
/// query asks for, and all where it sets no limit or there are no more.
pub proof fn law_first_rows_are_handed_out(rows: Seq<Cells>, limit: Option<usize>)
    ensures
        limited(rows, limit).is_prefix_of(rows),
        limit is None ==> limited(rows, limit).len() == rows.len(),
        limit matches Some(n) ==> limited(rows, limit).len() <= n && (limited(rows, limit).len()
            == n || limited(rows, limit).len() == rows.len()),
{
}

proof fn lemma_stripped_concat(a: Seq<BatchRow>, b: Seq<BatchRow>)
    ensures
        stripped(a + b) == stripped(a) + stripped(b),
    decreases b.len(),
{
    if b.len() == 0 {
        assert(a + b =~= a);
        assert(stripped(a) + stripped(b) =~= stripped(a));
    } else {
        lemma_stripped_concat(a, b.drop_last());
        assert((a + b).drop_last() =~= a + b.drop_last());
        assert((a + b).last() == b.last());
        assert(stripped(a + b) =~= stripped(a) + stripped(b));
    }
}

/// What a query has got is what it asks for of the rows that it was fed, batch
/// after batch: row `i` of all that was handed out has in cell `j` what the `i`-th
/// row that is no deletion has in the `j`-th column asked for, and without a limit
/// all such rows were handed out.
pub proof fn law_stream_answers_query(
    before: LSMStream,
    now: LSMStream,
    fed: Seq<BatchRow>,
    batch: Batch,
    cols: Seq<usize>,
)
    requires
        now.columns() == Some(cols),
        before.seen() == project_all(stripped(fed), now.columns()),
        now.seen() == before.seen() + project_all(stripped(batch.rows()), now.columns()),
        now.given() == limited(now.seen(), now.row_limit()),
    ensures
        now.seen() == project_all(stripped(fed + batch.rows()), now.columns()),
        ({
            let live = (fed + batch.rows()).filter(|r: BatchRow| r.1 != 1);
            &&& now.given().len() <= live.len()
            &&& now.row_limit() is None ==> now.given().len() == live.len()
            &&& forall|i: int, j: int| #![trigger now.given()[i][j]]
                0 <= i < now.given().len() && 0 <= j < cols.len() ==> now.given()[i].len()
                    == cols.len() && now.given()[i][j] == live[i].2[cols[j] as int]
        }),
{
    let all = fed + batch.rows();
    let rows = stripped(all);
    lemma_stripped_concat(fed, batch.rows());
    law_deletions_are_stripped(all);
    law_asked_columns_are_handed_out(rows, cols);
    assert(now.seen() =~= project_all(rows, Some(cols)));
    law_first_rows_are_handed_out(now.seen(), now.row_limit());
    let live = all.filter(|r: BatchRow| r.1 != 1);
    assert forall|i: int, j: int| #![trigger now.given()[i][j]]
        0 <= i < now.given().len() && 0 <= j < cols.len() implies now.given()[i].len()
        == cols.len() && now.given()[i][j] == live[i].2[cols[j] as int] by {
        assert(now.given()[i] == now.seen()[i]);
        assert(project_all(rows, Some(cols))[i][j] == rows[i][cols[j] as int]);
    }
}

/// Row `i` of what is handed out is what stands at place `i` of every column, in the
/// order of the columns.
pub proof fn law_user_rows_stand_in_columns(b: UserBatch, i: int, c: int)
    requires
        0 <= i < b.num_rows,
        0 <= c < b.cols@.len(),
    ensures
        b.rows().len() == b.num_rows,
        b.rows()[i].len() == b.cols@.len(),
        b.rows()[i][c] is None <==> b.cols@[c]@[i] is None,
        b.cols@[c]@[i] matches Some(bytes) ==> b.rows()[i][c] == Some(bytes@),
{
}

/// A query is refused exactly where it asks for a column that does not exist.
pub proof fn law_unknown_columns_are_refused(p: Option<Vec<usize>>, ncols: nat)
    ensures
        columns_exist(projection_view(p), ncols) <==> (p matches Some(cols) ==> forall|j: int|
            0 <= j < cols@.len() ==> (#[trigger] cols@[j]) < ncols),
        p is None <==> projection_view(p) is None,
        p matches Some(cols) ==> projection_view(p) == Some(cols@),
{
    if p matches Some(cols) && forall|j: int|
        0 <= j < cols@.len() ==> (#[trigger] cols@[j]) < ncols {
        assert(all_below(projection_view(p).unwrap(), ncols));
    }
}

} // verus!
