//! Rows in columns: the form in which rows are stored, merged and handed out.
//!
//! A batch has one list of cells for every column of the table and, beside
//! them, the sequence number and the kind of every row.

use vstd::prelude::*;
use crate::cells::{datum_cell, DatumView};
use crate::entries::{entries_view, entry_view, Entry, EntryView};
use crate::little_endian::{
    bits_to_ts, bits_ts, le_bytes, le_value, lemma_le_bytes_len, lemma_le_roundtrip,
    lemma_ts_roundtrip, push_le, read_le, ts_bits, ts_to_bits,
};
use crate::schema::{
    is_joined, joined, lemma_fields_below, lemma_split_len, split, DataType, FieldDef, SemanticType,
    TableSchema, cells_view,
};
use crate::types::{copy_bytes, copy_value, key_view, value_view, Key, KeyView, Value};

verus! {

/// The row was written.
pub const OP_PUT: i8 = 0;

/// The row was deleted.
pub const OP_DELETE: i8 = 1;

/// A cell; `None` is null.
pub type Cell = Option<Vec<u8>>;

/// The cells of a row.
pub type Cells = Seq<Option<Seq<u8>>>;

/// A row of a batch: sequence number, kind, cells.
pub type BatchRow = (u64, i8, Cells);

/// A row of a batch under its key.
pub type KeyedRow = (KeyView, u64, (i8, Cells));

/// Why rows could not be put into columns.
#[derive(Debug, Clone, Copy, PartialEq, Eq, Structural)]
pub enum BatchError {
    /// Some column would not get one cell for every row.
    UnevenColumns,
}

/// Rows in columns.
#[derive(Debug)]
pub struct Batch {
    pub cols: Vec<Vec<Cell>>,
    pub seqs: Vec<u64>,
    pub ops: Vec<i8>,
}

/// What a list of cells stands for.
pub open spec fn row_view(cells: Seq<Cell>) -> Cells {
    Seq::new(cells.len(), |c: int| value_view(cells[c]))
}

pub open spec fn or_empty(c: Option<Seq<u8>>) -> Seq<u8> {
    match c {
        Some(b) => b,
        None => Seq::empty(),
    }
}

/// The tags in the cells of a row.
pub open spec fn row_tags(schema: TableSchema, cells: Cells) -> Seq<Seq<u8>> {
    Seq::new(
        schema.primary_key@.len(),
        |j: int| or_empty(cells[schema.primary_key@[j] as int]),
    )
}

/// The key of a row.
pub open spec fn key_of(schema: TableSchema, cells: Cells) -> KeyView {
    (
        joined(row_tags(schema, cells)),
        bits_ts(le_value(or_empty(cells[schema.time_index as int]))),
    )
}

/// Some field of the row is null.
pub open spec fn has_null_field(schema: TableSchema, cells: Cells) -> bool {
    exists|j: int|
        0 <= j < schema.fields().len() && cells[(#[trigger] schema.fields()[j]) as int] is None
}

/// The fields in the cells of a row.
pub open spec fn row_fields(schema: TableSchema, cells: Cells) -> Seq<Seq<u8>> {
    Seq::new(schema.fields().len(), |j: int| or_empty(cells[schema.fields()[j] as int]))
}

/// The value of a row; `None` is a deletion.
pub open spec fn value_of(schema: TableSchema, op: i8, cells: Cells) -> Option<Seq<u8>> {
    if op == OP_DELETE {
        None
    } else if schema.fields().len() == 0 {
        Some(Seq::empty())
    } else if has_null_field(schema, cells) {
        None
    } else {
        Some(joined(row_fields(schema, cells)))
    }
}

/// A row under its key.
pub open spec fn keyed(schema: TableSchema, r: BatchRow) -> KeyedRow {
    (key_of(schema, r.2), r.0, (r.1, r.2))
}

/// The entry that a row under its key stands for.
pub open spec fn entry_of(schema: TableSchema, r: KeyedRow) -> EntryView {
    (r.0, r.1, value_of(schema, r.2.0, r.2.1))
}

/// Rows under their keys.
pub open spec fn keyed_rows(schema: TableSchema, rows: Seq<BatchRow>) -> Seq<KeyedRow> {
    Seq::new(rows.len(), |i: int| keyed(schema, rows[i]))
}

/// The entries that rows stand for.
pub open spec fn row_entries(schema: TableSchema, rows: Seq<BatchRow>) -> Seq<EntryView> {
    Seq::new(rows.len(), |i: int| entry_of(schema, keyed(schema, rows[i])))
}

/// All rows of several batches, in order.
pub open spec fn batches_rows(batches: Seq<Batch>) -> Seq<BatchRow>
    decreases batches.len(),
{
    if batches.len() == 0 {
        Seq::empty()
    } else {
        batches_rows(batches.drop_last()) + batches.last().rows()
    }
}

/// The time cell of the row holds a timestamp.
pub open spec fn is_timed(schema: TableSchema, cells: Cells) -> bool {
    cells[schema.time_index as int] matches Some(b) && b.len() == 8
}

/// The cells hold exactly the key and the value of an entry.
pub open spec fn holds_entry(schema: TableSchema, cells: Cells, e: EntryView) -> bool {
    let tags = split(e.0.0, schema.primary_key@.len()).unwrap();
    &&& cells.len() == schema.columns@.len()
    &&& forall|j: int|
        0 <= j < schema.primary_key@.len() ==> cells[(#[trigger] schema.primary_key@[j]) as int]
            == Some(tags[j])
    &&& cells[schema.time_index as int] == Some(le_bytes(ts_bits(e.0.1), 8))
    &&& forall|j: int|
        0 <= j < schema.fields().len() ==> cells[(#[trigger] schema.fields()[j]) as int] == (
        match e.2 {
            None => None,
            Some(v) => Some(split(v, schema.fields().len()).unwrap()[j]),
        })
}

/// Tags and fields of the entry can be taken apart.
pub open spec fn can_encode(schema: TableSchema, e: EntryView) -> bool {
    &&& split(e.0.0, schema.primary_key@.len()) is Some
    &&& e.2 is Some ==> split(e.2.unwrap(), schema.fields().len()) is Some
}

/// Tags and fields of the entry are what joining some tags and fields gives.
pub open spec fn is_canonical(schema: TableSchema, e: EntryView) -> bool {
    &&& is_joined(e.0.0, schema.primary_key@.len())
    &&& e.2 is Some ==> is_joined(e.2.unwrap(), schema.fields().len())
}

/// The kind of a row with the given value.
pub open spec fn op_of(v: Option<Seq<u8>>) -> i8 {
    if v is Some {
        OP_PUT
    } else {
        OP_DELETE
    }
}

impl Batch {
    /// There are `ncols` columns, all with one cell for every row.
    pub open spec fn fits(&self, ncols: nat) -> bool {
        &&& self.cols@.len() == ncols
        &&& self.ops@.len() == self.seqs@.len()
        &&& forall|c: int|
            0 <= c < ncols ==> (#[trigger] self.cols@[c])@.len() == self.seqs@.len()
    }

    /// The rows of the batch.
    pub open spec fn rows(&self) -> Seq<BatchRow> {
        Seq::new(
            self.seqs@.len(),
            |i: int|
                (
                    self.seqs@[i],
                    self.ops@[i],
                    Seq::new(self.cols@.len(), |c: int| value_view(self.cols@[c]@[i])),
                ),
        )
    }

    /// Every row has a timestamp.
    pub open spec fn timed(&self, schema: TableSchema) -> bool {
        forall|i: int|
            0 <= i < self.rows().len() ==> is_timed(schema, (#[trigger] self.rows()[i]).2)
    }

    /// The batch has the columns of the schema, and its rows have timestamps.
    pub open spec fn readable(&self, schema: TableSchema) -> bool {
        self.fits(schema.columns@.len()) && schema.in_range() && self.timed(schema)
    }

    /// A batch without rows.
    pub fn empty(ncols: usize) -> (r: Self)
        ensures
            r.fits(ncols as nat),
            r.rows() == Seq::<BatchRow>::empty(),
    {
        let mut cols: Vec<Vec<Cell>> = Vec::new();
        while cols.len() < ncols
            invariant
                cols@.len() <= ncols,
                forall|c: int| 0 <= c < cols@.len() ==> (#[trigger] cols@[c])@.len() == 0,
            decreases ncols - cols@.len(),
        {
            cols.push(Vec::new());
        }
        let r = Batch { cols, seqs: Vec::new(), ops: Vec::new() };
        assert(r.rows() =~= Seq::empty());
        r
    }

    /// How many rows there are.
    pub fn num_rows(&self) -> (n: usize)
        ensures
            n == self.rows().len(),
    {
        self.seqs.len()
    }

    /// Adds a row at the end.
    pub fn push(&mut self, seq: u64, op: i8, cells: Vec<Cell>)
        requires
            old(self).fits(cells@.len()),
        ensures
            final(self).fits(cells@.len()),
            final(self).rows() == old(self).rows().push((seq, op, row_view(cells@))),
    {
        let ghost n = self.seqs@.len();
        let ghost before = self.rows();
        let ghost old_cols = self.cols@;
        let ghost want = row_view(cells@);
        let mut cells = cells;
        let ncols: usize = cells.len();
        let mut left: usize = ncols;
        while left > 0
            invariant
                left <= ncols,
                cells@.len() == left,
                want.len() == ncols,
                old_cols.len() == ncols,
                self.cols@.len() == ncols,
                self.seqs@ == old(self).seqs@,
                self.ops@ == old(self).ops@,
                row_view(cells@) == want.take(left as int),
                forall|c: int| 0 <= c < ncols ==> (#[trigger] old_cols[c])@.len() == n,
                forall|c: int| 0 <= c < left ==> (#[trigger] self.cols@[c])@ == old_cols[c]@,
                forall|c: int|
                    left <= c < ncols ==> (#[trigger] self.cols@[c])@.len() == n + 1
                        && self.cols@[c]@.take(n as int) == old_cols[c]@ && value_view(
                        self.cols@[c]@[n as int],
                    ) == want[c],
            decreases left,
        {
            let ghost all = row_view(cells@);
            let cell = match cells.pop() {
                Some(cell) => cell,
                None => None,
            };
            proof {
                assert(all[left - 1] == value_view(cell));
                assert(want.take(left as int)[left - 1] == want[left - 1]);
                assert(row_view(cells@) =~= want.take(left - 1));
            }
            let ghost mid = self.cols@;
            self.cols[left - 1].push(cell);
            assert(self.cols@[left - 1]@.take(n as int) =~= old_cols[left - 1]@);
            assert forall|c: int| 0 <= c < ncols && c != left - 1 implies #[trigger] self.cols@[c]
                == mid[c] by {}
            left -= 1;
        }
        self.seqs.push(seq);
        self.ops.push(op);
        proof {
            let after = self.rows();
            assert forall|i: int| 0 <= i < n + 1 implies after[i] == before.push(
                (seq, op, want),
            )[i] by {
                if i < n {
                    assert forall|c: int| 0 <= c < ncols implies value_view(
                        #[trigger] self.cols@[c]@[i],
                    ) == value_view(old_cols[c]@[i]) by {
                        assert(self.cols@[c]@.take(n as int)[i] == self.cols@[c]@[i]);
                    }
                    assert(after[i].2 =~= before[i].2);
                } else {
                    assert(after[i].2 =~= want);
                }
            }
            assert(after =~= before.push((seq, op, want)));
        }
    }

    /// A cell.
    pub fn cell(&self, c: usize, i: usize) -> (r: Cell)
        requires
            self.fits(self.cols@.len()),
            c < self.cols@.len(),
            i < self.rows().len(),
        ensures
            value_view(r) == self.rows()[i as int].2[c as int],
    {
        assert(self.cols@[c as int]@.len() == self.seqs@.len());
        copy_value(&self.cols[c][i])
    }

    /// Whether a cell is null.
    pub fn is_null(&self, c: usize, i: usize) -> (r: bool)
        requires
            self.fits(self.cols@.len()),
            c < self.cols@.len(),
            i < self.rows().len(),
        ensures
            r == (self.rows()[i as int].2[c as int] is None),
    {
        assert(self.cols@[c as int]@.len() == self.seqs@.len());
        self.cols[c][i].is_none()
    }

    /// The sequence number of a row.
    pub fn seq_value(&self, i: usize) -> (r: u64)
        requires
            i < self.rows().len(),
        ensures
            r == self.rows()[i as int].0,
    {
        self.seqs[i]
    }

    /// The kind of a row.
    pub fn op_type(&self, i: usize) -> (r: i8)
        requires
            self.fits(self.cols@.len()),
            i < self.rows().len(),
        ensures
            r == self.rows()[i as int].1,
    {
        self.ops[i]
    }

    /// The timestamp in column `c` of a row.
    pub fn ts_value(&self, c: usize, i: usize) -> (r: i64)
        requires
            self.fits(self.cols@.len()),
            c < self.cols@.len(),
            i < self.rows().len(),
            self.rows()[i as int].2[c as int] matches Some(b) && b.len() == 8,
        ensures
            r == bits_ts(le_value(or_empty(self.rows()[i as int].2[c as int]))),
    {
        assert(self.cols@[c as int]@.len() == self.seqs@.len());
        match &self.cols[c][i] {
            Some(b) => {
                assert(b@.subrange(0, 8) =~= b@);
                bits_to_ts(read_le(b.as_slice(), 0, 8))
            },
            None => 0,
        }
    }

    /// The cells of a row.
    pub fn row_cells(&self, i: usize) -> (r: Vec<Cell>)
        requires
            self.fits(self.cols@.len()),
            i < self.rows().len(),
        ensures
            row_view(r@) == self.rows()[i as int].2,
            r@.len() == self.cols@.len(),
    {
        let mut r: Vec<Cell> = Vec::new();
        let mut c: usize = 0;
        while c < self.cols.len()
            invariant
                c <= self.cols@.len(),
                r@.len() == c,
                i < self.rows().len(),
                self.fits(self.cols@.len()),
                forall|d: int|
                    0 <= d < c ==> value_view(#[trigger] r@[d]) == self.rows()[i as int].2[d],
            decreases self.cols@.len() - c,
        {
            r.push(self.cell(c, i));
            c += 1;
        }
        assert(row_view(r@) =~= self.rows()[i as int].2);
        r
    }

    /// Whether the batch has the columns of the schema and every row has a
    /// timestamp.
    pub fn check_readable(&self, schema: &TableSchema) -> (r: bool)
        ensures
            r == self.readable(*schema),
    {
        if self.cols.len() != schema.columns.len() || self.ops.len() != self.seqs.len()
            || !schema.check_in_range() {
            return false;
        }
        let mut c: usize = 0;
        while c < self.cols.len()
            invariant
                c <= self.cols@.len(),
                self.cols@.len() == schema.columns@.len(),
                self.ops@.len() == self.seqs@.len(),
                forall|d: int| 0 <= d < c ==> (#[trigger] self.cols@[d])@.len() == self.seqs@.len(),
            decreases self.cols@.len() - c,
        {
            if self.cols[c].len() != self.seqs.len() {
                assert(self.cols@[c as int]@.len() != self.seqs@.len());
                return false;
            }
            c += 1;
        }
        let mut i: usize = 0;
        while i < self.seqs.len()
            invariant
                i <= self.seqs@.len(),
                schema.in_range(),
                self.fits(schema.columns@.len()),
                forall|j: int| 0 <= j < i ==> is_timed(*schema, (#[trigger] self.rows()[j]).2),
            decreases self.seqs@.len() - i,
        {
            assert(self.cols@[schema.time_index as int]@.len() == self.seqs@.len());
            assert(self.rows()[i as int].2[schema.time_index as int] == value_view(
                self.cols@[schema.time_index as int]@[i as int],
            ));
            let good = match &self.cols[schema.time_index][i] {
                Some(b) => b.len() == 8,
                None => false,
            };
            if !good {
                assert(!is_timed(*schema, self.rows()[i as int].2));
                return false;
            }
            i += 1;
        }
        true
    }
}

fn unwrap_or_empty(c: Cell) -> (r: Vec<u8>)
    ensures
        r@ == or_empty(value_view(c)),
{
    match c {
        Some(b) => b,
        None => Vec::new(),
    }
}

/// The cells in row `i` at the positions `at`, nulls as empty ones, the other
/// columns empty.
fn gather(batch: &Batch, ncols: usize, at: &Vec<usize>, i: usize) -> (r: Vec<Vec<u8>>)
    requires
        batch.fits(ncols as nat),
        i < batch.rows().len(),
        forall|j: int| 0 <= j < at@.len() ==> (#[trigger] at@[j]) < ncols,
    ensures
        r@.len() == ncols,
        forall|j: int|
            0 <= j < at@.len() ==> r@[(#[trigger] at@[j]) as int]@ == or_empty(
                batch.rows()[i as int].2[at@[j] as int],
            ),
{
    let mut cells: Vec<Vec<u8>> = Vec::new();
    while cells.len() < ncols
        invariant
            cells@.len() <= ncols,
        decreases ncols - cells@.len(),
    {
        cells.push(Vec::new());
    }
    let mut j: usize = 0;
    while j < at.len()
        invariant
            j <= at@.len(),
            cells@.len() == ncols,
            batch.fits(ncols as nat),
            i < batch.rows().len(),
            forall|k: int| 0 <= k < at@.len() ==> (#[trigger] at@[k]) < ncols,
            forall|k: int|
                0 <= k < j ==> cells@[(#[trigger] at@[k]) as int]@ == or_empty(
                    batch.rows()[i as int].2[at@[k] as int],
                ),
        decreases at@.len() - j,
    {
        cells.set(at[j], unwrap_or_empty(batch.cell(at[j], i)));
        j += 1;
    }
    cells
}

/// The key of a row.
pub fn key_at(batch: &Batch, schema: &TableSchema, i: usize) -> (r: Key)
    requires
        batch.readable(*schema),
        i < batch.rows().len(),
    ensures
        key_view(r) == key_of(*schema, batch.rows()[i as int].2),
{
    let ghost cells = batch.rows()[i as int].2;
    assert(is_timed(*schema, cells));
    let ts: i64 = batch.ts_value(schema.time_index, i);
    let tags = if schema.primary_key.len() == 1 {
        assert(schema.primary_key@[0] < schema.columns@.len());
        let t = unwrap_or_empty(batch.cell(schema.primary_key[0], i));
        assert(t@ == row_tags(*schema, cells)[0]);
        t
    } else {
        let parts = gather(batch, schema.columns.len(), &schema.primary_key, i);
        assert(schema.tags_of(cells_view(parts@)) =~= row_tags(*schema, cells));
        schema.encode_tags(parts.as_slice())
    };
    (tags, ts)
}

/// The value of a row; `None` is a deletion.
pub fn value_at(
    batch: &Batch,
    schema: &TableSchema,
    field_cols: &Vec<usize>,
    i: usize,
) -> (r: Option<Value>)
    requires
        batch.readable(*schema),
        i < batch.rows().len(),
        field_cols@ == schema.fields(),
    ensures
        value_view(r) == value_of(
            *schema,
            batch.rows()[i as int].1,
            batch.rows()[i as int].2,
        ),
{
    let ghost cells = batch.rows()[i as int].2;
    let ncols: usize = schema.columns.len();
    proof {
        assert(ncols == schema.columns@.len());
        lemma_fields_below(schema.columns@, schema.columns@.len());
    }
    if batch.op_type(i) == OP_DELETE {
        return None;
    }
    if field_cols.len() == 0 {
        return Some(Vec::new());
    }
    let mut j: usize = 0;
    while j < field_cols.len()
        invariant
            j <= field_cols@.len(),
            batch.readable(*schema),
            i < batch.rows().len(),
            cells == batch.rows()[i as int].2,
            batch.rows()[i as int].1 != OP_DELETE,
            field_cols@ == schema.fields(),
            field_cols@.len() > 0,
            forall|k: int|
                0 <= k < field_cols@.len() ==> (#[trigger] field_cols@[k]) < schema.columns@.len(),
            forall|k: int|
                0 <= k < j ==> cells[(#[trigger] schema.fields()[k]) as int] is Some,
        decreases field_cols@.len() - j,
    {
        if batch.is_null(field_cols[j], i) {
            assert(cells[schema.fields()[j as int] as int] is None);
            assert(has_null_field(*schema, cells));
            return None;
        }
        j += 1;
    }
    assert(!has_null_field(*schema, cells));
    if field_cols.len() == 1 {
        assert(cells[schema.fields()[0] as int] is Some);
        let r = batch.cell(field_cols[0], i);
        assert(value_view(r).unwrap() == row_fields(*schema, cells)[0]);
        return r;
    }
    let parts = gather(batch, ncols, field_cols, i);
    assert(schema.fields_of(cells_view(parts@)) =~= row_fields(*schema, cells));
    Some(schema.encode_fields(parts.as_slice()))
}

/// The rows of a batch as entries.
pub fn entries_of(batch: &Batch, schema: &TableSchema) -> (r: Vec<Entry>)
    requires
        batch.readable(*schema),
    ensures
        entries_view(r@) == row_entries(*schema, batch.rows()),
{
    let field_cols = schema.field_cols();
    let mut r: Vec<Entry> = Vec::new();
    let mut i: usize = 0;
    while i < batch.num_rows()
        invariant
            i <= batch.rows().len(),
            batch.readable(*schema),
            field_cols@ == schema.fields(),
            r@.len() == i,
            forall|j: int|
                0 <= j < i ==> entry_view(#[trigger] r@[j]) == row_entries(
                    *schema,
                    batch.rows(),
                )[j],
        decreases batch.rows().len() - i,
    {
        r.push(
            (
                key_at(batch, schema, i),
                batch.seq_value(i),
                value_at(batch, schema, &field_cols, i),
            ),
        );
        i += 1;
    }
    assert(entries_view(r@) =~= row_entries(*schema, batch.rows()));
    r
}

/// The columns of a stored table: the user's, the sequence number, the kind.
pub fn sst_schema(schema: &TableSchema) -> (r: Vec<FieldDef>)
    ensures
        r@.len() == schema.columns@.len() + 2,
        forall|i: int| #![trigger r@[i]]
            0 <= i < schema.columns@.len() ==> {
                &&& r@[i].name@ == schema.columns@[i].name@
                &&& r@[i].data_type == schema.columns@[i].data_type
                &&& r@[i].nullable == (schema.columns@[i].semantic == SemanticType::Field)
            },
        ({
            let seq_col = r@[schema.columns@.len() as int];
            let op_col = r@[schema.columns@.len() as int + 1];
            &&& seq_col.name@ == "__seq"@
            &&& seq_col.data_type == DataType::Int64
            &&& !seq_col.nullable
            &&& op_col.name@ == "__op_type"@
            &&& op_col.data_type == DataType::Int8
            &&& !op_col.nullable
        }),
{
    let mut r = schema.arrow_schema();
    r.push(
        FieldDef { name: "__seq".to_owned(), data_type: DataType::Int64, nullable: false },
    );
    r.push(
        FieldDef { name: "__op_type".to_owned(), data_type: DataType::Int8, nullable: false },
    );
    r
}

/// The cells of an entry.
fn encode_entry(e: &Entry, schema: &TableSchema, field_cols: &Vec<usize>) -> (r: Vec<Cell>)
    requires
        schema.is_sound(),
        can_encode(*schema, entry_view(*e)),
        field_cols@ == schema.fields(),
    ensures
        holds_entry(*schema, row_view(r@), entry_view(*e)),
        r@.len() == schema.columns@.len(),
{
    let ncols: usize = schema.columns.len();
    let ghost fields = schema.fields();
    let ghost pk = schema.primary_key@;
    proof {
        assert(ncols == schema.columns@.len());
        lemma_fields_below(schema.columns@, schema.columns@.len());
        assert forall|j: int| 0 <= j < pk.len() implies (#[trigger] pk[j]) != schema.time_index
            && !fields.contains(pk[j]) by {
            assert(schema.is_key_column(pk[j] as int));
            let col = schema.columns@[pk[j] as int];
            if fields.contains(pk[j]) {
                let a = choose|a: int| 0 <= a < fields.len() && fields[a] == pk[j];
                assert(schema.columns@[fields[a] as int].semantic == SemanticType::Field);
            }
        }
        assert(schema.columns@[schema.time_index as int].semantic != SemanticType::Field);
    }
    let mut cells: Vec<Cell> = Vec::new();
    while cells.len() < ncols
        invariant
            cells@.len() <= ncols,
        decreases ncols - cells@.len(),
    {
        cells.push(None);
    }
    let tags = schema.decode_tags(e.0.0.as_slice());
    let ghost tag_views = split(e.0.0@, pk.len()).unwrap();
    proof {
        lemma_split_len(e.0.0@, pk.len());
        assert(tags@.len() == cells_view(tags@).len());
    }
    let mut j: usize = 0;
    while j < schema.primary_key.len()
        invariant
            j <= pk.len(),
            pk == schema.primary_key@,
            cells@.len() == ncols,
            tags@.len() == pk.len(),
            cells_view(tags@) == tag_views,
            forall|k: int| 0 <= k < pk.len() ==> (#[trigger] pk[k]) < ncols,
            forall|a: int, b: int|
                0 <= a < b < pk.len() ==> (#[trigger] pk[a]) != (#[trigger] pk[b]),
            forall|k: int|
                0 <= k < j ==> value_view(cells@[(#[trigger] pk[k]) as int]) == Some(tag_views[k]),
        decreases pk.len() - j,
    {
        assert(tag_views[j as int] == tags@[j as int]@);
        cells.set(schema.primary_key[j], Some(copy_bytes(&tags[j])));
        j += 1;
    }
    let mut time_cell: Vec<u8> = Vec::new();
    push_le(&mut time_cell, ts_to_bits(e.0.1), 8);
    assert(time_cell@ =~= le_bytes(ts_bits(e.0.1), 8));
    cells.set(schema.time_index, Some(time_cell));
    let parts: Option<Vec<Vec<u8>>> = match &e.2 {
        Some(blob) => Some(schema.decode_fields(blob.as_slice())),
        None => None,
    };
    proof {
        if e.2 is Some {
            lemma_split_len(e.2.unwrap()@, fields.len());
            assert(parts.unwrap()@.len() == cells_view(parts.unwrap()@).len());
        }
    }
    let mut f: usize = 0;
    while f < field_cols.len()
        invariant
            f <= fields.len(),
            pk == schema.primary_key@,
            field_cols@ == fields,
            cells@.len() == ncols,
            schema.time_index < ncols,
            e.2 is Some <==> parts is Some,
            parts is Some ==> parts.unwrap()@.len() == fields.len() && cells_view(
                parts.unwrap()@,
            ) == split(e.2.unwrap()@, fields.len()).unwrap(),
            forall|k: int|
                0 <= k < fields.len() ==> (#[trigger] fields[k]) < ncols && fields[k]
                    != schema.time_index,
            forall|a: int, b: int|
                0 <= a < b < fields.len() ==> (#[trigger] fields[a]) < (#[trigger] fields[b]),
            forall|k: int|
                0 <= k < pk.len() ==> (#[trigger] pk[k]) != schema.time_index && !fields.contains(
                    pk[k],
                ) && pk[k] < ncols,
            forall|k: int|
                0 <= k < pk.len() ==> value_view(cells@[(#[trigger] pk[k]) as int]) == Some(
                    tag_views[k],
                ),
            value_view(cells@[schema.time_index as int]) == Some(le_bytes(ts_bits(e.0.1), 8)),
            forall|k: int|
                0 <= k < f ==> value_view(cells@[(#[trigger] fields[k]) as int]) == (match value_view(e.2) {
                    None => None,
                    Some(v) => Some(split(v, fields.len()).unwrap()[k]),
                }),
        decreases fields.len() - f,
    {
        let ghost before = cells@;
        let cell: Cell = match &parts {
            Some(p) => {
                assert(cells_view(p@)[f as int] == p@[f as int]@);
                Some(copy_bytes(&p[f]))
            },
            None => None,
        };
        cells.set(field_cols[f], cell);
        proof {
            assert forall|k: int| 0 <= k < pk.len() implies cells@[(#[trigger] pk[k]) as int]
                == before[pk[k] as int] by {
                if pk[k] == fields[f as int] {
                    assert(fields.contains(pk[k]));
                }
            }
        }
        f += 1;
    }
    cells
}

/// Where the sequence number and the kind of a row stand in a file.
pub fn internal_columns(schema: &TableSchema) -> (r: (usize, usize))
    requires
        schema.columns@.len() < usize::MAX,
    ensures
        r.0 == schema.columns@.len(),
        r.1 == schema.columns@.len() + 1,
{
    (schema.columns.len(), schema.columns.len() + 1)
}

/// Puts rows into columns.
pub fn internal_batch_from_rows(rows: &[Entry], schema: &TableSchema) -> (r: Result<
    Batch,
    BatchError,
>)
    requires
        schema.in_range(),
        forall|i: int|
            0 <= i < rows@.len() ==> can_encode(*schema, entry_view(#[trigger] rows@[i])),
    ensures
        r is Ok <==> rows@.len() == 0 || schema.is_sound(),
        r matches Ok(b) ==> {
            &&& b.readable(*schema)
            &&& b.rows().len() == rows@.len()
            &&& forall|i: int| #![trigger b.rows()[i]]
                0 <= i < rows@.len() ==> {
                    &&& b.rows()[i].0 == rows@[i].1
                    &&& b.rows()[i].1 == op_of(value_view(rows@[i].2))
                    &&& holds_entry(*schema, b.rows()[i].2, entry_view(rows@[i]))
                }
        },
{
    let mut batch = Batch::empty(schema.columns.len());
    if rows.len() == 0 {
        return Ok(batch);
    }
    if !schema.check_sound() {
        return Err(BatchError::UnevenColumns);
    }
    let field_cols = schema.field_cols();
    let mut i: usize = 0;
    while i < rows.len()
        invariant
            i <= rows@.len(),
            schema.is_sound(),
            field_cols@ == schema.fields(),
            batch.fits(schema.columns@.len()),
            batch.rows().len() == i,
            forall|k: int|
                0 <= k < rows@.len() ==> can_encode(*schema, entry_view(#[trigger] rows@[k])),
            forall|k: int| #![trigger batch.rows()[k]]
                0 <= k < i ==> {
                    &&& batch.rows()[k].0 == rows@[k].1
                    &&& batch.rows()[k].1 == op_of(value_view(rows@[k].2))
                    &&& holds_entry(*schema, batch.rows()[k].2, entry_view(rows@[k]))
                },
        decreases rows@.len() - i,
    {
        let e = &rows[i];
        let cells = encode_entry(e, schema, &field_cols);
        let op: i8 = if e.2.is_some() {
            OP_PUT
        } else {
            OP_DELETE
        };
        let ghost before = batch.rows();
        batch.push(e.1, op, cells);
        assert forall|k: int| 0 <= k < i implies #[trigger] batch.rows()[k] == before[k] by {}
        i += 1;
    }
    proof {
        assert forall|k: int| 0 <= k < batch.rows().len() implies is_timed(
            *schema,
            (#[trigger] batch.rows()[k]).2,
        ) by {
            lemma_le_bytes_len(ts_bits(rows@[k].0.1), 8);
        }
    }
    Ok(batch)
}

/// Cells that hold a canonical entry give back its key and value.
pub proof fn lemma_held_entry(schema: TableSchema, cells: Cells, e: EntryView, op: i8)
    requires
        schema.is_sound(),
        schema.columns@.len() <= usize::MAX,
        holds_entry(schema, cells, e),
        is_canonical(schema, e),
        op == op_of(e.2),
    ensures
        key_of(schema, cells) == e.0,
        value_of(schema, op, cells) == e.2,
{
    let tags = split(e.0.0, schema.primary_key@.len()).unwrap();
    lemma_split_len(e.0.0, schema.primary_key@.len());
    assert(row_tags(schema, cells) =~= tags);
    lemma_ts_roundtrip(e.0.1);
    lemma_le_roundtrip(ts_bits(e.0.1), 8);
    match e.2 {
        None => {},
        Some(v) => {
            let fields = split(v, schema.fields().len()).unwrap();
            lemma_split_len(v, schema.fields().len());
            assert forall|j: int| 0 <= j < schema.fields().len() implies cells[(
            #[trigger] schema.fields()[j]) as int] == Some(fields[j]) by {}
            assert(!has_null_field(schema, cells));
            assert(row_fields(schema, cells) =~= fields);
            if schema.fields().len() == 0 {
                assert(v =~= Seq::<u8>::empty()) by {
                    assert(fields.len() == 0);
                }
            }
        },
    }
}

/// An entry has its cells all to itself: no other cells hold it.
pub proof fn lemma_held_cells(schema: TableSchema, x: Cells, y: Cells, e: EntryView)
    requires
        schema.is_sound(),
        schema.columns@.len() <= usize::MAX,
        holds_entry(schema, x, e),
        holds_entry(schema, y, e),
    ensures
        x == y,
{
    crate::schema::lemma_fields_below(schema.columns@, schema.columns@.len());
    assert forall|c: int| 0 <= c < x.len() implies x[c] == y[c] by {
        let column = schema.columns@[c];
        if schema.is_key_column(c) {
            let j = choose|j: int|
                0 <= j < schema.primary_key@.len() && (#[trigger] schema.primary_key@[j]) == c;
            assert(x[schema.primary_key@[j] as int] == y[schema.primary_key@[j] as int]);
        } else if c != schema.time_index {
            assert(schema.fields().contains(c as usize));
            let j = choose|j: int|
                0 <= j < schema.fields().len() && schema.fields()[j] == c as usize;
            assert(x[schema.fields()[j] as int] == y[schema.fields()[j] as int]);
        }
    }
    assert(x =~= y);
}

/// Rows survive being put into columns.
pub proof fn law_batch_keeps_rows(schema: TableSchema, b: Batch, rows: Seq<EntryView>)
    requires
        schema.is_sound(),
        schema.columns@.len() <= usize::MAX,
        b.rows().len() == rows.len(),
        forall|i: int| #![trigger b.rows()[i]]
            0 <= i < rows.len() ==> {
                &&& b.rows()[i].0 == rows[i].1
                &&& b.rows()[i].1 == op_of(rows[i].2)
                &&& holds_entry(schema, b.rows()[i].2, rows[i])
            },
        forall|i: int| 0 <= i < rows.len() ==> is_canonical(schema, #[trigger] rows[i]),
    ensures
        row_entries(schema, b.rows()) == rows,
{
    assert forall|i: int| 0 <= i < rows.len() implies row_entries(schema, b.rows())[i]
        == rows[i] by {
        let r = b.rows()[i];
        assert(is_canonical(schema, rows[i]));
        lemma_held_entry(schema, r.2, rows[i], r.1);
    }
    assert(row_entries(schema, b.rows()) =~= rows);
}

/// Under a schema with one tag and one field, tags and value stand for
/// themselves: every row survives being put into columns.
pub proof fn law_single_cells_are_canonical(schema: TableSchema, e: EntryView)
    requires
        schema.primary_key@.len() == 1,
        schema.fields().len() == 1,
    ensures
        can_encode(schema, e),
        is_canonical(schema, e),
{
}

/// Row `i` of a batch is what stands at place `i` of every list.
pub proof fn law_rows_stand_in_columns(b: Batch, i: int, c: int)
    requires
        0 <= i < b.seqs@.len(),
        0 <= c < b.cols@.len(),
    ensures
        b.rows().len() == b.seqs@.len(),
        b.rows()[i].0 == b.seqs@[i],
        b.rows()[i].1 == b.ops@[i],
        b.rows()[i].2.len() == b.cols@.len(),
        b.rows()[i].2[c] is None <==> b.cols@[c]@[i] is None,
        b.cols@[c]@[i] matches Some(bytes) ==> b.rows()[i].2[c] == Some(bytes@),
{
}

/// The key of a row: its tag cells, joined in the order of the key, nulls as empty
/// ones, and the timestamp in its time cell.
pub proof fn law_keys_come_from_cells(schema: TableSchema, cells: Cells, ts: i64)
    ensures
        key_of(schema, cells).0 == joined(
            Seq::new(
                schema.primary_key@.len(),
                |j: int|
                    match cells[schema.primary_key@[j] as int] {
                        Some(b) => b,
                        None => Seq::<u8>::empty(),
                    },
            ),
        ),
        cells[schema.time_index as int] == Some(datum_cell(DatumView::Int(ts))) ==> key_of(
            schema,
            cells,
        ).1 == ts && is_timed(schema, cells),
        is_timed(schema, cells) <==> cells[schema.time_index as int] is Some
            && cells[schema.time_index as int].unwrap().len() == 8,
{
    lemma_le_bytes_len(ts_bits(ts), 8);
    lemma_ts_roundtrip(ts);
    lemma_le_roundtrip(ts_bits(ts), 8);
    assert(row_tags(schema, cells) =~= Seq::new(
        schema.primary_key@.len(),
        |j: int|
            match cells[schema.primary_key@[j] as int] {
                Some(b) => b,
                None => Seq::<u8>::empty(),
            },
    ));
}

/// The value of a row: none where it is a deletion or some field is null, and else
/// its field cells, joined.
pub proof fn law_values_come_from_cells(schema: TableSchema, op: i8, cells: Cells)
    ensures
        value_of(schema, 1, cells) is None,
        op != 1 && schema.fields().len() == 0 ==> value_of(schema, op, cells) == Some(
            Seq::<u8>::empty(),
        ),
        op != 1 && schema.fields().len() > 0 ==> (value_of(schema, op, cells) is None <==> !(forall|
            j: int,
        | #![trigger schema.fields()[j]]
            0 <= j < schema.fields().len() ==> cells[schema.fields()[j] as int] is Some)),
        op != 1 && schema.fields().len() > 0 && value_of(schema, op, cells) is Some ==> value_of(
            schema,
            op,
            cells,
        ) == Some(
            joined(
                Seq::new(
                    schema.fields().len(),
                    |j: int| cells[schema.fields()[j] as int].unwrap(),
                ),
            ),
        ),
{
    if !has_null_field(schema, cells) {
        assert(row_fields(schema, cells) =~= Seq::new(
            schema.fields().len(),
            |j: int| cells[schema.fields()[j] as int].unwrap(),
        )) by {
            assert forall|j: int| 0 <= j < schema.fields().len() implies cells[(
            #[trigger] schema.fields()[j]) as int] is Some by {}
        }
    }
}

/// How an entry is put into cells: the timestamp as a whole number in the time
/// column, tags and fields so that joining them gives back tags and value, and no
/// fields for a deletion, which is marked 1 where a write is marked 0.
pub proof fn law_entries_are_put_into_cells(schema: TableSchema, cells: Cells, e: EntryView)
    requires
        holds_entry(schema, cells, e),
        is_canonical(schema, e),
    ensures
        cells.len() == schema.columns@.len(),
        cells[schema.time_index as int] == Some(datum_cell(DatumView::Int(e.0.1))),
        forall|j: int| #![trigger schema.primary_key@[j]]
            0 <= j < schema.primary_key@.len() ==> cells[schema.primary_key@[j] as int] is Some,
        joined(
            Seq::new(
                schema.primary_key@.len(),
                |j: int| cells[schema.primary_key@[j] as int].unwrap(),
            ),
        ) == e.0.0,
        forall|j: int| #![trigger schema.fields()[j]]
            0 <= j < schema.fields().len() ==> (cells[schema.fields()[j] as int] is Some <==> e.2
                is Some),
        e.2 matches Some(v) ==> joined(
            Seq::new(
                schema.fields().len(),
                |j: int| cells[schema.fields()[j] as int].unwrap(),
            ),
        ) == v,
        op_of(e.2) == if e.2 is Some {
            0i8
        } else {
            1i8
        },
{
    let tags = split(e.0.0, schema.primary_key@.len()).unwrap();
    lemma_split_len(e.0.0, schema.primary_key@.len());
    assert(Seq::new(
        schema.primary_key@.len(),
        |j: int| cells[schema.primary_key@[j] as int].unwrap(),
    ) =~= tags) by {
        assert forall|j: int| 0 <= j < schema.primary_key@.len() implies cells[(
        #[trigger] schema.primary_key@[j]) as int] == Some(tags[j]) by {}
    }
    if e.2 is Some {
        let v = e.2.unwrap();
        let fields = split(v, schema.fields().len()).unwrap();
        lemma_split_len(v, schema.fields().len());
        assert(Seq::new(
            schema.fields().len(),
            |j: int| cells[schema.fields()[j] as int].unwrap(),
        ) =~= fields) by {
            assert forall|j: int| 0 <= j < schema.fields().len() implies cells[(
            #[trigger] schema.fields()[j]) as int] == Some(fields[j]) by {}
        }
    }
}

/// Which entries can be put into cells: those whose tags and value can be taken
/// apart. They are canonical where joining the parts gives them back.
pub proof fn law_entries_that_fit(schema: TableSchema, e: EntryView)
    ensures
        can_encode(schema, e) <==> split(e.0.0, schema.primary_key@.len()) is Some && (
        e.2 matches Some(v) ==> split(v, schema.fields().len()) is Some),
        is_canonical(schema, e) ==> can_encode(schema, e),
        is_canonical(schema, e) <==> (split(e.0.0, schema.primary_key@.len()) matches Some(parts)
            && joined(parts) == e.0.0) && (e.2 matches Some(v) ==> (split(
            v,
            schema.fields().len(),
        ) matches Some(parts) && joined(parts) == v)),
{
}

/// The rows of a batch stand one by one for entries with their key, number and
/// value, and several batches for those of each, one after the other.
pub proof fn law_rows_become_entries(
    schema: TableSchema,
    rows: Seq<BatchRow>,
    batches: Seq<Batch>,
    more: Batch,
)
    ensures
        row_entries(schema, rows).len() == rows.len(),
        forall|i: int| #![trigger row_entries(schema, rows)[i]]
            0 <= i < rows.len() ==> row_entries(schema, rows)[i] == (
                key_of(schema, rows[i].2),
                rows[i].0,
                value_of(schema, rows[i].1, rows[i].2),
            ),
        keyed_rows(schema, rows).len() == rows.len(),
        forall|i: int| #![trigger keyed_rows(schema, rows)[i]]
            0 <= i < rows.len() ==> keyed_rows(schema, rows)[i] == (
                key_of(schema, rows[i].2),
                rows[i].0,
                (rows[i].1, rows[i].2),
            ),
        batches_rows(Seq::<Batch>::empty()) == Seq::<BatchRow>::empty(),
        batches_rows(batches.push(more)) == batches_rows(batches) + more.rows(),
{
    assert(batches.push(more).drop_last() =~= batches);
}

/// What a list of cells stands for: each in order, nulls as nulls.
pub proof fn law_cells_keep_their_places(cells: Seq<Cell>)
    ensures
        row_view(cells).len() == cells.len(),
        forall|c: int| #![trigger row_view(cells)[c]]
            0 <= c < cells.len() ==> (cells[c] is None <==> row_view(cells)[c] is None) && (
            cells[c] matches Some(b) ==> row_view(cells)[c] == Some(b@)),
{
}

/// A batch can be read exactly where it has the columns of the schema, all as long as
/// there are rows, the positions of the schema are those of columns, and every row has
/// eight bytes in its time cell.
pub proof fn law_readable_batches(b: Batch, schema: TableSchema)
    ensures
        b.readable(schema) <==> {
            &&& b.cols@.len() == schema.columns@.len()
            &&& b.ops@.len() == b.seqs@.len()
            &&& forall|c: int|
                0 <= c < b.cols@.len() ==> (#[trigger] b.cols@[c])@.len() == b.seqs@.len()
            &&& schema.in_range()
            &&& forall|i: int| #![trigger b.rows()[i]]
                0 <= i < b.seqs@.len() ==> (b.rows()[i].2[schema.time_index as int] matches Some(t)
                    && t.len() == 8)
        },
{
}

} // verus!
