//! What is read of a table file is what was written to it.
//!
//! A file holds its rows in order, and its row group `g` holds chunk `g` of
//! them.

use vstd::prelude::*;
use crate::batch::{
    batches_rows, is_canonical, key_of, lemma_held_entry, row_entries, Batch, BatchRow,
};
use crate::entries::{is_run, newest, EntryView};
use crate::order::{group_key_order, key_lt};
use crate::schema::TableSchema;
use crate::sstable::bloom::bit_at;
use crate::sstable::index::{
    chunk, filter_of, group_matches, group_rows, group_start, in_chunks, law_index_roundtrip,
    law_row_groups_are_chunks, law_same_index_describes, lemma_group_start, restores,
    rows_have_bit, same_index, stores, IndexDto, IndexError, SstableIndex, CHUNK_ROWS,
};
use crate::sstable::sstable::{
    chunks_of, groups_rows, in_groups, in_times, law_no_row_group_no_row,
    law_one_row_group_suffices, lemma_run_part, lemma_scanned_run, lemma_within_concat,
    lemma_within_none, lists, scanned, search, timely, within, SSTable,
};
use crate::types::KeyView;

verus! {

broadcast use group_key_order;

/// What a lookup finds: nothing where no row group is to be read, and what the
/// search in the rows that were read finds otherwise.
pub open spec fn looked_up(
    at: Option<usize>,
    schema: TableSchema,
    read: Seq<Batch>,
    k: KeyView,
) -> Option<(u64, Option<Seq<u8>>)> {
    match at {
        None => None,
        Some(_) => search(row_entries(schema, batches_rows(read)), k),
    }
}

/// What a scan finds: nothing where no row group is to be read, and what is in
/// the range of the rows that were read otherwise.
pub open spec fn scanned_in(
    at: Option<(usize, usize)>,
    schema: TableSchema,
    read: Seq<Batch>,
    start: KeyView,
    end: KeyView,
) -> Seq<EntryView> {
    match at {
        None => Seq::empty(),
        Some(_) => scanned(row_entries(schema, batches_rows(read)), start, end),
    }
}

/// What filling an iterator with one batch after the other hands out.
pub open spec fn filled(
    schema: TableSchema,
    read: Seq<Batch>,
    start: KeyView,
    end: KeyView,
) -> Seq<EntryView>
    decreases read.len(),
{
    if read.len() == 0 {
        Seq::empty()
    } else {
        filled(schema, read.drop_last(), start, end) + scanned(
            row_entries(schema, read.last().rows()),
            start,
            end,
        )
    }
}

/// The chunks from `a` to `b` of some rows.
pub open spec fn chunks<T>(rows: Seq<T>, a: int, b: int) -> Seq<T> {
    let end = if (b + 1) * CHUNK_ROWS <= rows.len() {
        (b + 1) * CHUNK_ROWS
    } else {
        rows.len() as int
    };
    rows.subrange(a * CHUNK_ROWS, end)
}

/// The version under a key that a table of a skip list keeps.
pub open spec fn kept_version(
    list: Map<KeyView, (u64, Option<Seq<u8>>)>,
    keep_tombstones: bool,
    k: KeyView,
) -> Option<(u64, Option<Seq<u8>>)> {
    if list.dom().contains(k) && (keep_tombstones || list[k].1 is Some) {
        Some(list[k])
    } else {
        None
    }
}

proof fn lemma_full_batches(batches: Seq<Batch>)
    requires
        forall|b: int| #![trigger batches[b]]
            0 <= b < batches.len() ==> batches[b].rows().len() == CHUNK_ROWS,
    ensures
        batches_rows(batches).len() == batches.len() * CHUNK_ROWS,
        forall|b: int| #![trigger batches[b]]
            0 <= b < batches.len() ==> batches[b].rows() == batches_rows(batches).subrange(
                b * CHUNK_ROWS,
                (b + 1) * CHUNK_ROWS,
            ),
    decreases batches.len(),
{
    if batches.len() > 0 {
        let p = batches.drop_last();
        let n = p.len() as int;
        assert forall|b: int| #![trigger p[b]] 0 <= b < p.len() implies p[b].rows().len()
            == CHUNK_ROWS by {
            assert(p[b] == batches[b]);
        }
        lemma_full_batches(p);
        let r = batches_rows(batches);
        assert(batches[n].rows().len() == CHUNK_ROWS);
        assert((n + 1) * CHUNK_ROWS == n * CHUNK_ROWS + CHUNK_ROWS) by (nonlinear_arith);
        assert forall|b: int| #![trigger batches[b]]
            0 <= b < batches.len() implies batches[b].rows() == r.subrange(
            b * CHUNK_ROWS,
            (b + 1) * CHUNK_ROWS,
        ) by {
            if b < n {
                assert(p[b] == batches[b]);
                assert(0 <= b * CHUNK_ROWS <= (b + 1) * CHUNK_ROWS <= n * CHUNK_ROWS)
                    by (nonlinear_arith)
                    requires
                        0 <= b < n,
                ;
                assert(r.subrange(b * CHUNK_ROWS, (b + 1) * CHUNK_ROWS) =~= batches_rows(
                    p,
                ).subrange(b * CHUNK_ROWS, (b + 1) * CHUNK_ROWS));
            } else {
                assert(r.subrange(n * CHUNK_ROWS, (n + 1) * CHUNK_ROWS) =~= batches[n].rows());
            }
        }
    }
}

/// Batches of which all but the last are full are the chunks of their rows.
pub proof fn law_full_batches_are_chunks(batches: Seq<Batch>)
    requires
        forall|b: int| #![trigger batches[b]]
            0 <= b < batches.len() ==> 0 < batches[b].rows().len() <= CHUNK_ROWS && (b
                < batches.len() - 1 ==> batches[b].rows().len() == CHUNK_ROWS),
    ensures
        batches_rows(batches).len() <= batches.len() * CHUNK_ROWS < batches_rows(batches).len()
            + CHUNK_ROWS,
        forall|b: int| #![trigger batches[b]]
            0 <= b < batches.len() ==> batches[b].rows() == chunk(batches_rows(batches), b),
{
    if batches.len() > 0 {
        let p = batches.drop_last();
        let n = p.len() as int;
        assert forall|b: int| #![trigger p[b]] 0 <= b < p.len() implies p[b].rows().len()
            == CHUNK_ROWS by {
            assert(p[b] == batches[b]);
        }
        lemma_full_batches(p);
        let r = batches_rows(batches);
        let last = batches[n].rows();
        assert(0 < last.len() <= CHUNK_ROWS);
        assert((n + 1) * CHUNK_ROWS == n * CHUNK_ROWS + CHUNK_ROWS) by (nonlinear_arith);
        assert forall|b: int| #![trigger batches[b]]
            0 <= b < batches.len() implies batches[b].rows() == chunk(r, b) by {
            if b < n {
                assert(p[b] == batches[b]);
                assert(0 <= b * CHUNK_ROWS <= (b + 1) * CHUNK_ROWS <= n * CHUNK_ROWS)
                    by (nonlinear_arith)
                    requires
                        0 <= b < n,
                ;
                assert(chunk(r, b) =~= batches_rows(p).subrange(
                    b * CHUNK_ROWS,
                    (b + 1) * CHUNK_ROWS,
                ));
            } else {
                assert(chunk(r, n) =~= last);
            }
        }
    }
}

/// The row groups of a file are those that the index of its table names: row
/// group `g` holds chunk `g` of the rows.
pub proof fn law_file_holds_row_groups(
    t: SSTable,
    schema: TableSchema,
    file: Seq<BatchRow>,
)
    requires
        t.describes(row_entries(schema, file)),
        in_chunks(t.index_of().row_groups@, file.len()),
    ensures
        file.len() <= t.index_of().row_groups@.len() * CHUNK_ROWS < file.len() + CHUNK_ROWS,
        forall|g: int|
            0 <= g < t.index_of().row_groups@.len() ==> row_entries(schema, chunk(file, g))
                == #[trigger] group_rows(t.index_of().row_groups@, row_entries(schema, file), g),
{
    let rows = row_entries(schema, file);
    let groups = t.index_of().row_groups@;
    law_row_groups_are_chunks(t.index_of(), rows);
    assert forall|g: int| 0 <= g < groups.len() implies row_entries(schema, chunk(file, g))
        == #[trigger] group_rows(groups, rows, g) by {
        assert(group_matches(groups, rows, g));
        assert(group_start(groups, g) == g * CHUNK_ROWS);
        assert(row_entries(schema, chunk(file, g)) =~= chunk(rows, g));
    }
}

/// The batches of a written table hold its rows, one batch for every row group
/// that its index names.
pub proof fn law_written_batches_are_row_groups(
    t: SSTable,
    schema: TableSchema,
    batches: Seq<Batch>,
    rows: Seq<EntryView>,
)
    requires
        t.describes(rows),
        in_chunks(t.index_of().row_groups@, rows.len()),
        chunks_of(schema, batches, rows),
        rows.len() > 0 ==> schema.is_sound(),
        schema.columns@.len() <= usize::MAX,
        forall|i: int| 0 <= i < rows.len() ==> is_canonical(schema, #[trigger] rows[i]),
    ensures
        row_entries(schema, batches_rows(batches)) == rows,
        batches.len() == t.index_of().row_groups@.len(),
        forall|g: int| #![trigger batches[g]]
            0 <= g < batches.len() ==> batches[g].rows() == chunk(batches_rows(batches), g)
                && row_entries(schema, batches[g].rows()) == group_rows(
                t.index_of().row_groups@,
                rows,
                g,
            ),
{
    let file = batches_rows(batches);
    let groups = t.index_of().row_groups@;
    assert forall|i: int| 0 <= i < rows.len() implies row_entries(schema, file)[i] == rows[i] by {
        let r = file[i];
        assert(is_canonical(schema, rows[i]));
        lemma_held_entry(schema, r.2, rows[i], r.1);
    }
    assert(row_entries(schema, file) =~= rows);
    law_full_batches_are_chunks(batches);
    law_file_holds_row_groups(t, schema, file);
    let a = batches.len() as int;
    let b = groups.len() as int;
    assert(a == b) by (nonlinear_arith)
        requires
            file.len() <= a * CHUNK_ROWS < file.len() + CHUNK_ROWS,
            file.len() <= b * CHUNK_ROWS < file.len() + CHUNK_ROWS,
    ;
    assert forall|g: int| #![trigger batches[g]] 0 <= g < batches.len() implies row_entries(
        schema,
        batches[g].rows(),
    ) == group_rows(groups, rows, g) by {}
}

/// A lookup finds what is in the file: when it reads the row group that the
/// table leads to, it finds the newest version under the key; where the table
/// leads to none, there is no version.
pub proof fn law_key_in_file_is_found(
    t: SSTable,
    schema: TableSchema,
    file: Seq<BatchRow>,
    k: KeyView,
    at: Option<usize>,
    read: Seq<Batch>,
)
    requires
        t.describes(row_entries(schema, file)),
        in_chunks(t.index_of().row_groups@, file.len()),
        t.leads(k, at),
        at matches Some(g) ==> batches_rows(read) == chunk(file, g as int),
    ensures
        looked_up(at, schema, read, k) == newest(row_entries(schema, file), k),
{
    let rows = row_entries(schema, file);
    match at {
        None => {
            law_no_row_group_no_row(t, rows, k);
        },
        Some(g) => {
            law_file_holds_row_groups(t, schema, file);
            assert(row_entries(schema, chunk(file, g as int)) == group_rows(
                t.index_of().row_groups@,
                rows,
                g as int,
            ));
            law_one_row_group_suffices(t, rows, g, k);
        },
    }
}

/// A row group that was read answers a lookup as the whole table would, where
/// searching what the index says of it does.
pub proof fn law_row_group_answers(
    t: SSTable,
    schema: TableSchema,
    file: Seq<BatchRow>,
    g: usize,
    k: KeyView,
    read: Seq<Batch>,
)
    requires
        t.describes(row_entries(schema, file)),
        in_chunks(t.index_of().row_groups@, file.len()),
        g < t.index_of().row_groups@.len(),
        search(group_rows(t.index_of().row_groups@, row_entries(schema, file), g as int), k)
            == newest(row_entries(schema, file), k),
        batches_rows(read) == chunk(file, g as int),
    ensures
        search(row_entries(schema, batches_rows(read)), k) == newest(row_entries(schema, file), k),
{
    law_file_holds_row_groups(t, schema, file);
    assert(row_entries(schema, chunk(file, g as int)) == group_rows(
        t.index_of().row_groups@,
        row_entries(schema, file),
        g as int,
    ));
}

/// A lookup in a table that was made of a skip list finds what the skip list
/// holds under the key, and nothing where it holds nothing.
pub proof fn law_written_key_is_found(
    t: SSTable,
    schema: TableSchema,
    batches: Seq<Batch>,
    rows: Seq<EntryView>,
    list: Map<KeyView, (u64, Option<Seq<u8>>)>,
    keep_tombstones: bool,
    k: KeyView,
    at: Option<usize>,
    read: Seq<Batch>,
)
    requires
        lists(rows, list, keep_tombstones),
        t.describes(rows),
        in_chunks(t.index_of().row_groups@, rows.len()),
        chunks_of(schema, batches, rows),
        rows.len() > 0 ==> schema.is_sound(),
        schema.columns@.len() <= usize::MAX,
        forall|i: int| 0 <= i < rows.len() ==> is_canonical(schema, #[trigger] rows[i]),
        t.leads(k, at),
        at matches Some(g) ==> batches_rows(read) == batches[g as int].rows(),
    ensures
        looked_up(at, schema, read, k) == kept_version(list, keep_tombstones, k),
{
    law_written_batches_are_row_groups(t, schema, batches, rows);
    law_key_in_file_is_found(t, schema, batches_rows(batches), k, at, read);
    assert(newest(rows, k) == kept_version(list, keep_tombstones, k));
}

/// A table that was made can be opened again: its stored index is accepted, and
/// what is read from it says the same, so it is an index of the same rows.
pub proof fn law_created_table_reopens(
    t: SSTable,
    rows: Seq<EntryView>,
    m: u64,
    k: u32,
    dto: IndexDto,
    r: Result<SstableIndex, IndexError>,
)
    requires
        t.index_of().describes(rows),
        in_chunks(t.index_of().row_groups@, rows.len()),
        filter_of(t.index_of().bloom, rows, m, k),
        stores(dto, t.index_of()),
        restores(dto, r),
    ensures
        r matches Ok(back) && same_index(back, t.index_of()) && back.describes(rows) && in_chunks(
            back.row_groups@,
            rows.len(),
        ) && filter_of(back.bloom, rows, m, k),
{
    law_index_roundtrip(t.index_of(), dto, r);
    match r {
        Ok(back) => {
            let a = t.index_of().bloom;
            law_same_index_describes(back, t.index_of(), rows);
            assert forall|p: int| 0 <= p < back.bloom.bits@.len() * 8 implies (
            #[trigger] bit_at(back.bloom.bits@, p) <==> rows_have_bit(
                back.bloom,
                rows,
                rows.len() as int,
                p,
            )) by {
                assert(bit_at(a.bits@, p) <==> rows_have_bit(a, rows, rows.len() as int, p));
            }
        },
        Err(_) => {},
    }
}

/// A lookup in a table that was made of a skip list, stored and opened again
/// finds what the skip list held under the key, and nothing where it held
/// nothing.
pub proof fn law_reopened_key_is_found(
    t: SSTable,
    schema: TableSchema,
    batches: Seq<Batch>,
    rows: Seq<EntryView>,
    list: Map<KeyView, (u64, Option<Seq<u8>>)>,
    keep_tombstones: bool,
    m: u64,
    hashes: u32,
    dto: IndexDto,
    r: Result<SstableIndex, IndexError>,
    back: SSTable,
    k: KeyView,
    at: Option<usize>,
    read: Seq<Batch>,
)
    requires
        lists(rows, list, keep_tombstones),
        t.describes(rows),
        in_chunks(t.index_of().row_groups@, rows.len()),
        filter_of(t.index_of().bloom, rows, m, hashes),
        chunks_of(schema, batches, rows),
        rows.len() > 0 ==> schema.is_sound(),
        schema.columns@.len() <= usize::MAX,
        forall|i: int| 0 <= i < rows.len() ==> is_canonical(schema, #[trigger] rows[i]),
        stores(dto, t.index_of()),
        restores(dto, r),
        r matches Ok(index) ==> back.index_of() == index && (index.describes(rows) && is_run(rows)
            && rows.len() <= usize::MAX ==> back.describes(rows)),
        back.leads(k, at),
        at matches Some(g) ==> batches_rows(read) == batches[g as int].rows(),
    ensures
        r is Ok,
        looked_up(at, schema, read, k) == kept_version(list, keep_tombstones, k),
{
    law_created_table_reopens(t, rows, m, hashes, dto, r);
    assert(rows.len() == t.count());
    law_written_key_is_found(
        back,
        schema,
        batches,
        rows,
        list,
        keep_tombstones,
        k,
        at,
        read,
    );
}

/// A scan finds what is in the file: when it reads the row groups that the
/// table names for the range, it finds exactly the rows with keys in it.
pub proof fn law_rows_in_file_are_scanned(
    t: SSTable,
    schema: TableSchema,
    file: Seq<BatchRow>,
    start: KeyView,
    end: KeyView,
    at: Option<(usize, usize)>,
    read: Seq<Batch>,
)
    requires
        t.describes(row_entries(schema, file)),
        in_chunks(t.index_of().row_groups@, file.len()),
        t.spans(row_entries(schema, file), start, end, at),
        at matches Some((a, b)) ==> batches_rows(read) == chunks(file, a as int, b as int),
    ensures
        scanned_in(at, schema, read, start, end) == within(row_entries(schema, file), start, end),
        at is Some ==> is_run(row_entries(schema, batches_rows(read))),
{
    let rows = row_entries(schema, file);
    let groups = t.index_of().row_groups@;
    match at {
        None => {},
        Some((a, b)) => {
            let n = groups.len() as int;
            assert(group_start(groups, a as int) == a * CHUNK_ROWS);
            assert(group_matches(groups, rows, b as int));
            lemma_group_start(groups, a as int, b + 1);
            if b < n - 1 {
                assert(group_start(groups, b + 1) == (b + 1) * CHUNK_ROWS);
            }
            let own = groups_rows(groups, rows, a as int, b as int);
            assert(row_entries(schema, chunks(file, a as int, b as int)) =~= own);
            lemma_scanned_run(own, start, end);
        },
    }
}

proof fn lemma_batches_between(batches: Seq<Batch>, a: int, b: int)
    requires
        0 <= a <= b <= batches.len(),
    ensures
        batches_rows(batches.subrange(a, b)).len() + batches_rows(batches.take(a)).len()
            == batches_rows(batches.take(b)).len(),
        batches_rows(batches.take(b)).len() <= batches_rows(batches).len(),
        batches_rows(batches.subrange(a, b)) == batches_rows(batches).subrange(
            batches_rows(batches.take(a)).len() as int,
            batches_rows(batches.take(b)).len() as int,
        ),
    decreases batches.len(), b,
{
    let m = batches.subrange(a, b);
    let all = batches_rows(batches);
    if b < batches.len() {
        let p = batches.drop_last();
        lemma_batches_between(p, a, b);
        assert(p.subrange(a, b) =~= m);
        assert(p.take(a) =~= batches.take(a));
        assert(p.take(b) =~= batches.take(b));
        let x = batches_rows(batches.take(a)).len() as int;
        let y = batches_rows(batches.take(b)).len() as int;
        assert(all.subrange(x, y) =~= batches_rows(p).subrange(x, y));
    } else {
        assert(batches.take(b) =~= batches);
        if a < b {
            lemma_batches_between(batches, a, b - 1);
            assert(m.drop_last() =~= batches.subrange(a, b - 1));
            assert(batches.take(b - 1) =~= batches.drop_last());
            let x = batches_rows(batches.take(a)).len() as int;
            let y = batches_rows(batches.drop_last()).len() as int;
            assert(all.subrange(x, all.len() as int) =~= all.subrange(x, y)
                + batches.last().rows());
        } else {
            assert(m =~= Seq::empty());
            assert(batches_rows(m) =~= all.subrange(all.len() as int, all.len() as int));
        }
    }
}

/// A scan of a table that was made of a skip list finds exactly the rows with
/// keys in the range, in the order of their keys.
pub proof fn law_written_rows_are_scanned(
    t: SSTable,
    schema: TableSchema,
    batches: Seq<Batch>,
    rows: Seq<EntryView>,
    start: KeyView,
    end: KeyView,
    at: Option<(usize, usize)>,
    read: Seq<Batch>,
)
    requires
        t.describes(rows),
        in_chunks(t.index_of().row_groups@, rows.len()),
        chunks_of(schema, batches, rows),
        rows.len() > 0 ==> schema.is_sound(),
        schema.columns@.len() <= usize::MAX,
        forall|i: int| 0 <= i < rows.len() ==> is_canonical(schema, #[trigger] rows[i]),
        t.spans(rows, start, end, at),
        at matches Some((a, b)) ==> batches_rows(read) == batches_rows(
            batches.subrange(a as int, b + 1),
        ),
    ensures
        scanned_in(at, schema, read, start, end) == within(rows, start, end),
        is_run(within(rows, start, end)),
        key_lt(end, start) ==> within(rows, start, end) == Seq::<EntryView>::empty(),
        at is Some ==> filled(schema, read, start, end) == within(rows, start, end),
{
    law_written_batches_are_row_groups(t, schema, batches, rows);
    let file = batches_rows(batches);
    match at {
        None => {},
        Some((a, b)) => {
            law_full_batches_are_chunks(batches);
            lemma_batches_between(batches, a as int, b + 1);
            lemma_chunk_prefix(batches, a as int);
            if b + 1 < batches.len() {
                lemma_chunk_prefix(batches, b + 1);
            } else {
                assert(batches.take(b + 1) =~= batches);
            }
            assert(chunks(file, a as int, b as int) =~= batches_rows(
                batches.subrange(a as int, b + 1),
            ));
        },
    }
    law_rows_in_file_are_scanned(t, schema, file, start, end, at, read);
    if at is Some {
        law_filled_is_scanned(schema, read, start, end);
    }
    lemma_within_run(rows, start, end);
    if key_lt(end, start) {
        lemma_within_none(rows, start, end);
    }
}

proof fn lemma_chunk_prefix(batches: Seq<Batch>, n: int)
    requires
        0 <= n < batches.len(),
        forall|b: int| #![trigger batches[b]]
            0 <= b < batches.len() - 1 ==> batches[b].rows().len() == CHUNK_ROWS,
    ensures
        batches_rows(batches.take(n)).len() == n * CHUNK_ROWS,
{
    let p = batches.take(n);
    assert forall|b: int| #![trigger p[b]] 0 <= b < p.len() implies p[b].rows().len()
        == CHUNK_ROWS by {
        assert(p[b] == batches[b]);
    }
    lemma_full_batches(p);
}

proof fn lemma_within_run(rows: Seq<EntryView>, start: KeyView, end: KeyView)
    requires
        is_run(rows),
    ensures
        is_run(within(rows, start, end)),
        forall|i: int|
            0 <= i < within(rows, start, end).len() ==> rows.contains(
                #[trigger] within(rows, start, end)[i],
            ),
    decreases rows.len(),
{
    if rows.len() > 0 {
        let p = rows.drop_last();
        let n = rows.len() - 1;
        assert(p =~= rows.subrange(0, n));
        lemma_run_part(rows, 0, n);
        lemma_within_run(p, start, end);
        let w = within(rows, start, end);
        let q = within(p, start, end);
        assert forall|i: int| 0 <= i < w.len() implies rows.contains(#[trigger] w[i]) by {
            if i < q.len() {
                assert(w[i] == q[i]);
                let x = choose|x: int| 0 <= x < p.len() && p[x] == q[i];
                assert(rows[x] == w[i]);
            } else {
                assert(rows[n] == w[i]);
            }
        }
        assert forall|i: int, j: int| #![trigger w[i], w[j]]
            0 <= i < j < w.len() implies key_lt(w[i].0, w[j].0) by {
            assert(w[i] == q[i]);
            if j < q.len() {
                assert(w[j] == q[j]);
            } else {
                let x = choose|x: int| 0 <= x < p.len() && p[x] == q[i];
                assert(rows[x] == w[i]);
                assert(rows[n] == w[j]);
            }
        }
    }
}

/// Filling an iterator batch by batch hands out what one scan of all the rows
/// finds, where the rows are in the order of their keys.
pub proof fn law_filled_is_scanned(
    schema: TableSchema,
    read: Seq<Batch>,
    start: KeyView,
    end: KeyView,
)
    requires
        is_run(row_entries(schema, batches_rows(read))),
    ensures
        filled(schema, read, start, end) == scanned(
            row_entries(schema, batches_rows(read)),
            start,
            end,
        ),
    decreases read.len(),
{
    let all = row_entries(schema, batches_rows(read));
    lemma_scanned_run(all, start, end);
    if read.len() == 0 {
        assert(all =~= Seq::empty());
        assert(within(all, start, end) =~= Seq::empty());
    } else {
        let p = row_entries(schema, batches_rows(read.drop_last()));
        let q = row_entries(schema, read.last().rows());
        assert(all =~= p + q);
        assert(p =~= all.subrange(0, p.len() as int));
        assert(q =~= all.subrange(p.len() as int, all.len() as int));
        lemma_run_part(all, 0, p.len() as int);
        lemma_run_part(all, p.len() as int, all.len() as int);
        law_filled_is_scanned(schema, read.drop_last(), start, end);
        lemma_scanned_run(p, start, end);
        lemma_scanned_run(q, start, end);
        lemma_within_concat(p, q, start, end);
    }
}

/// The rows of the listed row groups of a file, in order.
pub open spec fn read_groups(file: Seq<BatchRow>, groups: Seq<usize>) -> Seq<BatchRow>
    decreases groups.len(),
{
    if groups.len() == 0 {
        Seq::empty()
    } else {
        read_groups(file, groups.drop_last()) + chunk(file, groups.last() as int)
    }
}

/// Filtering two lists of rows in a row is filtering each.
pub proof fn lemma_timely_concat(
    schema: TableSchema,
    a: Seq<BatchRow>,
    b: Seq<BatchRow>,
    range: Option<(i64, i64)>,
)
    ensures
        timely(schema, a + b, range) == timely(schema, a, range) + timely(schema, b, range),
    decreases b.len(),
{
    if b.len() == 0 {
        assert(a + b =~= a);
        assert(timely(schema, a, range) + timely(schema, b, range) =~= timely(schema, a, range));
    } else {
        lemma_timely_concat(schema, a, b.drop_last(), range);
        assert((a + b).drop_last() =~= a + b.drop_last());
        let x = timely(schema, a, range);
        let y = timely(schema, b.drop_last(), range);
        assert(x + y.push(b.last()) =~= (x + y).push(b.last()));
    }
}

proof fn lemma_timely_none(schema: TableSchema, rows: Seq<BatchRow>, range: Option<(i64, i64)>)
    requires
        forall|i: int|
            0 <= i < rows.len() ==> !in_times(key_of(schema, (#[trigger] rows[i]).2).1, range),
    ensures
        timely(schema, rows, range) == Seq::<BatchRow>::empty(),
    decreases rows.len(),
{
    if rows.len() > 0 {
        let p = rows.drop_last();
        assert forall|i: int| 0 <= i < p.len() implies !in_times(
            key_of(schema, (#[trigger] p[i]).2).1,
            range,
        ) by {
            assert(p[i] == rows[i]);
        }
        lemma_timely_none(schema, p, range);
        assert(rows[rows.len() - 1] == rows.last());
    }
}

/// The first `m` of the listed row groups, which are those before row group `g`,
/// hold all rows in the range before it.
proof fn lemma_read_before(
    t: SSTable,
    schema: TableSchema,
    file: Seq<BatchRow>,
    groups: Seq<usize>,
    range: Option<(i64, i64)>,
    g: int,
    m: int,
)
    requires
        t.describes(row_entries(schema, file)),
        in_chunks(t.index_of().row_groups@, file.len()),
        forall|i: int|
            0 <= i < file.len() && in_times(key_of(schema, (#[trigger] file[i]).2).1, range)
                ==> in_groups(t.index_of().row_groups@, groups, i),
        forall|x: int, y: int|
            0 <= x < y < groups.len() ==> (#[trigger] groups[x]) < (#[trigger] groups[y]),
        0 <= g <= t.index_of().row_groups@.len(),
        0 <= m <= groups.len(),
        forall|x: int| 0 <= x < m ==> (#[trigger] groups[x]) < g,
        forall|x: int| m <= x < groups.len() ==> (#[trigger] groups[x]) >= g,
    ensures
        timely(schema, read_groups(file, groups.take(m)), range) == timely(
            schema,
            file.take(group_start(t.index_of().row_groups@, g)),
            range,
        ),
    decreases g,
{
    let index = t.index_of().row_groups@;
    let rows = row_entries(schema, file);
    if g == 0 {
        assert(m == 0) by {
            if m > 0 {
                assert(groups[0] < 0);
            }
        }
        reveal_with_fuel(group_start, 2);
        assert(groups.take(0) =~= Seq::empty());
        assert(file.take(0) =~= Seq::empty());
    } else {
        let h = g - 1;
        let a = group_start(index, h);
        let b = group_start(index, g);
        law_row_groups_are_chunks(t.index_of(), rows);
        assert(group_matches(index, rows, h));
        assert(group_rows(index, rows, h) == chunk(rows, h));
        let own = chunk(file, h);
        assert(own =~= file.subrange(a, b)) by {
            assert(group_rows(index, rows, h).len() == b - a);
            assert(a == h * CHUNK_ROWS);
        }
        assert(file.take(b) =~= file.take(a) + own);
        lemma_timely_concat(schema, file.take(a), own, range);
        if m > 0 && groups[m - 1] == h {
            lemma_read_before(t, schema, file, groups, range, h, m - 1);
            let p = groups.take(m);
            assert(p.drop_last() =~= groups.take(m - 1));
            assert(p.last() == groups[m - 1]);
            lemma_timely_concat(schema, read_groups(file, groups.take(m - 1)), own, range);
        } else {
            assert forall|x: int| 0 <= x < m implies (#[trigger] groups[x]) < h by {
                if x < m - 1 {
                    assert(groups[x] < groups[m - 1]);
                }
            }
            lemma_read_before(t, schema, file, groups, range, h, m);
            assert forall|i: int| 0 <= i < own.len() implies !in_times(
                key_of(schema, (#[trigger] own[i]).2).1,
                range,
            ) by {
                assert(own[i] == file[a + i]);
                if in_times(key_of(schema, own[i].2).1, range) {
                    assert(in_groups(index, groups, a + i));
                    let x = choose|x: int| #![trigger groups[x]]
                        0 <= x < groups.len() && group_start(index, groups[x] as int) <= a + i
                            < group_start(index, groups[x] + 1);
                    if groups[x] < h {
                        lemma_group_start(index, groups[x] + 1, h);
                    } else {
                        lemma_group_start(index, g, groups[x] as int);
                    }
                }
            }
            lemma_timely_none(schema, own, range);
            assert(timely(schema, file.take(a), range) + Seq::<BatchRow>::empty() =~= timely(
                schema,
                file.take(a),
                range,
            ));
        }
    }
}

/// Leaving out row groups without a timestamp in the range loses no row in it:
/// filtering what was read gives what filtering the whole file would.
pub proof fn law_pruned_read_is_whole(
    t: SSTable,
    schema: TableSchema,
    file: Seq<BatchRow>,
    groups: Seq<usize>,
    range: Option<(i64, i64)>,
)
    requires
        t.describes(row_entries(schema, file)),
        in_chunks(t.index_of().row_groups@, file.len()),
        forall|x: int|
            0 <= x < groups.len() ==> (#[trigger] groups[x]) < t.index_of().row_groups@.len(),
        forall|x: int, y: int|
            0 <= x < y < groups.len() ==> (#[trigger] groups[x]) < (#[trigger] groups[y]),
        forall|i: int| #![trigger row_entries(schema, file)[i]]
            0 <= i < file.len() && in_times(row_entries(schema, file)[i].0.1, range) ==> in_groups(
                t.index_of().row_groups@,
                groups,
                i,
            ),
    ensures
        timely(schema, read_groups(file, groups), range) == timely(schema, file, range),
{
    let index = t.index_of().row_groups@;
    let n = index.len() as int;
    assert forall|i: int|
        0 <= i < file.len() && in_times(
            key_of(schema, (#[trigger] file[i]).2).1,
            range,
        ) implies in_groups(index, groups, i) by {
        assert(row_entries(schema, file)[i].0 == key_of(schema, file[i].2));
    }
    lemma_read_before(t, schema, file, groups, range, n, groups.len() as int);
    assert(groups.take(groups.len() as int) =~= groups);
    assert(file.take(file.len() as int) =~= file);
}

/// A table keeps what a skip list has under a key, deletions only where it is told to.
pub proof fn law_kept_versions(
    list: Map<KeyView, (u64, Option<Seq<u8>>)>,
    keep_tombstones: bool,
    k: KeyView,
)
    ensures
        !list.dom().contains(k) ==> kept_version(list, keep_tombstones, k) is None,
        list.dom().contains(k) && list[k].1 is Some ==> kept_version(list, keep_tombstones, k)
            == Some(list[k]),
        list.dom().contains(k) && list[k].1 is None ==> kept_version(list, true, k) == Some(list[k])
            && kept_version(list, false, k) is None,
{
}

/// The batches of a written table hold 8192 rows each, but for the last one, which is
/// not empty and holds no more.
pub proof fn law_written_batches_are_full(
    schema: TableSchema,
    batches: Seq<Batch>,
    rows: Seq<EntryView>,
    b: int,
)
    requires
        chunks_of(schema, batches, rows),
        0 <= b < batches.len(),
    ensures
        b < batches.len() - 1 ==> batches[b].rows().len() == 8192,
        0 < batches[b].rows().len() <= 8192,
        batches_rows(batches).len() == rows.len(),
        forall|i: int| #![trigger rows[i]]
            0 <= i < rows.len() ==> batches_rows(batches)[i].0 == rows[i].1
                && batches_rows(batches)[i].1 == if rows[i].2 is Some {
                0i8
            } else {
                1i8
            },
{
    assert forall|i: int| #![trigger rows[i]]
        0 <= i < rows.len() implies batches_rows(batches)[i].0 == rows[i].1
        && batches_rows(batches)[i].1 == if rows[i].2 is Some {
        0i8
    } else {
        1i8
    } by {
        assert(batches_rows(batches)[i].0 == rows[i].1);
    }
}

/// What is read of a file: row group after row group, in the order in which they are
/// listed; and what an iterator hands out: batch after batch, what is in the range.
pub proof fn law_reads_go_one_by_one(
    file: Seq<BatchRow>,
    groups: Seq<usize>,
    g: usize,
    schema: TableSchema,
    read: Seq<Batch>,
    more: Batch,
    start: KeyView,
    end: KeyView,
)
    ensures
        read_groups(file, Seq::<usize>::empty()) == Seq::<BatchRow>::empty(),
        read_groups(file, groups.push(g)) == read_groups(file, groups) + chunk(file, g as int),
        filled(schema, Seq::<Batch>::empty(), start, end) == Seq::<EntryView>::empty(),
        filled(schema, read.push(more), start, end) == filled(schema, read, start, end) + scanned(
            row_entries(schema, more.rows()),
            start,
            end,
        ),
{
    assert(groups.push(g).drop_last() =~= groups);
    assert(read.push(more).drop_last() =~= read);
}

} // verus!
