//! What the batches of a memtable are.

use vstd::prelude::*;
use crate::batch::{key_of, lemma_held_cells, lemma_held_entry, op_of, Batch};
use crate::entries::{
    flat_rows, lemma_flat_rows, lemma_newest_in_run, lemma_newest_is_max, newest, EntryView,
};
use crate::memtable::memtable::all_canonical;
use crate::memtable::traits::{batches_of, by_series, hold_runs, newest_runs};
use crate::run::lemma_same_run;
use crate::schema::TableSchema;
use crate::types::KeyView;

verus! {

proof fn lemma_cut_by_series(a: Seq<Seq<EntryView>>, b: Seq<Seq<EntryView>>)
    requires
        by_series(a),
        by_series(b),
        forall|i: int| 0 <= i < a.len() ==> (#[trigger] a[i]).len() > 0,
        forall|i: int| 0 <= i < b.len() ==> (#[trigger] b[i]).len() > 0,
        flat_rows(a) == flat_rows(b),
    ensures
        a == b,
    decreases a.len(),
{
    let f = flat_rows(a);
    if a.len() == 0 || b.len() == 0 {
        if a.len() > 0 {
            assert(a[a.len() - 1].len() > 0);
        }
        if b.len() > 0 {
            assert(b[b.len() - 1].len() > 0);
        }
        assert(a =~= b);
    } else {
        let x = a.last();
        let y = b.last();
        assert(x == a[a.len() - 1] && y == b[b.len() - 1]);
        let m = f.len() as int;
        assert(f[m - 1] == x[x.len() - 1]);
        assert(f[m - 1] == y[y.len() - 1]);
        assert(a[a.len() - 1][x.len() - 1].0.0 == x[0].0.0);
        assert(b[b.len() - 1][y.len() - 1].0.0 == y[0].0.0);
        lemma_last_parts(a, b);
        lemma_last_parts(b, a);
        let p = a.drop_last();
        let q = b.drop_last();
        assert(x =~= f.subrange(m - x.len(), m));
        assert(y =~= f.subrange(m - y.len(), m));
        assert(flat_rows(p) =~= f.subrange(0, m - x.len()));
        assert(flat_rows(q) =~= f.subrange(0, m - y.len()));
        lemma_by_series_part(a);
        lemma_by_series_part(b);
        assert forall|i: int| 0 <= i < p.len() implies (#[trigger] p[i]).len() > 0 by {
            assert(p[i] == a[i]);
        }
        assert forall|i: int| 0 <= i < q.len() implies (#[trigger] q[i]).len() > 0 by {
            assert(q[i] == b[i]);
        }
        lemma_cut_by_series(p, q);
        assert(a =~= p.push(x));
        assert(b =~= q.push(y));
    }
}

proof fn lemma_by_series_part(a: Seq<Seq<EntryView>>)
    requires
        by_series(a),
        a.len() > 0,
    ensures
        by_series(a.drop_last()),
{
    let p = a.drop_last();
    assert forall|b: int, i: int| 0 <= b < p.len() && 0 <= i < p[b].len() implies (
    #[trigger] p[b][i]).0.0 == p[b][0].0.0 by {
        assert(p[b][i] == a[b][i]);
    }
    assert forall|c: int, d: int|
        0 <= c < d < p.len() && p[c].len() > 0 && p[d].len() > 0 implies (
    #[trigger] p[c])[0].0.0 != (#[trigger] p[d])[0].0.0 by {
        assert(p[c] == a[c] && p[d] == a[d]);
    }
}

/// The last part of a cut by series is not shorter than that of another cut of
/// the same rows.
proof fn lemma_last_parts(a: Seq<Seq<EntryView>>, b: Seq<Seq<EntryView>>)
    requires
        by_series(a),
        by_series(b),
        forall|i: int| 0 <= i < a.len() ==> (#[trigger] a[i]).len() > 0,
        flat_rows(a) == flat_rows(b),
        a.len() > 0,
        b.len() > 0,
        a.last()[0].0.0 == b.last()[0].0.0,
    ensures
        b.last().len() <= a.last().len(),
{
    let x = a.last();
    let y = b.last();
    let f = flat_rows(a);
    let m = f.len() as int;
    let p = a.drop_last();
    if x.len() < y.len() {
        let at = m - x.len() - 1;
        assert(flat_rows(b) == flat_rows(b.drop_last()) + y);
        assert(f[at] == y[y.len() - x.len() - 1]);
        assert(b[b.len() - 1][y.len() - x.len() - 1].0.0 == y[0].0.0);
        assert(p.len() > 0) by {
            if p.len() == 0 {
                assert(flat_rows(p).len() == 0);
            }
        }
        let z = p.last();
        let l = a.len() - 2;
        assert(z == a[l]);
        assert(z.len() > 0);
        assert(flat_rows(p) == flat_rows(p.drop_last()) + z);
        assert(f[at] == flat_rows(p)[at]);
        assert(f[at] == z[z.len() - 1]);
        assert(a[l][z.len() - 1].0.0 == a[l][0].0.0);
        assert(a[l][0].0.0 != a[l + 1][0].0.0);
    }
}

/// The batches of a memtable are determined by its rows: asking for them again,
/// before or after it is frozen, gives the same batches.
pub proof fn law_batches_are_determined(
    schema: TableSchema,
    a: Seq<Batch>,
    b: Seq<Batch>,
    h: Seq<EntryView>,
)
    requires
        batches_of(schema, a, h),
        batches_of(schema, b, h),
        h.len() > 0 ==> schema.is_sound(),
        schema.columns@.len() <= usize::MAX,
    ensures
        a.len() == b.len(),
        forall|i: int| #![trigger a[i], b[i]] 0 <= i < a.len() ==> a[i].rows() == b[i].rows(),
{
    let r = choose|runs: Seq<Seq<EntryView>>|
        #![trigger hold_runs(schema, a, runs)]
        hold_runs(schema, a, runs) && newest_runs(runs, h);
    let s = choose|runs: Seq<Seq<EntryView>>|
        #![trigger hold_runs(schema, b, runs)]
        hold_runs(schema, b, runs) && newest_runs(runs, h);
    assert forall|k: KeyView| #[trigger] newest(flat_rows(r), k) == newest(flat_rows(s), k) by {
        assert(newest(flat_rows(r), k) == newest(h, k));
        assert(newest(flat_rows(s), k) == newest(h, k));
    }
    lemma_same_run(flat_rows(r), flat_rows(s));
    assert forall|i: int| 0 <= i < r.len() implies (#[trigger] r[i]).len() > 0 by {
        assert(a[i].rows().len() == r[i].len());
    }
    assert forall|i: int| 0 <= i < s.len() implies (#[trigger] s[i]).len() > 0 by {
        assert(b[i].rows().len() == s[i].len());
    }
    lemma_cut_by_series(r, s);
    assert forall|i: int| #![trigger a[i], b[i]] 0 <= i < a.len() implies a[i].rows()
        == b[i].rows() by {
        if h.len() == 0 {
            let k = r[i][0].0;
            crate::entries::lemma_flat_rows(r);
            assert(flat_rows(r).contains(r[i][0]));
            crate::entries::lemma_newest_none(flat_rows(r), k);
            assert(newest(flat_rows(r), k) == newest(h, k));
        }
        assert forall|x: int| 0 <= x < r[i].len() implies a[i].rows()[x] == b[i].rows()[x] by {
            let c = a[i].rows()[x];
            let d = b[i].rows()[x];
            lemma_held_cells(schema, c.2, d.2, r[i][x]);
        }
        assert(a[i].rows() =~= b[i].rows());
    }
}

/// Each batch of a memtable holds the rows of one series, and no two batches hold
/// rows of the same series.
pub proof fn law_batches_are_by_series(
    schema: TableSchema,
    batches: Seq<Batch>,
    h: Seq<EntryView>,
    a: int,
    b: int,
    i: int,
    j: int,
)
    requires
        batches_of(schema, batches, h),
        all_canonical(h, schema),
        schema.is_sound(),
        schema.columns@.len() <= usize::MAX,
        0 <= a < batches.len(),
        0 <= b < batches.len(),
        0 <= i < batches[a].rows().len(),
        0 <= j < batches[b].rows().len(),
    ensures
        key_of(schema, batches[a].rows()[i].2).0 == key_of(schema, batches[b].rows()[j].2).0 <==> a
            == b,
        batches[a].rows().len() > 0,
{
    let runs = choose|runs: Seq<Seq<EntryView>>|
        #![trigger hold_runs(schema, batches, runs)]
        hold_runs(schema, batches, runs) && newest_runs(runs, h);
    assert(batches[a].rows().len() == runs[a].len());
    assert(batches[b].rows().len() == runs[b].len());
    lemma_run_row(schema, batches, runs, h, a, i);
    lemma_run_row(schema, batches, runs, h, b, j);
    assert(runs[a][i].0.0 == runs[a][0].0.0);
    assert(runs[b][j].0.0 == runs[b][0].0.0);
    if a < b {
        assert(runs[a][0].0.0 != runs[b][0].0.0);
    } else if b < a {
        assert(runs[b][0].0.0 != runs[a][0].0.0);
    }
}

proof fn lemma_run_row(
    schema: TableSchema,
    batches: Seq<Batch>,
    runs: Seq<Seq<EntryView>>,
    h: Seq<EntryView>,
    b: int,
    i: int,
)
    requires
        hold_runs(schema, batches, runs),
        newest_runs(runs, h),
        all_canonical(h, schema),
        schema.is_sound(),
        schema.columns@.len() <= usize::MAX,
        0 <= b < batches.len(),
        0 <= i < batches[b].rows().len(),
    ensures
        key_of(schema, batches[b].rows()[i].2) == runs[b][i].0,
{
    let e = runs[b][i];
    let flat = flat_rows(runs);
    assert(batches[b].rows()[i].0 == e.1);
    lemma_flat_rows(runs);
    assert(flat.contains(runs[b][i]));
    let x = choose|x: int| 0 <= x < flat.len() && flat[x] == e;
    lemma_newest_in_run(flat, x);
    lemma_newest_is_max(h, e.0);
    let y = choose|y: int| 0 <= y < h.len() && #[trigger] h[y] == (e.0, e.1, e.2);
    assert(h[y] == e);
    lemma_held_entry(schema, batches[b].rows()[i].2, e, op_of(e.2));
}

} // verus!
