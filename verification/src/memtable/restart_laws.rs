//! What a region that is opened again holds of the one that was closed.

use vstd::prelude::*;
use crate::entries::{
    agree, flat_rows, lemma_flat_rows, lemma_newest_is_max, lemma_newest_none, lemma_same_newest,
    max_seq_of, newest, part_of, EntryView,
};
use crate::memtable::columnar::ColumnarMemtable;
use crate::memtable::compaction::{lemma_append_rises, rises, sorted};
use crate::memtable::recovery::{
    entries_by_number, entry_place, file_place, is_by_number, is_stray,
    law_adopted_numbers_are_new, law_strays_are_adopted, lists_table, merged_in, strays,
    ManifestEntry,
};
use crate::memtable::region_laws::{
    all_before, law_restart_keeps_logged_batches, lemma_agree_part, lemma_before_part,
    lemma_layer_at, lemma_layers_outdone, lemma_layers_part, ops_of,
};
use crate::memtable::traits::{bytes_of, entry_ops, op_entries, ImmutableMemtable, Memtable};
use crate::memtable::version::{frozen_layers, Version};
use crate::memtable::wal::{appended, recovered, OpView};
use crate::memtable::wal_laws::{lemma_log_push, log_of, recoverable};
use crate::names::{law_sst_name_roundtrip, names_sst, sst_id_of, sst_name};
use crate::sstable::index::{in_chunks, law_same_index_describes, same_index};
use crate::sstable::sstable::SSTable;
use crate::types::KeyView;

verus! {

/// The log holds the rows of a memtable, batch by batch in the order in which
/// they were written.
pub open spec fn logs(log: Seq<u8>, h: Seq<EntryView>, batches: Seq<Seq<EntryView>>) -> bool {
    &&& log == log_of(ops_of(batches))
    &&& h == flat_rows(batches)
    &&& forall|i: int|
        0 <= i < batches.len() ==> recoverable(entry_ops(#[trigger] batches[i]))
}

/// A memtable and its log keep in step: after what a write asks for is appended
/// and the write is finished, the log holds the rows of the memtable as before.
pub proof fn law_log_keeps_step(
    log: Seq<u8>,
    h: Seq<EntryView>,
    batches: Seq<Seq<EntryView>>,
    es: Seq<EntryView>,
)
    requires
        logs(log, h, batches),
        recoverable(entry_ops(es)),
    ensures
        logs(log + appended(entry_ops(es)), h + es, batches.push(es)),
{
    let more = batches.push(es);
    lemma_log_push(ops_of(batches), entry_ops(es));
    assert(ops_of(more) =~= ops_of(batches).push(entry_ops(es)));
    assert(more.drop_last() =~= batches);
    assert forall|i: int| 0 <= i < more.len() implies recoverable(
        entry_ops(#[trigger] more[i]),
    ) by {
        if i < batches.len() {
            assert(more[i] == batches[i]);
        }
    }
}

/// A log gives back the rows that it holds.
pub proof fn law_log_gives_rows_back(
    log: Seq<u8>,
    h: Seq<EntryView>,
    batches: Seq<Seq<EntryView>>,
)
    requires
        logs(log, h, batches),
    ensures
        op_entries(recovered(log)) == h,
{
    let torn: Seq<EntryView> = if batches.len() > 0 {
        batches[0]
    } else {
        Seq::empty()
    };
    if batches.len() > 0 {
        assert(recoverable(entry_ops(batches[0])));
        lemma_frame_is_long(entry_ops(torn));
        law_restart_keeps_logged_batches(batches, torn, 0);
    } else {
        assert(log =~= Seq::empty());
        assert(op_entries(recovered(log)) =~= h);
    }
}

proof fn lemma_frame_is_long(ops: Seq<OpView>)
    requires
        recoverable(ops),
    ensures
        0 < appended(ops).len(),
{
}

/// A memtable that is rebuilt from its log is as it was before, whatever the
/// number of its shards: same rows, so same answers, counts and sizes.
pub proof fn law_memtable_survives_restart(
    m: ColumnarMemtable,
    back: ColumnarMemtable,
    log: Seq<u8>,
    batches: Seq<Seq<EntryView>>,
)
    requires
        logs(log, m.history(), batches),
        back.history() == op_entries(recovered(log)),
    ensures
        back.history() == m.history(),
        forall|k: KeyView| #[trigger] newest(back.history(), k) == newest(m.history(), k),
        back.history().len() == m.history().len(),
        max_seq_of(back.history()) == max_seq_of(m.history()),
        bytes_of(back.history()) == bytes_of(m.history()),
{
    law_log_gives_rows_back(log, m.history(), batches);
}

/// `hs` are the rows of the active memtable before, between and after taking
/// over the rows of one orphaned log after the other.
pub open spec fn takes_over(hs: Seq<Seq<EntryView>>, orphans: Seq<Seq<EntryView>>) -> bool {
    &&& hs.len() == orphans.len() + 1
    &&& forall|i: int| #![trigger orphans[i]]
        0 <= i < orphans.len() ==> merged_in(hs[i + 1], hs[i], orphans[i])
}

/// Taking over orphaned logs leaves for every key the newest version of all
/// logs, and only rows that were in one of them.
pub proof fn law_all_logs_are_taken_over(
    hs: Seq<Seq<EntryView>>,
    orphans: Seq<Seq<EntryView>>,
)
    requires
        takes_over(hs, orphans),
    ensures
        forall|k: KeyView|
            #[trigger] newest(hs.last(), k) == newest(flat_rows(seq![hs[0]] + orphans), k),
        forall|x: int|
            0 <= x < hs.last().len() ==> flat_rows(seq![hs[0]] + orphans).contains(
                #[trigger] hs.last()[x],
            ),
    decreases orphans.len(),
{
    let all = seq![hs[0]] + orphans;
    let f = flat_rows(all);
    let n = orphans.len() as int;
    if n == 0 {
        assert(all.drop_last() =~= Seq::empty());
        assert(flat_rows(all.drop_last()) =~= Seq::empty());
        assert(all.last() == hs[0]);
        assert(f =~= hs[0]);
        assert(hs.last() == hs[0]);
    } else {
        let p = hs.drop_last();
        let q = orphans.drop_last();
        assert forall|i: int| #![trigger q[i]] 0 <= i < q.len() implies merged_in(
            p[i + 1],
            p[i],
            q[i],
        ) by {
            assert(q[i] == orphans[i]);
            assert(p[i + 1] == hs[i + 1] && p[i] == hs[i]);
        }
        law_all_logs_are_taken_over(p, q);
        let before = seq![p[0]] + q;
        let g = flat_rows(before);
        assert(all.drop_last() =~= before);
        assert(all.last() == orphans[n - 1]);
        assert(f == g + orphans[n - 1]);
        let h = p.last();
        let now = hs.last();
        assert(h == hs[n - 1] && now == hs[n]);
        assert(merged_in(hs[n - 1 + 1], hs[n - 1], orphans[n - 1]));
        assert forall|k: KeyView| #[trigger] newest(now, k) == newest(f, k) by {
            assert(newest(h, k) == newest(g, k));
            crate::entries::lemma_newest_concat(g, orphans[n - 1], k);
        }
        assert forall|x: int| 0 <= x < now.len() implies f.contains(#[trigger] now[x]) by {
            if x < h.len() {
                assert(now.take(h.len() as int)[x] == now[x]);
                assert(g.contains(h[x]));
                let y = choose|y: int| 0 <= y < g.len() && g[y] == h[x];
                assert(f[y] == now[x]);
            } else {
                lemma_newest_is_max(orphans[n - 1], now[x].0);
                let y = choose|y: int|
                    0 <= y < orphans[n - 1].len() && #[trigger] orphans[n - 1][y] == (
                        now[x].0,
                        newest(orphans[n - 1], now[x].0).unwrap().0,
                        newest(orphans[n - 1], now[x].0).unwrap().1,
                    );
                assert(f[g.len() + y] == now[x]);
            }
        }
    }
}

/// The rows of the memtables, the active one first.
pub open spec fn memory_rows(v: Version) -> Seq<Seq<EntryView>> {
    seq![v.active.history()] + frozen_layers(v.immutables@)
}

/// A region that is opened again reads what it read before. Its memtable takes
/// over the logs of all memtables, and its tables are those that were there.
/// Versions with the same number still agree, and numbers that were fresh still
/// are.
pub proof fn law_restart_keeps_reads(
    v: Version,
    now: Version,
    tables: Seq<Seq<EntryView>>,
    hs: Seq<Seq<EntryView>>,
    orphans: Seq<Seq<EntryView>>,
)
    requires
        v.holds(tables),
        now.holds(tables),
        now.immutables@.len() == 0,
        agree(v.rows(tables)),
        takes_over(hs, orphans),
        now.active.history() == hs.last(),
        forall|i: int|
            0 <= i < 1 + orphans.len() ==> memory_rows(v).contains(
                #[trigger] (seq![hs[0]] + orphans)[i],
            ),
        forall|i: int|
            0 <= i < memory_rows(v).len() ==> (seq![hs[0]] + orphans).contains(
                #[trigger] memory_rows(v)[i],
            ),
    ensures
        agree(now.rows(tables)),
        forall|seq: u64| #[trigger]
            all_before(v.rows(tables), seq) ==> all_before(now.rows(tables), seq),
        forall|k: KeyView| #[trigger] newest(now.rows(tables), k) == newest(v.rows(tables), k),
{
    let a = v.layers(tables);
    let b = now.layers(tables);
    let n = v.immutables@.len() as int;
    let m = tables.len() as int;
    let mem = memory_rows(v);
    let all = seq![hs[0]] + orphans;
    let f = flat_rows(all);
    lemma_layer_at(v, tables);
    lemma_layer_at(now, tables);
    lemma_flat_rows(a);
    lemma_flat_rows(all);
    law_all_logs_are_taken_over(hs, orphans);
    assert forall|l: int| 0 <= l < mem.len() implies a[l] == #[trigger] mem[l] by {}
    assert forall|l: int| #![trigger b[l]] 1 <= l < b.len() implies b[l] == a[n + l] by {
        let j = m - l;
        assert(b[m - j] == tables[j]);
        assert(a[n + m - j] == tables[j]);
    }
    assert forall|k: KeyView| #[trigger] part_of(flat_rows(b), flat_rows(a), k) by {
        assert forall|l: int, x: int|
            0 <= l < b.len() && 0 <= x < b[l].len() && (
            #[trigger] b[l][x]).0 == k implies flat_rows(a).contains(b[l][x]) by {
            if l == 0 {
                assert(f.contains(hs.last()[x]));
                let y = choose|y: int| 0 <= y < f.len() && f[y] == hs.last()[x];
                let o = choose|o: int|
                    0 <= o < all.len() && (#[trigger] all[o]).contains(flat_rows(all)[y]);
                let z = choose|z: int| 0 <= z < all[o].len() && all[o][z] == f[y];
                assert(mem.contains(all[o]));
                let q = choose|q: int| 0 <= q < mem.len() && mem[q] == all[o];
                assert(a[q] == mem[q]);
                assert(a[q][z] == b[l][x]);
            } else {
                assert(b[l] == a[n + l]);
                assert(a[n + l][x] == b[l][x]);
            }
        }
        lemma_layers_part(a, b, k);
    }
    lemma_agree_part(flat_rows(a), flat_rows(b));
    lemma_before_part(flat_rows(a), flat_rows(b));
    assert forall|k: KeyView| #[trigger] newest(now.rows(tables), k) == newest(
        v.rows(tables),
        k,
    ) by {
        assert forall|l: int| 0 <= l < a.len() implies exists|o: int| #![trigger b[o]]
            0 <= o < b.len() && (newest(#[trigger] a[l], k) matches Some((s, _)) ==> (newest(
                b[o],
                k,
            ) matches Some((u, _)) && s <= u)) by {
            if l <= n {
                assert(a[l] == mem[l]);
                assert(newest(b[0], k) == newest(f, k));
                if newest(a[l], k) is Some {
                    assert(all.contains(mem[l]));
                    let o = choose|o: int| 0 <= o < all.len() && all[o] == mem[l];
                    lemma_newest_is_max(a[l], k);
                    let x = choose|x: int|
                        0 <= x < a[l].len() && #[trigger] a[l][x] == (
                            k,
                            newest(a[l], k).unwrap().0,
                            newest(a[l], k).unwrap().1,
                        );
                    assert(f.contains(all[o][x]));
                    let y = choose|y: int| 0 <= y < f.len() && f[y] == all[o][x];
                    lemma_newest_none(f, k);
                    assert(f[y].0 == k);
                    lemma_newest_is_max(f, k);
                }
                assert(b[0] == now.active.history());
            } else {
                assert(b[l - n] == a[n + (l - n)]);
            }
        }
        lemma_layers_outdone(a, b, k);
        assert(part_of(flat_rows(b), flat_rows(a), k));
        lemma_same_newest(flat_rows(a), flat_rows(b), k);
    }
}

/// `back` is a table that was opened again: same number, file, ends and count,
/// and an index that says the same.
pub open spec fn reopens(back: SSTable, t: SSTable) -> bool {
    &&& back.number() == t.number()
    &&& back.file() == t.file()
    &&& back.first_key() == t.first_key()
    &&& back.last_key() == t.last_key()
    &&& back.count() == t.count()
    &&& back.top_seq() == back.index_of().max_seq
    &&& same_index(back.index_of(), t.index_of())
}

/// Tables that were opened again hold the rows that they held.
pub proof fn law_reopened_tables_hold(v: Version, now: Version, tables: Seq<Seq<EntryView>>)
    requires
        v.holds(tables),
        now.ssts@.len() == v.ssts@.len(),
        forall|j: int| #![trigger now.ssts@[j]]
            0 <= j < v.ssts@.len() ==> reopens(now.ssts@[j], v.ssts@[j]),
    ensures
        now.holds(tables),
        forall|j: int| #![trigger now.ssts@[j]]
            0 <= j < v.ssts@.len() && in_chunks(
                v.ssts@[j].index_of().row_groups@,
                tables[j].len(),
            ) ==> in_chunks(now.ssts@[j].index_of().row_groups@, tables[j].len()),
{
    assert forall|j: int|
        #![trigger now.ssts@[j]]
        0 <= j < tables.len() implies now.ssts@[j].describes(tables[j]) && (in_chunks(
        v.ssts@[j].index_of().row_groups@,
        tables[j].len(),
    ) ==> in_chunks(now.ssts@[j].index_of().row_groups@, tables[j].len())) by {
        assert(v.ssts@[j].describes(tables[j]));
        law_same_index_describes(now.ssts@[j].index_of(), v.ssts@[j].index_of(), tables[j]);
    }
}

proof fn lemma_file_place_ends(s: Seq<(usize, Seq<char>)>, id: usize)
    ensures
        file_place(s, id) <= s.len(),
        file_place(s, id) > 0 ==> s[file_place(s, id) - 1].0 <= id,
        forall|x: int| file_place(s, id) <= x < s.len() ==> (#[trigger] s[x]).0 > id,
    decreases s.len(),
{
    if s.len() > 0 && s.last().0 > id {
        let p = s.drop_last();
        lemma_file_place_ends(p, id);
        assert forall|x: int| file_place(s, id) <= x < s.len() implies (#[trigger] s[x]).0
            > id by {
            if x < p.len() {
                assert(p[x] == s[x]);
            }
        }
    }
}

proof fn lemma_strays_ascend(ssts: Seq<SSTable>, names: Seq<Seq<char>>)
    ensures
        forall|x: int, y: int| #![trigger strays(ssts, names)[x], strays(ssts, names)[y]]
            0 <= x < y < strays(ssts, names).len() ==> strays(ssts, names)[x].0 <= strays(
                ssts,
                names,
            )[y].0,
    decreases names.len(),
{
    if names.len() > 0 {
        let p = names.drop_last();
        let name = names.last();
        lemma_strays_ascend(ssts, p);
        let q = strays(ssts, p);
        let s = strays(ssts, names);
        if is_stray(ssts, name) {
            let id = sst_id_of(name).unwrap();
            let at = file_place(q, id) as int;
            lemma_file_place_ends(q, id);
            assert forall|x: int, y: int| #![trigger s[x], s[y]]
                0 <= x < y < s.len() implies s[x].0 <= s[y].0 by {
                let a = if x < at {
                    x
                } else {
                    x - 1
                };
                let b = if y < at {
                    y
                } else {
                    y - 1
                };
                if x != at && y != at {
                    assert(s[x] == q[a] && s[y] == q[b]);
                } else if x == at {
                    assert(s[y] == q[b]);
                } else {
                    assert(s[x] == q[x]);
                    if x < at - 1 {
                        assert(q[x].0 <= q[at - 1].0);
                    }
                }
            }
        }
    }
}

proof fn lemma_same_ascending(a: Seq<(usize, Seq<char>)>, b: Seq<(usize, Seq<char>)>)
    requires
        forall|x: int, y: int| #![trigger a[x], a[y]] 0 <= x < y < a.len() ==> a[x].0 < a[y].0,
        forall|x: int, y: int| #![trigger b[x], b[y]] 0 <= x < y < b.len() ==> b[x].0 < b[y].0,
        forall|x: int| 0 <= x < a.len() ==> b.contains(#[trigger] a[x]),
        forall|x: int| 0 <= x < b.len() ==> a.contains(#[trigger] b[x]),
    ensures
        a == b,
    decreases a.len(),
{
    if a.len() == 0 {
        if b.len() > 0 {
            assert(a.contains(b[0]));
        }
        assert(a =~= b);
    } else {
        let n = a.len() - 1;
        assert(b.contains(a[n]));
        let i = choose|i: int| 0 <= i < b.len() && b[i] == a[n];
        let m = b.len() - 1;
        assert(a.contains(b[m]));
        let j = choose|j: int| 0 <= j < a.len() && a[j] == b[m];
        if i < m {
            assert(b[i].0 < b[m].0);
            if j < n {
                assert(a[j].0 < a[n].0);
            }
        }
        assert(a[n] == b[m]);
        let p = a.drop_last();
        let q = b.drop_last();
        assert forall|x: int, y: int| #![trigger p[x], p[y]] 0 <= x < y < p.len() implies p[x].0
            < p[y].0 by {
            assert(p[x] == a[x] && p[y] == a[y]);
        }
        assert forall|x: int, y: int| #![trigger q[x], q[y]] 0 <= x < y < q.len() implies q[x].0
            < q[y].0 by {
            assert(q[x] == b[x] && q[y] == b[y]);
        }
        assert forall|x: int| 0 <= x < p.len() implies q.contains(#[trigger] p[x]) by {
            assert(p[x] == a[x]);
            let z = choose|z: int| 0 <= z < b.len() && b[z] == a[x];
            assert(a[x].0 < a[n].0);
            assert(q[z] == p[x]);
        }
        assert forall|x: int| 0 <= x < q.len() implies p.contains(#[trigger] q[x]) by {
            assert(q[x] == b[x]);
            let z = choose|z: int| 0 <= z < a.len() && a[z] == b[x];
            assert(b[x].0 < b[m].0);
            assert(p[z] == q[x]);
        }
        lemma_same_ascending(p, q);
        assert(a =~= p.push(a[n]));
        assert(b =~= q.push(b[m]));
    }
}

/// Files are adopted in the order of their numbers.
pub proof fn law_strays_come_in_order(ssts: Seq<SSTable>, names: Seq<Seq<char>>, x: int, y: int)
    requires
        0 <= x < y < strays(ssts, names).len(),
    ensures
        strays(ssts, names)[x].0 <= strays(ssts, names)[y].0,
{
    lemma_strays_ascend(ssts, names);
}

/// Where the manifest is lost, all tables are found by the names of their files,
/// in the order in which they were, and nothing else.
pub proof fn law_lost_manifest_finds_all(ssts: Seq<SSTable>, names: Seq<Seq<char>>)
    requires
        rises(ssts),
        forall|j: int| #![trigger ssts[j]]
            0 <= j < ssts.len() ==> ssts[j].file() == sst_name(ssts[j].number() as nat)
                && names.contains(ssts[j].file()),
        forall|i: int| #![trigger names[i]]
            0 <= i < names.len() && names_sst(names[i]) && sst_id_of(names[i]) is Some
                ==> exists|j: int| 0 <= j < ssts.len() && (#[trigger] ssts[j]).file() == names[i],
        forall|i: int, j: int| #![trigger names[i], names[j]]
            0 <= i < j < names.len() ==> names[i] != names[j],
    ensures
        strays(Seq::<SSTable>::empty(), names) == Seq::new(
            ssts.len(),
            |j: int| (ssts[j].number(), ssts[j].file()),
        ),
{
    let none = Seq::<SSTable>::empty();
    let s = strays(none, names);
    let want = Seq::new(ssts.len(), |j: int| (ssts[j].number(), ssts[j].file()));
    law_strays_are_adopted(none, names);
    assert forall|i: int, j: int| #![trigger names[i], names[j]]
        0 <= i < j < names.len() && is_stray(none, names[i]) && is_stray(
            none,
            names[j],
        ) implies sst_id_of(names[i]) != sst_id_of(names[j]) by {
        let a = choose|a: int| 0 <= a < ssts.len() && (#[trigger] ssts[a]).file() == names[i];
        let b = choose|b: int| 0 <= b < ssts.len() && (#[trigger] ssts[b]).file() == names[j];
        law_sst_name_roundtrip(ssts[a].number() as nat);
        law_sst_name_roundtrip(ssts[b].number() as nat);
    }
    law_adopted_numbers_are_new(none, names);
    lemma_strays_ascend(none, names);
    assert forall|x: int, y: int| #![trigger s[x], s[y]] 0 <= x < y < s.len() implies s[x].0
        < s[y].0 by {}
    assert forall|x: int, y: int| #![trigger want[x], want[y]]
        0 <= x < y < want.len() implies want[x].0 < want[y].0 by {
        assert(ssts[x].number() < ssts[y].number());
    }
    assert forall|x: int| 0 <= x < s.len() implies want.contains(#[trigger] s[x]) by {
        let (id, name) = s[x];
        let i = choose|i: int| 0 <= i < names.len() && names[i] == name;
        let a = choose|a: int| 0 <= a < ssts.len() && (#[trigger] ssts[a]).file() == names[i];
        law_sst_name_roundtrip(ssts[a].number() as nat);
        assert(want[a] == s[x]);
    }
    assert forall|x: int| 0 <= x < want.len() implies s.contains(#[trigger] want[x]) by {
        law_sst_name_roundtrip(ssts[x].number() as nat);
        assert(names.contains(ssts[x].file()));
        let i = choose|i: int| 0 <= i < names.len() && names[i] == ssts[x].file();
        assert(is_stray(none, names[i]));
    }
    lemma_same_ascending(s, want);
}

proof fn lemma_sorted_stays(ssts: Seq<SSTable>)
    requires
        rises(ssts),
    ensures
        sorted(ssts) == ssts,
    decreases ssts.len(),
{
    if ssts.len() > 0 {
        let p = ssts.drop_last();
        let t = ssts.last();
        assert(ssts[ssts.len() - 1] == t);
        assert forall|i: int, j: int| 0 <= i < j < p.len() implies (#[trigger] p[i]).number() < (
        #[trigger] p[j]).number() by {
            assert(p[i] == ssts[i] && p[j] == ssts[j]);
        }
        assert forall|i: int| 0 <= i < p.len() implies (#[trigger] p[i]).number()
            < t.number() by {
            assert(p[i] == ssts[i]);
        }
        lemma_sorted_stays(p);
        lemma_append_rises(p, t);
        assert(p.push(t) =~= ssts);
    } else {
        assert(ssts =~= Seq::empty());
    }
}

proof fn lemma_entry_place_last(s: Seq<ManifestEntry>, id: usize)
    requires
        s.len() > 0 ==> s.last().id <= id,
    ensures
        entry_place(s, id) == s.len(),
{
}

proof fn lemma_entries_stay(entries: Seq<ManifestEntry>)
    requires
        is_by_number(entries),
    ensures
        entries_by_number(entries) == entries,
    decreases entries.len(),
{
    if entries.len() > 0 {
        let p = entries.drop_last();
        let e = entries.last();
        let n = entries.len() - 1;
        assert forall|i: int, j: int| 0 <= i < j < p.len() implies (#[trigger] p[i]).id <= (
        #[trigger] p[j]).id by {
            assert(p[i] == entries[i] && p[j] == entries[j]);
        }
        lemma_entries_stay(p);
        if p.len() > 0 {
            assert(p.last() == entries[n - 1]);
            assert(entries[n - 1].id <= entries[n].id);
        }
        lemma_entry_place_last(p, e.id);
        assert(p.insert(p.len() as int, e) =~= entries);
    } else {
        assert(entries =~= Seq::empty());
    }
}

/// The manifest brings all tables back: it lists them in the order of their
/// numbers, and the tables that are taken over from it, each with an index that
/// says the same, are in that order too.
pub proof fn law_manifest_brings_tables_back(
    ssts: Seq<SSTable>,
    entries: Seq<ManifestEntry>,
    back: Seq<SSTable>,
)
    requires
        rises(ssts),
        entries.len() == ssts.len(),
        forall|j: int| #![trigger entries[j]]
            0 <= j < entries.len() ==> lists_table(entries[j], ssts[j]),
        back.len() == ssts.len(),
        forall|j: int| #![trigger back[j]]
            0 <= j < back.len() ==> lists_table(entries_by_number(entries)[j], back[j])
                && back[j].top_seq() == back[j].index_of().max_seq && same_index(
                back[j].index_of(),
                ssts[j].index_of(),
            ),
    ensures
        entries_by_number(entries) == entries,
        sorted(back) == back,
        rises(back),
        forall|j: int| #![trigger back[j]]
            0 <= j < back.len() ==> reopens(back[j], ssts[j]),
{
    assert forall|i: int, j: int| 0 <= i < j < entries.len() implies (#[trigger] entries[i]).id
        <= (#[trigger] entries[j]).id by {
        assert(ssts[i].number() < ssts[j].number());
    }
    lemma_entries_stay(entries);
    assert forall|j: int| #![trigger back[j]] 0 <= j < back.len() implies reopens(
        back[j],
        ssts[j],
    ) by {
        assert(lists_table(entries[j], ssts[j]));
    }
    assert forall|i: int, j: int| 0 <= i < j < back.len() implies (#[trigger] back[i]).number() < (
    #[trigger] back[j]).number() by {
        assert(ssts[i].number() < ssts[j].number());
    }
    lemma_sorted_stays(back);
}

} // verus!
