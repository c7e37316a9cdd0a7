//! Which tables are compacted, and what becomes of the list of tables.

use vstd::prelude::*;
use crate::entries::EntryView;
use crate::sstable::sstable::{spec_extent, SSTable};

verus! {

/// The tables are in the order of their numbers.
pub open spec fn by_number(ssts: Seq<SSTable>) -> bool {
    forall|i: int, j: int|
        0 <= i < j < ssts.len() ==> (#[trigger] ssts[i]).number() <= (#[trigger] ssts[j]).number()
}

/// The numbers of the tables rise strictly.
pub open spec fn rises(ssts: Seq<SSTable>) -> bool {
    forall|i: int, j: int|
        0 <= i < j < ssts.len() ==> (#[trigger] ssts[i]).number() < (#[trigger] ssts[j]).number()
}

/// No two tables have the same number.
pub open spec fn distinct(ssts: Seq<SSTable>) -> bool {
    forall|i: int, j: int|
        0 <= i < j < ssts.len() ==> (#[trigger] ssts[i]).number() != (#[trigger] ssts[j]).number()
}

/// All tables have lower numbers.
pub open spec fn all_below(ssts: Seq<SSTable>, id: usize) -> bool {
    forall|i: int| 0 <= i < ssts.len() ==> (#[trigger] ssts[i]).number() < id
}

/// How many tables, from the first on, have a number up to `id`.
pub open spec fn place_of(ssts: Seq<SSTable>, id: usize) -> nat
    decreases ssts.len(),
{
    if ssts.len() == 0 {
        0
    } else if ssts.last().number() <= id {
        ssts.len()
    } else {
        place_of(ssts.drop_last(), id)
    }
}

/// The tables whose numbers are not in the list.
pub open spec fn without(ssts: Seq<SSTable>, ids: Seq<usize>) -> Seq<SSTable>
    decreases ssts.len(),
{
    if ssts.len() == 0 {
        Seq::empty()
    } else if ids.contains(ssts.last().number()) {
        without(ssts.drop_last(), ids)
    } else {
        without(ssts.drop_last(), ids).push(ssts.last())
    }
}

/// The files of the tables whose numbers are in the list.
pub open spec fn files_among(ssts: Seq<SSTable>, ids: Seq<usize>) -> Seq<Seq<char>>
    decreases ssts.len(),
{
    if ssts.len() == 0 {
        Seq::empty()
    } else if ids.contains(ssts.last().number()) {
        files_among(ssts.drop_last(), ids).push(ssts.last().file())
    } else {
        files_among(ssts.drop_last(), ids)
    }
}

/// What a list of names stands for.
pub open spec fn names_view(s: Seq<String>) -> Seq<Seq<char>> {
    Seq::new(s.len(), |i: int| s[i]@)
}

/// The window into which a table falls: that of its lowest timestamp.
pub open spec fn window_of(t: SSTable, window: i64) -> Option<int> {
    match spec_extent(t.index_of().row_groups@) {
        Some((low, _)) => Some(low as int / window as int),
        None => None,
    }
}

/// The positions of the tables that fall into window `w`.
pub open spec fn members(ssts: Seq<SSTable>, window: i64, w: int) -> Seq<usize>
    decreases ssts.len(),
{
    if ssts.len() == 0 {
        Seq::empty()
    } else if window_of(ssts.last(), window) == Some(w) {
        members(ssts.drop_last(), window, w).push((ssts.len() - 1) as usize)
    } else {
        members(ssts.drop_last(), window, w)
    }
}

/// Window `w` holds tables, and enough to compact them.
pub open spec fn is_due(ssts: Seq<SSTable>, window: i64, threshold: usize, w: int) -> bool {
    &&& members(ssts, window, w).len() > 0
    &&& members(ssts, window, w).len() >= threshold
}

/// The lowest window that is due.
pub open spec fn is_first_due(ssts: Seq<SSTable>, window: i64, threshold: usize, w: int) -> bool {
    &&& is_due(ssts, window, threshold, w)
    &&& forall|u: int| u < w ==> !#[trigger] is_due(ssts, window, threshold, u)
}

proof fn lemma_without_prefix(ssts: Seq<SSTable>, ids: Seq<usize>, n: int)
    requires
        0 <= n < ssts.len(),
    ensures
        without(ssts.take(n + 1), ids) == if ids.contains(ssts[n].number()) {
            without(ssts.take(n), ids)
        } else {
            without(ssts.take(n), ids).push(ssts[n])
        },
        files_among(ssts.take(n + 1), ids) == if ids.contains(ssts[n].number()) {
            files_among(ssts.take(n), ids).push(ssts[n].file())
        } else {
            files_among(ssts.take(n), ids)
        },
{
    assert(ssts.take(n + 1).drop_last() =~= ssts.take(n));
    assert(ssts.take(n + 1).last() == ssts[n]);
}

/// What is left is a part of what was there, in the same order.
pub proof fn lemma_without_part(ssts: Seq<SSTable>, ids: Seq<usize>)
    ensures
        forall|x: int| #![trigger without(ssts, ids)[x]]
            0 <= x < without(ssts, ids).len() ==> !ids.contains(
                without(ssts, ids)[x].number(),
            ) && exists|i: int| 0 <= i < ssts.len() && #[trigger] ssts[i] == without(ssts, ids)[x],
        by_number(ssts) ==> by_number(without(ssts, ids)),
    decreases ssts.len(),
{
    if ssts.len() > 0 {
        let p = ssts.drop_last();
        let n = ssts.len() - 1;
        lemma_without_part(p, ids);
        let r = without(ssts, ids);
        let q = without(p, ids);
        assert forall|x: int| #![trigger r[x]] 0 <= x < r.len() implies !ids.contains(
            r[x].number(),
        ) && exists|i: int| 0 <= i < ssts.len() && #[trigger] ssts[i] == r[x] by {
            if x < q.len() {
                assert(r[x] == q[x]);
                let i = choose|i: int| 0 <= i < p.len() && #[trigger] p[i] == q[x];
                assert(ssts[i] == r[x]);
            } else {
                assert(ssts[n] == r[x]);
            }
        }
        if by_number(ssts) {
            assert forall|i: int, j: int| 0 <= i < j < p.len() implies (#[trigger] p[i]).number()
                <= (#[trigger] p[j]).number() by {
                assert(p[i] == ssts[i] && p[j] == ssts[j]);
            }
            assert forall|i: int, j: int| 0 <= i < j < r.len() implies (#[trigger] r[i]).number()
                <= (#[trigger] r[j]).number() by {
                assert(r[i] == q[i]);
                if j < q.len() {
                    assert(r[j] == q[j]);
                } else {
                    let x = choose|x: int| 0 <= x < p.len() && #[trigger] p[x] == q[i];
                    assert(ssts[x] == p[x]);
                    assert(r[j] == ssts[n]);
                }
            }
        }
    }
}

/// Where a table is put in: after all tables with a number up to its own.
proof fn lemma_place(ssts: Seq<SSTable>, id: usize)
    ensures
        place_of(ssts, id) <= ssts.len(),
        place_of(ssts, id) > 0 ==> ssts[place_of(ssts, id) - 1].number() <= id,
        forall|x: int| place_of(ssts, id) <= x < ssts.len() ==> (#[trigger] ssts[x]).number() > id,
    decreases ssts.len(),
{
    if ssts.len() > 0 && ssts.last().number() > id {
        let p = ssts.drop_last();
        lemma_place(p, id);
        assert forall|x: int| place_of(ssts, id) <= x < ssts.len() implies (
        #[trigger] ssts[x]).number() > id by {
            if x < p.len() {
                assert(p[x] == ssts[x]);
            }
        }
    }
}

/// A table with a number above all others is put at the end, and the numbers
/// still rise.
pub proof fn lemma_append_rises(ssts: Seq<SSTable>, t: SSTable)
    requires
        rises(ssts),
        all_below(ssts, t.number()),
    ensures
        place_of(ssts, t.number()) == ssts.len(),
        ssts.insert(ssts.len() as int, t) == ssts.push(t),
        rises(ssts.push(t)),
        t.number() < usize::MAX ==> all_below(ssts.push(t), (t.number() + 1) as usize),
{
    lemma_place(ssts, t.number());
    let p = place_of(ssts, t.number()) as int;
    if p < ssts.len() {
        assert(ssts[p].number() > t.number());
    }
    assert(ssts.insert(ssts.len() as int, t) =~= ssts.push(t));
    let now = ssts.push(t);
    assert forall|i: int, j: int| 0 <= i < j < now.len() implies (#[trigger] now[i]).number() < (
    #[trigger] now[j]).number() by {
        assert(now[i] == ssts[i]);
        if j < ssts.len() {
            assert(now[j] == ssts[j]);
        }
    }
    if t.number() < usize::MAX {
        assert forall|i: int| 0 <= i < now.len() implies (#[trigger] now[i]).number()
            < t.number() + 1 by {
            if i < ssts.len() {
                assert(now[i] == ssts[i]);
            }
        }
    }
}

/// What is left of tables whose numbers rise has rising numbers too.
pub proof fn lemma_without_rises(ssts: Seq<SSTable>, ids: Seq<usize>, id: usize)
    requires
        rises(ssts),
        all_below(ssts, id),
    ensures
        rises(without(ssts, ids)),
        all_below(without(ssts, ids), id),
    decreases ssts.len(),
{
    if ssts.len() > 0 {
        let p = ssts.drop_last();
        let t = ssts.last();
        let n = ssts.len() - 1;
        assert forall|i: int, j: int| 0 <= i < j < p.len() implies (#[trigger] p[i]).number() < (
        #[trigger] p[j]).number() by {
            assert(p[i] == ssts[i] && p[j] == ssts[j]);
        }
        assert(ssts[n] == t);
        assert forall|i: int| 0 <= i < p.len() implies (#[trigger] p[i]).number()
            < t.number() by {
            assert(p[i] == ssts[i]);
        }
        lemma_without_rises(p, ids, t.number());
        let q = without(p, ids);
        if ids.contains(t.number()) {
            assert forall|i: int| 0 <= i < q.len() implies (#[trigger] q[i]).number() < id by {
                assert(q[i].number() < t.number());
            }
        } else {
            lemma_append_rises(q, t);
            let r = q.push(t);
            assert forall|i: int| 0 <= i < r.len() implies (#[trigger] r[i]).number() < id by {
                if i < q.len() {
                    assert(r[i] == q[i]);
                }
            }
        }
    }
}

/// Tables with different numbers have rising numbers in the order of their
/// numbers.
pub proof fn lemma_sorted_rises(tables: Seq<SSTable>)
    requires
        distinct(tables),
    ensures
        rises(sorted(tables)),
        forall|i: int|
            0 <= i < sorted(tables).len() ==> tables.contains(#[trigger] sorted(tables)[i]),
    decreases tables.len(),
{
    if tables.len() > 0 {
        let p = tables.drop_last();
        let t = tables.last();
        let n = tables.len() - 1;
        assert(tables[n] == t);
        assert forall|i: int, j: int| 0 <= i < j < p.len() implies (#[trigger] p[i]).number() != (
        #[trigger] p[j]).number() by {
            assert(p[i] == tables[i] && p[j] == tables[j]);
        }
        lemma_sorted_rises(p);
        let s = sorted(p);
        let at = place_of(s, t.number()) as int;
        lemma_place(s, t.number());
        assert forall|i: int| 0 <= i < s.len() implies tables.contains(#[trigger] s[i])
            && s[i].number() != t.number() by {
            let x = choose|x: int| 0 <= x < p.len() && p[x] == s[i];
            assert(tables[x] == s[i]);
        }
        let now = s.insert(at, t);
        assert forall|i: int, j: int| 0 <= i < j < now.len() implies (#[trigger] now[i]).number()
            < (#[trigger] now[j]).number() by {
            let a = if i < at {
                i
            } else {
                i - 1
            };
            let b = if j < at {
                j
            } else {
                j - 1
            };
            if i != at && j != at {
                assert(now[i] == s[a] && now[j] == s[b]);
            } else if i == at {
                assert(now[j] == s[b]);
            } else {
                assert(now[i] == s[i]);
                assert(s[at - 1].number() != t.number());
                if i < at - 1 {
                    assert(s[i].number() < s[at - 1].number());
                }
            }
        }
        assert forall|i: int| 0 <= i < now.len() implies tables.contains(#[trigger] now[i]) by {
            if i < at {
                assert(now[i] == s[i]);
            } else if i > at {
                assert(now[i] == s[i - 1]);
            }
        }
    }
}

fn is_listed(ids: &Vec<usize>, id: usize) -> (r: bool)
    ensures
        r == ids@.contains(id),
{
    let n: usize = ids.len();
    let mut i: usize = 0;
    while i < n
        invariant
            i <= n,
            n == ids@.len(),
            forall|x: int| 0 <= x < i ==> #[trigger] ids@[x] != id,
        decreases n - i,
    {
        if ids[i] == id {
            assert(ids@[i as int] == id);
            return true;
        }
        i += 1;
    }
    false
}

/// Takes the listed tables out and tells the names of their files.
pub fn drop_tables(ssts: &mut Vec<SSTable>, ids: &Vec<usize>) -> (r: Vec<String>)
    ensures
        final(ssts)@ == without(old(ssts)@, ids@),
        names_view(r@) == files_among(old(ssts)@, ids@),
{
    let ghost all = ssts@;
    let mut names: Vec<String> = Vec::new();
    let mut i: usize = 0;
    let ghost mut done: int = 0;
    assert(all.take(0) =~= Seq::empty());
    assert(names_view(names@) =~= Seq::empty());
    assert(all.skip(0) =~= all);
    assert(ssts@.skip(0) =~= all);
    assert(ssts@.take(0) =~= Seq::empty());
    while i < ssts.len()
        invariant
            all == old(ssts)@,
            0 <= done <= all.len(),
            i <= ssts@.len(),
            ssts@.take(i as int) == without(all.take(done), ids@),
            ssts@.skip(i as int) == all.skip(done),
            names_view(names@) == files_among(all.take(done), ids@),
        decreases ssts@.len() - i,
    {
        let ghost before = ssts@;
        proof {
            assert(before.skip(i as int).len() == all.skip(done).len());
            assert(before[i as int] == before.skip(i as int)[0]);
            assert(all[done] == all.skip(done)[0]);
            lemma_without_prefix(all, ids@, done);
        }
        if is_listed(ids, ssts[i].id()) {
            let t = ssts.remove(i);
            let ghost had = names@;
            names.push(t.path().clone());
            proof {
                assert(ssts@.take(i as int) =~= before.take(i as int));
                assert(ssts@.skip(i as int) =~= before.skip(i as int).skip(1));
                assert(all.skip(done + 1) =~= all.skip(done).skip(1));
                assert(names_view(names@) =~= names_view(had).push(t.file()));
            }
        } else {
            proof {
                assert(before.take(i + 1) =~= before.take(i as int).push(before[i as int]));
                assert(before.skip(i + 1) =~= before.skip(i as int).skip(1));
                assert(all.skip(done + 1) =~= all.skip(done).skip(1));
            }
            i += 1;
        }
        proof {
            done = done + 1;
        }
    }
    proof {
        assert(ssts@.skip(i as int).len() == 0);
        assert(all.skip(done).len() == all.len() - done);
        assert(all.take(done) =~= all);
        assert(ssts@.take(i as int) =~= ssts@);
    }
    names
}

/// Puts a table behind those with a number up to its own.
pub fn insert_table(ssts: &mut Vec<SSTable>, t: SSTable)
    ensures
        final(ssts)@ == old(ssts)@.insert(place_of(old(ssts)@, t.number()) as int, t),
        place_of(old(ssts)@, t.number()) <= old(ssts)@.len(),
        by_number(old(ssts)@) ==> by_number(final(ssts)@),
{
    let id: usize = t.id();
    let ghost all = ssts@;
    let mut p: usize = ssts.len();
    assert(all.take(p as int) =~= all);
    while p > 0 && ssts[p - 1].id() > id
        invariant
            p <= all.len(),
            ssts@ == all,
            place_of(all, id) == place_of(all.take(p as int), id),
            forall|x: int| p <= x < all.len() ==> (#[trigger] all[x]).number() > id,
        decreases p,
    {
        assert(all.take(p as int).last() == all[p - 1]);
        assert(all.take(p as int).drop_last() =~= all.take(p - 1));
        p -= 1;
    }
    proof {
        if p > 0 {
            assert(all.take(p as int).last() == all[p - 1]);
        }
        assert(place_of(all, id) == p);
    }
    ssts.insert(p, t);
    proof {
        let now = ssts@;
        if by_number(all) {
            assert forall|i: int, j: int| 0 <= i < j < now.len() implies (
            #[trigger] now[i]).number() <= (#[trigger] now[j]).number() by {
                let a = if i < p {
                    i
                } else {
                    i - 1
                };
                let b = if j < p {
                    j
                } else {
                    j - 1
                };
                if i != p && j != p {
                    assert(now[i] == all[a] && now[j] == all[b]);
                } else if i == p {
                    assert(now[j] == all[b]);
                } else {
                    assert(now[i] == all[i]);
                    if i < p - 1 {
                        assert(all[i].number() <= all[p - 1].number());
                    }
                }
            }
        }
    }
}

/// Puts tables into the order of their numbers; those with the same number
/// keep their order.
pub fn sort_tables(tables: Vec<SSTable>) -> (r: Vec<SSTable>)
    ensures
        r@ == sorted(tables@),
        by_number(r@),
        r@.to_multiset() == tables@.to_multiset(),
{
    let ghost all = tables@;
    let mut rest: Vec<SSTable> = tables;
    let mut turned: Vec<SSTable> = Vec::new();
    while rest.len() > 0
        invariant
            rest@.len() + turned@.len() == all.len(),
            rest@ == all.take(rest@.len() as int),
            turned@ == all.skip(rest@.len() as int).reverse(),
        decreases rest@.len(),
    {
        let ghost n = rest@.len() as int;
        let ghost had = turned@;
        match rest.pop() {
            Some(t) => {
                turned.push(t);
                assert(rest@ =~= all.take(n - 1));
                assert(turned@ =~= all.skip(n - 1).reverse());
            },
            None => {},
        }
    }
    assert(turned@ =~= all.reverse());
    let mut out: Vec<SSTable> = Vec::new();
    let ghost mut done: int = 0;
    assert(all.take(0) =~= Seq::empty());
    while turned.len() > 0
        invariant
            0 <= done <= all.len(),
            turned@.len() == all.len() - done,
            turned@ == all.skip(done).reverse(),
            out@ == sorted(all.take(done)),
            out@.to_multiset() == all.take(done).to_multiset(),
            by_number(out@),
        decreases turned@.len(),
    {
        let ghost before = turned@;
        match turned.pop() {
            Some(t) => {
                assert(t == all[done]);
                assert(turned@ =~= all.skip(done + 1).reverse());
                assert(all.take(done + 1).drop_last() =~= all.take(done));
                assert(all.take(done + 1) =~= all.take(done).push(all[done]));
                let ghost had = out@;
                insert_table(&mut out, t);
                proof {
                    vstd::seq_lib::to_multiset_insert(
                        had,
                        place_of(had, all[done].number()) as int,
                        all[done],
                    );
                    all.take(done).to_multiset_ensures();
                    done = done + 1;
                }
            },
            None => {},
        }
    }
    assert(all.take(done) =~= all);
    out
}

/// Tables in the order of their numbers; those with the same number keep
/// their order.
pub open spec fn sorted(tables: Seq<SSTable>) -> Seq<SSTable>
    decreases tables.len(),
{
    if tables.len() == 0 {
        Seq::empty()
    } else {
        let before = sorted(tables.drop_last());
        let t = tables.last();
        before.insert(place_of(before, t.number()) as int, t)
    }
}

fn window_index(t: &SSTable, window: i64) -> (r: Option<i64>)
    requires
        window >= 1,
    ensures
        match r {
            Some(w) => window_of(*t, window) == Some(w as int),
            None => window_of(*t, window) is None,
        },
{
    match t.ts_extent() {
        None => None,
        Some((low, _)) => {
            let r = low.checked_div_euclid(window);
            proof {
                let (l, w) = (low as int, window as int);
                assert(-0x8000_0000_0000_0000 <= l / w <= 0x7fff_ffff_ffff_ffff) by (nonlinear_arith)
                    requires
                        w >= 1,
                        -0x8000_0000_0000_0000 <= l <= 0x7fff_ffff_ffff_ffff,
                ;
            }
            r
        },
    }
}

fn collect_members(ssts: &Vec<SSTable>, window: i64, w: i64) -> (r: Vec<usize>)
    requires
        window >= 1,
    ensures
        r@ == members(ssts@, window, w as int),
{
    let mut out: Vec<usize> = Vec::new();
    let n: usize = ssts.len();
    let mut i: usize = 0;
    assert(ssts@.take(0) =~= Seq::empty());
    while i < n
        invariant
            i <= n,
            n == ssts@.len(),
            window >= 1,
            out@ == members(ssts@.take(i as int), window, w as int),
        decreases n - i,
    {
        proof {
            assert(ssts@.take(i + 1).drop_last() =~= ssts@.take(i as int));
            assert(ssts@.take(i + 1).last() == ssts@[i as int]);
        }
        match window_index(&ssts[i], window) {
            Some(x) => {
                if x == w {
                    out.push(i);
                }
            },
            None => {},
        }
        i += 1;
    }
    assert(ssts@.take(n as int) =~= ssts@);
    out
}

/// The members of a window are positions of its tables, in order and without
/// a gap.
pub proof fn lemma_members(ssts: Seq<SSTable>, window: i64, w: int)
    requires
        ssts.len() <= usize::MAX,
    ensures
        forall|x: int| #![trigger members(ssts, window, w)[x]]
            0 <= x < members(ssts, window, w).len() ==> members(ssts, window, w)[x] < ssts.len()
                && window_of(ssts[members(ssts, window, w)[x] as int], window) == Some(w),
        forall|x: int, y: int|
            0 <= x < y < members(ssts, window, w).len() ==> (#[trigger] members(
                ssts,
                window,
                w,
            )[x]) < (#[trigger] members(ssts, window, w)[y]),
        forall|i: int|
            0 <= i < ssts.len() && window_of(#[trigger] ssts[i], window) == Some(w) ==> members(
                ssts,
                window,
                w,
            ).contains(i as usize),
    decreases ssts.len(),
{
    if ssts.len() > 0 {
        let p = ssts.drop_last();
        let m = members(ssts, window, w);
        let q = members(p, window, w);
        lemma_members(p, window, w);
        assert forall|x: int| #![trigger m[x]] 0 <= x < m.len() implies m[x] < ssts.len()
            && window_of(ssts[m[x] as int], window) == Some(w) by {
            if x < q.len() {
                assert(m[x] == q[x]);
                assert(p[q[x] as int] == ssts[m[x] as int]);
            }
        }
        assert forall|x: int, y: int| 0 <= x < y < m.len() implies (#[trigger] m[x]) < (
        #[trigger] m[y]) by {
            assert(m[x] == q[x]);
            if y < q.len() {
                assert(m[y] == q[y]);
            }
        }
        assert forall|i: int|
            0 <= i < ssts.len() && window_of(#[trigger] ssts[i], window) == Some(w) implies m.contains(
            i as usize,
        ) by {
            if i < p.len() {
                assert(p[i] == ssts[i]);
                assert(q.contains(i as usize));
                let x = choose|x: int| 0 <= x < q.len() && q[x] == i as usize;
                assert(m[x] == i as usize);
            } else {
                assert(m[m.len() - 1] == i as usize);
            }
        }
    }
}

/// The positions of the tables to compact: those of the lowest window that
/// holds enough of them.
pub fn plan(ssts: &Vec<SSTable>, window: i64, threshold: usize) -> (r: Option<Vec<usize>>)
    requires
        window >= 1,
    ensures
        r is None <==> ssts@.len() < threshold || forall|w: int|
            !#[trigger] is_due(ssts@, window, threshold, w),
        r matches Some(idxs) ==> exists|w: int| #[trigger]
            is_first_due(ssts@, window, threshold, w) && idxs@ == members(ssts@, window, w),
{
    let n: usize = ssts.len();
    if n < threshold {
        return None;
    }
    let mut best: Option<(i64, Vec<usize>)> = None;
    let mut i: usize = 0;
    while i < n
        invariant
            i <= n,
            n == ssts@.len(),
            window >= 1,
            best matches Some((w, idxs)) ==> is_due(ssts@, window, threshold, w as int) && idxs@
                == members(ssts@, window, w as int),
            forall|x: int|
                0 <= x < i ==> not_passed(ssts@, window, threshold, #[trigger] ssts@[x], best),
        decreases n - i,
    {
        let ghost before = best;
        match window_index(&ssts[i], window) {
            Some(w) => {
                let lower = match &best {
                    Some((b, _)) => w < *b,
                    None => true,
                };
                if lower {
                    let idxs = collect_members(ssts, window, w);
                    if idxs.len() >= threshold {
                        proof {
                            lemma_members(ssts@, window, w as int);
                            assert(window_of(ssts@[i as int], window) == Some(w as int));
                            assert(members(ssts@, window, w as int).contains(i as usize));
                        }
                        best = Some((w, idxs));
                    }
                }
            },
            None => {},
        }
        proof {
            assert forall|x: int| 0 <= x < i + 1 implies not_passed(
                ssts@,
                window,
                threshold,
                #[trigger] ssts@[x],
                best,
            ) by {
                if x < i {
                    assert(not_passed(ssts@, window, threshold, ssts@[x], before));
                }
            }
        }
        i += 1;
    }
    proof {
        assert forall|w: int| #[trigger] is_due(ssts@, window, threshold, w) implies (
        best matches Some((b, _)) && b <= w) by {
            lemma_members(ssts@, window, w);
            let m = members(ssts@, window, w);
            let x = m[0] as int;
            assert(window_of(ssts@[x], window) == Some(w));
            assert(not_passed(ssts@, window, threshold, ssts@[x], best));
        }
    }
    match best {
        Some((w, idxs)) => {
            assert(is_first_due(ssts@, window, threshold, w as int));
            Some(idxs)
        },
        None => None,
    }
}

/// If the window of a table is due, it is not below the best one so far.
spec fn not_passed(
    ssts: Seq<SSTable>,
    window: i64,
    threshold: usize,
    t: SSTable,
    best: Option<(i64, Vec<usize>)>,
) -> bool {
    match window_of(t, window) {
        Some(w) => is_due(ssts, window, threshold, w) ==> (best matches Some((b, _)) && b <= w),
        None => true,
    }
}

/// All tables that are compacted together fall into one window, and none of
/// that window is left out.
pub proof fn law_one_window_is_compacted(
    ssts: Seq<SSTable>,
    window: i64,
    threshold: usize,
    w: int,
    targets: Seq<usize>,
)
    requires
        ssts.len() <= usize::MAX,
        is_first_due(ssts, window, threshold, w),
        targets == members(ssts, window, w),
    ensures
        targets.len() >= threshold,
        forall|i: int|
            0 <= i < ssts.len() ==> (targets.contains(i as usize) <==> window_of(
                #[trigger] ssts[i],
                window,
            ) == Some(w)),
{
    lemma_members(ssts, window, w);
    assert forall|i: int| 0 <= i < ssts.len() implies (targets.contains(i as usize) <==> window_of(
        #[trigger] ssts[i],
        window,
    ) == Some(w)) by {
        if targets.contains(i as usize) {
            let x = choose|x: int| 0 <= x < targets.len() && targets[x] == i as usize;
            assert(members(ssts, window, w)[x] == i as usize);
        }
    }
}

/// The tables that do not fall into window `w`.
pub open spec fn outside(ssts: Seq<SSTable>, window: i64, w: int) -> Seq<SSTable>
    decreases ssts.len(),
{
    if ssts.len() == 0 {
        Seq::empty()
    } else if window_of(ssts.last(), window) == Some(w) {
        outside(ssts.drop_last(), window, w)
    } else {
        outside(ssts.drop_last(), window, w).push(ssts.last())
    }
}

proof fn lemma_without_window(ssts: Seq<SSTable>, ids: Seq<usize>, window: i64, w: int)
    requires
        forall|i: int|
            0 <= i < ssts.len() ==> (ids.contains((#[trigger] ssts[i]).number()) <==> window_of(
                ssts[i],
                window,
            ) == Some(w)),
    ensures
        without(ssts, ids) == outside(ssts, window, w),
    decreases ssts.len(),
{
    if ssts.len() > 0 {
        let p = ssts.drop_last();
        assert forall|i: int| 0 <= i < p.len() implies (ids.contains(
            (#[trigger] p[i]).number(),
        ) <==> window_of(p[i], window) == Some(w)) by {
            assert(p[i] == ssts[i]);
        }
        lemma_without_window(p, ids, window, w);
        assert(ssts[ssts.len() - 1] == ssts.last());
    }
}

/// A compaction takes out exactly the tables of the lowest window that is due,
/// where the numbers of the tables rise.
pub proof fn law_compaction_takes_one_window(
    ssts: Seq<SSTable>,
    window: i64,
    threshold: usize,
    w: int,
    targets: Seq<usize>,
    ids: Seq<usize>,
)
    requires
        ssts.len() <= usize::MAX,
        rises(ssts),
        is_first_due(ssts, window, threshold, w),
        targets == members(ssts, window, w),
        ids.len() == targets.len(),
        forall|x: int| #![trigger ids[x]] #![trigger targets[x]]
            0 <= x < ids.len() ==> targets[x] < ssts.len() && ids[x]
                == ssts[targets[x] as int].number(),
    ensures
        without(ssts, ids) == outside(ssts, window, w),
        rises(without(ssts, ids)),
{
    lemma_members(ssts, window, w);
    law_one_window_is_compacted(ssts, window, threshold, w, targets);
    assert forall|i: int| 0 <= i < ssts.len() implies (ids.contains(
        (#[trigger] ssts[i]).number(),
    ) <==> window_of(ssts[i], window) == Some(w)) by {
        if ids.contains(ssts[i].number()) {
            let x = choose|x: int| 0 <= x < ids.len() && ids[x] == ssts[i].number();
            let j = targets[x] as int;
            assert(ids[x] == ssts[j].number());
            if j < i {
                assert(ssts[j].number() < ssts[i].number());
            } else if i < j {
                assert(ssts[i].number() < ssts[j].number());
            }
            assert(members(ssts, window, w)[x] == targets[x]);
        }
        if window_of(ssts[i], window) == Some(w) {
            assert(targets.contains(i as usize));
            let x = choose|x: int| 0 <= x < targets.len() && targets[x] == i as usize;
            assert(ids[x] == ssts[i].number());
        }
    }
    lemma_without_window(ssts, ids, window, w);
    lemma_without_run(ssts, ids);
}

proof fn lemma_without_run(ssts: Seq<SSTable>, ids: Seq<usize>)
    requires
        rises(ssts),
    ensures
        rises(without(ssts, ids)),
{
    if ssts.len() > 0 {
        let p = ssts.drop_last();
        let t = ssts.last();
        assert(ssts[ssts.len() - 1] == t);
        assert forall|i: int, j: int| 0 <= i < j < p.len() implies (#[trigger] p[i]).number() < (
        #[trigger] p[j]).number() by {
            assert(p[i] == ssts[i] && p[j] == ssts[j]);
        }
        assert forall|i: int| 0 <= i < p.len() implies (#[trigger] p[i]).number()
            < t.number() by {
            assert(p[i] == ssts[i]);
        }
        lemma_without_rises(p, ids, t.number());
        if !ids.contains(t.number()) {
            lemma_append_rises(without(p, ids), t);
        }
    }
}

/// A table falls into the window that holds its lowest timestamp: windows are as
/// wide as they are told to be, start at multiples of that width and do not overlap.
pub proof fn law_tables_fall_into_windows(t: SSTable, window: i64, w: int)
    requires
        window >= 1,
    ensures
        window_of(t, window) == Some(w) <==> (spec_extent(
            t.index_of().row_groups@,
        ) matches Some((low, _)) && w * window <= low < (w + 1) * window),
        window_of(t, window) is None <==> t.index_of().row_groups@.len() == 0,
{
    crate::sstable::sstable::law_extent_is_of_groups(t.index_of().row_groups@);
    if let Some((low, _)) = spec_extent(t.index_of().row_groups@) {
        let (l, d) = (low as int, window as int);
        lemma_window(l, d, w);
    }
}

proof fn lemma_window(l: int, d: int, w: int)
    requires
        d >= 1,
    ensures
        l / d == w <==> w * d <= l < (w + 1) * d,
{
    let q = l / d;
    assert(q * d <= l < (q + 1) * d) by (nonlinear_arith)
        requires
            d >= 1,
            q == l / d,
    ;
    if w * d <= l < (w + 1) * d {
        assert(w == q) by (nonlinear_arith)
            requires
                d >= 1,
                q * d <= l < (q + 1) * d,
                w * d <= l < (w + 1) * d,
        ;
    }
}

/// The window of a table is that of the oldest of its rows.
pub proof fn law_oldest_row_sets_window(
    t: SSTable,
    rows: Seq<EntryView>,
    window: i64,
    w: int,
    i: int,
)
    requires
        t.describes(rows),
        window >= 1,
        0 <= i < rows.len(),
        forall|j: int| 0 <= j < rows.len() ==> rows[i].0.1 <= (#[trigger] rows[j]).0.1,
    ensures
        window_of(t, window) == Some(w) <==> w * window <= rows[i].0.1 < (w + 1) * window,
{
    law_tables_fall_into_windows(t, window, w);
    crate::sstable::sstable::law_extent_is_of_rows(t, rows);
}

/// Two tables fall into the same window exactly where the last multiple of the width
/// that is not above the lowest timestamp of the one is that of the other too.
pub proof fn law_same_window(
    a: SSTable,
    b: SSTable,
    window: i64,
    low_a: i64,
    low_b: i64,
    w: int,
)
    requires
        window >= 1,
        spec_extent(a.index_of().row_groups@) matches Some((low, _)) && low == low_a,
        spec_extent(b.index_of().row_groups@) matches Some((low, _)) && low == low_b,
        w * window <= low_a < (w + 1) * window,
    ensures
        window_of(a, window) == window_of(b, window) <==> w * window <= low_b < (w + 1) * window,
{
    law_tables_fall_into_windows(a, window, w);
    law_tables_fall_into_windows(b, window, w);
}

/// A window is due exactly where some tables, at least one and as many as are asked
/// for, have their lowest timestamps in it.
pub proof fn law_full_windows_are_due(
    ssts: Seq<SSTable>,
    window: i64,
    threshold: usize,
    w: int,
)
    requires
        window >= 1,
        ssts.len() <= usize::MAX,
    ensures
        is_due(ssts, window, threshold, w) <==> exists|at: Seq<usize>|
            #![trigger at.len()]
            {
                &&& at.len() > 0
                &&& at.len() >= threshold
                &&& forall|x: int, y: int| 0 <= x < y < at.len() ==> at[x] < at[y]
                &&& forall|x: int| #![trigger at[x]]
                    0 <= x < at.len() ==> at[x] < ssts.len() && (spec_extent(
                        ssts[at[x] as int].index_of().row_groups@,
                    ) matches Some((low, _)) && w * window <= low < (w + 1) * window)
            },
{
    let m = members(ssts, window, w);
    lemma_members(ssts, window, w);
    if is_due(ssts, window, threshold, w) {
        assert forall|x: int| #![trigger m[x]] 0 <= x < m.len() implies m[x] < ssts.len() && (
        spec_extent(ssts[m[x] as int].index_of().row_groups@) matches Some((low, _)) && w * window
            <= low < (w + 1) * window) by {
            law_tables_fall_into_windows(ssts[m[x] as int], window, w);
        }
        assert(m.len() > 0);
    }
    if exists|at: Seq<usize>|
        #![trigger at.len()]
        {
            &&& at.len() > 0
            &&& at.len() >= threshold
            &&& forall|x: int, y: int| 0 <= x < y < at.len() ==> at[x] < at[y]
            &&& forall|x: int| #![trigger at[x]]
                0 <= x < at.len() ==> at[x] < ssts.len() && (spec_extent(
                    ssts[at[x] as int].index_of().row_groups@,
                ) matches Some((low, _)) && w * window <= low < (w + 1) * window)
        } {
        let at = choose|at: Seq<usize>|
            #![trigger at.len()]
            {
                &&& at.len() > 0
                &&& at.len() >= threshold
                &&& forall|x: int, y: int| 0 <= x < y < at.len() ==> at[x] < at[y]
                &&& forall|x: int| #![trigger at[x]]
                    0 <= x < at.len() ==> at[x] < ssts.len() && (spec_extent(
                        ssts[at[x] as int].index_of().row_groups@,
                    ) matches Some((low, _)) && w * window <= low < (w + 1) * window)
            };
        assert forall|x: int| 0 <= x < at.len() implies m.contains(#[trigger] at[x]) by {
            law_tables_fall_into_windows(ssts[at[x] as int], window, w);
            let i = at[x] as int;
            assert(window_of(ssts[i], window) == Some(w));
            assert(m.contains(i as usize));
        }
        lemma_rising_fits(at, m);
    }
}

/// Rising numbers that all occur in a list are no more than the list has.
proof fn lemma_rising_fits(at: Seq<usize>, m: Seq<usize>)
    requires
        forall|x: int, y: int| 0 <= x < y < at.len() ==> at[x] < at[y],
        forall|x: int, y: int| 0 <= x < y < m.len() ==> m[x] < m[y],
        forall|x: int| 0 <= x < at.len() ==> m.contains(#[trigger] at[x]),
    ensures
        at.len() <= m.len(),
    decreases at.len(),
{
    if at.len() > 0 {
        let last = at.last();
        assert(m.contains(at[at.len() - 1]));
        let p = choose|p: int| 0 <= p < m.len() && m[p] == last;
        let a = at.drop_last();
        let b = m.take(p);
        assert forall|x: int| 0 <= x < a.len() implies b.contains(#[trigger] a[x]) by {
            assert(a[x] == at[x]);
            assert(m.contains(at[x]));
            let y = choose|y: int| 0 <= y < m.len() && m[y] == at[x];
            if y >= p {
                assert(m[p] <= m[y]);
                assert(at[x] < at[at.len() - 1]);
            }
            assert(b[y] == a[x]);
        }
        lemma_rising_fits(a, b);
    }
}

/// The tables to compact: all with their lowest timestamps in one window, which is
/// full enough, and no lower window is.
pub proof fn law_lowest_full_window_is_compacted(
    ssts: Seq<SSTable>,
    window: i64,
    threshold: usize,
    w: int,
    i: int,
    low: i64,
    high: i64,
)
    requires
        window >= 1,
        ssts.len() <= usize::MAX,
        is_first_due(ssts, window, threshold, w),
        0 <= i < ssts.len(),
        spec_extent(ssts[i].index_of().row_groups@) == Some((low, high)),
    ensures
        members(ssts, window, w).contains(i as usize) <==> w * window <= low < (w + 1) * window,
        members(ssts, window, w).len() >= threshold,
        forall|u: int| u < w ==> !#[trigger] is_due(ssts, window, threshold, u),
{
    law_one_window_is_compacted(ssts, window, threshold, w, members(ssts, window, w));
    law_tables_fall_into_windows(ssts[i], window, w);
}

/// What is taken out are the listed tables: the others stay, in their order, and
/// the files that are told are those of the listed ones.
pub proof fn law_listed_tables_go(ssts: Seq<SSTable>, ids: Seq<usize>)
    ensures
        without(ssts, ids) == ssts.filter(|t: SSTable| !ids.contains(t.number())),
        files_among(ssts, ids) == ssts.filter(|t: SSTable| ids.contains(t.number())).map_values(
            |t: SSTable| t.file(),
        ),
    decreases ssts.len(),
{
    reveal(Seq::filter);
    let stays = |t: SSTable| !ids.contains(t.number());
    let goes = |t: SSTable| ids.contains(t.number());
    let file = |t: SSTable| t.file();
    if ssts.len() > 0 {
        let p = ssts.drop_last();
        law_listed_tables_go(p, ids);
        assert(ssts.filter(stays) == if stays(ssts.last()) {
            p.filter(stays).push(ssts.last())
        } else {
            p.filter(stays)
        });
        assert(ssts.filter(goes) == if goes(ssts.last()) {
            p.filter(goes).push(ssts.last())
        } else {
            p.filter(goes)
        });
    }
    assert(without(ssts, ids) =~= ssts.filter(stays));
    assert(files_among(ssts, ids) =~= ssts.filter(goes).map_values(file));
}

/// A table is put right behind the last one whose number is not above its own.
pub proof fn law_tables_are_put_in_order(ssts: Seq<SSTable>, id: usize)
    ensures
        place_of(ssts, id) <= ssts.len(),
        forall|x: int| place_of(ssts, id) <= x < ssts.len() ==> (#[trigger] ssts[x]).number() > id,
        place_of(ssts, id) > 0 ==> ssts[place_of(ssts, id) - 1].number() <= id,
        by_number(ssts) ==> forall|x: int|
            0 <= x < place_of(ssts, id) ==> (#[trigger] ssts[x]).number() <= id,
{
    lemma_place(ssts, id);
    let p = place_of(ssts, id) as int;
    if by_number(ssts) {
        assert forall|x: int| 0 <= x < p implies (#[trigger] ssts[x]).number() <= id by {
            if x < p - 1 {
                assert(ssts[x].number() <= ssts[p - 1].number());
            }
        }
    }
}

/// Sorting puts one table after the other where its number belongs, so tables with
/// the same number keep their order.
pub proof fn law_sorting_is_stable(tables: Seq<SSTable>, t: SSTable)
    ensures
        sorted(Seq::<SSTable>::empty()) == Seq::<SSTable>::empty(),
        sorted(tables.push(t)) == sorted(tables).insert(
            place_of(sorted(tables), t.number()) as int,
            t,
        ),
{
    assert(tables.push(t).drop_last() =~= tables);
}

} // verus!
