//! A sorted map from keys to the version that counts.

use vstd::prelude::*;
use crate::entries::{
    entries_view, entry_view, fresher, is_run, lemma_newest_in_run, lemma_newest_none, newest,
    Entry, EntryView,
};
use crate::order::{group_key_order, key_less, key_lt, key_same};
use crate::types::{copy_value, key_view, value_view, Key, KeyView, Value};

verus! {

broadcast use group_key_order;

/// Entries in the order of their keys, one for every key.
pub struct Run {
    rows: Vec<Entry>,
}

/// What is found in a run is the row under the key.
pub proof fn lemma_run_lookup<T>(s: Seq<(KeyView, u64, T)>, k: KeyView)
    requires
        is_run(s),
    ensures
        newest(s, k) is None <==> (forall|i: int| 0 <= i < s.len() ==> (#[trigger] s[i]).0 != k),
        forall|i: int|
            0 <= i < s.len() && (#[trigger] s[i]).0 == k ==> newest(s, k) == Some(
                (s[i].1, s[i].2),
            ),
{
    lemma_newest_none(s, k);
    assert forall|i: int| 0 <= i < s.len() && (#[trigger] s[i]).0 == k implies newest(s, k) == Some(
        (s[i].1, s[i].2),
    ) by {
        lemma_newest_in_run(s, i);
    }
}

/// Putting a row into the gap where its key belongs keeps a run a run.
pub proof fn lemma_run_insert<T>(s: Seq<(KeyView, u64, T)>, at: int, e: (KeyView, u64, T))
    requires
        is_run(s),
        0 <= at <= s.len(),
        forall|i: int| 0 <= i < at ==> key_lt((#[trigger] s[i]).0, e.0),
        forall|i: int| at <= i < s.len() ==> key_lt(e.0, (#[trigger] s[i]).0),
    ensures
        is_run(s.insert(at, e)),
        forall|k: KeyView|
            #[trigger] newest(s.insert(at, e), k) == if k == e.0 {
                Some((e.1, e.2))
            } else {
                newest(s, k)
            },
{
    let t = s.insert(at, e);
    assert forall|i: int, j: int| #![trigger t[i], t[j]] 0 <= i < j < t.len() implies key_lt(
        t[i].0,
        t[j].0,
    ) by {
        let x = if i < at {
            s[i].0
        } else if i == at {
            e.0
        } else {
            s[i - 1].0
        };
        let y = if j < at {
            s[j].0
        } else if j == at {
            e.0
        } else {
            s[j - 1].0
        };
        assert(key_lt(x, y));
    }
    assert forall|k: KeyView| #[trigger] newest(t, k) == if k == e.0 {
        Some((e.1, e.2))
    } else {
        newest(s, k)
    } by {
        lemma_run_lookup(t, k);
        lemma_run_lookup(s, k);
        assert(t[at] == e);
        if k != e.0 {
            if newest(s, k) is Some {
                let i = choose|i: int| 0 <= i < s.len() && (#[trigger] s[i]).0 == k;
                if i < at {
                    assert(t[i] == s[i]);
                } else {
                    assert(t[i + 1] == s[i]);
                }
            } else {
                assert forall|i: int| 0 <= i < t.len() implies (#[trigger] t[i]).0 != k by {
                    if i < at {
                        assert(t[i] == s[i]);
                    } else if i > at {
                        assert(t[i] == s[i - 1]);
                    }
                }
            }
        }
    }
}

/// Replacing a row under its own key keeps a run a run.
pub proof fn lemma_run_update<T>(s: Seq<(KeyView, u64, T)>, at: int, e: (KeyView, u64, T))
    requires
        is_run(s),
        0 <= at < s.len(),
        s[at].0 == e.0,
    ensures
        is_run(s.update(at, e)),
        forall|k: KeyView|
            #[trigger] newest(s.update(at, e), k) == if k == e.0 {
                Some((e.1, e.2))
            } else {
                newest(s, k)
            },
{
    let t = s.update(at, e);
    assert forall|i: int, j: int| #![trigger t[i], t[j]] 0 <= i < j < t.len() implies key_lt(
        t[i].0,
        t[j].0,
    ) by {
        assert(t[i].0 == s[i].0 && t[j].0 == s[j].0);
    }
    assert forall|k: KeyView| #[trigger] newest(t, k) == if k == e.0 {
        Some((e.1, e.2))
    } else {
        newest(s, k)
    } by {
        lemma_run_lookup(t, k);
        lemma_run_lookup(s, k);
        assert(t[at] == e);
        if k != e.0 {
            if newest(s, k) is Some {
                let i = choose|i: int| 0 <= i < s.len() && (#[trigger] s[i]).0 == k;
                assert(t[i] == s[i]);
            } else {
                assert forall|i: int| 0 <= i < t.len() implies (#[trigger] t[i]).0 != k by {
                    if i != at {
                        assert(t[i] == s[i]);
                    }
                }
            }
        }
    }
}

/// A run is determined by what is found in it.
pub proof fn lemma_same_run<T>(a: Seq<(KeyView, u64, T)>, b: Seq<(KeyView, u64, T)>)
    requires
        is_run(a),
        is_run(b),
        forall|k: KeyView| #[trigger] newest(a, k) == newest(b, k),
    ensures
        a == b,
    decreases a.len(),
{
    if a.len() == 0 {
        if b.len() > 0 {
            lemma_newest_in_run(b, 0);
            assert(newest(a, b[0].0) == newest(b, b[0].0));
        }
        assert(a =~= b);
    } else {
        let n = a.len() - 1;
        let ka = a[n].0;
        lemma_newest_in_run(a, n);
        assert(newest(b, ka) is Some);
        lemma_newest_none(b, ka);
        let i = choose|i: int| 0 <= i < b.len() && (#[trigger] b[i]).0 == ka;
        let m = b.len() - 1;
        let kb = b[m].0;
        lemma_newest_in_run(b, m);
        assert(newest(a, kb) is Some);
        lemma_newest_none(a, kb);
        let j = choose|j: int| 0 <= j < a.len() && (#[trigger] a[j]).0 == kb;
        if i < m {
            assert(key_lt(b[i].0, b[m].0));
            if j < n {
                assert(key_lt(a[j].0, a[n].0));
            }
        }
        assert(ka == kb);
        let x = a.drop_last();
        let y = b.drop_last();
        lemma_drop_last_run(a);
        lemma_drop_last_run(b);
        assert forall|k: KeyView| #[trigger] newest(x, k) == newest(y, k) by {
            assert(newest(a, k) == newest(b, k));
            if k == ka {
                lemma_newest_none(x, k);
                lemma_newest_none(y, k);
            }
        }
        lemma_same_run(x, y);
        assert(a =~= x.push(a.last()));
        assert(b =~= y.push(b.last()));
    }
}

proof fn lemma_drop_last_run<T>(s: Seq<(KeyView, u64, T)>)
    requires
        is_run(s),
        s.len() > 0,
    ensures
        is_run(s.drop_last()),
        forall|i: int|
            0 <= i < s.drop_last().len() ==> (#[trigger] s.drop_last()[i]).0 != s.last().0,
{
    let p = s.drop_last();
    assert forall|i: int, j: int| #![trigger p[i], p[j]] 0 <= i < j < p.len() implies key_lt(
        p[i].0,
        p[j].0,
    ) by {
        assert(p[i] == s[i] && p[j] == s[j]);
    }
    assert forall|i: int| 0 <= i < p.len() implies (#[trigger] p[i]).0 != s.last().0 by {
        assert(p[i] == s[i]);
        assert(key_lt(s[i].0, s[s.len() - 1].0));
    }
}

impl View for Run {
    type V = Seq<EntryView>;

    closed spec fn view(&self) -> Seq<EntryView> {
        entries_view(self.rows@)
    }
}

impl Run {
    #[verifier::type_invariant]
    spec fn sorted(self) -> bool {
        is_run(entries_view(self.rows@))
    }

    /// A run without entries.
    pub fn new() -> (r: Self)
        ensures
            r@ == Seq::<EntryView>::empty(),
    {
        let rows: Vec<Entry> = Vec::new();
        assert(entries_view(rows@) =~= Seq::empty());
        Run { rows }
    }

    /// How many entries there are.
    pub fn len(&self) -> (n: usize)
        ensures
            n == self@.len(),
    {
        self.rows.len()
    }

    /// The entries in the order of their keys.
    pub fn rows(&self) -> (r: &Vec<Entry>)
        ensures
            entries_view(r@) == self@,
            is_run(self@),
    {
        proof {
            use_type_invariant(self);
        }
        &self.rows
    }

    /// The entries in the order of their keys.
    pub fn into_rows(self) -> (r: Vec<Entry>)
        ensures
            entries_view(r@) == self@,
            is_run(self@),
    {
        proof {
            use_type_invariant(&self);
        }
        self.rows
    }

    /// Whether the key is there, and its position or where it belongs.
    fn position(rows: &Vec<Entry>, key: &Key) -> (r: (bool, usize))
        requires
            is_run(entries_view(rows@)),
        ensures
            r.1 <= rows@.len(),
            r.0 ==> r.1 < rows@.len() && key_view(rows@[r.1 as int].0) == key_view(*key),
            forall|i: int|
                0 <= i < r.1 ==> key_lt((#[trigger] entries_view(rows@)[i]).0, key_view(*key)),
            !r.0 ==> forall|i: int|
                r.1 <= i < rows@.len() ==> key_lt(
                    key_view(*key),
                    (#[trigger] entries_view(rows@)[i]).0,
                ),
    {
        let ghost s = entries_view(rows@);
        let ghost k = key_view(*key);
        let mut low: usize = 0;
        let mut high: usize = rows.len();
        while low < high
            invariant
                low <= high <= rows@.len(),
                s == entries_view(rows@),
                is_run(s),
                k == key_view(*key),
                forall|i: int| 0 <= i < low ==> key_lt((#[trigger] s[i]).0, k),
                forall|i: int| high <= i < s.len() ==> key_lt(k, (#[trigger] s[i]).0),
            decreases high - low,
        {
            let mid: usize = low + (high - low) / 2;
            assert(s[mid as int].0 == key_view(rows@[mid as int].0));
            if key_less(&rows[mid].0, key) {
                assert forall|i: int| 0 <= i < mid + 1 implies key_lt((#[trigger] s[i]).0, k) by {
                    if i < mid {
                        assert(key_lt(s[i].0, s[mid as int].0));
                    }
                }
                low = mid + 1;
            } else if key_same(&rows[mid].0, key) {
                assert forall|i: int| 0 <= i < mid implies key_lt((#[trigger] s[i]).0, k) by {
                    assert(key_lt(s[i].0, s[mid as int].0));
                }
                return (true, mid);
            } else {
                assert(key_lt(k, s[mid as int].0));
                assert forall|i: int| mid <= i < s.len() implies key_lt(k, (#[trigger] s[i]).0) by {
                    if mid < i {
                        assert(key_lt(s[mid as int].0, s[i].0));
                    }
                }
                high = mid;
            }
        }
        (false, low)
    }

    /// The version under a key.
    pub fn get(&self, key: &Key) -> (r: Option<(u64, Option<Value>)>)
        ensures
            match r {
                None => newest(self@, key_view(*key)) is None,
                Some((seq, v)) => newest(self@, key_view(*key)) == Some((seq, value_view(v))),
            },
    {
        proof {
            use_type_invariant(self);
            lemma_run_lookup(self@, key_view(*key));
        }
        let (found, at) = Self::position(&self.rows, key);
        if found {
            let e = &self.rows[at];
            assert(self@[at as int] == entry_view(*e));
            Some((e.1, copy_value(&e.2)))
        } else {
            None
        }
    }

    /// Puts a version under a key in place of what was there.
    pub fn put(&mut self, key: Key, seq: u64, value: Option<Value>)
        ensures
            forall|k: KeyView|
                #[trigger] newest(final(self)@, k) == if k == key_view(key) {
                    Some((seq, value_view(value)))
                } else {
                    newest(old(self)@, k)
                },
            is_run(final(self)@),
    {
        proof {
            use_type_invariant(&*self);
        }
        let mut rows: Vec<Entry> = Vec::new();
        assert(entries_view(rows@) =~= Seq::empty());
        std::mem::swap(&mut rows, &mut self.rows);
        let ghost before = entries_view(rows@);
        let ghost e = entry_view((key, seq, value));
        let (found, at) = Self::position(&rows, &key);
        if found {
            rows.set(at, (key, seq, value));
            proof {
                assert(before[at as int].0 == e.0);
                lemma_run_update(before, at as int, e);
                assert(entries_view(rows@) =~= before.update(at as int, e));
            }
        } else {
            rows.insert(at, (key, seq, value));
            proof {
                lemma_run_insert(before, at as int, e);
                assert(entries_view(rows@) =~= before.insert(at as int, e));
            }
        }
        self.rows = rows;
    }

    /// Puts a version under a key unless one is there that is as new.
    pub fn absorb(&mut self, key: Key, seq: u64, value: Option<Value>)
        ensures
            forall|k: KeyView|
                #[trigger] newest(final(self)@, k) == if k == key_view(key) {
                    fresher(newest(old(self)@, k), Some((seq, value_view(value))))
                } else {
                    newest(old(self)@, k)
                },
            is_run(final(self)@),
    {
        let keep = match self.get(&key) {
            Some((s, _)) => s >= seq,
            None => false,
        };
        if !keep {
            self.put(key, seq, value);
        } else {
            proof {
                use_type_invariant(&*self);
            }
        }
    }
}

} // verus!
