//! Row groups that were read lately, so that point lookups need not read them
//! again.

use vstd::prelude::*;
use crate::batch::Batch;

verus! {

/// A row group that was read: the number of its table, its position there, and
/// its batches.
struct Slot {
    table: usize,
    group: usize,
    batches: Vec<Batch>,
}

/// A cached row group.
pub type CachedGroup = (usize, usize, Seq<Batch>);

/// The row groups that were read last, up to a fixed number. The one that came
/// first leaves first.
pub struct RowGroupCache {
    capacity: usize,
    slots: Vec<Slot>,
}

/// The row group is cached.
pub open spec fn is_cached(s: Seq<CachedGroup>, table: usize, group: usize) -> bool {
    exists|i: int| 0 <= i < s.len() && (#[trigger] s[i]).0 == table && s[i].1 == group
}

/// No row group is cached twice.
pub open spec fn no_repeats(s: Seq<CachedGroup>) -> bool {
    forall|i: int, j: int|
        0 <= i < j < s.len() ==> (#[trigger] s[i]).0 != (#[trigger] s[j]).0 || s[i].1 != s[j].1
}

/// The cached row groups after one more was read.
pub open spec fn cached_after(s: Seq<CachedGroup>, capacity: usize, e: CachedGroup) -> Seq<
    CachedGroup,
> {
    if is_cached(s, e.0, e.1) {
        s
    } else if s.len() < capacity {
        s.push(e)
    } else {
        s.push(e).skip(1)
    }
}

impl View for RowGroupCache {
    type V = Seq<CachedGroup>;

    closed spec fn view(&self) -> Seq<CachedGroup> {
        Seq::new(
            self.slots@.len(),
            |i: int| (self.slots@[i].table, self.slots@[i].group, self.slots@[i].batches@),
        )
    }
}

impl RowGroupCache {
    /// How many row groups are kept at most.
    pub closed spec fn limit(&self) -> usize {
        self.capacity
    }

    /// No more row groups are kept than allowed, and none twice.
    pub open spec fn wf(&self) -> bool {
        &&& self@.len() <= self.limit()
        &&& no_repeats(self@)
    }

    /// A cache without row groups.
    pub fn new(capacity: usize) -> (r: Self)
        ensures
            r.wf(),
            r@ == Seq::<CachedGroup>::empty(),
            r.limit() == capacity,
    {
        let r = RowGroupCache { capacity, slots: Vec::new() };
        assert(r@ =~= Seq::empty());
        r
    }

    /// The batches of a row group, if it is cached.
    pub fn get(&self, table: usize, group: usize) -> (r: Option<&Vec<Batch>>)
        ensures
            match r {
                None => !is_cached(self@, table, group),
                Some(batches) => self@.contains((table, group, batches@)),
            },
    {
        let mut i: usize = 0;
        while i < self.slots.len()
            invariant
                i <= self.slots@.len(),
                forall|x: int|
                    0 <= x < i ==> (#[trigger] self@[x]).0 != table || self@[x].1 != group,
            decreases self.slots@.len() - i,
        {
            let slot = &self.slots[i];
            if slot.table == table && slot.group == group {
                assert(self@[i as int] == (table, group, slot.batches@));
                return Some(&slot.batches);
            }
            assert(self@[i as int].0 != table || self@[i as int].1 != group);
            i += 1;
        }
        None
    }

    /// Keeps a row group that was read.
    pub fn put(&mut self, table: usize, group: usize, batches: Vec<Batch>)
        requires
            old(self).wf(),
        ensures
            final(self).wf(),
            final(self).limit() == old(self).limit(),
            final(self)@ == cached_after(
                old(self)@,
                old(self).limit(),
                (table, group, batches@),
            ),
    {
        let ghost before = self@;
        let ghost e = (table, group, batches@);
        let known = match self.get(table, group) {
            Some(_) => true,
            None => false,
        };
        if known {
            proof {
                let b = choose|b: Seq<Batch>| before.contains((table, group, b));
                let i = choose|i: int| 0 <= i < before.len() && before[i] == (table, group, b);
                assert(before[i].0 == table && before[i].1 == group);
            }
            return;
        }
        self.slots.push(Slot { table, group, batches });
        assert(self@ =~= before.push(e));
        if self.slots.len() > self.capacity {
            let _gone = self.slots.remove(0);
            assert(self@ =~= before.push(e).skip(1));
        }
        proof {
            law_cache_has_no_repeats(before, self.capacity, e);
        }
    }
}

/// Reading more row groups never caches one twice.
pub proof fn law_cache_has_no_repeats(s: Seq<CachedGroup>, capacity: usize, e: CachedGroup)
    requires
        no_repeats(s),
    ensures
        no_repeats(cached_after(s, capacity, e)),
{
    let r = cached_after(s, capacity, e);
    assert forall|i: int, j: int| 0 <= i < j < r.len() implies (#[trigger] r[i]).0 != (
    #[trigger] r[j]).0 || r[i].1 != r[j].1 by {
        if !is_cached(s, e.0, e.1) {
            let d = if s.len() < capacity {
                0int
            } else {
                1int
            };
            assert(r[i] == s[i + d]);
            if j + d < s.len() {
                assert(r[j] == s[j + d]);
            } else {
                assert(r[j] == e);
            }
        }
    }
}

/// A row group that was read is found afterwards, and the cached row groups
/// leave in the order in which they came.
pub proof fn law_cache_is_first_in_first_out(
    s: Seq<CachedGroup>,
    capacity: usize,
    e: CachedGroup,
)
    requires
        s.len() <= capacity,
        capacity > 0,
    ensures
        is_cached(cached_after(s, capacity, e), e.0, e.1),
        !is_cached(s, e.0, e.1) ==> cached_after(s, capacity, e).last() == e,
        forall|i: int| #![trigger s[i]]
            0 < i < s.len() ==> cached_after(s, capacity, e).contains(s[i]),
{
    let r = cached_after(s, capacity, e);
    if !is_cached(s, e.0, e.1) {
        assert(r[r.len() - 1] == e);
        assert forall|i: int| #![trigger s[i]] 0 < i < s.len() implies r.contains(s[i]) by {
            if s.len() < capacity {
                assert(r[i] == s[i]);
            } else {
                assert(r[i - 1] == s[i]);
            }
        }
    }
}

/// What a cache keeps: what it had where the row group is there already; else what it
/// had and the row group at the end, without the first ones that are too many.
pub proof fn law_newest_row_groups_are_kept(
    s: Seq<CachedGroup>,
    capacity: usize,
    e: CachedGroup,
)
    requires
        s.len() <= capacity,
    ensures
        (exists|i: int| 0 <= i < s.len() && (#[trigger] s[i]).0 == e.0 && s[i].1 == e.1)
            ==> cached_after(s, capacity, e) == s,
        (forall|i: int| 0 <= i < s.len() ==> (#[trigger] s[i]).0 != e.0 || s[i].1 != e.1) ==> {
            let now = cached_after(s, capacity, e);
            &&& now.len() == if s.len() < capacity {
                s.len() + 1
            } else {
                capacity as nat
            }
            &&& now == s.push(e).skip(s.len() + 1 - now.len())
        },
        forall|table: usize, group: usize| #[trigger]
            is_cached(s, table, group) <==> !(forall|i: int| #![trigger s[i]]
                0 <= i < s.len() ==> s[i].0 != table || s[i].1 != group),
{
    if s.len() < capacity {
        assert(s.push(e).skip(0) =~= s.push(e));
    }
}

} // verus!
