//! A sorted list of the newest versions, kept in a skip list.

use vstd::prelude::*;
use crossbeam_skiplist::SkipMap;
use crate::entries::{entries_view, is_run, newest, Entry};
use crate::types::{key_view, value_view, Key, KeyView, Value};

verus! {

/// One version for every key.
pub type VersionMap = Map<KeyView, (u64, Option<Seq<u8>>)>;

/// The skip list of the outside crate.
#[verifier::external_type_specification]
#[verifier::external_body]
#[verifier::reject_recursive_types(K)]
#[verifier::reject_recursive_types(V)]
pub struct ExSkipMap<K, V>(SkipMap<K, V>);

/// The entries of a skip list, by their keys.
pub uninterp spec fn skip_contents(m: SkipMap<Key, (u64, Option<Value>)>) -> VersionMap;

/// Calls `SkipMap::new`. Claimed: the new list is empty.
#[verifier::external_body]
fn skip_new() -> (r: SkipMap<Key, (u64, Option<Value>)>)
    ensures
        skip_contents(r) == VersionMap::empty(),
{
    SkipMap::new()
}

/// Calls `SkipMap::insert`. Claimed: the entry under the key is afterwards the
/// given one, and no other entry changes. The list is not shared: the call
/// takes it exclusively.
#[verifier::external_body]
fn skip_insert(
    m: &mut SkipMap<Key, (u64, Option<Value>)>,
    key: Key,
    seq: u64,
    value: Option<Value>,
)
    ensures
        skip_contents(*final(m)) == skip_contents(*old(m)).insert(
            key_view(key),
            (seq, value_view(value)),
        ),
{
    m.insert(key, (seq, value));
}

/// Calls `SkipMap::get`. Claimed: the entry under the key is given, or nothing
/// where there is none. Keys are equal where tags and timestamps are.
#[verifier::external_body]
fn skip_get(m: &SkipMap<Key, (u64, Option<Value>)>, key: &Key) -> (r: Option<(u64, Option<Value>)>)
    ensures
        match r {
            None => !skip_contents(*m).dom().contains(key_view(*key)),
            Some((seq, v)) => skip_contents(*m).dom().contains(key_view(*key)) && skip_contents(
                *m,
            )[key_view(*key)] == (seq, value_view(v)),
        },
{
    m.get(key).map(|entry| entry.value().clone())
}

/// Calls `SkipMap::len`. Claimed: the number of entries is given. (It is only
/// approximate while another thread changes the list; none does here.)
#[verifier::external_body]
fn skip_len(m: &SkipMap<Key, (u64, Option<Value>)>) -> (r: usize)
    ensures
        r == skip_contents(*m).dom().len(),
{
    m.len()
}

/// Calls `SkipMap::iter`. Claimed: every entry is given once, in the order of
/// the keys: tags byte by byte, then timestamps, as the standard library
/// orders tuples and byte vectors.
#[verifier::external_body]
fn skip_iter(m: &SkipMap<Key, (u64, Option<Value>)>) -> (r: Vec<Entry>)
    ensures
        is_run(entries_view(r@)),
        r@.len() == skip_contents(*m).dom().len(),
        forall|k: KeyView|
            #[trigger] newest(entries_view(r@), k) == if skip_contents(*m).dom().contains(k) {
                Some(skip_contents(*m)[k])
            } else {
                None
            },
{
    m.iter().map(|e| (e.key().clone(), e.value().0, e.value().1.clone())).collect()
}

/// The newest version for every key.
pub struct SkipList {
    inner: SkipMap<Key, (u64, Option<Value>)>,
    max_seq: u64,
}

impl View for SkipList {
    type V = VersionMap;

    closed spec fn view(&self) -> VersionMap {
        skip_contents(self.inner)
    }
}

/// The value that readers see under a key.
pub open spec fn value_in(m: VersionMap, k: KeyView) -> Option<Seq<u8>> {
    if m.dom().contains(k) {
        m[k].1
    } else {
        None
    }
}

impl SkipList {
    /// The highest sequence number among the entries; 0 where there is none.
    pub closed spec fn top(&self) -> u64 {
        self.max_seq
    }

    /// No entry has a higher number, and one has it unless there is none.
    pub closed spec fn wf(&self) -> bool {
        &&& forall|k: KeyView| #[trigger] self@.dom().contains(k) ==> self@[k].0 <= self.max_seq
        &&& self.max_seq > 0 ==> exists|k: KeyView| #[trigger]
            self@.dom().contains(k) && self@[k].0 == self.max_seq
    }

    /// A list without entries.
    pub fn new() -> (r: Self)
        ensures
            r.wf(),
            r@ == VersionMap::empty(),
            r.top() == 0,
    {
        SkipList { inner: skip_new(), max_seq: 0 }
    }

    /// Puts a version under a key unless a newer one is there, and gives the
    /// value that was there.
    pub fn insert(&mut self, key: Key, seq: u64, value: Option<Value>) -> (r: Option<Value>)
        requires
            old(self).wf(),
        ensures
            final(self).wf(),
            value_view(r) == value_in(old(self)@, key_view(key)),
            ({
                let k = key_view(key);
                let newer = old(self)@.dom().contains(k) && old(self)@[k].0 > seq;
                &&& final(self)@ == if newer {
                    old(self)@
                } else {
                    old(self)@.insert(k, (seq, value_view(value)))
                }
                &&& final(self).top() == if old(self).top() < seq {
                    seq
                } else {
                    old(self).top()
                }
            }),
    {
        let ghost before = self@;
        let ghost top = self.max_seq;
        let ghost k = key_view(key);
        let found = skip_get(&self.inner, &key);
        let replace = match &found {
            Some((old_seq, _)) => seq >= *old_seq,
            None => true,
        };
        if replace {
            skip_insert(&mut self.inner, key, seq, value);
            if self.max_seq < seq {
                self.max_seq = seq;
            }
            proof {
                assert(self@[k].0 == seq);
                assert(self@.dom().contains(k));
                if self.max_seq == top && top > 0 {
                    let w = choose|w: KeyView| #[trigger]
                        before.dom().contains(w) && before[w].0 == top;
                    if w != k {
                        assert(self@.dom().contains(w) && self@[w].0 == self.max_seq);
                    }
                }
            }
        } else {
            assert(before.dom().contains(k));
        }
        match found {
            Some((_, v)) => v,
            None => None,
        }
    }

    /// The version under a key.
    pub fn get(&self, key: &Key) -> (r: Option<(u64, Option<Value>)>)
        ensures
            match r {
                None => !self@.dom().contains(key_view(*key)),
                Some((seq, v)) => self@.dom().contains(key_view(*key)) && self@[key_view(*key)] == (
                    seq,
                    value_view(v),
                ),
            },
    {
        skip_get(&self.inner, key)
    }

    /// The highest sequence number.
    pub fn max_seq(&self) -> (r: u64)
        requires
            self.wf(),
        ensures
            r == self.top(),
            forall|k: KeyView| #[trigger] self@.dom().contains(k) ==> self@[k].0 <= r,
    {
        self.max_seq
    }

    /// How many entries there are.
    pub fn len(&self) -> (r: usize)
        ensures
            r == self@.dom().len(),
    {
        skip_len(&self.inner)
    }

    /// Whether there are no entries.
    pub fn is_empty(&self) -> (r: bool)
        ensures
            r == (self@.dom().len() == 0),
    {
        skip_len(&self.inner) == 0
    }

    /// The entries in the order of their keys.
    pub fn iter(&self) -> (r: Vec<Entry>)
        ensures
            is_run(entries_view(r@)),
            r@.len() == self@.dom().len(),
            forall|k: KeyView|
                #[trigger] newest(entries_view(r@), k) == if self@.dom().contains(k) {
                    Some(self@[k])
                } else {
                    None
                },
    {
        skip_iter(&self.inner)
    }
}

impl Default for SkipList {
    fn default() -> (r: Self)
        ensures
            r.wf(),
            r@ == VersionMap::empty(),
            r.top() == 0,
    {
        Self::new()
    }
}

/// Readers see the value of the entry under a key, and nothing where it is a deletion
/// or there is none.
pub proof fn law_readers_see_entries(m: VersionMap, k: KeyView, value: Seq<u8>)
    ensures
        value_in(m, k) == Some(value) <==> m.dom().contains(k) && m[k].1 == Some(value),
        value_in(m, k) is None <==> !m.dom().contains(k) || m[k].1 is None,
{
}

} // verus!
