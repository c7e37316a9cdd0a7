//! The order of row keys: tags byte by byte, then timestamps.

use vstd::prelude::*;
use crate::types::{key_view, Key, KeyView};

verus! {

/// Lexicographic order on byte strings; a proper prefix comes first.
pub open spec fn bytes_lt(a: Seq<u8>, b: Seq<u8>) -> bool
    decreases a.len(),
{
    if b.len() == 0 {
        false
    } else if a.len() == 0 {
        true
    } else if a[0] != b[0] {
        a[0] < b[0]
    } else {
        bytes_lt(a.skip(1), b.skip(1))
    }
}

/// The order of keys.
#[verifier::opaque]
pub open spec fn key_lt(a: KeyView, b: KeyView) -> bool {
    bytes_lt(a.0, b.0) || (a.0 == b.0 && a.1 < b.1)
}

/// `a` is `b` or comes before it.
pub open spec fn key_le(a: KeyView, b: KeyView) -> bool {
    a == b || key_lt(a, b)
}

proof fn lemma_bytes_irreflexive(a: Seq<u8>)
    ensures
        !bytes_lt(a, a),
    decreases a.len(),
{
    if a.len() > 0 {
        lemma_bytes_irreflexive(a.skip(1));
    }
}

proof fn lemma_bytes_transitive(a: Seq<u8>, b: Seq<u8>, c: Seq<u8>)
    requires
        bytes_lt(a, b),
        bytes_lt(b, c),
    ensures
        bytes_lt(a, c),
    decreases a.len(),
{
    if a.len() > 0 && b.len() > 0 && c.len() > 0 && a[0] == b[0] && b[0] == c[0] {
        lemma_bytes_transitive(a.skip(1), b.skip(1), c.skip(1));
    }
}

proof fn lemma_bytes_total(a: Seq<u8>, b: Seq<u8>)
    ensures
        a == b || bytes_lt(a, b) || bytes_lt(b, a),
    decreases a.len(),
{
    if a.len() > 0 && b.len() > 0 && a[0] == b[0] {
        lemma_bytes_total(a.skip(1), b.skip(1));
        if a.skip(1) == b.skip(1) {
            assert(a =~= seq![a[0]] + a.skip(1));
            assert(b =~= seq![b[0]] + b.skip(1));
        }
    } else if a.len() == 0 && b.len() == 0 {
        assert(a =~= b);
    }
}

/// No key comes before itself.
pub broadcast proof fn key_order_irreflexive(a: KeyView)
    ensures
        !#[trigger] key_lt(a, a),
{
    reveal(key_lt);
    lemma_bytes_irreflexive(a.0);
}

/// The order of keys is transitive.
pub broadcast proof fn key_order_transitive(a: KeyView, b: KeyView, c: KeyView)
    requires
        #[trigger] key_lt(a, b),
        #[trigger] key_lt(b, c),
    ensures
        key_lt(a, c),
{
    reveal(key_lt);
    if bytes_lt(a.0, b.0) && bytes_lt(b.0, c.0) {
        lemma_bytes_transitive(a.0, b.0, c.0);
    }
}

/// Of two different keys one comes before the other.
pub broadcast proof fn key_order_total(a: KeyView, b: KeyView)
    ensures
        #![trigger key_lt(a, b)]
        a == b || key_lt(a, b) || key_lt(b, a),
{
    reveal(key_lt);
    lemma_bytes_total(a.0, b.0);
}

pub broadcast group group_key_order {
    key_order_irreflexive,
    key_order_transitive,
    key_order_total,
}

/// The order of tags.
#[verifier::opaque]
pub open spec fn tags_lt(a: Seq<u8>, b: Seq<u8>) -> bool {
    bytes_lt(a, b)
}

/// No tags come before themselves.
pub broadcast proof fn tags_order_irreflexive(a: Seq<u8>)
    ensures
        !#[trigger] tags_lt(a, a),
{
    reveal(tags_lt);
    lemma_bytes_irreflexive(a);
}

/// The order of tags is transitive.
pub broadcast proof fn tags_order_transitive(a: Seq<u8>, b: Seq<u8>, c: Seq<u8>)
    requires
        #[trigger] tags_lt(a, b),
        #[trigger] tags_lt(b, c),
    ensures
        tags_lt(a, c),
{
    reveal(tags_lt);
    lemma_bytes_transitive(a, b, c);
}

/// Of two different tags one comes before the other.
pub broadcast proof fn tags_order_total(a: Seq<u8>, b: Seq<u8>)
    ensures
        #![trigger tags_lt(a, b)]
        a == b || tags_lt(a, b) || tags_lt(b, a),
{
    reveal(tags_lt);
    lemma_bytes_total(a, b);
}

pub broadcast group group_tags_order {
    tags_order_irreflexive,
    tags_order_transitive,
    tags_order_total,
}

/// Keys are ordered by their tags first.
pub proof fn lemma_tags_first(a: KeyView, b: KeyView)
    ensures
        key_lt(a, b) == (tags_lt(a.0, b.0) || (a.0 == b.0 && a.1 < b.1)),
{
    reveal(key_lt);
    reveal(tags_lt);
}

/// Byte strings are compared by the first byte in which they differ, and one that
/// ends before they differ comes first. `n` is where they part.
proof fn lemma_bytes_part(a: Seq<u8>, b: Seq<u8>, n: int)
    requires
        0 <= n <= a.len(),
        n <= b.len(),
        forall|i: int| 0 <= i < n ==> #[trigger] a[i] == b[i],
        n < a.len() && n < b.len() ==> a[n] != b[n],
    ensures
        bytes_lt(a, b) == (n < b.len() && (n == a.len() || a[n] < b[n])),
    decreases n,
{
    if n > 0 {
        assert forall|i: int| 0 <= i < n - 1 implies #[trigger] a.skip(1)[i] == b.skip(1)[i] by {
            assert(a[i + 1] == b[i + 1]);
        }
        assert(a[0] == b[0]);
        lemma_bytes_part(a.skip(1), b.skip(1), n - 1);
    }
}

/// How many bytes two byte strings have in common at their start.
proof fn lemma_common_start(a: Seq<u8>, b: Seq<u8>, from: int) -> (n: int)
    requires
        0 <= from <= a.len(),
        from <= b.len(),
        forall|i: int| 0 <= i < from ==> #[trigger] a[i] == b[i],
    ensures
        from <= n <= a.len(),
        n <= b.len(),
        forall|i: int| 0 <= i < n ==> #[trigger] a[i] == b[i],
        n < a.len() && n < b.len() ==> a[n] != b[n],
    decreases a.len() - from,
{
    if from < a.len() && from < b.len() && a[from] == b[from] {
        lemma_common_start(a, b, from + 1)
    } else {
        from
    }
}

/// Tags are in the order of a dictionary: `a` comes before `b` exactly where they
/// agree up to some byte at which `a` has ended and `b` has not, or at which `a`
/// has the lower byte.
pub proof fn law_tags_are_in_byte_order(a: Seq<u8>, b: Seq<u8>)
    ensures
        tags_lt(a, b) <==> exists|n: int|
            0 <= n <= a.len() && n < b.len() && #[trigger] a.take(n) == b.take(n) && (n == a.len()
                || a[n] < b[n]),
        bytes_lt(a, b) == tags_lt(a, b),
{
    reveal(tags_lt);
    let m = lemma_common_start(a, b, 0);
    lemma_bytes_part(a, b, m);
    if bytes_lt(a, b) {
        assert(a.take(m) =~= b.take(m));
    }
    if exists|n: int|
        0 <= n <= a.len() && n < b.len() && #[trigger] a.take(n) == b.take(n) && (n == a.len()
            || a[n] < b[n]) {
        let n = choose|n: int|
            0 <= n <= a.len() && n < b.len() && #[trigger] a.take(n) == b.take(n) && (n == a.len()
                || a[n] < b[n]);
        assert forall|i: int| 0 <= i < n implies #[trigger] a[i] == b[i] by {
            assert(a.take(n)[i] == b.take(n)[i]);
        }
        lemma_bytes_part(a, b, n);
    }
}

/// Tags come before whatever extends them.
pub proof fn law_prefix_comes_first(a: Seq<u8>, more: Seq<u8>)
    requires
        more.len() > 0,
    ensures
        tags_lt(a, a + more),
        !tags_lt(a + more, a),
{
    reveal(tags_lt);
    lemma_bytes_part(a, a + more, a.len() as int);
    lemma_bytes_part(a + more, a, a.len() as int);
}

/// Keys are ordered by their tags, byte by byte, and under the same tags by time.
pub proof fn law_keys_are_in_order(a: KeyView, b: KeyView)
    ensures
        a.0 == b.0 ==> (key_lt(a, b) <==> a.1 < b.1),
        a.0 != b.0 ==> (key_lt(a, b) <==> exists|n: int|
            0 <= n <= a.0.len() && n < b.0.len() && #[trigger] a.0.take(n) == b.0.take(n) && (n
                == a.0.len() || a.0[n] < b.0[n])),
        key_le(a, b) <==> !key_lt(b, a),
{
    law_tags_are_in_byte_order(a.0, b.0);
    lemma_tags_first(a, b);
    lemma_bytes_irreflexive(a.0);
    key_order_total(a, b);
    key_order_irreflexive(a);
    if key_lt(a, b) && key_lt(b, a) {
        key_order_transitive(a, b, a);
    }
}

/// Whether tags `a` come before tags `b`.
pub fn tags_less(a: &Vec<u8>, b: &Vec<u8>) -> (r: bool)
    ensures
        r == tags_lt(a@, b@),
{
    proof {
        reveal(tags_lt);
    }
    bytes_less(a, b)
}

/// Whether `a` comes before `b` in lexicographic order.
pub fn bytes_less(a: &Vec<u8>, b: &Vec<u8>) -> (r: bool)
    ensures
        r == bytes_lt(a@, b@),
{
    let mut i: usize = 0;
    assert(a@.skip(0) =~= a@);
    assert(b@.skip(0) =~= b@);
    while i < a.len() && i < b.len()
        invariant
            i <= a.len(),
            i <= b.len(),
            bytes_lt(a@, b@) == bytes_lt(a@.skip(i as int), b@.skip(i as int)),
        decreases a.len() - i,
    {
        if a[i] != b[i] {
            return a[i] < b[i];
        }
        assert(a@.skip(i as int).skip(1) =~= a@.skip(i + 1));
        assert(b@.skip(i as int).skip(1) =~= b@.skip(i + 1));
        i += 1;
    }
    i < b.len()
}

/// Whether two byte strings are equal.
pub fn bytes_same(a: &Vec<u8>, b: &Vec<u8>) -> (r: bool)
    ensures
        r == (a@ == b@),
{
    if a.len() != b.len() {
        return false;
    }
    let mut i: usize = 0;
    while i < a.len()
        invariant
            i <= a.len(),
            a.len() == b.len(),
            forall|j: int| 0 <= j < i ==> a@[j] == b@[j],
        decreases a.len() - i,
    {
        if a[i] != b[i] {
            return false;
        }
        i += 1;
    }
    assert(a@ =~= b@);
    true
}

/// Whether key `a` comes before key `b`.
pub fn key_less(a: &Key, b: &Key) -> (r: bool)
    ensures
        r == key_lt(key_view(*a), key_view(*b)),
{
    proof {
        reveal(key_lt);
    }
    bytes_less(&a.0, &b.0) || (bytes_same(&a.0, &b.0) && a.1 < b.1)
}

/// Whether two keys are equal.
pub fn key_same(a: &Key, b: &Key) -> (r: bool)
    ensures
        r == (key_view(*a) == key_view(*b)),
{
    a.1 == b.1 && bytes_same(&a.0, &b.0)
}

} // verus!
