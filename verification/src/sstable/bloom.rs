//! A filter that tells which keys a table cannot hold.

use vstd::prelude::*;
use vstd::arithmetic::power::pow;
use crate::fnv::{fnv, fnv_hash, lemma_fnv_concat, FNV_OFFSET};
use crate::little_endian::{le_bytes, push_le, ts_bits, ts_to_bits};
use crate::types::{key_view, Key, KeyView};

verus! {

/// The fewest bits a filter has.
pub const MIN_BITS: u64 = 1024;

/// The most bits that are set for one key.
pub const MAX_HASHES: u32 = 64;

/// Bits of which those of every inserted key are set.
#[derive(Debug)]
pub struct BloomFilter {
    pub m: u64,
    pub k: u32,
    pub seed: u64,
    pub bits: Vec<u8>,
}

/// Bit `p` is set.
#[verifier::opaque]
pub open spec fn bit_at(bits: Seq<u8>, p: int) -> bool {
    bits[p / 8] & (1u8 << ((p % 8) as u8)) != 0
}

/// The hash of a key.
pub open spec fn key_hash(seed: u64, key: KeyView, salt: u64) -> u64 {
    fnv(FNV_OFFSET ^ seed.wrapping_mul(salt), key.0 + le_bytes(ts_bits(key.1), 8))
}

/// The `i`-th bit of a key.
#[verifier::opaque]
pub open spec fn bit_index(m: u64, seed: u64, key: KeyView, i: u32) -> u64 {
    let h1 = key_hash(seed, key, 1);
    let h2 = key_hash(seed, key, 2) | 1;
    h1.wrapping_add((i as u64).wrapping_mul(h2)) % m
}

/// Bit `p` is one of the bits of a key.
pub open spec fn key_has_bit(m: u64, k: u32, seed: u64, key: KeyView, p: int) -> bool {
    exists|i: u32| i < k && p == #[trigger] bit_index(m, seed, key, i)
}

/// How many bits a filter has that is asked to have `m`.
pub open spec fn bits_for(m: u64) -> u64 {
    if m < MIN_BITS {
        MIN_BITS
    } else {
        m
    }
}

/// How many bits a filter sets for each key that is asked to set `k`.
pub open spec fn hashes_for(k: u32) -> u32 {
    if k < 1 {
        1
    } else if k > MAX_HASHES {
        MAX_HASHES
    } else {
        k
    }
}

proof fn lemma_set_bit(b: u8, j: u8)
    requires
        j < 8,
    ensures
        forall|i: u8|
            i < 8 ==> (#[trigger] ((b | (1u8 << j)) & (1u8 << i)) != 0 <==> (b & (1u8 << i)) != 0
                || i == j),
{
    assert forall|i: u8| i < 8 implies (#[trigger] ((b | (1u8 << j)) & (1u8 << i)) != 0 <==> (b & (
    1u8 << i)) != 0 || i == j) by {
        assert(i < 8 && j < 8 ==> (((b | (1u8 << j)) & (1u8 << i)) != 0u8 <==> (b & (1u8 << i))
            != 0u8 || i == j)) by (bit_vector);
    }
}

proof fn lemma_bit_index(m: u64, seed: u64, key: KeyView, i: u32)
    requires
        m > 0,
    ensures
        bit_index(m, seed, key, i) < m,
{
    reveal(bit_index);
}

fn set_bit(bits: &mut Vec<u8>, idx: u64)
    requires
        idx < old(bits)@.len() * 8,
    ensures
        final(bits)@.len() == old(bits)@.len(),
        forall|p: int|
            0 <= p < old(bits)@.len() * 8 ==> (#[trigger] bit_at(final(bits)@, p) <==> bit_at(
                old(bits)@,
                p,
            ) || p == idx),
{
    let len: usize = bits.len();
    assert(idx / 8 < len);
    let byte: usize = (idx / 8) as usize;
    let shift: u8 = (idx % 8) as u8;
    let b: u8 = bits[byte];
    let ghost before = bits@;
    bits.set(byte, b | (1u8 << shift));
    proof {
        reveal(bit_at);
        lemma_set_bit(b, shift);
        assert forall|p: int| 0 <= p < before.len() * 8 implies (#[trigger] bit_at(bits@, p)
            <==> bit_at(before, p) || p == idx) by {
            let s = (p % 8) as u8;
            if p / 8 == byte {
                assert(((b | (1u8 << shift)) & (1u8 << s)) != 0 <==> (b & (1u8 << s)) != 0 || s
                    == shift);
                assert(s == shift <==> p == idx);
            } else {
                assert(bits@[p / 8] == before[p / 8]);
                assert(p != idx);
            }
        }
    }
}

fn get_bit(bits: &Vec<u8>, idx: u64) -> (r: bool)
    requires
        idx < bits@.len() * 8,
    ensures
        r == bit_at(bits@, idx as int),
{
    let len: usize = bits.len();
    assert(idx / 8 < len);
    let byte: usize = (idx / 8) as usize;
    let shift: u8 = (idx % 8) as u8;
    proof {
        reveal(bit_at);
        assert((idx as int) / 8 == byte);
        assert(((idx as int) % 8) as u8 == shift);
    }
    bits[byte] & (1u8 << shift) != 0
}

impl BloomFilter {
    /// There is a bit for every hash.
    pub open spec fn wf(&self) -> bool {
        self.m > 0 && self.bits@.len() * 8 >= self.m
    }

    /// All bits of the key are set.
    pub open spec fn may_contain(&self, key: KeyView) -> bool {
        forall|i: u32| #![trigger bit_index(self.m, self.seed, key, i)]
            i < self.k ==> bit_at(self.bits@, bit_index(self.m, self.seed, key, i) as int)
    }

    /// A filter of about the given size without keys: it has at least 1024
    /// bits and sets between one and 64 of them for each key.
    pub fn new(m: u64, k: u32, seed: u64) -> (r: Self)
        requires
            m <= u64::MAX - 7,
            (m + 7) / 8 <= usize::MAX,
        ensures
            r.wf(),
            r.m == bits_for(m),
            r.k == hashes_for(k),
            r.seed == seed,
            r.bits@.len() == (r.m + 7) / 8,
            forall|i: int| 0 <= i < r.bits@.len() ==> #[trigger] r.bits@[i] == 0,
            forall|p: int| 0 <= p < r.bits@.len() * 8 ==> !#[trigger] bit_at(r.bits@, p),
            forall|key: KeyView| !#[trigger] r.may_contain(key),
    {
        let m: u64 = if m < MIN_BITS {
            MIN_BITS
        } else {
            m
        };
        let k: u32 = if k < 1 {
            1
        } else if k > MAX_HASHES {
            MAX_HASHES
        } else {
            k
        };
        let size: usize = ((m + 7) / 8) as usize;
        let bits: Vec<u8> = vec![0u8; size];
        let r = BloomFilter { m, k, seed, bits };
        assert forall|p: int| 0 <= p < r.bits@.len() * 8 implies !#[trigger] bit_at(
            r.bits@,
            p,
        ) by {
            reveal(bit_at);
            assert(r.bits@[p / 8] == 0);
            let j = (p % 8) as u8;
            assert(0u8 & (1u8 << j) == 0u8) by (bit_vector);
        }
        assert forall|key: KeyView| !#[trigger] r.may_contain(key) by {
            let p = bit_index(r.m, r.seed, key, 0) as int;
            lemma_bit_index(r.m, r.seed, key, 0);
            assert(!bit_at(r.bits@, p));
        }
        r
    }

    fn hash(&self, key: &Key, salt: u64) -> (r: u64)
        ensures
            r == key_hash(self.seed, key_view(*key), salt),
    {
        let start: u64 = FNV_OFFSET ^ self.seed.wrapping_mul(salt);
        let mut ts: Vec<u8> = Vec::new();
        push_le(&mut ts, ts_to_bits(key.1), 8);
        assert(ts@ =~= le_bytes(ts_bits(key.1), 8));
        proof {
            lemma_fnv_concat(start, key.0@, ts@);
        }
        let h: u64 = fnv_hash(start, key.0.as_slice());
        fnv_hash(h, ts.as_slice())
    }

    /// The bits of a key.
    fn bit_indexes(&self, key: &Key) -> (r: Vec<u64>)
        requires
            self.wf(),
        ensures
            r@.len() == self.k,
            forall|i: u32|
                i < self.k ==> #[trigger] r@[i as int] == bit_index(
                    self.m,
                    self.seed,
                    key_view(*key),
                    i,
                ) && r@[i as int] < self.m,
    {
        let h1: u64 = self.hash(key, 1);
        let h2: u64 = self.hash(key, 2) | 1;
        let mut r: Vec<u64> = Vec::new();
        let mut i: u32 = 0;
        while i < self.k
            invariant
                i <= self.k,
                self.wf(),
                r@.len() == i,
                h1 == key_hash(self.seed, key_view(*key), 1),
                h2 == key_hash(self.seed, key_view(*key), 2) | 1,
                forall|j: u32|
                    j < i ==> #[trigger] r@[j as int] == bit_index(
                        self.m,
                        self.seed,
                        key_view(*key),
                        j,
                    ) && r@[j as int] < self.m,
            decreases self.k - i,
        {
            proof {
                reveal(bit_index);
            }
            r.push(h1.wrapping_add((i as u64).wrapping_mul(h2)) % self.m);
            i += 1;
        }
        r
    }

    /// Sets the bits of a key.
    pub fn insert(&mut self, key: &Key)
        requires
            old(self).wf(),
        ensures
            final(self).wf(),
            final(self).m == old(self).m,
            final(self).k == old(self).k,
            final(self).seed == old(self).seed,
            final(self).bits@.len() == old(self).bits@.len(),
            forall|p: int|
                0 <= p < old(self).bits@.len() * 8 ==> (#[trigger] bit_at(final(self).bits@, p)
                    <==> bit_at(old(self).bits@, p) || key_has_bit(
                    old(self).m,
                    old(self).k,
                    old(self).seed,
                    key_view(*key),
                    p,
                )),
            final(self).may_contain(key_view(*key)),
            forall|other: KeyView| #[trigger]
                old(self).may_contain(other) ==> final(self).may_contain(other),
    {
        let ghost start = *self;
        let ghost kv = key_view(*key);
        let ghost n = start.bits@.len() * 8;
        let indexes = self.bit_indexes(key);
        let mut i: usize = 0;
        while i < indexes.len()
            invariant
                i <= indexes@.len(),
                indexes@.len() == start.k,
                start.wf(),
                n == start.bits@.len() * 8,
                self.m == start.m,
                self.k == start.k,
                self.seed == start.seed,
                self.bits@.len() == start.bits@.len(),
                forall|j: u32|
                    j < start.k ==> #[trigger] indexes@[j as int] == bit_index(
                        start.m,
                        start.seed,
                        kv,
                        j,
                    ) && indexes@[j as int] < start.m,
                forall|p: int|
                    0 <= p < n ==> (#[trigger] bit_at(self.bits@, p) <==> bit_at(start.bits@, p)
                        || exists|j: int| 0 <= j < i && p == #[trigger] indexes@[j]),
            decreases indexes@.len() - i,
        {
            let idx: u64 = indexes[i];
            assert(indexes@[(i as u32) as int] == idx);
            let ghost before = self.bits@;
            set_bit(&mut self.bits, idx);
            proof {
                assert forall|p: int| 0 <= p < n implies (#[trigger] bit_at(self.bits@, p)
                    <==> bit_at(start.bits@, p) || exists|j: int|
                    0 <= j < i + 1 && p == #[trigger] indexes@[j]) by {
                    assert(bit_at(before, p) <==> bit_at(start.bits@, p) || exists|j: int|
                        0 <= j < i && p == #[trigger] indexes@[j]);
                    assert(indexes@[i as int] == idx);
                    if bit_at(self.bits@, p) && !bit_at(start.bits@, p) {
                        if p != idx {
                            let j = choose|j: int| 0 <= j < i && p == #[trigger] indexes@[j];
                            assert(p == indexes@[j]);
                        }
                    }
                    if exists|j: int| 0 <= j < i + 1 && p == #[trigger] indexes@[j] {
                        let j = choose|j: int| 0 <= j < i + 1 && p == #[trigger] indexes@[j];
                        if j < i {
                            assert(p == indexes@[j]);
                        }
                    }
                }
            }
            i += 1;
        }
        proof {
            assert forall|p: int| 0 <= p < n implies (#[trigger] bit_at(self.bits@, p) <==> bit_at(
                start.bits@,
                p,
            ) || exists|j: u32|
                j < start.k && p == #[trigger] bit_index(start.m, start.seed, kv, j)) by {
                if exists|j: int| 0 <= j < i && p == #[trigger] indexes@[j] {
                    let j = choose|j: int| 0 <= j < i && p == #[trigger] indexes@[j];
                    assert(indexes@[(j as u32) as int] == bit_index(
                        start.m,
                        start.seed,
                        kv,
                        j as u32,
                    ));
                }
                if exists|j: u32| j < start.k && p == #[trigger] bit_index(
                    start.m,
                    start.seed,
                    kv,
                    j,
                ) {
                    let j = choose|j: u32|
                        j < start.k && p == #[trigger] bit_index(start.m, start.seed, kv, j);
                    assert(indexes@[j as int] == p);
                }
            }
            assert forall|j: u32| #![trigger bit_index(self.m, self.seed, kv, j)]
                j < self.k implies bit_at(
                self.bits@,
                bit_index(self.m, self.seed, kv, j) as int,
            ) by {
                let p = bit_index(start.m, start.seed, kv, j) as int;
                assert(indexes@[j as int] == p);
                assert(0 <= p < n);
            }
            assert forall|other: KeyView| #[trigger] start.may_contain(
                other,
            ) implies self.may_contain(other) by {
                assert forall|j: u32| #![trigger bit_index(self.m, self.seed, other, j)]
                    j < self.k implies bit_at(
                    self.bits@,
                    bit_index(self.m, self.seed, other, j) as int,
                ) by {
                    let p = bit_index(start.m, start.seed, other, j) as int;
                    lemma_bit_index(start.m, start.seed, other, j);
                    assert(0 <= p < start.m);
                    assert(bit_at(start.bits@, p));
                }
            }
        }
    }

    /// Whether all bits of a key are set. Where they are not, the key was
    /// never inserted.
    pub fn contains(&self, key: &Key) -> (r: bool)
        requires
            self.wf(),
        ensures
            r == self.may_contain(key_view(*key)),
    {
        let ghost kv = key_view(*key);
        let indexes = self.bit_indexes(key);
        let mut i: u32 = 0;
        while i < self.k
            invariant
                i <= self.k,
                self.wf(),
                kv == key_view(*key),
                indexes@.len() == self.k,
                forall|j: u32|
                    j < self.k ==> #[trigger] indexes@[j as int] == bit_index(
                        self.m,
                        self.seed,
                        kv,
                        j,
                    ) && indexes@[j as int] < self.m,
                forall|j: u32| #![trigger bit_index(self.m, self.seed, kv, j)]
                    j < i ==> bit_at(self.bits@, bit_index(self.m, self.seed, kv, j) as int),
            decreases self.k - i,
        {
            let idx: u64 = indexes[i as usize];
            assert(indexes@[i as int] == idx);
            if !get_bit(&self.bits, idx) {
                assert(!bit_at(self.bits@, bit_index(self.m, self.seed, kv, i) as int));
                return false;
            }
            i += 1;
        }
        true
    }
}

/// Bit `p` is in byte `p / 8`, and the lowest bit of a byte is its first.
pub proof fn law_low_bits_come_first(bits: Seq<u8>, p: int)
    requires
        0 <= p < bits.len() * 8,
    ensures
        bit_at(bits, p) <==> (bits[p / 8] as int / pow(2, (p % 8) as nat)) % 2 == 1,
{
    reveal(bit_at);
    let b = bits[p / 8];
    let j = p % 8;
    reveal_with_fuel(pow, 9);
    assert((b & (1u8 << 0u8) != 0) <==> b % 2 == 1) by (bit_vector);
    assert((b & (1u8 << 1u8) != 0) <==> (b / 2) % 2 == 1) by (bit_vector);
    assert((b & (1u8 << 2u8) != 0) <==> (b / 4) % 2 == 1) by (bit_vector);
    assert((b & (1u8 << 3u8) != 0) <==> (b / 8) % 2 == 1) by (bit_vector);
    assert((b & (1u8 << 4u8) != 0) <==> (b / 16) % 2 == 1) by (bit_vector);
    assert((b & (1u8 << 5u8) != 0) <==> (b / 32) % 2 == 1) by (bit_vector);
    assert((b & (1u8 << 6u8) != 0) <==> (b / 64) % 2 == 1) by (bit_vector);
    assert((b & (1u8 << 7u8) != 0) <==> (b / 128) % 2 == 1) by (bit_vector);
}

/// The bits of a key come from two hashes of its tags and the bytes of its
/// timestamp: the first is where they start, and the second, made odd, how far each
/// is from the one before, modulo two to the power of 64 and then the size.
pub proof fn law_bits_are_double_hashed(m: u64, seed: u64, key: KeyView, i: u32)
    requires
        m > 0,
    ensures
        ({
            let data = key.0 + le_bytes(ts_bits(key.1), 8);
            let start = fnv(0xcbf2_9ce4_8422_2325u64 ^ seed, data);
            let twice = ((seed * 2) % 0x1_0000_0000_0000_0000) as u64;
            let step = fnv(0xcbf2_9ce4_8422_2325u64 ^ twice, data) | 1;
            bit_index(m, seed, key, i) as int == ((start + i * step) % 0x1_0000_0000_0000_0000)
                % m as int
        }),
{
    reveal(bit_index);
    let data = key.0 + le_bytes(ts_bits(key.1), 8);
    let h1 = key_hash(seed, key, 1);
    let h2 = key_hash(seed, key, 2) | 1;
    let d = 0x1_0000_0000_0000_0000int;
    assert(seed.wrapping_mul(1) == seed);
    let p = (i as u64).wrapping_mul(h2);
    assert(p as int == (i * h2) % d);
    vstd::arithmetic::div_mod::lemma_add_mod_noop_right(h1 as int, i * h2, d);
    assert(h1.wrapping_add(p) as int == (h1 + p) % d);
}

/// The sizes that are asked for are kept within limits: no fewer than 1024 bits, and
/// from one to 64 of them for each key.
pub proof fn law_sizes_are_limited(m: u64, k: u32)
    ensures
        bits_for(m) >= 1024,
        m >= 1024 ==> bits_for(m) == m,
        m < 1024 ==> bits_for(m) == 1024,
        1 <= hashes_for(k) <= 64,
        1 <= k <= 64 ==> hashes_for(k) == k,
        k > 64 ==> hashes_for(k) == 64,
{
}

/// A key may be there exactly where all of its bits are set.
pub proof fn law_all_bits_are_asked(b: BloomFilter, key: KeyView)
    ensures
        b.may_contain(key) <==> forall|p: int|
            key_has_bit(b.m, b.k, b.seed, key, p) ==> #[trigger] bit_at(b.bits@, p),
        forall|i: u32| i < b.k ==> key_has_bit(
            b.m,
            b.k,
            b.seed,
            key,
            #[trigger] bit_index(b.m, b.seed, key, i) as int,
        ),
{
    if forall|p: int| key_has_bit(b.m, b.k, b.seed, key, p) ==> #[trigger] bit_at(b.bits@, p) {
        assert forall|i: u32| #![trigger bit_index(b.m, b.seed, key, i)]
            i < b.k implies bit_at(b.bits@, bit_index(b.m, b.seed, key, i) as int) by {
            assert(key_has_bit(
                b.m,
                b.k,
                b.seed,
                key,
                bit_index(b.m, b.seed, key, i) as int,
            ));
        }
    }
}

} // verus!
