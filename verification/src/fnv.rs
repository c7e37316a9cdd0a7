//! The FNV-1a hash.

use vstd::prelude::*;

verus! {

/// Where hashing starts.
pub const FNV_OFFSET: u64 = 0xcbf2_9ce4_8422_2325;

/// What each step multiplies by.
pub const FNV_PRIME: u64 = 0x100_0000_01b3;

/// The hash of `s` from the state `h` on.
pub open spec fn fnv(h: u64, s: Seq<u8>) -> u64
    decreases s.len(),
{
    if s.len() == 0 {
        h
    } else {
        (fnv(h, s.drop_last()) ^ (s.last() as u64)).wrapping_mul(FNV_PRIME)
    }
}

/// Hashing two byte strings in a row is hashing their concatenation.
pub proof fn lemma_fnv_concat(h: u64, a: Seq<u8>, b: Seq<u8>)
    ensures
        fnv(fnv(h, a), b) == fnv(h, a + b),
    decreases b.len(),
{
    if b.len() == 0 {
        assert(a + b =~= a);
    } else {
        lemma_fnv_concat(h, a, b.drop_last());
        assert((a + b).drop_last() =~= a + b.drop_last());
    }
}

/// The hash of `s` from the state `h` on.
pub fn fnv_hash(h: u64, s: &[u8]) -> (r: u64)
    ensures
        r == fnv(h, s@),
{
    let mut r: u64 = h;
    let mut i: usize = 0;
    assert(s@.take(0) =~= Seq::empty());
    while i < s.len()
        invariant
            i <= s@.len(),
            r == fnv(h, s@.take(i as int)),
        decreases s@.len() - i,
    {
        assert(s@.take(i + 1).drop_last() =~= s@.take(i as int));
        assert(s@.take(i + 1).last() == s@[i as int]);
        r = (r ^ (s[i] as u64)).wrapping_mul(FNV_PRIME);
        i += 1;
    }
    assert(s@.take(i as int) =~= s@);
    r
}

/// Hashing goes byte by byte: each byte is put into the low bits of the state, which
/// is then multiplied by the prime, modulo two to the power of 64. Nothing is left as
/// it is.
pub proof fn law_each_byte_is_hashed(h: u64, s: Seq<u8>, b: u8)
    ensures
        fnv(h, Seq::<u8>::empty()) == h,
        fnv(h, s.push(b)) as int == ((fnv(h, s) ^ (b as u64)) as int * 0x100_0000_01b3)
            % 0x1_0000_0000_0000_0000,
        fnv(FNV_OFFSET, Seq::<u8>::empty()) == 0xcbf2_9ce4_8422_2325,
{
    assert(s.push(b).drop_last() =~= s);
}

} // verus!
