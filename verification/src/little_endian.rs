//! Unsigned numbers as little-endian bytes.

use vstd::prelude::*;
use vstd::arithmetic::div_mod::lemma_div_denominator;
use vstd::arithmetic::power::{lemma_pow_positive, pow};

verus! {

/// `n` bytes that hold `x`, lowest byte first. Higher bytes of `x` are lost.
pub open spec fn le_bytes(x: nat, n: nat) -> Seq<u8>
    decreases n,
{
    if n == 0 {
        Seq::empty()
    } else {
        seq![(x % 256) as u8] + le_bytes(x / 256, (n - 1) as nat)
    }
}

/// The number that `s` holds, lowest byte first.
pub open spec fn le_value(s: Seq<u8>) -> nat
    decreases s.len(),
{
    if s.len() == 0 {
        0
    } else {
        s[0] as nat + 256 * le_value(s.skip(1))
    }
}

/// How many numbers `n` bytes can hold.
pub open spec fn byte_span(n: nat) -> nat
    decreases n,
{
    if n == 0 {
        1
    } else {
        256 * byte_span((n - 1) as nat)
    }
}

/// A signed timestamp as the unsigned number with the same 64 bits.
pub open spec fn ts_bits(ts: i64) -> nat {
    if ts >= 0 {
        ts as nat
    } else {
        (ts + 0x1_0000_0000_0000_0000) as nat
    }
}

/// The signed timestamp with the same 64 bits as `x`.
pub open spec fn bits_ts(x: nat) -> i64 {
    if x < 0x8000_0000_0000_0000 {
        x as i64
    } else {
        (x - 0x1_0000_0000_0000_0000) as i64
    }
}

pub proof fn lemma_le_bytes_len(x: nat, n: nat)
    ensures
        le_bytes(x, n).len() == n,
    decreases n,
{
    if n > 0 {
        lemma_le_bytes_len(x / 256, (n - 1) as nat);
    }
}

/// Reading gives back what was written, as far as it fits.
pub proof fn lemma_le_roundtrip(x: nat, n: nat)
    requires
        x < byte_span(n),
    ensures
        le_bytes(x, n).len() == n,
        le_value(le_bytes(x, n)) == x,
    decreases n,
{
    lemma_le_bytes_len(x, n);
    if n > 0 {
        lemma_le_roundtrip(x / 256, (n - 1) as nat);
        assert(le_bytes(x, n).skip(1) =~= le_bytes(x / 256, (n - 1) as nat));
    }
}

/// Writing gives back what was read.
pub proof fn lemma_le_roundtrip_bytes(s: Seq<u8>)
    ensures
        le_bytes(le_value(s), s.len()) == s,
    decreases s.len(),
{
    if s.len() > 0 {
        lemma_le_roundtrip_bytes(s.skip(1));
        assert(le_value(s) % 256 == s[0]);
        assert(le_value(s) / 256 == le_value(s.skip(1)));
    }
    assert(le_bytes(le_value(s), s.len()) =~= s);
}

pub proof fn lemma_le_value_bound(s: Seq<u8>)
    ensures
        le_value(s) < byte_span(s.len()),
    decreases s.len(),
{
    if s.len() > 0 {
        lemma_le_value_bound(s.skip(1));
    }
}

/// The sizes that occur in encodings.
pub proof fn lemma_byte_spans()
    ensures
        byte_span(2) == 0x1_0000,
        byte_span(4) == 0x1_0000_0000,
        byte_span(8) == 0x1_0000_0000_0000_0000,
{
    reveal_with_fuel(byte_span, 9);
}

/// Appends the `n` low bytes of `x`, lowest first.
pub fn push_le(out: &mut Vec<u8>, x: u64, n: usize)
    ensures
        final(out)@ == old(out)@ + le_bytes(x as nat, n as nat),
{
    let mut rest: u64 = x;
    let mut done: usize = 0;
    assert(out@ + le_bytes(rest as nat, n as nat) =~= old(out)@ + le_bytes(x as nat, n as nat));
    while done < n
        invariant
            done <= n,
            out@ + le_bytes(rest as nat, (n - done) as nat) == old(out)@ + le_bytes(
                x as nat,
                n as nat,
            ),
        decreases n - done,
    {
        let ghost before = out@;
        out.push((rest % 256) as u8);
        assert(before + le_bytes(rest as nat, (n - done) as nat) =~= out@ + le_bytes(
            (rest / 256) as nat,
            (n - done - 1) as nat,
        ));
        rest = rest / 256;
        done += 1;
    }
    assert(out@ + le_bytes(rest as nat, 0) =~= out@);
}

/// Reads the `n` bytes from `pos` on.
pub fn read_le(data: &[u8], pos: usize, n: usize) -> (x: u64)
    requires
        pos + n <= data@.len(),
        n <= 8,
    ensures
        x == le_value(data@.subrange(pos as int, pos + n)),
        x < byte_span(n as nat),
{
    let mut x: u64 = 0;
    let mut left: usize = n;
    let len: usize = data.len();
    assert(data@.subrange(pos + n, pos + n) =~= Seq::empty());
    while left > 0
        invariant
            left <= n <= 8,
            pos + n <= data@.len(),
            data@.len() == len,
            x == le_value(data@.subrange(pos + left, pos + n)),
        decreases left,
    {
        let ghost tail = data@.subrange(pos + left, pos + n);
        let ghost wider = data@.subrange(pos + left - 1, pos + n);
        proof {
            assert(wider.skip(1) =~= tail);
            lemma_le_value_bound(wider);
            lemma_byte_spans();
            lemma_span_grows(wider.len(), 8);
        }
        x = x * 256 + data[pos + left - 1] as u64;
        left -= 1;
    }
    proof {
        lemma_le_value_bound(data@.subrange(pos as int, pos + n));
    }
    x
}

proof fn lemma_span_grows(a: nat, b: nat)
    requires
        a <= b,
    ensures
        byte_span(a) <= byte_span(b),
    decreases b,
{
    if a < b {
        lemma_span_grows(a, (b - 1) as nat);
    }
}

/// The 64 bits of a timestamp.
pub fn ts_to_bits(ts: i64) -> (x: u64)
    ensures
        x == ts_bits(ts),
{
    if ts >= 0 {
        ts as u64
    } else {
        let shifted: i64 = ts + 0x4000_0000_0000_0000 + 0x4000_0000_0000_0000;
        shifted as u64 + 0x8000_0000_0000_0000
    }
}

/// The timestamp with the given 64 bits.
pub fn bits_to_ts(x: u64) -> (ts: i64)
    ensures
        ts == bits_ts(x as nat),
{
    if x < 0x8000_0000_0000_0000 {
        x as i64
    } else {
        let low: u64 = x - 0x8000_0000_0000_0000;
        low as i64 - 0x4000_0000_0000_0000 - 0x4000_0000_0000_0000
    }
}

/// A timestamp survives the way through its bits.
pub proof fn lemma_ts_roundtrip(ts: i64)
    ensures
        bits_ts(ts_bits(ts)) == ts,
        ts_bits(ts) < byte_span(8),
{
    lemma_byte_spans();
}

/// Sixty-four bits survive the way through a timestamp.
pub proof fn lemma_bits_roundtrip(x: nat)
    requires
        x < byte_span(8),
    ensures
        ts_bits(bits_ts(x)) == x,
{
    lemma_byte_spans();
}

/// The lowest byte comes first: byte `i` of a number says how often the `i`-th power
/// of 256 is in it.
pub proof fn law_lowest_byte_first(x: nat, n: nat, i: int)
    requires
        0 <= i < n,
    ensures
        le_bytes(x, n).len() == n,
        le_bytes(x, n)[i] as int == (x as int / pow(256, i as nat)) % 256,
    decreases n,
{
    reveal(pow);
    lemma_le_bytes_len(x, n);
    lemma_le_bytes_len(x / 256, (n - 1) as nat);
    if i == 0 {
        assert(pow(256, 0) == 1);
    } else {
        law_lowest_byte_first(x / 256, (n - 1) as nat, i - 1);
        lemma_pow_positive(256, (i - 1) as nat);
        lemma_div_denominator(x as int, 256, pow(256, (i - 1) as nat));
        assert(pow(256, i as nat) == 256 * pow(256, (i - 1) as nat));
    }
}

/// Bytes are read with the lowest one first: byte `i` says how often the `i`-th power
/// of 256 is in the number, and no number is too high for its bytes.
pub proof fn law_lowest_byte_is_read_first(s: Seq<u8>, i: int)
    requires
        0 <= i < s.len(),
    ensures
        s[i] as int == (le_value(s) as int / pow(256, i as nat)) % 256,
        0 <= le_value(s) < pow(256, s.len()),
{
    lemma_le_roundtrip_bytes(s);
    law_lowest_byte_first(le_value(s), s.len(), i);
    lemma_le_value_bound(s);
    lemma_span_is_power(s.len());
}

proof fn lemma_span_is_power(n: nat)
    ensures
        byte_span(n) == pow(256, n),
    decreases n,
{
    reveal(pow);
    if n > 0 {
        lemma_span_is_power((n - 1) as nat);
    }
}

/// A timestamp and its bits differ by a multiple of two to the power of 64: by
/// nothing, or, where the timestamp is negative, by that number.
pub proof fn law_timestamps_are_twos_complement(ts: i64, x: nat)
    ensures
        ts_bits(ts) - ts == if ts < 0 {
            0x1_0000_0000_0000_0000int
        } else {
            0
        },
        x < 0x1_0000_0000_0000_0000 ==> x - bits_ts(x) == if x >= 0x8000_0000_0000_0000 {
            0x1_0000_0000_0000_0000int
        } else {
            0
        },
{
}

} // verus!
