//! Byte strings as hexadecimal text.

use vstd::prelude::*;
use vstd::string::{StrSliceExecFns, StringExecFns};

verus! {

/// The character of a hexadecimal digit.
pub open spec fn hex_char(d: nat) -> char {
    if d < 10 {
        ('0' as nat + d) as char
    } else {
        ('a' as nat + d - 10) as char
    }
}

/// The value of a hexadecimal digit, small or capital.
pub open spec fn hex_value(c: char) -> Option<nat> {
    if '0' <= c <= '9' {
        Some((c as int - '0' as int) as nat)
    } else if 'a' <= c <= 'f' {
        Some((c as int - 'a' as int + 10) as nat)
    } else if 'A' <= c <= 'F' {
        Some((c as int - 'A' as int + 10) as nat)
    } else {
        None
    }
}

/// Two digits for every byte.
pub open spec fn hex_of(bytes: Seq<u8>) -> Seq<char>
    decreases bytes.len(),
{
    if bytes.len() == 0 {
        Seq::empty()
    } else {
        let b = bytes.last() as nat;
        hex_of(bytes.drop_last()).push(hex_char(b / 16)).push(hex_char(b % 16))
    }
}

/// The bytes that pairs of digits stand for.
pub open spec fn unhexed(s: Seq<char>) -> Option<Seq<u8>>
    decreases s.len(),
{
    if s.len() == 0 {
        Some(Seq::empty())
    } else if s.len() == 1 {
        None
    } else {
        match (
            unhexed(s.take(s.len() - 2)),
            hex_value(s[s.len() - 2]),
            hex_value(s[s.len() - 1]),
        ) {
            (Some(bytes), Some(high), Some(low)) => Some(bytes.push((high * 16 + low) as u8)),
            _ => None,
        }
    }
}

fn append_hex_digit(out: &mut String, d: u8)
    requires
        d < 16,
    ensures
        final(out)@ == old(out)@.push(hex_char(d as nat)),
{
    proof {
        reveal_strlit("0");
        reveal_strlit("1");
        reveal_strlit("2");
        reveal_strlit("3");
        reveal_strlit("4");
        reveal_strlit("5");
        reveal_strlit("6");
        reveal_strlit("7");
        reveal_strlit("8");
        reveal_strlit("9");
        reveal_strlit("a");
        reveal_strlit("b");
        reveal_strlit("c");
        reveal_strlit("d");
        reveal_strlit("e");
        reveal_strlit("f");
    }
    match d {
        0 => out.append("0"),
        1 => out.append("1"),
        2 => out.append("2"),
        3 => out.append("3"),
        4 => out.append("4"),
        5 => out.append("5"),
        6 => out.append("6"),
        7 => out.append("7"),
        8 => out.append("8"),
        9 => out.append("9"),
        10 => out.append("a"),
        11 => out.append("b"),
        12 => out.append("c"),
        13 => out.append("d"),
        14 => out.append("e"),
        _ => out.append("f"),
    }
    assert(out@ =~= old(out)@.push(hex_char(d as nat)));
}

/// The hexadecimal text of bytes.
pub fn to_hex(bytes: &Vec<u8>) -> (r: String)
    ensures
        r@ == hex_of(bytes@),
{
    let mut out = String::new();
    let mut i: usize = 0;
    assert(bytes@.take(0) =~= Seq::empty());
    while i < bytes.len()
        invariant
            i <= bytes@.len(),
            out@ == hex_of(bytes@.take(i as int)),
        decreases bytes@.len() - i,
    {
        let b: u8 = bytes[i];
        append_hex_digit(&mut out, b / 16);
        append_hex_digit(&mut out, b % 16);
        assert(bytes@.take(i + 1).drop_last() =~= bytes@.take(i as int));
        assert(bytes@.take(i + 1).last() == b);
        i += 1;
    }
    assert(bytes@.take(i as int) =~= bytes@);
    out
}

fn hex_digit(c: char) -> (r: Option<u8>)
    ensures
        match r {
            None => hex_value(c) is None,
            Some(d) => hex_value(c) == Some(d as nat) && d < 16,
        },
{
    match c {
        '0' => Some(0),
        '1' => Some(1),
        '2' => Some(2),
        '3' => Some(3),
        '4' => Some(4),
        '5' => Some(5),
        '6' => Some(6),
        '7' => Some(7),
        '8' => Some(8),
        '9' => Some(9),
        'a' => Some(10),
        'b' => Some(11),
        'c' => Some(12),
        'd' => Some(13),
        'e' => Some(14),
        'f' => Some(15),
        'A' => Some(10),
        'B' => Some(11),
        'C' => Some(12),
        'D' => Some(13),
        'E' => Some(14),
        'F' => Some(15),
        _ => None,
    }
}

proof fn lemma_prefix_fails(s: Seq<char>, n: int)
    requires
        0 <= n <= s.len(),
        (s.len() - n) % 2 == 0,
        unhexed(s.take(n)) is None,
    ensures
        unhexed(s) is None,
    decreases s.len(),
{
    if n < s.len() {
        let p = s.take(s.len() - 2);
        assert(p.take(n) =~= s.take(n));
        lemma_prefix_fails(p, n);
    } else {
        assert(s.take(n) =~= s);
    }
}

proof fn lemma_odd_fails(s: Seq<char>)
    requires
        s.len() % 2 == 1,
    ensures
        unhexed(s) is None,
    decreases s.len(),
{
    if s.len() > 1 {
        lemma_odd_fails(s.take(s.len() - 2));
    }
}

/// The bytes that hexadecimal text stands for; `None` where it is none.
pub fn from_hex(s: &str) -> (r: Option<Vec<u8>>)
    ensures
        match r {
            None => unhexed(s@) is None,
            Some(bytes) => unhexed(s@) == Some(bytes@),
        },
{
    let n: usize = s.unicode_len();
    if n % 2 != 0 {
        proof {
            lemma_odd_fails(s@);
        }
        return None;
    }
    let mut out: Vec<u8> = Vec::new();
    let mut i: usize = 0;
    assert(s@.take(0) =~= Seq::empty());
    while i < n
        invariant
            i <= n,
            n == s@.len(),
            n % 2 == 0,
            i % 2 == 0,
            unhexed(s@.take(i as int)) == Some(out@),
        decreases n - i,
    {
        let ghost upto = s@.take(i + 2);
        assert(upto.take(upto.len() - 2) =~= s@.take(i as int));
        let high = hex_digit(s.get_char(i));
        let low = hex_digit(s.get_char(i + 1));
        match (high, low) {
            (Some(h), Some(l)) => {
                out.push(h * 16 + l);
            },
            _ => {
                proof {
                    lemma_prefix_fails(s@, i + 2);
                }
                return None;
            },
        }
        i += 2;
    }
    assert(s@.take(n as int) =~= s@);
    Some(out)
}

/// Bytes survive the way through hexadecimal text.
pub proof fn law_hex_roundtrip(bytes: Seq<u8>)
    ensures
        unhexed(hex_of(bytes)) == Some(bytes),
    decreases bytes.len(),
{
    if bytes.len() > 0 {
        law_hex_roundtrip(bytes.drop_last());
        let s = hex_of(bytes);
        let b = bytes.last() as nat;
        assert(s.take(s.len() - 2) =~= hex_of(bytes.drop_last()));
        assert(hex_value(s[s.len() - 2]) == Some(b / 16));
        assert(hex_value(s[s.len() - 1]) == Some(b % 16));
        assert(bytes.drop_last().push(bytes.last()) =~= bytes);
    } else {
        assert(bytes =~= Seq::empty());
    }
}

/// Which characters are hexadecimal digits, and what they stand for.
pub proof fn law_hex_digits(c: char, d: int)
    requires
        0 <= d < 16,
    ensures
        hex_value(c) == Some(d as nat) <==> c as int == (if d < 10 {
            '0' as int + d
        } else {
            'a' as int + d - 10
        }) || (d >= 10 && c as int == 'A' as int + d - 10),
        hex_value(c) matches Some(x) ==> x < 16,
{
}

/// Byte `i` becomes two characters, the high half before the low half, in small
/// letters.
pub proof fn law_bytes_become_two_digits(bytes: Seq<u8>, i: int)
    requires
        0 <= i < bytes.len(),
    ensures
        hex_of(bytes).len() == 2 * bytes.len(),
        ({
            let high = bytes[i] as int / 16;
            let low = bytes[i] as int % 16;
            &&& hex_of(bytes)[2 * i] as int == if high < 10 {
                '0' as int + high
            } else {
                'a' as int + high - 10
            }
            &&& hex_of(bytes)[2 * i + 1] as int == if low < 10 {
                '0' as int + low
            } else {
                'a' as int + low - 10
            }
        }),
    decreases bytes.len(),
{
    lemma_hex_len(bytes);
    let p = bytes.drop_last();
    lemma_hex_len(p);
    if i < p.len() {
        law_bytes_become_two_digits(p, i);
        assert(p[i] == bytes[i]);
    }
}

proof fn lemma_hex_len(bytes: Seq<u8>)
    ensures
        hex_of(bytes).len() == 2 * bytes.len(),
    decreases bytes.len(),
{
    if bytes.len() > 0 {
        lemma_hex_len(bytes.drop_last());
    }
}

/// Text stands for bytes exactly where every byte has its two digits, high half
/// first, and nothing else is there.
pub proof fn law_digits_become_bytes(s: Seq<char>, bytes: Seq<u8>)
    ensures
        unhexed(s) == Some(bytes) <==> s.len() == 2 * bytes.len() && forall|i: int|
            #![trigger bytes[i]]
            0 <= i < bytes.len() ==> hex_value(s[2 * i]) == Some((bytes[i] as int / 16) as nat)
                && hex_value(s[2 * i + 1]) == Some((bytes[i] as int % 16) as nat),
    decreases s.len(),
{
    if s.len() < 2 {
        if s.len() == 0 && bytes.len() == 0 {
            assert(bytes =~= Seq::<u8>::empty());
        }
    } else {
        let t = s.take(s.len() - 2);
        let (h, l) = (hex_value(s[s.len() - 2]), hex_value(s[s.len() - 1]));
        if bytes.len() > 0 {
            let p = bytes.drop_last();
            let n = bytes.len() - 1;
            law_digits_become_bytes(t, p);
            if unhexed(s) == Some(bytes) {
                assert(unhexed(t).unwrap() =~= p);
                assert(bytes[n] == (h.unwrap() * 16 + l.unwrap()) as u8);
                assert forall|i: int| #![trigger bytes[i]] 0 <= i < bytes.len() implies hex_value(
                    s[2 * i],
                ) == Some((bytes[i] as int / 16) as nat) && hex_value(s[2 * i + 1]) == Some(
                    (bytes[i] as int % 16) as nat,
                ) by {
                    if i < n {
                        assert(p[i] == bytes[i]);
                        assert(t[2 * i] == s[2 * i] && t[2 * i + 1] == s[2 * i + 1]);
                    }
                }
            }
            if s.len() == 2 * bytes.len() && forall|i: int|
                #![trigger bytes[i]]
                0 <= i < bytes.len() ==> hex_value(s[2 * i]) == Some(
                    (bytes[i] as int / 16) as nat,
                ) && hex_value(s[2 * i + 1]) == Some((bytes[i] as int % 16) as nat) {
                assert forall|i: int| #![trigger p[i]] 0 <= i < p.len() implies hex_value(
                    t[2 * i],
                ) == Some((p[i] as int / 16) as nat) && hex_value(t[2 * i + 1]) == Some(
                    (p[i] as int % 16) as nat,
                ) by {
                    assert(p[i] == bytes[i]);
                    assert(t[2 * i] == s[2 * i] && t[2 * i + 1] == s[2 * i + 1]);
                }
                assert(bytes[n] == bytes.last());
                assert(p.push(bytes.last()) =~= bytes);
            }
        }
    }
}

} // verus!
