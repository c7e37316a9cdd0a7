//! The names of log and table files.

use vstd::prelude::*;
use vstd::string::{StrSliceExecFns, StringExecFns};

verus! {

/// The character of a decimal digit.
pub open spec fn digit_char(d: nat) -> char {
    ('0' as nat + d) as char
}

pub open spec fn is_digit(c: char) -> bool {
    '0' <= c <= '9'
}

pub open spec fn digit_value(c: char) -> nat {
    (c as int - '0' as int) as nat
}

/// The decimal digits of `n`.
pub open spec fn digits(n: nat) -> Seq<char>
    decreases n,
{
    if n < 10 {
        seq![digit_char(n)]
    } else {
        digits(n / 10).push(digit_char(n % 10))
    }
}

/// `n` in decimal, with zeros in front up to `width` digits.
pub open spec fn padded(n: nat, width: nat) -> Seq<char> {
    let d = digits(n);
    if d.len() < width {
        Seq::new((width - d.len()) as nat, |i: int| '0') + d
    } else {
        d
    }
}

/// There is at least one character, and all are digits.
pub open spec fn is_number(s: Seq<char>) -> bool {
    s.len() > 0 && forall|i: int| 0 <= i < s.len() ==> is_digit(#[trigger] s[i])
}

/// The number that the digits stand for.
pub open spec fn number_value(s: Seq<char>) -> nat
    decreases s.len(),
{
    if s.len() == 0 {
        0
    } else {
        number_value(s.drop_last()) * 10 + digit_value(s.last())
    }
}

/// The number that a string stands for: digits, maybe after a plus sign.
pub open spec fn parsed(s: Seq<char>) -> Option<usize> {
    let body = if s.len() > 0 && s[0] == '+' {
        s.skip(1)
    } else {
        s
    };
    if is_number(body) && number_value(body) <= usize::MAX {
        Some(number_value(body) as usize)
    } else {
        None
    }
}

pub open spec fn starts_with(s: Seq<char>, p: Seq<char>) -> bool {
    s.len() >= p.len() && s.take(p.len() as int) == p
}

pub open spec fn ends_with(s: Seq<char>, p: Seq<char>) -> bool {
    s.len() >= p.len() && s.skip(s.len() - p.len()) == p
}

/// Without `p`, as often as it stands at the start.
pub open spec fn trimmed(s: Seq<char>, p: Seq<char>) -> Seq<char>
    decreases s.len(),
{
    if p.len() > 0 && starts_with(s, p) {
        trimmed(s.skip(p.len() as int), p)
    } else {
        s
    }
}

/// Where the last dot is, if there is one.
pub open spec fn last_dot(s: Seq<char>) -> int
    decreases s.len(),
{
    if s.len() == 0 {
        -1
    } else if s.last() == '.' {
        s.len() - 1
    } else {
        last_dot(s.drop_last())
    }
}

/// A file name without its extension. A dot at the start begins none.
pub open spec fn stem(s: Seq<char>) -> Seq<char> {
    if last_dot(s) > 0 {
        s.take(last_dot(s))
    } else {
        s
    }
}

/// The name of the log file with number `n`.
pub open spec fn wal_name(n: nat) -> Seq<char> {
    seq!['w', 'a', 'l', '_'] + padded(n, 3) + seq!['.', 'l', 'o', 'g']
}

/// The name of the table file with number `id`.
pub open spec fn sst_name(id: nat) -> Seq<char> {
    padded(id, 4) + seq!['.', 's', 's', 't']
}

/// The name is that of a log file.
pub open spec fn names_wal(s: Seq<char>) -> bool {
    starts_with(s, seq!['w', 'a', 'l', '_']) && ends_with(s, seq!['.', 'l', 'o', 'g'])
}

/// The name is that of a table file.
pub open spec fn names_sst(s: Seq<char>) -> bool {
    ends_with(s, seq!['.', 's', 's', 't'])
}

/// The number of a log file; 0 where the name holds none.
pub open spec fn wal_number_of(s: Seq<char>) -> usize {
    match parsed(trimmed(stem(s), seq!['w', 'a', 'l', '_'])) {
        Some(n) => n,
        None => 0,
    }
}

/// The number of a table file.
pub open spec fn sst_id_of(s: Seq<char>) -> Option<usize> {
    parsed(stem(s))
}

/// `a` comes before `b` in the order of names.
pub open spec fn chars_lt(a: Seq<char>, b: Seq<char>) -> bool
    decreases a.len(),
{
    if b.len() == 0 {
        false
    } else if a.len() == 0 {
        true
    } else if a[0] != b[0] {
        (a[0] as int) < (b[0] as int)
    } else {
        chars_lt(a.skip(1), b.skip(1))
    }
}

/// The order of names is one: no two names come before each other, and what
/// lies between two names in order comes after the one or before the other.
pub proof fn lemma_chars_order(a: Seq<char>, b: Seq<char>, c: Seq<char>)
    ensures
        !(chars_lt(a, b) && chars_lt(b, a)),
        chars_lt(a, c) ==> chars_lt(a, b) || chars_lt(b, c),
    decreases a.len() + b.len() + c.len(),
{
    if a.len() > 0 && b.len() > 0 {
        let rest = if c.len() > 0 {
            c.skip(1)
        } else {
            c
        };
        lemma_chars_order(a.skip(1), b.skip(1), rest);
    }
}

/// Whether `a` comes before `b` in the order of names.
pub fn name_less(a: &str, b: &str) -> (r: bool)
    ensures
        r == chars_lt(a@, b@),
{
    let x = chars_of(a);
    let y = chars_of(b);
    let mut i: usize = 0;
    assert(x@.skip(0) =~= x@);
    assert(y@.skip(0) =~= y@);
    while i < x.len() && i < y.len() && x[i] == y[i]
        invariant
            i <= x@.len(),
            i <= y@.len(),
            chars_lt(x@, y@) == chars_lt(x@.skip(i as int), y@.skip(i as int)),
        decreases x@.len() - i,
    {
        assert(x@.skip(i as int).skip(1) =~= x@.skip(i + 1));
        assert(y@.skip(i as int).skip(1) =~= y@.skip(i + 1));
        i += 1;
    }
    if i >= y.len() {
        false
    } else if i >= x.len() {
        true
    } else {
        char_less(x[i], y[i])
    }
}

fn char_less(a: char, b: char) -> (r: bool)
    ensures
        r == ((a as int) < (b as int)),
{
    (a as u32) < (b as u32)
}

/// Whether two names are the same.
pub fn name_same(a: &str, b: &str) -> (r: bool)
    ensures
        r == (a@ == b@),
{
    let x = chars_of(a);
    let y = chars_of(b);
    if x.len() != y.len() {
        return false;
    }
    assert(x@.skip(0) =~= x@);
    if has_prefix(&x, 0, &y) {
        assert(x@.take(y@.len() as int) =~= x@);
        true
    } else {
        assert(x@.take(y@.len() as int) =~= x@);
        false
    }
}

fn chars_of(s: &str) -> (r: Vec<char>)
    ensures
        r@ == s@,
{
    let n: usize = s.unicode_len();
    let mut r: Vec<char> = Vec::new();
    let mut i: usize = 0;
    while i < n
        invariant
            i <= n,
            n == s@.len(),
            r@ == s@.take(i as int),
        decreases n - i,
    {
        r.push(s.get_char(i));
        assert(s@.take(i + 1) =~= s@.take(i as int).push(s@[i as int]));
        i += 1;
    }
    assert(s@.take(n as int) =~= s@);
    r
}

fn append_digit(out: &mut String, d: usize)
    requires
        d < 10,
    ensures
        final(out)@ == old(out)@.push(digit_char(d as nat)),
{
    proof {
        reveal_strlit("0");
        reveal_strlit("1");
        reveal_strlit("2");
        reveal_strlit("3");
        reveal_strlit("4");
        reveal_strlit("5");
        reveal_strlit("6");
        reveal_strlit("7");
        reveal_strlit("8");
        reveal_strlit("9");
    }
    match d {
        0 => out.append("0"),
        1 => out.append("1"),
        2 => out.append("2"),
        3 => out.append("3"),
        4 => out.append("4"),
        5 => out.append("5"),
        6 => out.append("6"),
        7 => out.append("7"),
        8 => out.append("8"),
        _ => out.append("9"),
    }
    assert(out@ =~= old(out)@.push(digit_char(d as nat)));
}

fn append_digits(out: &mut String, n: usize)
    ensures
        final(out)@ == old(out)@ + digits(n as nat),
    decreases n,
{
    if n < 10 {
        append_digit(out, n);
    } else {
        append_digits(out, n / 10);
        append_digit(out, n % 10);
    }
    assert(out@ =~= old(out)@ + digits(n as nat));
}

fn count_digits(n: usize) -> (r: usize)
    ensures
        r == digits(n as nat).len(),
        r <= 20,
{
    let mut left: usize = n;
    let mut count: usize = 1;
    proof {
        lemma_digits_bound(n as nat, 20);
    }
    while left >= 10
        invariant
            1 <= count,
            count + digits(left as nat).len() == 1 + digits(n as nat).len(),
            digits(n as nat).len() <= 20,
        decreases left,
    {
        left = left / 10;
        count += 1;
    }
    count
}

spec fn ten_to(k: nat) -> nat
    decreases k,
{
    if k == 0 {
        1
    } else {
        10 * ten_to((k - 1) as nat)
    }
}

proof fn lemma_digits_len(n: nat, k: nat)
    requires
        n < ten_to(k),
        k > 0,
    ensures
        digits(n).len() <= k,
    decreases k,
{
    if n >= 10 {
        if k == 1 {
            assert(ten_to(1) == 10) by {
                reveal_with_fuel(ten_to, 2);
            }
        } else {
            lemma_digits_len(n / 10, (k - 1) as nat);
        }
    }
}

proof fn lemma_digits_bound(n: nat, k: nat)
    requires
        n <= usize::MAX,
        k == 20,
    ensures
        digits(n).len() <= 20,
{
    assert(ten_to(20) == 100_000_000_000_000_000_000) by {
        reveal_with_fuel(ten_to, 21);
    }
    lemma_digits_len(n, 20);
}

fn append_padded(out: &mut String, n: usize, width: usize)
    ensures
        final(out)@ == old(out)@ + padded(n as nat, width as nat),
{
    let have: usize = count_digits(n);
    let ghost start = out@;
    let mut zeros: usize = 0;
    proof {
        reveal_strlit("0");
    }
    assert(out@ =~= start + Seq::new(0, |i: int| '0'));
    while zeros < width && have < width - zeros
        invariant
            zeros <= width,
            have + zeros <= width || zeros == 0,
            have == digits(n as nat).len(),
            "0"@ == seq!['0'],
            out@ == start + Seq::new(zeros as nat, |i: int| '0'),
        decreases width - zeros,
    {
        out.append("0");
        zeros += 1;
        assert(out@ =~= start + Seq::new(zeros as nat, |i: int| '0'));
    }
    append_digits(out, n);
    assert(out@ =~= start + padded(n as nat, width as nat));
}

/// The name of the log file with number `n`.
pub fn wal_file_name(n: usize) -> (r: String)
    ensures
        r@ == wal_name(n as nat),
{
    proof {
        reveal_strlit("wal_");
        reveal_strlit(".log");
    }
    let mut out = "wal_".to_owned();
    append_padded(&mut out, n, 3);
    out.append(".log");
    assert(out@ =~= wal_name(n as nat));
    out
}

/// The name of the table file with number `id`.
pub fn sst_file_name(id: usize) -> (r: String)
    ensures
        r@ == sst_name(id as nat),
{
    proof {
        reveal_strlit(".sst");
    }
    let mut out = String::new();
    append_padded(&mut out, id, 4);
    out.append(".sst");
    assert(out@ =~= sst_name(id as nat));
    out
}

fn has_prefix(s: &Vec<char>, from: usize, p: &Vec<char>) -> (r: bool)
    requires
        from <= s@.len(),
    ensures
        r == starts_with(s@.skip(from as int), p@),
{
    if s.len() - from < p.len() {
        return false;
    }
    let len: usize = s.len();
    let mut i: usize = 0;
    while i < p.len()
        invariant
            i <= p@.len(),
            len == s@.len(),
            from + p@.len() <= len,
            forall|j: int| 0 <= j < i ==> s@[from + j] == #[trigger] p@[j],
        decreases p@.len() - i,
    {
        if s[from + i] != p[i] {
            assert(s@.skip(from as int).take(p@.len() as int)[i as int] != p@[i as int]);
            return false;
        }
        i += 1;
    }
    assert(s@.skip(from as int).take(p@.len() as int) =~= p@);
    true
}

fn has_suffix(s: &Vec<char>, p: &Vec<char>) -> (r: bool)
    ensures
        r == ends_with(s@, p@),
{
    if s.len() < p.len() {
        return false;
    }
    let from: usize = s.len() - p.len();
    let ghost tail = s@.skip(from as int);
    assert(tail.take(p@.len() as int) =~= tail);
    has_prefix(s, from, p)
}

fn wal_prefix() -> (r: Vec<char>)
    ensures
        r@ == seq!['w', 'a', 'l', '_'],
{
    let mut r: Vec<char> = Vec::new();
    r.push('w');
    r.push('a');
    r.push('l');
    r.push('_');
    assert(r@ =~= seq!['w', 'a', 'l', '_']);
    r
}

/// Whether the name is that of a log file.
pub fn is_wal_file(name: &str) -> (r: bool)
    ensures
        r == names_wal(name@),
{
    let s = chars_of(name);
    let mut tail: Vec<char> = Vec::new();
    tail.push('.');
    tail.push('l');
    tail.push('o');
    tail.push('g');
    assert(tail@ =~= seq!['.', 'l', 'o', 'g']);
    assert(s@.skip(0) =~= s@);
    has_prefix(&s, 0, &wal_prefix()) && has_suffix(&s, &tail)
}

/// Whether the name is that of a table file.
pub fn is_sst_file(name: &str) -> (r: bool)
    ensures
        r == names_sst(name@),
{
    let s = chars_of(name);
    let mut tail: Vec<char> = Vec::new();
    tail.push('.');
    tail.push('s');
    tail.push('s');
    tail.push('t');
    assert(tail@ =~= seq!['.', 's', 's', 't']);
    has_suffix(&s, &tail)
}

proof fn lemma_value_grows(s: Seq<char>, n: int)
    requires
        0 <= n <= s.len(),
    ensures
        number_value(s.take(n)) <= number_value(s),
    decreases s.len(),
{
    if n < s.len() {
        lemma_value_grows(s.drop_last(), n);
        assert(s.drop_last().take(n) =~= s.take(n));
    } else {
        assert(s.take(n) =~= s);
    }
}

fn digit_of(c: char) -> (r: Option<usize>)
    ensures
        match r {
            None => !is_digit(c),
            Some(d) => is_digit(c) && d == digit_value(c) && d < 10,
        },
{
    match c {
        '0' => Some(0),
        '1' => Some(1),
        '2' => Some(2),
        '3' => Some(3),
        '4' => Some(4),
        '5' => Some(5),
        '6' => Some(6),
        '7' => Some(7),
        '8' => Some(8),
        '9' => Some(9),
        _ => None,
    }
}

/// The number that the characters from `from` up to `to` stand for.
fn parse_usize(s: &Vec<char>, from: usize, to: usize) -> (r: Option<usize>)
    requires
        from <= to <= s@.len(),
    ensures
        r == parsed(s@.subrange(from as int, to as int)),
{
    let ghost whole = s@.subrange(from as int, to as int);
    let start: usize = if from < to && s[from] == '+' {
        assert(whole[0] == '+');
        from + 1
    } else {
        from
    };
    let ghost body = s@.subrange(start as int, to as int);
    assert(whole.len() > 0 ==> whole[0] == s@[from as int]);
    assert(start == from + 1 ==> whole.skip(1) =~= body);
    if start == to {
        return None;
    }
    let ghost want = parsed(whole);
    let mut value: usize = 0;
    let mut i: usize = start;
    assert(body.take(0) =~= Seq::empty());
    assert(start == from ==> whole =~= body);
    while i < to
        invariant
            start <= i <= to <= s@.len(),
            body == s@.subrange(start as int, to as int),
            want == parsed(s@.subrange(from as int, to as int)),
            want == if is_number(body) && number_value(body) <= usize::MAX {
                Some(number_value(body) as usize)
            } else {
                None
            },
            value == number_value(body.take(i - start)),
            forall|j: int| 0 <= j < i - start ==> is_digit(#[trigger] body[j]),
        ensures
            i == to,
        decreases to - i,
    {
        let ghost at = i - start;
        assert(body[at] == s@[i as int]);
        assert(body.take(at + 1).drop_last() =~= body.take(at));
        match digit_of(s[i]) {
            None => {
                assert(!is_number(body));
                return None;
            },
            Some(d) => {
                let next: Option<usize> = match value.checked_mul(10) {
                    None => None,
                    Some(x) => x.checked_add(d),
                };
                match next {
                    None => {
                        proof {
                            assert(number_value(body.take(at + 1)) > usize::MAX);
                            lemma_value_grows(body, at + 1);
                        }
                        return None;
                    },
                    Some(x) => {
                        value = x;
                    },
                }
            },
        }
        i += 1;
    }
    assert(body.take(i - start) =~= body);
    assert(is_number(body));
    Some(value)
}

fn dot_position(s: &Vec<char>) -> (r: usize)
    ensures
        r == if last_dot(s@) > 0 {
            last_dot(s@)
        } else {
            s@.len() as int
        },
        r <= s@.len(),
{
    let mut i: usize = s.len();
    assert(s@.take(i as int) =~= s@);
    while i > 0
        invariant
            i <= s@.len(),
            last_dot(s@) == last_dot(s@.take(i as int)),
        decreases i,
    {
        assert(s@.take(i as int).last() == s@[i - 1]);
        assert(s@.take(i as int).drop_last() =~= s@.take(i - 1));
        if s[i - 1] == '.' {
            return if i - 1 > 0 {
                i - 1
            } else {
                s.len()
            };
        }
        i -= 1;
    }
    s.len()
}

/// The number of a table file.
pub fn sst_id(name: &str) -> (r: Option<usize>)
    ensures
        r == sst_id_of(name@),
{
    let s = chars_of(name);
    let end: usize = dot_position(&s);
    assert(s@.subrange(0, end as int) =~= stem(s@));
    parse_usize(&s, 0, end)
}

/// The number of a log file; 0 where the name holds none.
pub fn wal_number(name: &str) -> (r: usize)
    ensures
        r == wal_number_of(name@),
{
    let s = chars_of(name);
    let end: usize = dot_position(&s);
    let ghost whole = stem(s@);
    assert(s@.subrange(0, end as int) =~= whole);
    let prefix = wal_prefix();
    let mut from: usize = 0;
    let mut t: Vec<char> = Vec::new();
    let mut i: usize = 0;
    while i < end
        invariant
            i <= end <= s@.len(),
            t@ == s@.subrange(0, i as int),
        decreases end - i,
    {
        t.push(s[i]);
        assert(s@.subrange(0, i + 1) =~= s@.subrange(0, i as int).push(s@[i as int]));
        i += 1;
    }
    assert(t@.skip(0) =~= t@);
    let len: usize = t.len();
    while has_prefix(&t, from, &prefix)
        invariant
            from <= t@.len(),
            len == t@.len(),
            t@ == whole,
            prefix@ == seq!['w', 'a', 'l', '_'],
            trimmed(whole, prefix@) == trimmed(t@.skip(from as int), prefix@),
        decreases t@.len() - from,
    {
        assert(t@.skip(from as int).skip(4) =~= t@.skip(from + 4));
        from += 4;
    }
    assert(t@.subrange(from as int, t@.len() as int) =~= t@.skip(from as int));
    match parse_usize(&t, from, t.len()) {
        Some(n) => n,
        None => 0,
    }
}

/// The number of the log that follows the one with the given name, if there
/// is such a number.
pub fn next_wal_number(name: &str) -> (r: Option<usize>)
    ensures
        match r {
            Some(n) => n == wal_number_of(name@) + 1,
            None => wal_number_of(name@) == usize::MAX,
        },
{
    wal_number(name).checked_add(1)
}

proof fn lemma_digits(n: nat)
    ensures
        is_number(digits(n)),
        number_value(digits(n)) == n,
    decreases n,
{
    if n < 10 {
        let s = digits(n);
        assert(s.drop_last() =~= Seq::empty());
        assert(number_value(s.drop_last()) == 0);
    } else {
        lemma_digits(n / 10);
        let s = digits(n);
        assert(s.drop_last() =~= digits(n / 10));
        assert forall|i: int| 0 <= i < s.len() implies is_digit(#[trigger] s[i]) by {
            if i < s.len() - 1 {
                assert(s[i] == digits(n / 10)[i]);
            }
        }
    }
}

proof fn lemma_zeros(zeros: nat, d: Seq<char>)
    requires
        is_number(d),
    ensures
        is_number(Seq::new(zeros, |i: int| '0') + d),
        number_value(Seq::new(zeros, |i: int| '0') + d) == number_value(d),
    decreases d.len(),
{
    let z = Seq::new(zeros, |i: int| '0');
    let s = z + d;
    assert forall|i: int| 0 <= i < s.len() implies is_digit(#[trigger] s[i]) by {
        if i >= zeros {
            assert(s[i] == d[i - zeros]);
        }
    }
    assert(s.drop_last() =~= z + d.drop_last());
    assert(s.last() == d.last());
    if d.len() > 1 {
        assert forall|i: int| 0 <= i < d.drop_last().len() implies is_digit(
            #[trigger] d.drop_last()[i],
        ) by {
            assert(d.drop_last()[i] == d[i]);
        }
        lemma_zeros(zeros, d.drop_last());
    } else {
        assert(z + d.drop_last() =~= z);
        assert(d.drop_last() =~= Seq::empty());
        assert(number_value(d.drop_last()) == 0);
        lemma_zero_value(zeros);
        assert(number_value(s.drop_last()) == 0);
    }
}

proof fn lemma_zero_value(zeros: nat)
    ensures
        number_value(Seq::new(zeros, |i: int| '0')) == 0,
    decreases zeros,
{
    let z = Seq::new(zeros, |i: int| '0');
    if zeros > 0 {
        lemma_zero_value((zeros - 1) as nat);
        assert(z.drop_last() =~= Seq::new((zeros - 1) as nat, |i: int| '0'));
    }
}

proof fn lemma_padded(n: nat, width: nat)
    requires
        n <= usize::MAX,
    ensures
        is_number(padded(n, width)),
        parsed(padded(n, width)) == Some(n as usize),
{
    lemma_digits(n);
    let d = digits(n);
    if d.len() < width {
        lemma_zeros((width - d.len()) as nat, d);
    }
    assert(is_digit(padded(n, width)[0]));
}

proof fn lemma_stem(body: Seq<char>, ext: Seq<char>)
    requires
        body.len() > 0,
        forall|i: int| 0 <= i < ext.len() ==> #[trigger] ext[i] != '.',
    ensures
        last_dot(body + seq!['.'] + ext) == body.len(),
        stem(body + seq!['.'] + ext) == body,
    decreases ext.len(),
{
    let s = body + seq!['.'] + ext;
    if ext.len() > 0 {
        assert(s.last() == ext[ext.len() - 1]);
        assert(s.drop_last() =~= body + seq!['.'] + ext.drop_last());
        assert forall|i: int| 0 <= i < ext.drop_last().len() implies #[trigger] ext.drop_last()[i]
            != '.' by {
            assert(ext.drop_last()[i] == ext[i]);
        }
        lemma_stem(body, ext.drop_last());
    }
    assert(s.take(body.len() as int) =~= body);
}

/// The number of a table can be read from the name of its file.
pub proof fn law_sst_name_roundtrip(id: nat)
    requires
        id <= usize::MAX,
    ensures
        names_sst(sst_name(id)),
        sst_id_of(sst_name(id)) == Some(id as usize),
{
    lemma_padded(id, 4);
    let body = padded(id, 4);
    let ext = seq!['s', 's', 't'];
    assert(sst_name(id) =~= body + seq!['.'] + ext);
    lemma_stem(body, ext);
    assert(sst_name(id).skip(sst_name(id).len() - 4) =~= seq!['.', 's', 's', 't']);
}

/// The number of a log can be read from the name of its file.
pub proof fn law_wal_name_roundtrip(n: nat)
    requires
        n <= usize::MAX,
    ensures
        names_wal(wal_name(n)),
        wal_number_of(wal_name(n)) == n,
{
    lemma_padded(n, 3);
    let p = seq!['w', 'a', 'l', '_'];
    let num = padded(n, 3);
    let ext = seq!['l', 'o', 'g'];
    assert(wal_name(n) =~= (p + num) + seq!['.'] + ext);
    lemma_stem(p + num, ext);
    assert(wal_name(n).skip(wal_name(n).len() - 4) =~= seq!['.', 'l', 'o', 'g']);
    assert(wal_name(n).take(4) =~= p);
    assert((p + num).take(4) =~= p);
    assert((p + num).skip(4) =~= num);
    if starts_with(num, p) {
        assert(num.take(4)[0] == num[0]);
        assert(is_digit(num[0]));
        assert(p[0] == 'w');
    }
    assert(trimmed(p + num, p) == trimmed(num, p));
}

/// Digits are read as a decimal number, the highest place first.
pub proof fn law_digits_are_decimal(s: Seq<char>, c: char)
    ensures
        is_digit(c) <==> 48 <= c as int <= 57,
        number_value(Seq::<char>::empty()) == 0,
        is_digit(c) ==> number_value(s.push(c)) == 10 * number_value(s) + (c as int - 48),
        is_number(s) <==> s.len() > 0 && forall|i: int|
            0 <= i < s.len() ==> 48 <= (#[trigger] s[i]) as int <= 57,
{
    assert(s.push(c).drop_last() =~= s);
    if forall|i: int| 0 <= i < s.len() ==> 48 <= (#[trigger] s[i]) as int <= 57 {
        assert forall|i: int| 0 <= i < s.len() implies is_digit(#[trigger] s[i]) by {}
    }
}

/// A string stands for a number exactly where it is made of digits, maybe after one
/// plus sign, and the number fits.
pub proof fn law_strings_stand_for_numbers(body: Seq<char>, n: usize)
    ensures
        is_number(body) && number_value(body) == n ==> parsed(body) == Some(n) && parsed(
            seq!['+'] + body,
        ) == Some(n),
        parsed(body) is Some ==> {
            let digits_only = if body[0] == '+' {
                body.skip(1)
            } else {
                body
            };
            is_number(digits_only) && parsed(body) == Some(number_value(digits_only) as usize)
                && number_value(digits_only) <= usize::MAX
        },
        is_number(body) && number_value(body) > usize::MAX ==> parsed(body) is None,
        !is_number(body) && !(body.len() > 0 && body[0] == '+') ==> parsed(body) is None,
{
    assert((seq!['+'] + body).skip(1) =~= body);
    if is_number(body) {
        assert(is_digit(body[0]));
    }
}

proof fn lemma_leading_digit(n: nat)
    ensures
        digits(n).len() > 0,
        n > 0 ==> digits(n)[0] != '0',
        n >= 10 ==> digits(n).len() > 1,
    decreases n,
{
    if n >= 10 {
        lemma_leading_digit(n / 10);
    }
}

/// The digits of a number in a name: they stand for it, there are at least as many
/// as the name wants, and where there are more the first is no zero.
proof fn lemma_padded_form(n: nat, width: nat)
    requires
        width > 1,
        n <= usize::MAX,
    ensures
        is_number(padded(n, width)),
        number_value(padded(n, width)) == n,
        padded(n, width).len() >= width,
        padded(n, width).len() > width ==> padded(n, width)[0] != '0',
{
    lemma_digits(n);
    lemma_leading_digit(n);
    let d = digits(n);
    if d.len() < width {
        lemma_zeros((width - d.len()) as nat, d);
    }
}

/// The name of a log: `wal_`, the number with at least three digits, `.log`.
pub proof fn law_log_names(n: nat)
    requires
        n <= usize::MAX,
    ensures
        ({
            let s = wal_name(n);
            let number = s.subrange(4, s.len() - 4);
            &&& s.len() >= 11
            &&& s.take(4) == seq!['w', 'a', 'l', '_']
            &&& s.skip(s.len() - 4) == seq!['.', 'l', 'o', 'g']
            &&& is_number(number)
            &&& number_value(number) == n
            &&& number.len() > 3 ==> number[0] != '0'
        }),
{
    lemma_padded_form(n, 3);
    let s = wal_name(n);
    let p = padded(n, 3);
    assert(s.subrange(4, s.len() - 4) =~= p);
    assert(s.take(4) =~= seq!['w', 'a', 'l', '_']);
    assert(s.skip(s.len() - 4) =~= seq!['.', 'l', 'o', 'g']);
}

/// The name of a table file: the number with at least four digits, `.sst`.
pub proof fn law_table_names(id: nat)
    requires
        id <= usize::MAX,
    ensures
        ({
            let s = sst_name(id);
            let number = s.take(s.len() - 4);
            &&& s.len() >= 8
            &&& s.skip(s.len() - 4) == seq!['.', 's', 's', 't']
            &&& is_number(number)
            &&& number_value(number) == id
            &&& number.len() > 4 ==> number[0] != '0'
        }),
{
    lemma_padded_form(id, 4);
    let s = sst_name(id);
    let p = padded(id, 4);
    assert(s.take(s.len() - 4) =~= p);
    assert(s.skip(s.len() - 4) =~= seq!['.', 's', 's', 't']);
}

/// Which names are those of logs and of tables: `wal_`, anything and `.log`;
/// anything and `.sst`.
pub proof fn law_file_names_are_told_apart(s: Seq<char>)
    ensures
        names_wal(s) <==> {
            let n = s.len() as int;
            &&& n >= 8
            &&& s[0] == 'w' && s[1] == 'a' && s[2] == 'l' && s[3] == '_'
            &&& s[n - 4] == '.' && s[n - 3] == 'l' && s[n - 2] == 'o' && s[n - 1] == 'g'
        },
        names_sst(s) <==> {
            let n = s.len() as int;
            &&& n >= 4
            &&& s[n - 4] == '.' && s[n - 3] == 's' && s[n - 2] == 's' && s[n - 1] == 't'
        },
{
    let (a, b, c) = (
        seq!['w', 'a', 'l', '_'],
        seq!['.', 'l', 'o', 'g'],
        seq!['.', 's', 's', 't'],
    );
    let n = s.len() as int;
    assert(a[0] == 'w' && a[1] == 'a' && a[2] == 'l' && a[3] == '_');
    assert(b[0] == '.' && b[1] == 'l' && b[2] == 'o' && b[3] == 'g');
    assert(c[0] == '.' && c[1] == 's' && c[2] == 's' && c[3] == 't');
    if n >= 4 {
        let (x, y) = (s.take(4), s.skip(n - 4));
        assert(x[0] == s[0] && x[1] == s[1] && x[2] == s[2] && x[3] == s[3]);
        assert(y[0] == s[n - 4] && y[1] == s[n - 3] && y[2] == s[n - 2] && y[3] == s[n - 1]);
        if x[0] == 'w' && x[1] == 'a' && x[2] == 'l' && x[3] == '_' {
            assert(x =~= a);
        }
        if y[0] == '.' && y[1] == 'l' && y[2] == 'o' && y[3] == 'g' {
            assert(y =~= b);
        }
        if y[0] == '.' && y[1] == 's' && y[2] == 's' && y[3] == 't' {
            assert(y =~= c);
        }
    }
}

/// A name loses what follows its last dot, and the dot, unless nothing stands
/// before it. A name without such a dot stays as it is.
pub proof fn law_extensions_are_cut_off(body: Seq<char>, ext: Seq<char>)
    ensures
        body.len() > 0 && (forall|i: int| 0 <= i < ext.len() ==> #[trigger] ext[i] != '.') ==> stem(
            body + seq!['.'] + ext,
        ) == body,
        (forall|i: int| 0 < i < body.len() ==> #[trigger] body[i] != '.') ==> stem(body) == body,
{
    if body.len() > 0 && forall|i: int| 0 <= i < ext.len() ==> #[trigger] ext[i] != '.' {
        lemma_stem(body, ext);
    }
    if forall|i: int| 0 < i < body.len() ==> #[trigger] body[i] != '.' {
        lemma_no_dot(body);
    }
}

proof fn lemma_no_dot(s: Seq<char>)
    requires
        forall|i: int| 0 < i < s.len() ==> #[trigger] s[i] != '.',
    ensures
        last_dot(s) <= 0,
    decreases s.len(),
{
    if s.len() > 0 {
        if s.len() > 1 {
            assert(s[s.len() - 1] != '.');
        }
        lemma_no_dot(s.drop_last());
    }
}

/// A prefix is dropped as often as it stands at the start.
pub proof fn law_prefixes_are_trimmed(s: Seq<char>, p: Seq<char>)
    requires
        p.len() > 0,
    ensures
        trimmed(p + s, p) == trimmed(s, p),
        (forall|rest: Seq<char>| s != #[trigger] (p + rest)) ==> trimmed(s, p) == s,
{
    assert((p + s).take(p.len() as int) =~= p);
    assert((p + s).skip(p.len() as int) =~= s);
    if starts_with(s, p) {
        assert(s =~= p + s.skip(p.len() as int));
    }
}

/// The number in the name of a log or of a table file is read from its digits,
/// however many there are; the name of a log without a number counts as 0.
pub proof fn law_numbers_are_read_from_names(d: Seq<char>, n: usize)
    ensures
        is_number(d) && number_value(d) == n ==> wal_number_of(
            seq!['w', 'a', 'l', '_'] + d + seq!['.', 'l', 'o', 'g'],
        ) == n && sst_id_of(d + seq!['.', 's', 's', 't']) == Some(n),
        parsed(trimmed(stem(d), seq!['w', 'a', 'l', '_'])) is None ==> wal_number_of(d) == 0,
        parsed(stem(d)) is None ==> sst_id_of(d) is None,
{
    let p = seq!['w', 'a', 'l', '_'];
    if is_number(d) && number_value(d) == n {
        let log = seq!['l', 'o', 'g'];
        let sst = seq!['s', 's', 't'];
        assert(log[0] == 'l' && log[1] == 'o' && log[2] == 'g');
        assert(sst[0] == 's' && sst[1] == 's' && sst[2] == 't');
        lemma_stem(p + d, log);
        assert(p + d + seq!['.', 'l', 'o', 'g'] =~= p + d + seq!['.'] + log);
        lemma_stem(d, sst);
        assert(d + seq!['.', 's', 's', 't'] =~= d + seq!['.'] + sst);
        law_prefixes_are_trimmed(d, p);
        assert(is_digit(d[0]));
        assert(p[0] == 'w');
        assert(!starts_with(d, p)) by {
            if starts_with(d, p) {
                assert(d.take(4)[0] == p[0]);
            }
        }
        law_strings_stand_for_numbers(d, n);
    }
}

proof fn lemma_chars_part(a: Seq<char>, b: Seq<char>, n: int)
    requires
        0 <= n <= a.len(),
        n <= b.len(),
        forall|i: int| 0 <= i < n ==> #[trigger] a[i] == b[i],
        n < a.len() && n < b.len() ==> a[n] != b[n],
    ensures
        chars_lt(a, b) == (n < b.len() && (n == a.len() || (a[n] as int) < (b[n] as int))),
    decreases n,
{
    if n > 0 {
        assert forall|i: int| 0 <= i < n - 1 implies #[trigger] a.skip(1)[i] == b.skip(1)[i] by {
            assert(a[i + 1] == b[i + 1]);
        }
        assert(a[0] == b[0]);
        lemma_chars_part(a.skip(1), b.skip(1), n - 1);
    }
}

proof fn lemma_common_chars(a: Seq<char>, b: Seq<char>, from: int) -> (n: int)
    requires
        0 <= from <= a.len(),
        from <= b.len(),
        forall|i: int| 0 <= i < from ==> #[trigger] a[i] == b[i],
    ensures
        from <= n <= a.len(),
        n <= b.len(),
        forall|i: int| 0 <= i < n ==> #[trigger] a[i] == b[i],
        n < a.len() && n < b.len() ==> a[n] != b[n],
    decreases a.len() - from,
{
    if from < a.len() && from < b.len() && a[from] == b[from] {
        lemma_common_chars(a, b, from + 1)
    } else {
        from
    }
}

/// Names are in the order of a dictionary: `a` comes before `b` exactly where they
/// agree up to some character at which `a` has ended and `b` has not, or at which
/// `a` has the lower one.
pub proof fn law_names_are_in_order(a: Seq<char>, b: Seq<char>)
    ensures
        chars_lt(a, b) <==> exists|n: int|
            0 <= n <= a.len() && n < b.len() && #[trigger] a.take(n) == b.take(n) && (n == a.len()
                || (a[n] as int) < (b[n] as int)),
{
    let m = lemma_common_chars(a, b, 0);
    lemma_chars_part(a, b, m);
    if chars_lt(a, b) {
        assert(a.take(m) =~= b.take(m));
    }
    if exists|n: int|
        0 <= n <= a.len() && n < b.len() && #[trigger] a.take(n) == b.take(n) && (n == a.len() || (
        a[n] as int) < (b[n] as int)) {
        let n = choose|n: int|
            0 <= n <= a.len() && n < b.len() && #[trigger] a.take(n) == b.take(n) && (n == a.len()
                || (a[n] as int) < (b[n] as int));
        assert forall|i: int| 0 <= i < n implies #[trigger] a[i] == b[i] by {
            assert(a.take(n)[i] == b.take(n)[i]);
        }
        lemma_chars_part(a, b, n);
    }
}

} // verus!
