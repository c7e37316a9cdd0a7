//! Counters that wrap around.

use vstd::prelude::*;
use vstd::arithmetic::div_mod::{
    lemma_add_mod_noop, lemma_mod_multiples_vanish, lemma_small_mod,
};

verus! {

/// What a counter of machine words shows after counting to `n`.
pub open spec fn wrapped(n: nat) -> usize {
    (n % (usize::MAX as nat + 1)) as usize
}

/// Counting `x` further.
pub proof fn lemma_wrapped_step(n: nat, x: usize)
    ensures
        wrapped(n).wrapping_add(x) == wrapped(n + x as nat),
{
    let m = usize::MAX as int + 1;
    let a = n as int % m;
    let s = a + x;
    lemma_small_mod(x as nat, m as nat);
    lemma_add_mod_noop(n as int, x as int, m);
    if s < m {
        lemma_small_mod(s as nat, m as nat);
    } else {
        lemma_mod_multiples_vanish(1, s - m, m);
        assert(m * 1 + (s - m) == s);
        lemma_small_mod((s - m) as nat, m as nat);
    }
}

/// A number that fits shows as it is.
pub proof fn lemma_wrapped_small(n: nat)
    requires
        n <= usize::MAX,
    ensures
        wrapped(n) == n,
{
    lemma_small_mod(n, usize::MAX as nat + 1);
}

/// A counter shows what is left after as many full turns as there are.
pub proof fn law_counters_wrap_around(n: nat)
    ensures
        wrapped(n + usize::MAX as nat + 1) == wrapped(n),
        n <= usize::MAX ==> wrapped(n) == n,
        wrapped(usize::MAX as nat + 1) == 0,
{
    let d = usize::MAX as int + 1;
    vstd::arithmetic::div_mod::lemma_mod_add_multiples_vanish(n as int, d);
    if n <= usize::MAX {
        lemma_wrapped_small(n);
    }
    lemma_wrapped_small(0);
    vstd::arithmetic::div_mod::lemma_mod_self_0(d);
}

} // verus!
