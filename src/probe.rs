//! Positions in a table of `n` slots probed linearly with wrap-around.
use vstd::prelude::*;

verus! {

/// The slot `d` steps after `h` in a table of `n` slots.
#[verifier::opaque]
pub open spec fn slot(h: int, d: int, n: int) -> int {
    (h + d) % n
}

/// How many steps after `h` slot `i` lies.
#[verifier::opaque]
pub open spec fn steps_to(h: int, i: int, n: int) -> int {
    (i - h + n) % n
}

/// Walking `(i - h) mod n` steps from `h` reaches `i`.
pub proof fn lemma_wrap(h: int, i: int, n: int)
    requires
        0 <= h < n,
        0 <= i < n,
    ensures
        0 <= steps_to(h, i, n) < n,
        slot(h, steps_to(h, i, n), n) == i,
{
    reveal(slot);
    reveal(steps_to);
    if i >= h {
        vstd::arithmetic::div_mod::lemma_mod_add_multiples_vanish(i - h, n);
        vstd::arithmetic::div_mod::lemma_small_mod((i - h) as nat, n as nat);
        vstd::arithmetic::div_mod::lemma_small_mod(i as nat, n as nat);
    } else {
        vstd::arithmetic::div_mod::lemma_small_mod((i - h + n) as nat, n as nat);
        vstd::arithmetic::div_mod::lemma_mod_add_multiples_vanish(i, n);
        vstd::arithmetic::div_mod::lemma_small_mod(i as nat, n as nat);
    }
}

/// `s` steps from `h` lie `s` steps from `h`, for `s < n`.
pub proof fn lemma_steps(h: int, s: int, n: int)
    requires
        2 <= n,
        0 <= h < n,
        0 <= s < n,
    ensures
        0 <= slot(h, s, n) < n,
        steps_to(h, slot(h, s, n), n) == s,
        slot(h, s + 1, n) == (slot(h, s, n) + 1) % n,
        s == 0 ==> slot(h, s, n) == h,
{
    reveal(slot);
    reveal(steps_to);
    if h + s < n {
        vstd::arithmetic::div_mod::lemma_small_mod((h + s) as nat, n as nat);
        vstd::arithmetic::div_mod::lemma_mod_add_multiples_vanish(s, n);
        vstd::arithmetic::div_mod::lemma_small_mod(s as nat, n as nat);
    } else {
        vstd::arithmetic::div_mod::lemma_mod_sub_multiples_vanish(h + s, n);
        vstd::arithmetic::div_mod::lemma_small_mod((h + s - n) as nat, n as nat);
        vstd::arithmetic::div_mod::lemma_small_mod(s as nat, n as nat);
    }
    vstd::arithmetic::div_mod::lemma_add_mod_noop(h + s, 1, n);
    vstd::arithmetic::div_mod::lemma_small_mod(1, n as nat);
}

} // verus!
