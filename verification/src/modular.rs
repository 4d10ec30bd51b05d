//! Facts of modular arithmetic that the proofs share.

use vstd::arithmetic::div_mod::{lemma_add_mod_noop, lemma_mod_twice, lemma_small_mod};
use vstd::prelude::*;

verus! {

/// A summand may be reduced before the sum is.
pub proof fn lemma_add_mod_left(x: int, y: int, m: int)
    requires
        m > 0,
    ensures
        ((x % m) + y) % m == (x + y) % m,
{
    lemma_add_mod_noop(x, y, m);
    lemma_add_mod_noop(x % m, y, m);
    lemma_mod_twice(x, m);
}

/// One times a reduced number, reduced, is the number.
pub proof fn lemma_one_times(x: int, m: int)
    requires
        0 <= x < m,
    ensures
        (1 * x) % m == x,
{
    lemma_small_mod(x as nat, m as nat);
}

} // verus!
