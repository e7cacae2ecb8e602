//! Algebraic laws of the residue model that relate several operations
//! to one another, stated over the spec functions that the executable
//! operations are proved against.

use vstd::prelude::*;
use vstd::arithmetic::div_mod::{
    lemma_small_mod, lemma_mod_self_0, lemma_add_mod_noop_right,
};
use vstd::arithmetic::power::lemma_pow1;
use crate::arith::{add_mod, sub_mod, neg_mod, pow_mod};

verus! {

/// Adding the additive inverse of a nonzero residue yields zero:
/// `add(a, negate(a)) == 0` for `a` in `[1, q)`.  (For `a == 0` the
/// negation is `q` itself, which is not a residue.)
pub proof fn lemma_add_negate(a: int, q: int)
    requires
        1 <= a < q,
    ensures
        add_mod(a, neg_mod(a, q), q) == 0,
{
    lemma_small_mod((q - a) as nat, q as nat);
    assert(neg_mod(a, q) == q - a);
    lemma_mod_self_0(q);
}

/// Subtraction is the inverse of addition:
/// `add(b, subtract(a, b)) == a` for residues `a, b` in `[0, q)`.
pub proof fn lemma_sub_then_add(a: int, b: int, q: int)
    requires
        0 <= a < q,
        0 <= b < q,
    ensures
        add_mod(b, sub_mod(a, b, q), q) == a,
{
    lemma_add_mod_noop_right(b, a - b, q);
    assert((b + (a - b)) % q == a % q);
    lemma_small_mod(a as nat, q as nat);
}

/// The first power is the residue itself: `exponentiate(a, 1) == a`
/// for `a` in `[0, q)`.
pub proof fn lemma_exp_one(a: int, q: int)
    requires
        0 <= a < q,
    ensures
        pow_mod(a, 1, q) == a,
{
    lemma_pow1(a);
    lemma_small_mod(a as nat, q as nat);
}

} // verus!
