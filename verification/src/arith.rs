//! The mathematical model of residue arithmetic, the naive reference
//! operations, and the branch-light free-standing operations.

use vstd::prelude::*;
use vstd::arithmetic::div_mod::{
    lemma_small_mod, lemma_mod_sub_multiples_vanish, lemma_mod_add_multiples_vanish,
};
use vstd::arithmetic::power::pow;

verus! {

/// The sum of two residues, reduced: `(a + b) mod q`.
pub open spec fn add_mod(a: int, b: int, q: int) -> int {
    (a + b) % q
}

/// The difference of two residues, reduced: `(a - b) mod q`.
pub open spec fn sub_mod(a: int, b: int, q: int) -> int {
    (a - b) % q
}

/// The additive inverse of a residue: `(q - a) mod q`.
pub open spec fn neg_mod(a: int, q: int) -> int {
    (q - a) % q
}

/// The product of two residues, reduced: `(a * b) mod q`.
pub open spec fn mul_mod(a: int, b: int, q: int) -> int {
    (a * b) % q
}

/// The e-th power of a residue, reduced: `a^e mod q`.
pub open spec fn pow_mod(a: int, e: nat, q: int) -> int {
    pow(a, e) % q
}

/// Naive modular addition, kept as a reference baseline.
pub fn modadd_naive(a: u64, b: u64, q: u64) -> (r: u64)
    requires
        1 <= q < 0x8000000000000000u64,
        a < q,
        b < q,
    ensures
        r == add_mod(a as int, b as int, q as int),
        r < q,
{
    (a + b) % q
}

/// Naive modular multiplication through a 128-bit product, kept as a
/// reference baseline.
pub fn modmul_naive(a: u64, b: u64, q: u64) -> (r: u64)
    requires
        1 <= q,
    ensures
        r == mul_mod(a as int, b as int, q as int),
        r < q,
{
    proof {
        assert((a as u128) * (b as u128) <= u128::MAX) by (nonlinear_arith)
            requires a <= u64::MAX && b <= u64::MAX;
    }
    let prod: u128 = ((a as u128) * (b as u128)) % (q as u128);
    prod as u64
}

/// The additive inverse `q - a`.  For `a == 0` this yields `q` itself,
/// which lies outside `[0, q)`; every caller that needs a residue must
/// keep `a` nonzero.
pub fn modnegate(a: u64, q: u64) -> (r: u64)
    requires
        a <= q,
    ensures
        r == q - a,
        1 <= a < q ==> r == neg_mod(a as int, q as int),
{
    proof {
        if 1 <= a && a < q {
            lemma_small_mod((q - a) as nat, q as nat);
        }
    }
    q - a
}

/// Modular addition of residues by one conditional subtraction.
pub fn modadd(a: u64, b: u64, q: u64) -> (r: u64)
    requires
        1 <= q < 0x8000000000000000u64,
        a < q,
        b < q,
    ensures
        r == add_mod(a as int, b as int, q as int),
        r < q,
{
    let t = a + b;
    if t < q {
        proof { lemma_small_mod(t as nat, q as nat); }
        t
    } else {
        proof {
            lemma_mod_sub_multiples_vanish((a + b) as int, q as int);
            lemma_small_mod((t - q) as nat, q as nat);
        }
        t - q
    }
}

/// Modular subtraction of residues by one conditional addition of `q`.
pub fn modsub(a: u64, b: u64, q: u64) -> (r: u64)
    requires
        1 <= q < 0x8000000000000000u64,
        a < q,
        b < q,
    ensures
        r == sub_mod(a as int, b as int, q as int),
        r < q,
{
    if a >= b {
        proof { lemma_small_mod((a - b) as nat, q as nat); }
        a - b
    } else {
        proof {
            lemma_mod_add_multiples_vanish((a - b) as int, q as int);
            lemma_small_mod((q + a - b) as nat, q as nat);
        }
        (q + a) - b
    }
}

} // verus!
