//! Search for transform-friendly prime moduli and for generators of the
//! multiplicative group, driven by an outside primality test and sieve.
//!
//! The searches step through an arithmetic progression; a step of `2n`
//! from a start congruent to `1 mod 2n` keeps every candidate congruent
//! to `1 mod 2n`, the condition for an order-`2n` subgroup to exist.
//! Each search carries an explicit bound instead of looping without one:
//! `None` says the progression was exhausted (or, for the generator
//! searches, that the sieve the factorization needs would not fit the
//! address space, or that no candidate below `q` passed).

use vstd::prelude::*;
use vstd::arithmetic::div_mod::{lemma_small_mod, lemma_sub_mod_noop};
use vstd::arithmetic::power2::{
    pow2, lemma2_to64, lemma2_to64_rest, lemma_pow2_adds, lemma_pow2_strictly_increases,
};
use crate::bitlen::bit_len;
use vstd::bits::lemma_u64_shl_is_mul;
use crate::arith::pow_mod;
use crate::barrett::barrett_ok;
use crate::congruence::CongruenceClass;

verus! {

/// Primality, stated arithmetically: no divisor strictly between 1 and `n`.
pub open spec fn is_prime_spec(n: int) -> bool {
    n >= 2 && forall|d: int| 2 <= d < n ==> #[trigger] (n % d) != 0
}

/// The subgroup-exclusion test: `g` escapes every maximal proper
/// subgroup of the multiplicative group mod `q`, i.e. for every prime
/// `p` dividing `q - 1`, `g^((q-1)/p) != 1 mod q`.
pub open spec fn passes_root_test(g: int, q: int) -> bool {
    forall|p: int|
        #[trigger] is_prime_spec(p) && (q - 1) % p == 0 ==> pow_mod(g, ((q - 1) / p) as nat, q)
            != 1
}

/// Relies on `primal::is_prime`: a deterministic Miller-Rabin primality
/// test, exact over the whole 64-bit range.
#[verifier::external_body]
fn is_prime_u64(n: u64) -> (r: bool)
    ensures
        r == is_prime_spec(n as int),
{
    primal::is_prime(n)
}

#[verifier::external_type_specification]
#[verifier::external_body]
pub struct ExSieve(primal::Sieve);

/// The largest number a sieve knows about: what `primal` calls the
/// sieve's upper bound.
pub uninterp spec fn sieve_bound(s: primal::Sieve) -> nat;

/// Relies on `primal::Sieve::new`: a sieve of Eratosthenes whose bound
/// is at least `limit` (`upper_bound` documents it may round up).
#[verifier::external_body]
fn sieve_new(limit: usize) -> (s: primal::Sieve)
    ensures
        sieve_bound(s) >= limit,
{
    primal::Sieve::new(limit)
}

/// Relies on `primal::Sieve::factor`: on success the complete prime
/// factorization of `n` as (prime, multiplicity) pairs, so every listed
/// base is a prime divisor of `n` and every prime divisor of `n` is
/// listed.  Its documentation states it fails only for `n` zero, a
/// prime factor above the bound squared, or two prime factors above the
/// bound; so it succeeds on every positive `n` up to the bound squared.
#[verifier::external_body]
fn sieve_factor(s: &primal::Sieve, n: usize) -> (r: Result<
    Vec<(usize, usize)>,
    (usize, Vec<(usize, usize)>),
>)
    ensures
        r is Ok ==> forall|i: int|
            0 <= i < r->Ok_0@.len() ==> is_prime_spec(#[trigger] r->Ok_0@[i].0 as int) && (
            n as int) % (r->Ok_0@[i].0 as int) == 0,
        r is Ok && n >= 1 ==> forall|p: int|
            #[trigger] is_prime_spec(p) && (n as int) % p == 0 ==> exists|i: int|
                0 <= i < r->Ok_0@.len() && #[trigger] r->Ok_0@[i].0 == p,
        1 <= n && n as int <= sieve_bound(*s) * sieve_bound(*s) ==> r is Ok,
{
    s.factor(n)
}

/// The first prime in the upward progression `start, start + m, ...`,
/// or `None` once the progression leaves the 64-bit range.
fn search_prime_up(start: u64, m: u64) -> (r: Option<u64>)
    requires
        m >= 1,
    ensures
        r is Some ==> {
            &&& is_prime_spec(r->Some_0 as int)
            &&& r->Some_0 >= start
            &&& (r->Some_0 - start) % (m as int) == 0
            &&& forall|x: int|
                start <= x < r->Some_0 && (x - start) % (m as int) == 0 ==> !is_prime_spec(x)
        },
        r is None ==> forall|x: int|
            start <= x <= u64::MAX && (x - start) % (m as int) == 0 ==> !is_prime_spec(x),
{
    let mut q = start;
    proof { lemma_small_mod(0, m as nat); }
    loop
        invariant
            m >= 1,
            start <= q,
            (q - start) % (m as int) == 0,
            forall|x: int| start <= x < q && (x - start) % (m as int) == 0 ==> !is_prime_spec(x),
        decreases u64::MAX - q,
    {
        if is_prime_u64(q) {
            return Some(q);
        }
        if q > u64::MAX - m {
            proof {
                assert forall|x: int|
                    start <= x <= u64::MAX && (x - start) % (m as int) == 0 implies !is_prime_spec(
                    x,
                ) by {
                    if x >= q {
                        lemma_sub_mod_noop(x - start, q - start, m as int);
                        lemma_small_mod((x - q) as nat, m as nat);
                    }
                }
            }
            return None;
        }
        proof {
            assert forall|x: int|
                start <= x < q + m && (x - start) % (m as int) == 0 implies !is_prime_spec(x) by {
                if x >= q {
                    lemma_sub_mod_noop(x - start, q - start, m as int);
                    lemma_small_mod((x - q) as nat, m as nat);
                }
            }
        }
        proof {
            vstd::arithmetic::div_mod::lemma_mod_add_multiples_vanish((q - start) as int, m as int);
        }
        q = q + m;
    }
}

/// The first prime in the downward progression `start, start - m, ...`,
/// or `None` once the progression leaves the non-negative range.
fn search_prime_down(start: u64, m: u64) -> (r: Option<u64>)
    requires
        m >= 1,
    ensures
        r is Some ==> {
            &&& is_prime_spec(r->Some_0 as int)
            &&& r->Some_0 <= start
            &&& (start - r->Some_0) % (m as int) == 0
            &&& forall|x: int|
                r->Some_0 < x <= start && (start - x) % (m as int) == 0 ==> !is_prime_spec(x)
        },
        r is None ==> forall|x: int|
            0 <= x <= start && (start - x) % (m as int) == 0 ==> !is_prime_spec(x),
{
    let mut q = start;
    proof { lemma_small_mod(0, m as nat); }
    loop
        invariant
            m >= 1,
            q <= start,
            (start - q) % (m as int) == 0,
            forall|x: int| q < x <= start && (start - x) % (m as int) == 0 ==> !is_prime_spec(x),
        decreases q,
    {
        if is_prime_u64(q) {
            return Some(q);
        }
        if q < m {
            proof {
                assert forall|x: int|
                    0 <= x <= start && (start - x) % (m as int) == 0 implies !is_prime_spec(x) by {
                    if x <= q {
                        lemma_sub_mod_noop(start - x, start - q, m as int);
                        lemma_small_mod((q - x) as nat, m as nat);
                    }
                }
            }
            return None;
        }
        proof {
            assert forall|x: int|
                q - m < x <= start && (start - x) % (m as int) == 0 implies !is_prime_spec(x) by {
                if x <= q {
                    lemma_sub_mod_noop(start - x, start - q, m as int);
                    lemma_small_mod((q - x) as nat, m as nat);
                }
            }
        }
        proof {
            vstd::arithmetic::div_mod::lemma_mod_add_multiples_vanish((start - q) as int, m as int);
        }
        q = q - m;
    }
}

/// The first prime at or above `2^logq + 1` in steps of `2n`.  Any
/// prime found is congruent to `1 mod 2n` whenever `2n` divides
/// `2^logq`, the intended use for power-of-two transform degrees.
pub fn find_first_prime_up(logq: usize, n: usize) -> (r: Option<u64>)
    requires
        logq < 64,
        1 <= n,
        2 * n <= u64::MAX,
    ensures
        r is Some ==> {
            let start = pow2(logq as nat) + 1;
            &&& is_prime_spec(r->Some_0 as int)
            &&& r->Some_0 >= start
            &&& (r->Some_0 - start) % (2 * n as int) == 0
            &&& forall|x: int|
                start <= x < r->Some_0 && (x - start) % (2 * n as int) == 0 ==> !is_prime_spec(x)
        },
        r is None ==> forall|x: int|
            pow2(logq as nat) + 1 <= x <= u64::MAX && (x - (pow2(logq as nat) + 1)) % (2 * n as int)
                == 0 ==> !is_prime_spec(x),
{
    proof {
        lemma2_to64();
        lemma2_to64_rest();
        lemma_u64_shl_is_mul(1u64, logq as u64);
        if logq < 63 {
            vstd::arithmetic::power2::lemma_pow2_strictly_increases(logq as nat, 63);
        }
    }
    let start = (1u64 << (logq as u64)) + 1;
    let m = 2 * (n as u64);
    search_prime_up(start, m)
}

/// The first prime strictly above `prev_q` in steps of `2n`, starting
/// the probe at `prev_q + 2n`.
pub fn find_next_prime_up(prev_q: u64, n: usize) -> (r: Option<u64>)
    requires
        1 <= n,
        2 * n <= u64::MAX,
        prev_q + 2 * n <= u64::MAX,
    ensures
        r is Some ==> {
            let start = prev_q + 2 * (n as int);
            &&& is_prime_spec(r->Some_0 as int)
            &&& r->Some_0 >= start
            &&& (r->Some_0 - start) % (2 * n as int) == 0
            &&& forall|x: int|
                start <= x < r->Some_0 && (x - start) % (2 * n as int) == 0 ==> !is_prime_spec(x)
        },
        r is None ==> forall|x: int|
            prev_q + 2 * (n as int) <= x <= u64::MAX && (x - (prev_q + 2 * (n as int))) % (2
                * n as int) == 0 ==> !is_prime_spec(x),
{
    let m = 2 * (n as u64);
    search_prime_up(prev_q + m, m)
}

/// The first prime at or below `2^logq + 1 - 2n` in steps of `2n`.
pub fn find_first_prime_down(logq: usize, n: usize) -> (r: Option<u64>)
    requires
        logq < 64,
        1 <= n,
        2 * n <= u64::MAX,
        2 * n <= pow2(logq as nat) + 1,
    ensures
        r is Some ==> {
            let start = pow2(logq as nat) + 1 - 2 * (n as int);
            &&& is_prime_spec(r->Some_0 as int)
            &&& r->Some_0 <= start
            &&& (start - r->Some_0) % (2 * n as int) == 0
            &&& forall|x: int|
                r->Some_0 < x <= start && (start - x) % (2 * n as int) == 0 ==> !is_prime_spec(x)
        },
        r is None ==> forall|x: int|
            0 <= x <= pow2(logq as nat) + 1 - 2 * (n as int) && ((pow2(logq as nat) + 1 - 2 * (
            n as int)) - x) % (2 * n as int) == 0 ==> !is_prime_spec(x),
{
    proof {
        lemma2_to64();
        lemma2_to64_rest();
        lemma_u64_shl_is_mul(1u64, logq as u64);
        if logq < 63 {
            vstd::arithmetic::power2::lemma_pow2_strictly_increases(logq as nat, 63);
        }
    }
    let m = 2 * (n as u64);
    let start = (1u64 << (logq as u64)) + 1 - m;
    search_prime_down(start, m)
}

/// The first prime strictly below `prev_q` in steps of `2n`, starting
/// the probe at `prev_q - 2n`.
pub fn find_next_prime_down(prev_q: u64, n: usize) -> (r: Option<u64>)
    requires
        1 <= n,
        2 * n <= u64::MAX,
        2 * n <= prev_q,
    ensures
        r is Some ==> {
            let start = prev_q - 2 * (n as int);
            &&& is_prime_spec(r->Some_0 as int)
            &&& r->Some_0 <= start
            &&& (start - r->Some_0) % (2 * n as int) == 0
            &&& forall|x: int|
                r->Some_0 < x <= start && (start - x) % (2 * n as int) == 0 ==> !is_prime_spec(x)
        },
        r is None ==> forall|x: int|
            0 <= x <= prev_q - 2 * (n as int) && ((prev_q - 2 * (n as int)) - x) % (2 * n as int)
                == 0 ==> !is_prime_spec(x),
{
    let m = 2 * (n as u64);
    search_prime_down(prev_q - m, m)
}

/// Whether `cand` escapes the subgroup of index `p` for every listed
/// prime factor `p` of `phi`.
fn passes_factor_tests(
    class: &CongruenceClass,
    factors: &Vec<(usize, usize)>,
    cand: u64,
    phi: u64,
) -> (ok: bool)
    requires
        class.wf(),
        class.reduction_safe(),
        cand < class.q,
        phi == class.q - 1,
        forall|i: int|
            0 <= i < factors@.len() ==> is_prime_spec(#[trigger] factors@[i].0 as int),
    ensures
        ok ==> forall|i: int|
            0 <= i < factors@.len() ==> pow_mod(
                cand as int,
                ((phi as int) / (#[trigger] factors@[i].0 as int)) as nat,
                class.q as int,
            ) != 1,
        !ok ==> exists|i: int|
            0 <= i < factors@.len() && pow_mod(
                cand as int,
                ((phi as int) / (#[trigger] factors@[i].0 as int)) as nat,
                class.q as int,
            ) == 1,
{
    let mut j: usize = 0;
    while j < factors.len()
        invariant
            class.wf(),
            class.reduction_safe(),
            cand < class.q,
            phi == class.q - 1,
            j <= factors@.len(),
            forall|i: int|
                0 <= i < factors@.len() ==> is_prime_spec(#[trigger] factors@[i].0 as int),
            forall|i: int|
                0 <= i < j ==> pow_mod(
                    cand as int,
                    ((phi as int) / (#[trigger] factors@[i].0 as int)) as nat,
                    class.q as int,
                ) != 1,
        decreases factors@.len() - j,
    {
        let p = factors[j].0 as u64;
        let e = phi / p;
        if class.modexp(cand, e) == 1 {
            return false;
        }
        j = j + 1;
    }
    true
}

/// A primitive-root search: the smallest candidate from 2 upward that
/// passes the subgroup-exclusion test for every prime factor of
/// `q - 1`.  `None` only when the sieve the factorization needs would
/// not fit the address space, or no candidate below `q` passed; the
/// sieve's bound always covers `q - 1`, so factoring itself cannot fail.
pub fn find_primitive_root(q: u64) -> (r: Option<u64>)
    requires
        is_prime_spec(q as int),
        3 <= q < 0x8000000000000000u64,
        barrett_ok(q as nat),
        q as int - 1 <= usize::MAX as int,
    ensures
        r is Some ==> {
            &&& 2 <= r->Some_0 < q
            &&& passes_root_test(r->Some_0 as int, q as int)
            &&& forall|c: int| 2 <= c < r->Some_0 ==> !passes_root_test(c, q as int)
        },
        r is None ==> pow2((1 + bit_len(q as nat) / 2) as nat) > usize::MAX as nat || (forall|
            c: int,
        | 2 <= c < q ==> !passes_root_test(c, q as int)),
{
    proof {
        assert(q % 2 != 0);
        assert(pow2(62) % 2 == 0) by {
            lemma2_to64();
            lemma2_to64_rest();
        }
        lemma2_to64();
        lemma2_to64_rest();
        crate::bitlen::lemma_bit_len_bounds(q as nat);
        crate::bitlen::lemma_bit_len_le(q as nat, 63);
        lemma_u64_shl_is_mul(1u64, (1 + bit_len(q as nat) / 2) as u64);
    }
    let phi = q - 1;
    let logq = crate::bitlen::bit_length(q);
    let limit64: u64 = 1u64 << (1 + logq / 2);
    proof {
        assert(limit64 == pow2((1 + bit_len(q as nat) / 2) as nat));
    }
    if limit64 > (usize::MAX as u64) {
        return None;
    }
    let sieve = sieve_new(limit64 as usize);
    let class = CongruenceClass::new(q);
    proof {
        // phi lies within the sieve bound squared, so factoring succeeds
        let l = bit_len(q as nat);
        let h = (1 + l / 2) as nat;
        lemma_pow2_adds(h, h);
        assert(2 * h >= l + 1);
        if 2 * h > l + 1 {
            lemma_pow2_strictly_increases((l + 1) as nat, 2 * h);
        }
        lemma_pow2_strictly_increases(l, (l + 1) as nat);
        assert((phi as int) < pow2(2 * h));
        assert(pow2(h) * pow2(h) == pow2(2 * h));
        let b = sieve_bound(sieve) as int;
        assert(b >= limit64);
        assert(pow2(h) * pow2(h) <= b * b) by (nonlinear_arith)
            requires 0 <= pow2(h) <= b;
        assert((phi as int) <= b * b);
    }
    let factors = match sieve_factor(&sieve, phi as usize) {
        Ok(v) => v,
        Err(_) => {
            proof {
                assert(false);
            }
            return None;
        },
    };
    let mut cand: u64 = 2;
    while cand < q
        invariant
            is_prime_spec(q as int),
            3 <= q,
            class.wf(),
            class.reduction_safe(),
            class.q == q,
            phi == q - 1,
            2 <= cand <= q,
            forall|i: int|
                0 <= i < factors@.len() ==> is_prime_spec(#[trigger] factors@[i].0 as int) && (
                phi as int) % (factors@[i].0 as int) == 0,
            forall|p: int|
                #[trigger] is_prime_spec(p) && (phi as int) % p == 0 ==> exists|i: int|
                    0 <= i < factors@.len() && #[trigger] factors@[i].0 == p,
            forall|c: int| 2 <= c < cand ==> !passes_root_test(c, q as int),
        decreases q - cand,
    {
        if passes_factor_tests(&class, &factors, cand, phi) {
            proof {
                assert forall|p: int|
                    #[trigger] is_prime_spec(p) && (q as int - 1) % p == 0 implies pow_mod(
                    cand as int,
                    ((q as int - 1) / p) as nat,
                    q as int,
                ) != 1 by {
                    let i = choose|i: int|
                        0 <= i < factors@.len() && #[trigger] factors@[i].0 == p;
                    assert(0 <= i < factors@.len() && factors@[i].0 == p);
                }
            }
            return Some(cand);
        }
        proof {
            let i = choose|i: int|
                0 <= i < factors@.len() && pow_mod(
                    cand as int,
                    ((phi as int) / (#[trigger] factors@[i].0 as int)) as nat,
                    class.q as int,
                ) == 1;
            assert(!passes_root_test(cand as int, q as int)) by {
                assert(is_prime_spec(factors@[i].0 as int));
            }
        }
        cand = cand + 1;
    }
    None
}

/// An element of order dividing `2n`, obtained by raising a primitive
/// root to the power `(q - 1) / 2n`; when the root has full order the
/// result has order exactly `2n`.
pub fn find_generator(q: u64, n: usize) -> (r: Option<u64>)
    requires
        is_prime_spec(q as int),
        3 <= q < 0x8000000000000000u64,
        barrett_ok(q as nat),
        q as int - 1 <= usize::MAX as int,
        1 <= n,
        2 * n <= u64::MAX,
        (q as int - 1) % (2 * n as int) == 0,
    ensures
        r is Some ==> {
            &&& r->Some_0 < q
            &&& exists|g0: int|
                2 <= g0 < q && #[trigger] passes_root_test(g0, q as int) && (forall|c: int|
                    2 <= c < g0 ==> !passes_root_test(c, q as int)) && r->Some_0 == pow_mod(
                    g0,
                    ((q as int - 1) / (2 * n as int)) as nat,
                    q as int,
                )
        },
        r is None ==> pow2((1 + bit_len(q as nat) / 2) as nat) > usize::MAX as nat || (forall|
            c: int,
        | 2 <= c < q ==> !passes_root_test(c, q as int)),
{
    proof {
        assert(q % 2 != 0);
        assert(pow2(62) % 2 == 0) by {
            lemma2_to64();
            lemma2_to64_rest();
        }
        lemma2_to64();
        lemma2_to64_rest();
    }
    let class = CongruenceClass::new(q);
    let m = 2 * (n as u64);
    let g0 = match find_primitive_root(q) {
        Some(g0) => g0,
        None => {
            return None;
        },
    };
    let g = class.modexp(g0, (q - 1) / m);
    Some(g)
}

} // verus!
