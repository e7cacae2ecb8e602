//! A congruence class context: one modulus `q` below `2^63` together
//! with its precomputed Barrett constants, exposing the full ring and
//! field operation set at value-returning and in-place conventions.

use vstd::prelude::*;
use vstd::arithmetic::div_mod::{lemma_small_mod, lemma_mul_mod_noop_general, lemma_mod_bound};
use vstd::arithmetic::power::{
    pow, lemma_pow0, lemma_pow1, lemma_pow_adds, lemma_pow_multiplies, lemma_square_is_pow2,
    lemma_pow_mod_noop,
};
use vstd::arithmetic::power2::{pow2, lemma2_to64, lemma2_to64_rest};
use crate::arith::{add_mod, sub_mod, neg_mod, mul_mod, pow_mod};
use crate::barrett::{barrett_ok, barrett_reduce, lemma_mu_fits};
use crate::bitlen::{bit_len, bit_length, pow2_u128, lemma_bit_len_bounds, lemma_bit_len_le};

verus! {

/// One residue ring `Z/qZ`, with the Barrett constants of the refined
/// formulation (`shifts logq - 2` and `logq + 2`) precomputed once.
#[derive(Debug, Clone, Copy)]
pub struct CongruenceClass {
    pub mu: u64,
    pub q: u64,
    pub logq: u64,
}

impl CongruenceClass {
    /// The constants are the ones derived from the modulus: `logq` is
    /// its bit length and `mu = floor(2^(2*logq) / q)`.
    pub open spec fn wf(self) -> bool {
        &&& 2 <= self.q < pow2(63)
        &&& self.q != pow2(62)
        &&& self.logq == bit_len(self.q as nat)
        &&& self.mu == pow2((2 * self.logq) as nat) as int / (self.q as int)
    }

    /// The modulus leaves the margin under which the Barrett estimate
    /// misses the true quotient by at most one (see [`barrett_ok`]).
    pub open spec fn reduction_safe(self) -> bool {
        barrett_ok(self.q as nat)
    }

    /// Builds the context for a modulus in `[2, 2^63)`.  The modulus
    /// `2^62` is refused because its Barrett constant `2^64` does not
    /// fit the 64-bit field that holds it.
    pub fn new(q: u64) -> (r: Self)
        requires
            2 <= q < 0x8000000000000000u64,
            q != 0x4000000000000000u64,
        ensures
            r.wf(),
            r.q == q,
    {
        proof {
            lemma2_to64();
            lemma2_to64_rest();
            lemma_bit_len_le(q as nat, 63);
            lemma_mu_fits(q as nat);
            vstd::arithmetic::power2::lemma_pow2_pos((2 * bit_len(q as nat)) as nat);
            vstd::arithmetic::div_mod::lemma_div_pos_is_pos(
                pow2((2 * bit_len(q as nat)) as nat) as int,
                q as int,
            );
        }
        let logq = bit_length(q);
        let m = pow2_u128(2 * logq);
        let mu = (m / (q as u128)) as u64;
        CongruenceClass { mu, q, logq }
    }

    proof fn lemma_shift_setup(self)
        requires
            self.wf(),
        ensures
            2 <= self.logq <= 63,
            (self.logq - 2) + (self.logq + 2) == 2 * self.logq,
            pow2(63) == 0x8000000000000000,
            pow2(62) == 0x4000000000000000,
    {
        lemma2_to64();
        lemma2_to64_rest();
        lemma_bit_len_bounds(self.q as nat);
        lemma_bit_len_le(self.q as nat, 63);
        assert(bit_len((self.q / 2) as nat) >= 1);
    }

    /// Barrett multiplication: the reduced product of two residues.
    pub fn modmul(&self, a: u64, b: u64) -> (r: u64)
        requires
            self.wf(),
            self.reduction_safe(),
            a < self.q,
            b < self.q,
        ensures
            r == mul_mod(a as int, b as int, self.q as int),
            r < self.q,
    {
        proof { self.lemma_shift_setup(); }
        barrett_reduce(a, b, self.q, self.mu as u128, self.logq - 2, self.logq + 2)
    }

    /// Barrett squaring: the reduced square of a residue.
    pub fn modsquare(&self, a: u64) -> (r: u64)
        requires
            self.wf(),
            self.reduction_safe(),
            a < self.q,
        ensures
            r == mul_mod(a as int, a as int, self.q as int),
            r < self.q,
    {
        proof { self.lemma_shift_setup(); }
        barrett_reduce(a, a, self.q, self.mu as u128, self.logq - 2, self.logq + 2)
    }

    /// In-place form of [`Self::modmul`].
    pub fn modmul_eq(&self, a: &mut u64, b: u64)
        requires
            self.wf(),
            self.reduction_safe(),
            *old(a) < self.q,
            b < self.q,
        ensures
            *final(a) == mul_mod(*old(a) as int, b as int, self.q as int),
            *final(a) < self.q,
    {
        *a = self.modmul(*a, b);
    }

    /// In-place form of [`Self::modsquare`].
    pub fn modsquare_eq(&self, a: &mut u64)
        requires
            self.wf(),
            self.reduction_safe(),
            *old(a) < self.q,
        ensures
            *final(a) == mul_mod(*old(a) as int, *old(a) as int, self.q as int),
            *final(a) < self.q,
    {
        *a = self.modsquare(*a);
    }

    /// Modular addition by one conditional subtraction.
    pub fn modadd(&self, a: u64, b: u64) -> (r: u64)
        requires
            self.wf(),
            a < self.q,
            b < self.q,
        ensures
            r == add_mod(a as int, b as int, self.q as int),
            r < self.q,
    {
        proof { self.lemma_shift_setup(); }
        crate::arith::modadd(a, b, self.q)
    }

    /// In-place form of [`Self::modadd`].
    pub fn modadd_eq(&self, a: &mut u64, b: u64)
        requires
            self.wf(),
            *old(a) < self.q,
            b < self.q,
        ensures
            *final(a) == add_mod(*old(a) as int, b as int, self.q as int),
            *final(a) < self.q,
    {
        *a = self.modadd(*a, b);
    }

    /// Modular subtraction by one conditional addition of `q`.
    pub fn modsub(&self, a: u64, b: u64) -> (r: u64)
        requires
            self.wf(),
            a < self.q,
            b < self.q,
        ensures
            r == sub_mod(a as int, b as int, self.q as int),
            r < self.q,
    {
        proof { self.lemma_shift_setup(); }
        crate::arith::modsub(a, b, self.q)
    }

    /// In-place form of [`Self::modsub`].
    pub fn modsub_eq(&self, a: &mut u64, b: u64)
        requires
            self.wf(),
            *old(a) < self.q,
            b < self.q,
        ensures
            *final(a) == sub_mod(*old(a) as int, b as int, self.q as int),
            *final(a) < self.q,
    {
        *a = self.modsub(*a, b);
    }

    /// The additive inverse `q - a`; `a == 0` yields `q` itself, which
    /// lies outside `[0, q)` (callers needing a residue keep `a` nonzero).
    pub fn modneg(&self, a: u64) -> (r: u64)
        requires
            self.wf(),
            a < self.q,
        ensures
            r == self.q - a,
            1 <= a ==> r == neg_mod(a as int, self.q as int),
    {
        proof { self.lemma_shift_setup(); }
        crate::arith::modnegate(a, self.q)
    }

    /// In-place form of [`Self::modneg`].
    pub fn modneg_eq(&self, a: &mut u64)
        requires
            self.wf(),
            *old(a) < self.q,
        ensures
            *final(a) == self.q - *old(a),
            1 <= *old(a) ==> *final(a) == neg_mod(*old(a) as int, self.q as int),
    {
        *a = self.modneg(*a);
    }

    /// Modular exponentiation by square and multiply, consuming the
    /// exponent from its least significant bit upward.  The pattern of
    /// multiplications follows the bits of `e`: this is not constant
    /// time and must not be used with secret exponents.
    pub fn modexp(&self, a: u64, e: u64) -> (r: u64)
        requires
            self.wf(),
            self.reduction_safe(),
            a < self.q,
        ensures
            r == pow_mod(a as int, e as nat, self.q as int),
            r < self.q,
    {
        let mut base = a;
        let mut exp = e;
        let mut result: u64 = 1;
        proof {
            self.lemma_shift_setup();
            lemma_pow1(a as int);
            lemma_mod_bound(1 * pow(a as int, e as nat), self.q as int);
        }
        while exp > 0
            invariant
                self.wf(),
                self.reduction_safe(),
                base < self.q,
                result < self.q,
                (result * pow(base as int, exp as nat)) % (self.q as int) == pow_mod(
                    a as int,
                    e as nat,
                    self.q as int,
                ),
            decreases exp,
        {
            let ghost r0 = result as int;
            let ghost b0 = base as int;
            let ghost ex0 = exp as nat;
            let ghost q = self.q as int;
            if exp % 2 == 1 {
                result = self.modmul(result, base);
            }
            base = self.modsquare(base);
            exp = exp / 2;
            proof {
                lemma_square_and_multiply_step(r0, b0, ex0, q);
                if ex0 % 2 == 1 {
                    assert(result == (r0 * b0) % q);
                } else {
                    lemma_small_mod(r0 as nat, q as nat);
                    assert(result == r0 % q);
                }
                assert(base == (b0 * b0) % q);
                assert(exp as nat == ex0 / 2);
            }
        }
        proof {
            lemma_pow0(base as int);
            lemma_small_mod(result as nat, self.q as nat);
        }
        result
    }

    /// In-place form of [`Self::modexp`].
    pub fn modexp_eq(&self, a: &mut u64, e: u64)
        requires
            self.wf(),
            self.reduction_safe(),
            *old(a) < self.q,
        ensures
            *final(a) == pow_mod(*old(a) as int, e as nat, self.q as int),
            *final(a) < self.q,
    {
        *a = self.modexp(*a, e);
    }

    /// The multiplicative inverse as `a^(q-2)`, which is the inverse
    /// precisely when `q` is prime and `a` is nonzero (Fermat's little
    /// theorem); `a == 0` yields `0` rather than an error.
    pub fn modinv(&self, a: u64) -> (r: u64)
        requires
            self.wf(),
            self.reduction_safe(),
            a < self.q,
        ensures
            r == pow_mod(a as int, (self.q - 2) as nat, self.q as int),
            r < self.q,
    {
        self.modexp(a, self.q - 2)
    }

    /// In-place form of [`Self::modinv`].
    pub fn modinv_eq(&self, a: &mut u64)
        requires
            self.wf(),
            self.reduction_safe(),
            *old(a) < self.q,
        ensures
            *final(a) == pow_mod(*old(a) as int, (self.q - 2) as nat, self.q as int),
            *final(a) < self.q,
    {
        *a = self.modinv(*a);
    }
}

/// One square-and-multiply step preserves the partial-product invariant:
/// halving the exponent against a squared base, after folding the base
/// into the accumulator when the dropped bit was set.
proof fn lemma_square_and_multiply_step(r: int, b: int, ex: nat, q: int)
    requires
        q >= 1,
        ex >= 1,
    ensures
        ex % 2 == 1 ==> (((r * b) % q) * pow((b * b) % q, ex / 2)) % q == (r * pow(b, ex)) % q,
        ex % 2 == 0 ==> ((r % q) * pow((b * b) % q, ex / 2)) % q == (r * pow(b, ex)) % q,
{
    let k = ex / 2;
    lemma_square_is_pow2(b);
    lemma_pow_multiplies(b, 2, k);
    assert(pow(b * b, k) == pow(b, 2 * k));
    lemma_pow_mod_noop(b * b, k, q);
    if ex % 2 == 1 {
        assert(ex == 2 * k + 1);
        lemma_pow_adds(b, (2 * k) as nat, 1);
        lemma_pow1(b);
        assert(pow(b, ex) == pow(b, 2 * k) * b);
        // ((r*b) % q * pow((b*b)%q, k)) % q == ((r*b) * pow(b*b, k)) % q
        lemma_mul_mod_noop_general((r * b) as int, pow((b * b) % q, k), q);
        lemma_mul_mod_noop_general((r * b) as int, pow(b * b, k), q);
        assert(((r * b) % q * pow((b * b) % q, k)) % q == ((r * b) * pow(b * b, k)) % q);
        assert((r * b) * pow(b * b, k) == r * (pow(b, 2 * k) * b)) by (nonlinear_arith)
            requires pow(b * b, k) == pow(b, 2 * k);
        assert(r * (pow(b, 2 * k) * b) == r * pow(b, ex));
    } else {
        assert(ex == 2 * k);
        lemma_mul_mod_noop_general(r, pow((b * b) % q, k), q);
        lemma_mul_mod_noop_general(r, pow(b * b, k), q);
        assert((r % q * pow((b * b) % q, k)) % q == (r * pow(b * b, k)) % q);
        assert(r * pow(b * b, k) == r * pow(b, ex));
    }
}

} // verus!
