//! Barrett reduction: multiplication modulo `q` without a hardware
//! division, using a precomputed scaled reciprocal `mu`.
//!
//! For a product `p = a * b` the quotient `floor(p / q)` is approximated
//! by `t2 = ((p >> sh1) * mu) >> sh2` with `mu = floor(2^(sh1+sh2) / q)`.
//! The estimate never exceeds the true quotient, and when the modulus
//! leaves enough margin below its power of two (the `barrett_ok`
//! predicates), it falls short by at most one, so a single conditional
//! subtraction completes the reduction.  Moduli too close to a power of
//! two can leave the estimate short by two, which is why the predicates
//! appear as preconditions: for `q = 7681` the product of `a = 7680`
//! and `b = 7678` is reduced to `7684` instead of `3` by this scheme.

use vstd::prelude::*;
use vstd::arithmetic::div_mod::{
    lemma_fundamental_div_mod, lemma_mod_division_less_than_divisor, lemma_div_pos_is_pos,
    lemma_div_is_ordered_by_denominator, lemma_small_mod, lemma_mod_sub_multiples_vanish,
    lemma_mod_multiples_vanish,
};
use vstd::arithmetic::power2::{
    pow2, lemma_pow2_adds, lemma_pow2_subtracts, lemma_pow2_pos, lemma_pow2_strictly_increases,
    lemma2_to64, lemma2_to64_rest,
};
use vstd::bits::lemma_u128_shr_is_div;
use crate::arith::mul_mod;
use crate::bitlen::{bit_len, bit_length, pow2_u128, lemma_bit_len_bounds, lemma_bit_len_le};

verus! {

/// The margin that lets the refined estimate (`sh1 = l-2`, `sh2 = l+2`)
/// miss the quotient by at most one.
pub open spec fn barrett_ok(q: nat) -> bool {
    let l = bit_len(q);
    (q - 1) * (q - 1) * (pow2(2 * l) as int % (q as int)) <= (q - pow2((l - 2) as nat)) * pow2(
        2 * l,
    )
}

/// The margin for the older estimate (`sh1 = l-1`, `sh2 = l+1`).
pub open spec fn barrett_ok_old(q: nat) -> bool {
    let l = bit_len(q);
    (q - 1) * (q - 1) * (pow2(2 * l) as int % (q as int)) <= (q - pow2((l - 1) as nat)) * pow2(
        2 * l,
    )
}

/// The margin for the fixed-shift estimate (`sh1 = 62`, `sh2 = 64`),
/// whose constant is scaled by `2^126` independently of the bit length.
pub open spec fn barrett_ok_fixed(q: nat) -> bool {
    (q - 1) * (q - 1) * (pow2(126) as int % (q as int)) <= (q - pow2(62)) * pow2(126)
}

/// The Barrett quotient estimate `t2` never exceeds `floor(p / q)`, and
/// under the margin hypothesis it leaves a remainder candidate below `2q`.
pub proof fn lemma_barrett_quotient(q: int, s1: int, s2: int, mu: int, p: int, t1: int, t2: int)
    requires
        q >= 2,
        s1 >= 1,
        s2 >= 1,
        mu == (s1 * s2) / q,
        0 <= p <= (q - 1) * (q - 1),
        t1 == p / s1,
        t2 == (t1 * mu) / s2,
        (q - 1) * (q - 1) * ((s1 * s2) % q) <= (q - s1) * (s1 * s2),
    ensures
        0 <= t2 * q <= p,
        p - t2 * q < 2 * q,
{
    let m = s1 * s2;
    assert(m >= 1) by (nonlinear_arith)
        requires m == s1 * s2 && s1 >= 1 && s2 >= 1;
    lemma_div_pos_is_pos(p, s1);
    lemma_div_pos_is_pos(m, q);
    assert(t1 >= 0);
    assert(mu >= 0);
    assert(t1 * mu >= 0) by (nonlinear_arith)
        requires t1 >= 0 && mu >= 0;
    lemma_div_pos_is_pos(t1 * mu, s2);
    assert(t2 >= 0);

    lemma_fundamental_div_mod(p, s1);
    lemma_mod_division_less_than_divisor(p, s1);
    let e1 = p % s1;
    lemma_fundamental_div_mod(m, q);
    lemma_mod_division_less_than_divisor(m, q);
    let e2 = m % q;
    lemma_fundamental_div_mod(t1 * mu, s2);
    lemma_mod_division_less_than_divisor(t1 * mu, s2);
    let e3 = (t1 * mu) % s2;

    // p == s1 * t1 + e1,  m == q * mu + e2,  t1 * mu == s2 * t2 + e3.
    assert(t1 * s1 <= p) by (nonlinear_arith)
        requires p == s1 * t1 + e1 && e1 >= 0;
    assert(mu * q <= m) by (nonlinear_arith)
        requires m == q * mu + e2 && e2 >= 0;
    assert(t2 * s2 <= t1 * mu) by (nonlinear_arith)
        requires t1 * mu == s2 * t2 + e3 && e3 >= 0;

    // the estimate never exceeds the quotient: (t2 * q) * s2 <= p * s2
    assert((t2 * q) * s2 <= (t1 * mu) * q) by (nonlinear_arith)
        requires t2 * s2 <= t1 * mu && q >= 0;
    assert((t1 * mu) * q <= t1 * m) by (nonlinear_arith)
        requires mu * q <= m && t1 >= 0;
    assert(t1 * m == (t1 * s1) * s2) by (nonlinear_arith)
        requires m == s1 * s2;
    assert((t1 * s1) * s2 <= p * s2) by (nonlinear_arith)
        requires t1 * s1 <= p && s2 >= 0;
    assert(t2 * q <= p) by (nonlinear_arith)
        requires (t2 * q) * s2 <= p * s2 && s2 >= 1;
    assert(t2 * q >= 0) by (nonlinear_arith)
        requires t2 >= 0 && q >= 0;

    // exact accounting of everything the three floors discarded
    assert((p - t2 * q) * m == p * m - (t2 * q) * m) by (nonlinear_arith);
    assert((t2 * q) * m == (t2 * s2) * (q * s1)) by (nonlinear_arith)
        requires m == s1 * s2;
    assert(t2 * s2 == t1 * mu - e3);
    assert((t1 * mu - e3) * (q * s1) == (t1 * mu) * (q * s1) - e3 * (q * s1)) by (nonlinear_arith);
    assert((t1 * mu) * (q * s1) == (t1 * (mu * q)) * s1) by (nonlinear_arith);
    assert(mu * q == m - e2);
    assert(t1 * (m - e2) == t1 * m - t1 * e2) by (nonlinear_arith);
    assert((t1 * m - t1 * e2) * s1 == (t1 * s1) * m - (t1 * e2) * s1) by (nonlinear_arith);
    assert((t1 * e2) * s1 == (t1 * s1) * e2) by (nonlinear_arith);
    assert(p * m == (t1 * s1) * m + e1 * m) by (nonlinear_arith)
        requires p == s1 * t1 + e1;
    assert((p - t2 * q) * m == e1 * m + (t1 * s1) * e2 + (e3 * q) * s1) by {
        assert(e3 * (q * s1) == (e3 * q) * s1) by (nonlinear_arith);
    }

    assert(e1 * m <= (s1 - 1) * m) by (nonlinear_arith)
        requires e1 <= s1 - 1 && m >= 0;
    assert((t1 * s1) * e2 <= ((q - 1) * (q - 1)) * e2) by (nonlinear_arith)
        requires t1 * s1 <= (q - 1) * (q - 1) && e2 >= 0;
    assert((e3 * q) * s1 <= ((s2 - 1) * q) * s1) by (nonlinear_arith)
        requires e3 <= s2 - 1 && q >= 0 && s1 >= 0;
    assert((s1 - 1) * m + (q - s1) * m + ((s2 - 1) * q) * s1 == 2 * q * m - m - q * s1)
        by (nonlinear_arith)
        requires m == s1 * s2;
    assert((p - t2 * q) * m <= 2 * q * m - m - q * s1);
    assert(q * s1 >= 0) by (nonlinear_arith)
        requires q >= 0 && s1 >= 0;
    assert((p - t2 * q) * m < (2 * q) * m) by (nonlinear_arith)
        requires (p - t2 * q) * m <= 2 * q * m - m - q * s1 && m >= 1 && q * s1 >= 0;
    assert(p - t2 * q < 2 * q) by (nonlinear_arith)
        requires (p - t2 * q) * m < (2 * q) * m && m >= 1;
}

/// One Barrett reduction step of the product `a * b` with shifts
/// `sh1`/`sh2` and constant `mu = floor(2^(sh1+sh2) / q)`.
pub(crate) fn barrett_reduce(a: u64, b: u64, q: u64, mu: u128, sh1: u64, sh2: u64) -> (r: u64)
    requires
        2 <= q < 0x8000000000000000u64,
        a < q,
        b < q,
        sh1 + sh2 <= 126,
        1 <= sh2 <= 65,
        mu == pow2((sh1 + sh2) as nat) as int / (q as int),
        (q - 1) * (q - 1) * (pow2((sh1 + sh2) as nat) as int % (q as int)) <= (q - pow2(
            sh1 as nat,
        )) * pow2((sh1 + sh2) as nat),
    ensures
        r == mul_mod(a as int, b as int, q as int),
        r < q,
{
    let ghost s1 = pow2(sh1 as nat) as int;
    let ghost s2 = pow2(sh2 as nat) as int;
    let ghost m = pow2((sh1 + sh2) as nat) as int;
    proof {
        lemma_pow2_adds(sh1 as nat, sh2 as nat);
        lemma_pow2_pos(sh1 as nat);
        lemma_pow2_pos(sh2 as nat);
        assert(m == s1 * s2);
        assert((a as int) * (b as int) <= ((q - 1) * (q - 1)) as int) by (nonlinear_arith)
            requires a <= q - 1 && b <= q - 1 && a >= 0 && b >= 0;
        assert((a as int) * (b as int) >= 0) by (nonlinear_arith)
            requires a >= 0 && b >= 0;
        assert(((q - 1) * (q - 1)) as int <= u128::MAX) by (nonlinear_arith)
            requires 2 <= q < 0x8000000000000000u64;
    }
    let p: u128 = (a as u128) * (b as u128);
    proof {
        lemma_u128_shr_is_div(p, sh1 as u128);
    }
    let t1: u128 = p >> (sh1 as u128);
    proof {
        assert(t1 == (p as int) / s1);
        lemma_div_pos_is_pos(p as int, s1);
        lemma_div_pos_is_pos(m, q as int);
        // t1 * mu stays below 2^128
        lemma_fundamental_div_mod(p as int, s1);
        lemma_mod_division_less_than_divisor(p as int, s1);
        lemma_fundamental_div_mod(m, q as int);
        lemma_mod_division_less_than_divisor(m, q as int);
        assert(t1 * s1 <= p) by (nonlinear_arith)
            requires p == s1 * (t1 as int) + (p as int) % s1 && (p as int) % s1 >= 0;
        assert((mu as int) * q <= m) by (nonlinear_arith)
            requires m == (q as int) * (mu as int) + m % (q as int) && m % (q as int) >= 0;
        assert((t1 as int) * (mu as int) * (q as int) <= (t1 as int) * m) by (nonlinear_arith)
            requires (mu as int) * (q as int) <= m && t1 >= 0;
        assert((t1 as int) * m == ((t1 as int) * s1) * s2) by (nonlinear_arith)
            requires m == s1 * s2;
        assert(((t1 as int) * s1) * s2 <= ((q - 1) * (q - 1)) * s2) by (nonlinear_arith)
            requires (t1 as int) * s1 <= p && p <= (q - 1) * (q - 1) && s2 >= 1;
        assert(((q - 1) * (q - 1)) * s2 < ((q as int) * (q as int)) * s2) by (nonlinear_arith)
            requires q >= 2 && s2 >= 1;
        assert((t1 as int) * (mu as int) * (q as int) < ((q as int) * (q as int)) * s2);
        assert((t1 as int) * (mu as int) < (q as int) * s2) by (nonlinear_arith)
            requires
                (t1 as int) * (mu as int) * (q as int) < ((q as int) * (q as int)) * s2 && q >= 1
                    && (t1 as int) * (mu as int) >= 0 && s2 >= 0;
        assert((t1 as int) * (mu as int) >= 0) by (nonlinear_arith)
            requires t1 >= 0 && mu >= 0;
        assert((q as int) * s2 <= u128::MAX) by {
            assert(s2 <= pow2(65)) by {
                if sh2 < 65 {
                    lemma_pow2_strictly_increases(sh2 as nat, 65);
                }
            }
            assert(pow2(63) * pow2(65) == pow2(128)) by {
                lemma_pow2_adds(63, 65);
            }
            assert(pow2(64) * pow2(64) == pow2(128)) by {
                lemma_pow2_adds(64, 64);
            }
            lemma2_to64();
            lemma2_to64_rest();
            assert((q as int) * s2 <= (pow2(63) - 1) * pow2(65)) by (nonlinear_arith)
                requires (q as int) <= pow2(63) - 1 && 1 <= s2 <= pow2(65);
            assert((pow2(63) - 1) * pow2(65) == pow2(128) - pow2(65)) by (nonlinear_arith)
                requires pow2(63) * pow2(65) == pow2(128);
        }
        lemma_u128_shr_is_div((t1 * mu) as u128, sh2 as u128);
    }
    let t2: u128 = (t1 * mu) >> (sh2 as u128);
    proof {
        assert(t2 == ((t1 as int) * (mu as int)) / s2);
        lemma_barrett_quotient(
            q as int,
            s1,
            s2,
            mu as int,
            p as int,
            t1 as int,
            t2 as int,
        );
    }
    let rw: u128 = p - t2 * (q as u128);
    proof {
        assert(rw < 2 * (q as int));
        assert((p as int) % (q as int) == (rw as int) % (q as int)) by {
            lemma_mod_multiples_vanish(t2 as int, rw as int, q as int);
        }
    }
    let r0: u64 = rw as u64;
    if r0 < q {
        proof { lemma_small_mod(r0 as nat, q as nat); }
        r0
    } else {
        proof {
            lemma_mod_sub_multiples_vanish(rw as int, q as int);
            lemma_small_mod((rw - q) as nat, q as nat);
        }
        r0 - q
    }
}

/// The Barrett constant of the refined and the older formulation,
/// `mu = floor(2^(2l) / q)`, fits in 64 bits for every admitted modulus.
pub proof fn lemma_mu_fits(q: nat)
    requires
        1 <= q < pow2(63),
        q != pow2(62),
    ensures
        pow2(2 * bit_len(q)) / q < pow2(64),
{
    let l = bit_len(q);
    lemma_bit_len_bounds(q);
    lemma_bit_len_le(q, 63);
    let m = pow2(2 * l);
    if l <= 62 {
        lemma_pow2_pos((l - 1) as nat);
        lemma_div_is_ordered_by_denominator(m as int, pow2((l - 1) as nat) as int, q as int);
        assert(m / pow2((l - 1) as nat) == pow2((l + 1) as nat)) by {
            lemma_pow2_subtracts((l - 1) as nat, 2 * l);
            assert(2 * l - (l - 1) == l + 1);
        }
        assert(pow2((l + 1) as nat) <= pow2(63)) by {
            if l + 1 < 63 {
                lemma_pow2_strictly_increases((l + 1) as nat, 63);
            }
        }
        lemma_pow2_strictly_increases(63, 64);
        assert(m as int / (q as int) <= pow2((l + 1) as nat));
    } else {
        // l == 63, and q is not 2^62 itself, so q >= 2^62 + 1
        assert(l == 63);
        assert(m == pow2(126));
        lemma_pow2_pos(64);
        assert(pow2((l - 1) as nat) == pow2(62));
        assert(q >= pow2(62) + 1);
        lemma_fundamental_div_mod(m as int, q as int);
        lemma_mod_division_less_than_divisor(m as int, q as int);
        let mu = m as int / (q as int);
        lemma_div_pos_is_pos(m as int, q as int);
        assert(mu * q <= m) by (nonlinear_arith)
            requires m == (q as int) * mu + (m as int) % (q as int) && (m as int) % (q as int) >= 0;
        assert(pow2(64) * pow2(62) == pow2(126)) by {
            lemma_pow2_adds(64, 62);
        }
        assert(2 * l == 126);
        assert(mu < pow2(64)) by (nonlinear_arith)
            requires
                mu * (q as int) <= pow2(126) && (q as int) >= pow2(62) + 1 && mu >= 0 && pow2(64)
                    * pow2(62) == pow2(126) && pow2(64) >= 1;
    }
}


/// Splitting two quantities into 64-bit limbs decides their order:
/// `xh*b + xl <= yh*b + yl` exactly when the high limbs order them, or
/// tie and the low limbs do.
proof fn lemma_limb_le(xh: int, xl: int, yh: int, yl: int, b: int)
    requires
        b >= 1,
        0 <= xl < b,
        0 <= yl < b,
        xh >= 0,
        yh >= 0,
    ensures
        (xh * b + xl <= yh * b + yl) <==> (xh < yh || (xh == yh && xl <= yl)),
{
    if xh < yh {
        assert(xh * b + xl < (xh + 1) * b) by (nonlinear_arith)
            requires xl < b;
        assert((xh + 1) * b <= yh * b) by (nonlinear_arith)
            requires xh + 1 <= yh && b >= 1;
        assert(yh * b <= yh * b + yl);
    }
    if xh > yh {
        assert(yh * b + yl < (yh + 1) * b) by (nonlinear_arith)
            requires yl < b;
        assert((yh + 1) * b <= xh * b) by (nonlinear_arith)
            requires yh + 1 <= xh && b >= 1;
        assert(xh * b <= xh * b + xl) by (nonlinear_arith)
            requires xl >= 0;
    }
}

/// Decides the reduction margin [`barrett_ok`] at run time, so that a
/// freshly found modulus can be checked before its context is used.
/// The two sides of the inequality reach 192 bits, so each is split
/// into 64-bit limbs and compared limbwise.
pub fn reduction_margin_check(q: u64) -> (b: bool)
    requires
        2 <= q < 0x8000000000000000u64,
    ensures
        b == barrett_ok(q as nat),
{
    proof {
        lemma2_to64();
        lemma2_to64_rest();
        lemma_bit_len_bounds(q as nat);
        lemma_bit_len_le(q as nat, 63);
    }
    let ghost l = bit_len(q as nat);
    let logq = bit_length(q);
    let m = pow2_u128(2 * logq);
    let e2: u128 = m % (q as u128);
    proof {
        assert(pow2((l - 2) as nat) < pow2(64)) by {
            lemma_pow2_strictly_increases((l - 2) as nat, 64);
        }
        assert(pow2((l - 1) as nat) == 2 * pow2((l - 2) as nat)) by {
            vstd::arithmetic::power2::lemma_pow2_unfold((l - 1) as nat);
        }
    }
    let s1 = pow2_u128(logq - 2) as u64;
    let d: u64 = q - s1;
    proof {
        assert(((q - 1) as int) * ((q - 1) as int) < pow2(63) * pow2(63)) by (nonlinear_arith)
            requires 0 <= (q - 1) as int && ((q - 1) as int) < pow2(63);
        lemma_pow2_adds(63, 63);
        lemma_pow2_adds(64, 64);
        lemma_pow2_adds(64, 62);
    }
    let a: u128 = ((q - 1) as u128) * ((q - 1) as u128);
    let a_hi = a / 0x10000000000000000u128;
    let a_lo = a % 0x10000000000000000u128;
    let ghost big = 0x10000000000000000int;
    proof {
        lemma_fundamental_div_mod(a as int, big);
        lemma_mod_division_less_than_divisor(a as int, big);
        assert((a_hi as int) < pow2(62)) by (nonlinear_arith)
            requires
                (a as int) == big * (a_hi as int) + (a_lo as int) && 0 <= (a_lo as int)
                    && (a as int) < pow2(126) && pow2(64) * pow2(62) == pow2(126) && big == pow2(
                    64,
                ) && (a_hi as int) >= 0;
        assert((a_lo as int) * (e2 as int) < pow2(64) * pow2(63)) by (nonlinear_arith)
            requires 0 <= (a_lo as int) && (a_lo as int) < pow2(64) && 0 <= (e2 as int) && (e2 as int) < pow2(63);
        lemma_pow2_adds(64, 63);
    }
    let low = a_lo * e2;
    proof {
        lemma_fundamental_div_mod(low as int, big);
        lemma_mod_division_less_than_divisor(low as int, big);
        assert((a_hi as int) * (e2 as int) < pow2(62) * pow2(63)) by (nonlinear_arith)
            requires 0 <= (a_hi as int) && (a_hi as int) < pow2(62) && 0 <= (e2 as int) && (e2 as int) < pow2(63);
        lemma_pow2_adds(62, 63);
        assert((low as int) / big < pow2(63)) by (nonlinear_arith)
            requires
                (low as int) == big * ((low as int) / big) + (low as int) % big && 0 <= (
                low as int) % big && (low as int) < pow2(127) && pow2(64) * pow2(63) == pow2(127)
                    && big == pow2(64) && (low as int) / big >= 0;
        assert(pow2(125) + pow2(63) < pow2(126)) by {
            lemma_pow2_strictly_increases(63, 125);
        }
    }
    let x_hi = a_hi * e2 + low / 0x10000000000000000u128;
    let x_lo = low % 0x10000000000000000u128;
    proof {
        // X == a * e2 splits exactly into the two limbs
        assert((a as int) * (e2 as int) == (x_hi as int) * big + (x_lo as int))
            by (nonlinear_arith)
            requires
                (a as int) == big * (a_hi as int) + (a_lo as int) && (low as int) == (a_lo as int)
                    * (e2 as int) && (low as int) == big * ((low as int) / big) + (x_lo as int)
                    && (x_hi as int) == (a_hi as int) * (e2 as int) + (low as int) / big;
    }
    let y_hi: u128;
    let y_lo: u128;
    if 2 * logq >= 64 {
        proof {
            lemma_pow2_adds((2 * l - 64) as nat, 64);
            assert(pow2((2 * l - 64) as nat) <= pow2(62)) by {
                if 2 * l - 64 < 62 {
                    lemma_pow2_strictly_increases((2 * l - 64) as nat, 62);
                }
            }
            assert((d as int) * pow2((2 * l - 64) as nat) < pow2(63) * pow2(62))
                by (nonlinear_arith)
                requires 0 <= (d as int) && (d as int) < pow2(63) && 0 < pow2((2 * l - 64) as nat) && pow2((2 * l - 64) as nat) <= pow2(62);
            lemma_pow2_adds(63, 62);
        }
        y_hi = (d as u128) * pow2_u128(2 * logq - 64);
        y_lo = 0;
        proof {
            assert((d as int) * (m as int) == (y_hi as int) * big + (y_lo as int))
                by (nonlinear_arith)
                requires
                    (m as int) == pow2((2 * l - 64) as nat) * pow2(64) && big == pow2(64) && (
                    y_hi as int) == (d as int) * pow2((2 * l - 64) as nat) && (y_lo as int) == 0;
        }
    } else {
        proof {
            assert((d as int) * (m as int) < pow2(63) * pow2(64)) by (nonlinear_arith)
                requires 0 <= (d as int) && (d as int) < pow2(63) && 0 < (m as int) && (m as int) <= pow2(64);
            lemma_pow2_adds(63, 64);
        }
        let y = (d as u128) * m;
        y_hi = y / 0x10000000000000000u128;
        y_lo = y % 0x10000000000000000u128;
        proof {
            lemma_fundamental_div_mod(y as int, big);
            lemma_mod_division_less_than_divisor(y as int, big);
        }
    }
    proof {
        lemma_limb_le(x_hi as int, x_lo as int, y_hi as int, y_lo as int, big);
    }
    if x_hi < y_hi {
        true
    } else if x_hi == y_hi {
        x_lo <= y_lo
    } else {
        false
    }
}

/// The constants of the older formulation: `mu = floor(2^(2*logq) / q)`
/// and the bit length `logq` of the modulus.
pub fn barrett_precompute_old(q: u64) -> (r: (u64, u64))
    requires
        1 <= q < 0x8000000000000000u64,
        q != 0x4000000000000000u64,
    ensures
        r.1 == bit_len(q as nat),
        r.0 == pow2((2 * bit_len(q as nat)) as nat) as int / (q as int),
{
    let logq = bit_length(q);
    proof {
        lemma2_to64();
        lemma2_to64_rest();
        lemma_bit_len_le(q as nat, 63);
        lemma_mu_fits(q as nat);
        lemma_pow2_pos((2 * logq) as nat);
        lemma_div_pos_is_pos(pow2((2 * logq) as nat) as int, q as int);
    }
    let m = pow2_u128(2 * logq);
    let mu = (m / (q as u128)) as u64;
    (mu, logq)
}

/// Barrett multiplication in the older formulation, with shifts
/// `logq - 1` and `logq + 1`.
pub fn modmul_barrett_old(a: u64, b: u64, q: u64, mu: u64, logq: u64) -> (r: u64)
    requires
        2 <= q < 0x8000000000000000u64,
        a < q,
        b < q,
        logq == bit_len(q as nat),
        mu == pow2((2 * bit_len(q as nat)) as nat) as int / (q as int),
        barrett_ok_old(q as nat),
    ensures
        r == mul_mod(a as int, b as int, q as int),
        r < q,
{
    proof {
        lemma2_to64();
        lemma2_to64_rest();
        lemma_bit_len_bounds(q as nat);
        lemma_bit_len_le(q as nat, 63);
        assert((logq - 1) + (logq + 1) == 2 * logq);
    }
    barrett_reduce(a, b, q, mu as u128, logq - 1, logq + 1)
}

/// In-place form of [`modmul_barrett_old`].
pub fn modmul_barrett_old_eq(a: &mut u64, b: u64, q: u64, mu: u64, logq: u64)
    requires
        2 <= q < 0x8000000000000000u64,
        *old(a) < q,
        b < q,
        logq == bit_len(q as nat),
        mu == pow2((2 * bit_len(q as nat)) as nat) as int / (q as int),
        barrett_ok_old(q as nat),
    ensures
        *final(a) == mul_mod(*old(a) as int, b as int, q as int),
        *final(a) < q,
{
    *a = modmul_barrett_old(*a, b, q, mu, logq);
}

/// The constant of the fixed-shift formulation, `mu = floor(2^126 / q)`,
/// kept in 128 bits.
pub fn barrett_precompute(q: u64) -> (r: u128)
    requires
        1 <= q,
    ensures
        r == pow2(126) as int / (q as int),
{
    let m = pow2_u128(126);
    m / (q as u128)
}

/// Barrett multiplication with fixed shifts 62 and 64; the modulus must
/// occupy exactly 63 bits for these shifts to be meaningful.
pub fn modmul_barrett(a: u64, b: u64, q: u64, mu: u128) -> (r: u64)
    requires
        0x4000000000000000u64 <= q < 0x8000000000000000u64,
        a < q,
        b < q,
        mu == pow2(126) as int / (q as int),
        barrett_ok_fixed(q as nat),
    ensures
        r == mul_mod(a as int, b as int, q as int),
        r < q,
{
    proof {
        assert(pow2(62) == 0x4000000000000000) by {
            lemma2_to64();
            lemma2_to64_rest();
        }
    }
    barrett_reduce(a, b, q, mu, 62, 64)
}

/// In-place form of [`modmul_barrett`].
pub fn modmul_barrett_eq(a: &mut u64, b: u64, q: u64, mu: u128)
    requires
        0x4000000000000000u64 <= q < 0x8000000000000000u64,
        *old(a) < q,
        b < q,
        mu == pow2(126) as int / (q as int),
        barrett_ok_fixed(q as nat),
    ensures
        *final(a) == mul_mod(*old(a) as int, b as int, q as int),
        *final(a) < q,
{
    *a = modmul_barrett(*a, b, q, mu);
}

} // verus!
