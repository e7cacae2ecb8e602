//! Bit length of an integer, and an executable power of two: the two
//! quantities from which the Barrett constants are derived.

use vstd::prelude::*;
use vstd::arithmetic::power2::{pow2, lemma_pow2_unfold, lemma_pow2_adds, lemma_pow2_pos, lemma2_to64};

verus! {

/// The number of binary digits of `n`: the least `l` with `n < 2^l`.
pub open spec fn bit_len(n: nat) -> nat
    decreases n,
{
    if n == 0 {
        0
    } else {
        1 + bit_len(n / 2)
    }
}

/// A positive integer lies between the two powers of two that its bit
/// length names: `2^(l-1) <= n < 2^l`.
pub proof fn lemma_bit_len_bounds(n: nat)
    requires
        n >= 1,
    ensures
        bit_len(n) >= 1,
        pow2((bit_len(n) - 1) as nat) <= n < pow2(bit_len(n)),
    decreases n,
{
    if n == 1 {
        assert(bit_len(1) == 1 + bit_len(0));
        lemma2_to64();
    } else {
        lemma_bit_len_bounds(n / 2);
        let l = bit_len(n / 2);
        lemma_pow2_unfold(l);
        lemma_pow2_unfold((l + 1) as nat);
        assert(pow2((l + 1) as nat) == 2 * pow2(l));
        if l >= 1 {
            lemma_pow2_unfold(l);
        }
        assert(n < pow2((l + 1) as nat)) by {
            assert(n / 2 < pow2(l));
            assert(n <= 2 * (n / 2) + 1);
        }
        assert(pow2(l) <= n) by {
            assert(pow2((l - 1) as nat) <= n / 2);
            assert(pow2(l) == 2 * pow2((l - 1) as nat));
            assert(2 * (n / 2) <= n);
        }
    }
}

/// Bit length is monotone in the bound: `n < 2^k` implies `bit_len(n) <= k`.
pub proof fn lemma_bit_len_le(n: nat, k: nat)
    requires
        n < pow2(k),
    ensures
        bit_len(n) <= k,
    decreases n,
{
    if n == 0 {
    } else {
        lemma_pow2_pos(k);
        if k == 0 {
            assert(pow2(0) == 1) by { lemma2_to64(); }
        } else {
            assert(n / 2 < pow2((k - 1) as nat)) by {
                lemma_pow2_unfold(k);
            }
            lemma_bit_len_le(n / 2, (k - 1) as nat);
        }
    }
}

/// The bit length of a 64-bit value, by repeated halving.
pub fn bit_length(x: u64) -> (r: u64)
    ensures
        r == bit_len(x as nat),
        r <= 64,
{
    proof {
        assert((x as nat) < pow2(64)) by {
            lemma2_to64();
        }
        lemma_bit_len_le(x as nat, 64);
    }
    let mut n = x;
    let mut r: u64 = 0;
    while n > 0
        invariant
            bit_len(x as nat) == r + bit_len(n as nat),
            bit_len(x as nat) <= 64,
        decreases n,
    {
        proof {
            assert(bit_len(n as nat) == 1 + bit_len((n / 2) as nat));
            lemma_bit_len_bounds(n as nat);
        }
        n = n / 2;
        r = r + 1;
    }
    r
}

/// `2^n` as a 128-bit value, by repeated doubling.
pub fn pow2_u128(n: u64) -> (r: u128)
    requires
        n < 128,
    ensures
        r == pow2(n as nat),
{
    let mut i: u64 = 0;
    let mut r: u128 = 1;
    proof {
        assert(pow2(0) == 1) by { lemma2_to64(); }
    }
    while i < n
        invariant
            i <= n < 128,
            r == pow2(i as nat),
        decreases n - i,
    {
        proof {
            lemma_pow2_unfold((i + 1) as nat);
            assert(pow2((i + 1) as nat) <= pow2(127)) by {
                if i + 1 < 127 {
                    vstd::arithmetic::power2::lemma_pow2_strictly_increases((i + 1) as nat, 127);
                }
            }
            assert(pow2(127) < u128::MAX) by {
                lemma_pow2_adds(64, 63);
                lemma2_to64();
                vstd::arithmetic::power2::lemma2_to64_rest();
            }
        }
        r = r * 2;
        i = i + 1;
    }
    r
}

} // verus!
