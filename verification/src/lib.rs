//! Modular arithmetic for prime moduli below `2^63`, built around Barrett
//! reduction, together with search routines for transform-friendly primes
//! (`q == 1 mod 2n`) and for generators of the multiplicative group.

pub mod arith;
pub mod bitlen;
pub mod barrett;
pub mod congruence;
pub mod search;
pub mod laws;
