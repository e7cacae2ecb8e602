use ntmath::arith::{modadd, modadd_naive, modmul_naive, modnegate, modsub};
use ntmath::barrett::{
    barrett_precompute, barrett_precompute_old, modmul_barrett, modmul_barrett_eq,
    modmul_barrett_old, modmul_barrett_old_eq, reduction_margin_check,
};
use ntmath::congruence::CongruenceClass;
use ntmath::search::{
    find_first_prime_down, find_first_prime_up, find_generator, find_next_prime_down,
    find_next_prime_up, find_primitive_root,
};

const BIGQ: u64 = 6917529027641081903;
const BIG_MU: u64 = 12297829382473034327;

#[test]
fn scenario_q17() {
    let c = CongruenceClass::new(17);
    assert_eq!(c.modadd(5, 6), 11);
    assert_eq!(c.modmul(5, 6), 13);
    let inv = c.modinv(5);
    assert_eq!(inv, 7);
    assert_eq!(c.modmul(5, inv), 1);
}

#[test]
fn naive_baseline() {
    assert_eq!(modadd_naive(5, 6, 17), 11);
    assert_eq!(modmul_naive(5, 6, 17), 13);
    assert_eq!(modnegate(5, 17), 12);
    assert_eq!(modnegate(0, 17), 17);
}

#[test]
fn free_add_sub() {
    assert_eq!(modadd(16, 16, 17), 15);
    assert_eq!(modadd(0, 0, 17), 0);
    assert_eq!(modadd(8, 9, 17), 0);
    assert_eq!(modsub(5, 6, 17), 16);
    assert_eq!(modsub(6, 5, 17), 1);
    assert_eq!(modsub(6, 6, 17), 0);
}

#[test]
fn add_negate_is_zero() {
    let c = CongruenceClass::new(17);
    for a in 1..17u64 {
        assert_eq!(c.modadd(a, c.modneg(a)), 0);
    }
}

#[test]
fn sub_then_add_restores() {
    let c = CongruenceClass::new(17);
    for a in 0..17u64 {
        for b in 0..17u64 {
            let d = c.modsub(a, b);
            assert_eq!(c.modadd(b, d), a);
        }
    }
}

#[test]
fn reduction_matches_naive_q17() {
    let c = CongruenceClass::new(17);
    for a in 0..17u64 {
        for b in 0..17u64 {
            let expected = (a as u128 * b as u128 % 17) as u64;
            assert_eq!(c.modmul(a, b), expected);
            assert_eq!(modmul_naive(a, b, 17), expected);
            assert_eq!(c.modsquare(a), c.modmul(a, a));
        }
    }
}

#[test]
fn reduction_matches_naive_bigq() {
    let c = CongruenceClass::new(BIGQ);
    let samples = [
        (123456789012345678u64, 987654321098765432u64),
        (BIGQ - 1, BIGQ - 1),
        (BIGQ - 1, 1),
        (0, BIGQ - 1),
        (2862933555777941757, 3037000499),
    ];
    for &(a, b) in samples.iter() {
        let expected = ((a as u128 * b as u128) % BIGQ as u128) as u64;
        assert_eq!(c.modmul(a, b), expected);
        assert_eq!(modmul_naive(a, b, BIGQ), expected);
    }
    assert_eq!(
        c.modmul(123456789012345678, 987654321098765432),
        3398642434856802321
    );
}

#[test]
fn in_place_value_parity() {
    let c = CongruenceClass::new(17);
    for a in 0..17u64 {
        for b in 0..17u64 {
            let mut x = a;
            c.modmul_eq(&mut x, b);
            assert_eq!(x, c.modmul(a, b));
            let mut x = a;
            c.modadd_eq(&mut x, b);
            assert_eq!(x, c.modadd(a, b));
            let mut x = a;
            c.modsub_eq(&mut x, b);
            assert_eq!(x, c.modsub(a, b));
            let mut x = a;
            c.modsquare_eq(&mut x);
            assert_eq!(x, c.modsquare(a));
            let mut x = a;
            c.modneg_eq(&mut x);
            assert_eq!(x, c.modneg(a));
            let mut x = a;
            c.modexp_eq(&mut x, b);
            assert_eq!(x, c.modexp(a, b));
            let mut x = a;
            c.modinv_eq(&mut x);
            assert_eq!(x, c.modinv(a));
        }
    }
}

#[test]
fn fermat_little_theorem_q17() {
    let c = CongruenceClass::new(17);
    for a in 1..17u64 {
        assert_eq!(c.modexp(a, 16), 1);
        assert_eq!(c.modexp(a, 1), a);
    }
    assert_eq!(c.modexp(0, 0), 1);
}

#[test]
fn fermat_little_theorem_q65537() {
    let c = CongruenceClass::new(65537);
    for a in [1u64, 2, 3, 12345, 65536] {
        assert_eq!(c.modexp(a, 65536), 1);
        assert_eq!(c.modexp(a, 1), a);
    }
}

#[test]
fn invert_all_q17() {
    let c = CongruenceClass::new(17);
    for a in 1..17u64 {
        assert_eq!(c.modmul(a, c.modinv(a)), 1);
    }
    assert_eq!(c.modinv(0), 0);
}

#[test]
fn modexp_small_power_bigq() {
    let c = CongruenceClass::new(BIGQ);
    assert_eq!(c.modexp(2, 50), 1u64 << 50);
}

#[test]
fn barrett_old_variant_q17() {
    let (mu, logq) = barrett_precompute_old(17);
    assert_eq!((mu, logq), (60, 5));
    assert_eq!(modmul_barrett_old(5, 6, 17, mu, logq), 13);
    for a in 0..17u64 {
        for b in 0..17u64 {
            assert_eq!(modmul_barrett_old(a, b, 17, mu, logq), a * b % 17);
            let mut x = a;
            modmul_barrett_old_eq(&mut x, b, 17, mu, logq);
            assert_eq!(x, a * b % 17);
        }
    }
}

#[test]
fn barrett_old_variant_bigq() {
    let (mu, logq) = barrett_precompute_old(BIGQ);
    assert_eq!((mu, logq), (BIG_MU, 63));
    assert_eq!(
        modmul_barrett_old(123456789012345678, 987654321098765432, BIGQ, mu, logq),
        3398642434856802321
    );
    assert_eq!(
        modmul_barrett_old(BIGQ - 1, BIGQ - 1, BIGQ, mu, logq),
        modmul_naive(BIGQ - 1, BIGQ - 1, BIGQ)
    );
}

#[test]
fn barrett_fixed_variant_bigq() {
    let mu = barrett_precompute(BIGQ);
    assert_eq!(mu, BIG_MU as u128);
    assert_eq!(
        modmul_barrett(123456789012345678, 987654321098765432, BIGQ, mu),
        3398642434856802321
    );
    assert_eq!(
        modmul_barrett(BIGQ - 1, BIGQ - 1, BIGQ, mu),
        modmul_naive(BIGQ - 1, BIGQ - 1, BIGQ)
    );
    let mut x = 123456789012345678u64;
    modmul_barrett_eq(&mut x, 987654321098765432, BIGQ, mu);
    assert_eq!(x, 3398642434856802321);
}

#[test]
fn first_prime_up_16_8() {
    let p = find_first_prime_up(16, 8).unwrap();
    assert_eq!(p, 65537);
    assert!(p >= (1u64 << 16) + 1);
    assert_eq!(p % 16, 1);
    assert!(primal::is_prime(p));
}

#[test]
fn prime_search_neighbours() {
    assert_eq!(find_next_prime_up(65537, 8), Some(65617));
    assert_eq!(find_first_prime_down(16, 8), Some(65521));
    assert_eq!(find_next_prime_down(65537, 8), Some(65521));
}

#[test]
fn prime_search_exhausted() {
    assert_eq!(find_next_prime_up(u64::MAX - 16, 8), None);
    assert_eq!(find_next_prime_down(48, 8), None);
}

#[test]
fn primitive_roots() {
    assert_eq!(find_primitive_root(17), Some(3));
    assert_eq!(find_primitive_root(65537), Some(3));
}

#[test]
fn generator_has_order_2n() {
    let g = find_generator(65537, 8).unwrap();
    assert_eq!(g, 64);
    let c = CongruenceClass::new(65537);
    assert_eq!(c.modexp(g, 16), 1);
    assert_ne!(c.modexp(g, 8), 1);
    assert_eq!(c.modexp(g, 8), 65536);
}

#[test]
fn margin_check_decides() {
    assert!(reduction_margin_check(2));
    assert!(reduction_margin_check(3));
    assert!(reduction_margin_check(17));
    assert!(reduction_margin_check(65537));
    assert!(reduction_margin_check(BIGQ));
    assert!(!reduction_margin_check(241));
    assert!(!reduction_margin_check(7681));
}

#[test]
fn search_then_generate() {
    let p = find_first_prime_up(16, 8).unwrap();
    assert!(reduction_margin_check(p));
    let g = find_generator(p, 8).unwrap();
    let c = CongruenceClass::new(p);
    assert_eq!(c.modexp(g, 16), 1);
    assert_ne!(c.modexp(g, 8), 1);
}
