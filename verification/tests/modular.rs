use fhe_ckks::modular::{
    extend_gcd, find_primitive_root, general_mod_inv, mod_add, mod_inv, mod_mul, mod_pow,
    mod_sub, newton_lifting, prime_factors, BarrettReducer, MontgomeryParams,
};

#[test]
fn test_mod_add() {
    assert_eq!(mod_add(3, 4, 7), 0);
    assert_eq!(mod_add(5, 6, 11), 0);
}

#[test]
fn test_mod_mul() {
    assert_eq!(mod_mul(3, 4, 7), 5);
    assert_eq!(mod_mul(100, 200, 97), mod_pow(100, 1, 97) * 200 % 97);
}

#[test]
fn test_mod_pow() {
    assert_eq!(mod_pow(2, 10, 1000), 24);
    assert_eq!(mod_pow(3, 0, 7), 1);
    assert_eq!(mod_pow(0, 5, 7), 0);
}

#[test]
fn test_mod_inv() {
    let p = 998_244_353u64;
    let a = 123456789u64;
    let inv = mod_inv(a, p);
    assert_eq!(mod_mul(a, inv, p), 1);
}

#[test]
fn test_extend_gcd_bezout_identity() {
    let (g, x, y) = extend_gcd(240, 46);
    assert_eq!(g, 2);
    assert_eq!(240i128 * x + 46i128 * y, g as i128);

    let (g, x, y) = extend_gcd(3, 11);
    assert_eq!(g, 1);
    assert_eq!(3i128 * x + 11i128 * y, g as i128);
}

#[test]
fn test_general_mod_inv_exists_and_normalized() {
    assert_eq!(general_mod_inv(3, 11), Some(4));
    assert_eq!(general_mod_inv(10, 17), Some(12));
    assert_eq!(general_mod_inv(14, 3), Some(2));

    let pairs = [(3u64, 11u64), (10, 17), (14, 3), (123456789, 998244353)];
    for (a, m) in pairs {
        let inv = general_mod_inv(a, m).unwrap();
        assert!(inv < m, "inverse should be canonical residue");
        assert_eq!(mod_mul(a % m, inv, m), 1);
    }
}

#[test]
fn test_general_mod_inv_non_coprime_or_invalid_modulus() {
    assert_eq!(general_mod_inv(6, 15), None);
    assert_eq!(general_mod_inv(0, 17), None);
    assert_eq!(general_mod_inv(5, 1), None);
    assert_eq!(general_mod_inv(5, 0), None);
}

#[test]
fn test_general_mod_inv_matches_fermat_for_prime_modulus() {
    let p = 998_244_353u64;
    for a in [1u64, 2, 3, 5, 17, 123456789, p - 1] {
        assert_eq!(general_mod_inv(a, p), Some(mod_inv(a, p)));
    }
}

#[test]
fn test_newton_lifting_matches_general_inverse_for_small_powers_of_two() {
    for log2_m in 1u64..=16 {
        let modulus = 1u64 << log2_m;
        for a in (1u64..modulus).step_by(2) {
            let lifted = newton_lifting(a, log2_m);
            let expected = general_mod_inv(a, modulus).unwrap();
            assert_eq!(lifted, expected, "a = {a}, log2_m = {log2_m}");
        }
    }
}

#[test]
fn test_newton_lifting_returns_inverse_mod_2_pow_64() {
    for a in [1u64, 3, 5, 17, 0xffff_ffff_ffff_fffb, u64::MAX] {
        let lifted = newton_lifting(a, 64);
        assert_eq!(a.wrapping_mul(lifted), 1, "a = {a}");
    }
}

#[test]
fn test_newton_lifting_masks_to_requested_precision() {
    for (a, log2_m) in [(3u64, 3u64), (5, 5), (17, 7), (123, 9), (255, 11)] {
        let lifted = newton_lifting(a, log2_m);
        let modulus = 1u64 << log2_m;
        assert!(lifted < modulus, "a = {a}, log2_m = {log2_m}");
        assert_eq!((a * lifted) % modulus, 1, "a = {a}, log2_m = {log2_m}");
    }
}

#[test]
fn test_montgomery_roundtrip() {
    let p = 998_244_353u64;
    let params = MontgomeryParams::new(p);
    for a in [0u64, 1, 2, 3, 5, 17, 123_456_789, p - 1] {
        let mont_a = params.to_montgomery(a);
        assert_eq!(params.from_montgomery(mont_a), a, "a = {a}");
    }
}

#[test]
fn test_montgomery_mul_matches_mod_mul() {
    let p = 998_244_353u64;
    let params = MontgomeryParams::new(p);
    let cases = [
        (0u64, 0u64),
        (0, 1),
        (1, 1),
        (2, 3),
        (5, 17),
        (123_456_789, 987_654_321 % p),
        (p - 1, p - 1),
        (p - 2, p - 3),
    ];

    for (a, b) in cases {
        let mont_a = params.to_montgomery(a);
        let mont_b = params.to_montgomery(b);
        let product = params.mont_mul(mont_a, mont_b);
        assert_eq!(
            params.from_montgomery(product),
            mod_mul(a, b, p),
            "a = {a}, b = {b}"
        );
    }
}

#[test]
fn test_montgomery_with_large_64bit_modulus() {
    let m = u64::MAX - 58;
    let params = MontgomeryParams::new(m);
    let values = [
        0u64,
        1,
        2,
        3,
        1 << 32,
        1_234_567_890_123_456_789,
        m / 2,
        m - 2,
        m - 1,
    ];

    for a in values {
        let mont_a = params.to_montgomery(a);
        assert_eq!(params.from_montgomery(mont_a), a, "roundtrip a = {a}");
    }

    for (a, b) in [
        (1u64, m - 1),
        (2, m - 2),
        (1 << 32, 1 << 33),
        (1_234_567_890_123_456_789, m - 2),
        (m - 2, m - 1),
    ] {
        let mont_a = params.to_montgomery(a);
        let mont_b = params.to_montgomery(b);
        let product = params.mont_mul(mont_a, mont_b);
        assert_eq!(
            params.from_montgomery(product),
            mod_mul(a, b, m),
            "a = {a}, b = {b}"
        );
    }
}

#[test]
fn test_barrett_reduce() {
    let m = 998_244_353u64;
    let reducer = BarrettReducer::new(m);
    for x in [0u64, 1, m - 1, m, m + 1, m * m - 1] {
        let expected = (x as u128 % m as u128) as u64;
        assert_eq!(reducer.reduce(x as u128), expected, "x = {x}");
    }
}

#[test]
fn test_primitive_root() {
    let p = 998_244_353u64;
    let g = find_primitive_root(p).unwrap();
    assert_eq!(mod_pow(g, p - 1, p), 1);
    assert_ne!(mod_pow(g, (p - 1) / 2, p), 1);
}

// ---- further cases ----

#[test]
fn mod_sub_wraps_below_zero() {
    assert_eq!(mod_sub(3, 5, 7), 5);
    assert_eq!(mod_sub(5, 3, 7), 2);
    assert_eq!(mod_sub(0, 0, 7), 0);
}

#[test]
fn mod_add_near_u64_max_does_not_overflow() {
    let m = u64::MAX;
    assert_eq!(mod_add(m - 1, m - 1, m), m - 2);
}

#[test]
fn mod_inv_is_fermat_power() {
    assert_eq!(mod_inv(3, 7), mod_pow(3, 5, 7));
    assert_eq!(mod_mul(3, mod_inv(3, 7), 7), 1);
}

#[test]
fn barrett_mul_reduce_matches_mod_mul() {
    let m = 7681u64;
    let reducer = BarrettReducer::new(m);
    assert_eq!(reducer.mul_reduce(7000, 7680), mod_mul(7000, 7680, m));
}

#[test]
fn prime_factors_of_small_numbers() {
    assert_eq!(prime_factors(1), Vec::<u64>::new());
    assert_eq!(prime_factors(12), vec![2, 3]);
    assert_eq!(prime_factors(998_244_352), vec![2, 7, 17]);
    assert_eq!(prime_factors(97), vec![97]);
}

#[test]
fn primitive_root_of_small_primes() {
    assert_eq!(find_primitive_root(7).unwrap(), 3);
    assert_eq!(find_primitive_root(998_244_353).unwrap(), 3);
    assert!(find_primitive_root(1).is_err());
}

#[test]
fn primitive_root_exists_and_has_full_order_for_small_primes() {
    let is_prime = |n: u64| n >= 2 && (2..n).take_while(|d| d * d <= n).all(|d| n % d != 0);
    for p in (3u64..400).filter(|&p| is_prime(p)) {
        let g = find_primitive_root(p).unwrap();
        assert!(2 <= g && g < p);
        // the order of g is exactly p - 1
        let mut x = 1u64;
        for k in 1..p - 1 {
            x = mod_mul(x, g, p);
            assert_ne!(x, 1, "g = {g} has order {k} modulo {p}");
        }
        assert_eq!(mod_mul(x, g, p), 1);
    }
    assert!(find_primitive_root(2).is_err());
}

#[test]
fn mod_pow_reduces_even_the_empty_power() {
    assert_eq!(mod_pow(3, 0, 1), 0);
    assert_eq!(mod_pow(3, 0, 7), 1);
    assert_eq!(mod_pow(0, 0, 5), 1);
    assert_eq!(mod_pow(12, 5, 1), 0);
}
