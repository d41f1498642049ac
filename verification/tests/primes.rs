use numtheory::{
    factorize, is_prime, is_prime_small, miller_rabin, mod_pow, nth_prime, prime_count,
    sieve_primes,
};

#[test]
fn test_sieve_small() {
    let primes = sieve_primes(30);
    assert_eq!(primes, vec![2, 3, 5, 7, 11, 13, 17, 19, 23, 29]);
}

#[test]
fn test_sieve_empty() {
    assert!(sieve_primes(1).is_empty());
}

#[test]
fn test_is_prime_small() {
    assert!(!is_prime_small(0));
    assert!(!is_prime_small(1));
    assert!(is_prime_small(2));
    assert!(is_prime_small(3));
    assert!(!is_prime_small(4));
    assert!(is_prime_small(5));
    assert!(is_prime_small(97));
    assert!(!is_prime_small(99));
}

#[test]
fn test_miller_rabin() {
    // Known primes
    assert!(miller_rabin(2, 5));
    assert!(miller_rabin(7919, 5));
    assert!(miller_rabin(104729, 5));
    assert!(miller_rabin(999999999999999989, 12));

    // Known composites
    assert!(!miller_rabin(4, 5));
    assert!(!miller_rabin(561, 12)); // Carmichael number
    assert!(!miller_rabin(100, 5));
}

#[test]
fn test_is_prime_large() {
    assert!(is_prime(999999999999999989));
    assert!(!is_prime(999999999999999990));
}

#[test]
fn test_factorize() {
    let f = factorize(60);
    assert_eq!(f.len(), 3);
    assert_eq!(f[0].prime, 2);
    assert_eq!(f[0].exponent, 2);
    assert_eq!(f[1].prime, 3);
    assert_eq!(f[1].exponent, 1);
    assert_eq!(f[2].prime, 5);
    assert_eq!(f[2].exponent, 1);
}

#[test]
fn test_factorize_prime() {
    let f = factorize(17);
    assert_eq!(f.len(), 1);
    assert_eq!(f[0].prime, 17);
    assert_eq!(f[0].exponent, 1);
}

#[test]
fn test_factorize_one() {
    assert!(factorize(1).is_empty());
}

#[test]
fn test_mod_pow() {
    assert_eq!(mod_pow(2, 10, 1000), 1024 % 1000);
    assert_eq!(mod_pow(3, 7, 13), ((3u64.pow(7)) % 13));
    assert_eq!(mod_pow(5, 0, 7), 1);
}

#[test]
fn test_nth_prime() {
    assert_eq!(nth_prime(0), 2);
    assert_eq!(nth_prime(1), 3);
    assert_eq!(nth_prime(4), 11);
    assert_eq!(nth_prime(9), 29);
}

#[test]
fn test_prime_count() {
    assert_eq!(prime_count(10), 4);
    assert_eq!(prime_count(100), 25);
}

#[test]
fn sieve_agrees_with_trial_division() {
    let primes = sieve_primes(500);
    for n in 0..=500u64 {
        assert_eq!(primes.contains(&n), is_prime_small(n));
        assert_eq!(is_prime(n), is_prime_small(n));
    }
    assert_eq!(primes.len() as u64, prime_count(500));
    assert!(sieve_primes(0).is_empty());
    assert_eq!(sieve_primes(2), vec![2]);
}

#[test]
fn nth_prime_and_prime_count_agree() {
    for k in 0..60usize {
        let p = nth_prime(k);
        assert!(is_prime_small(p));
        assert_eq!(prime_count(p), k as u64 + 1);
    }
    assert_eq!(nth_prime(99), 541);
    assert_eq!(nth_prime(999), 7919);
}

#[test]
fn factorization_multiplies_back() {
    let f = factorize(360);
    let pairs: Vec<(u64, u32)> = f.iter().map(|pf| (pf.prime, pf.exponent)).collect();
    assert_eq!(pairs, vec![(2, 3), (3, 2), (5, 1)]);
    for n in [2u64, 97, 1024, 999_999, 600_851_475_143, 999999999999999989] {
        let product: u128 = factorize(n)
            .iter()
            .map(|pf| (pf.prime as u128).pow(pf.exponent))
            .product();
        assert_eq!(product, n as u128);
    }
    assert!(factorize(0).is_empty());
}

#[test]
fn miller_rabin_small_and_strong_pseudoprimes() {
    assert!(!miller_rabin(0, 1));
    assert!(!miller_rabin(1, 1));
    assert!(miller_rabin(3, 1));
    // 2047 = 23 * 89 is a strong pseudoprime to base 2 only
    assert!(!miller_rabin(2047, 1));
    assert!(!miller_rabin(3_215_031_751, 1));
    assert!(miller_rabin(18_446_744_073_709_551_557, 1));
    for n in 0..2000u64 {
        assert_eq!(miller_rabin(n, 1), is_prime_small(n));
    }
}

#[test]
fn mod_pow_exponents_add() {
    let m = 1_000_000_007u64;
    let a = mod_pow(3, 40, m) as u128 * mod_pow(3, 60, m) as u128 % m as u128;
    assert_eq!(a as u64, mod_pow(3, 100, m));
    assert_eq!(mod_pow(7, 5, 1), 0);
    assert_eq!(mod_pow(u64::MAX, u64::MAX, u64::MAX - 1), 1);
}

#[test]
fn miller_rabin_accepts_every_prime() {
    for p in sieve_primes(5000) {
        assert!(miller_rabin(p, 1));
    }
    for p in [1_000_000_007u64, 998_244_353, 4_294_967_291, 2_305_843_009_213_693_951] {
        assert!(miller_rabin(p, 1));
        assert!(is_prime(p));
    }
}

#[test]
fn mod_pow_exponents_multiply_and_fermat() {
    let m = 1_000_003u64;
    assert_eq!(mod_pow(mod_pow(7, 12, m), 5, m), mod_pow(7, 60, m));
    for p in [5u64, 13, 101, 7919] {
        for a in 1..p.min(50) {
            assert_eq!(mod_pow(a, p - 1, p), 1);
        }
    }
}

#[test]
fn prime_count_is_monotone() {
    let mut last = 0;
    for n in 0u64..500 {
        let c = prime_count(n);
        assert!(c >= last);
        last = c;
    }
    assert_eq!(prime_count(100), 25);
}
