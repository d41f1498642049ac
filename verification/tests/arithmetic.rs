use numtheory::{
    divisor_count, divisor_sum, divisor_sum_safe, euler_totient, euler_totient_sieve, gcd, lcm,
    mertens, mobius, mobius_sieve,
};

#[test]
fn test_euler_totient() {
    assert_eq!(euler_totient(1), 1);
    assert_eq!(euler_totient(7), 6); // prime
    assert_eq!(euler_totient(10), 4); // 1,3,7,9
    assert_eq!(euler_totient(12), 4); // 1,5,7,11
    assert_eq!(euler_totient(30), 8);
}

#[test]
fn test_euler_totient_sieve() {
    let phi = euler_totient_sieve(30);
    assert_eq!(phi[1], 1);
    assert_eq!(phi[7], 6);
    assert_eq!(phi[10], 4);
    assert_eq!(phi[12], 4);
    assert_eq!(phi[30], 8);
}

#[test]
fn test_mobius() {
    assert_eq!(mobius(1), 1);
    assert_eq!(mobius(2), -1); // one prime factor
    assert_eq!(mobius(6), 1); // 2*3, two primes
    assert_eq!(mobius(4), 0); // 2^2, squared factor
    assert_eq!(mobius(30), -1); // 2*3*5, three primes
    assert_eq!(mobius(12), 0); // 2^2*3
}

#[test]
fn test_mobius_sieve() {
    let mu = mobius_sieve(30);
    assert_eq!(mu[1], 1);
    assert_eq!(mu[2], -1);
    assert_eq!(mu[6], 1);
    assert_eq!(mu[4], 0);
    assert_eq!(mu[30], -1);
}

#[test]
fn test_divisor_count() {
    assert_eq!(divisor_count(1), 1);
    assert_eq!(divisor_count(6), 4); // 1,2,3,6
    assert_eq!(divisor_count(12), 6); // 1,2,3,4,6,12
    assert_eq!(divisor_count(28), 6); // perfect number
}

#[test]
fn test_divisor_sum() {
    assert_eq!(divisor_sum_safe(6), 12); // 1+2+3+6=12
    assert_eq!(divisor_sum_safe(28), 56); // 1+2+4+7+14+28=56
    assert_eq!(divisor_sum_safe(12), 28); // 1+2+3+4+6+12=28
}

#[test]
fn test_gcd_lcm() {
    assert_eq!(gcd(12, 8), 4);
    assert_eq!(lcm(12, 8), 24);
    assert_eq!(gcd(17, 13), 1);
}

#[test]
fn totient_of_zero_and_of_prime_powers() {
    assert_eq!(euler_totient(0), 0);
    assert_eq!(euler_totient(13), 12);
    assert_eq!(euler_totient(8), 4);
    assert_eq!(euler_totient(81), 54);
    assert_eq!(euler_totient(1_000_000), 400_000);
}

#[test]
fn totient_single_agrees_with_sieve() {
    let phi = euler_totient_sieve(200);
    assert_eq!(phi.len(), 201);
    assert_eq!(phi[0], 0);
    for k in 0..=200u64 {
        assert_eq!(phi[k as usize], euler_totient(k));
    }
}

#[test]
fn totient_counts_coprimes_for_small_n() {
    for n in 1..=60u64 {
        let count = (1..=n).filter(|&k| gcd(k, n) == 1).count() as u64;
        assert_eq!(euler_totient(n), count);
    }
}

#[test]
fn mobius_single_agrees_with_sieve() {
    let mu = mobius_sieve(200);
    assert_eq!(mu[0], 0);
    for k in 1..=200u64 {
        assert_eq!(mu[k as usize], mobius(k));
    }
}

#[test]
fn mobius_of_prime_and_prime_square() {
    assert_eq!(mobius(13), -1);
    assert_eq!(mobius(49), 0);
    assert_eq!(mobius(210), 1);
    assert_eq!(mobius(0), 1);
}

#[test]
fn mertens_values() {
    assert_eq!(mertens(1), 1);
    assert_eq!(mertens(10), -1);
    assert_eq!(mertens(100), 1);
    let mu = mobius_sieve(50);
    let total: i64 = mu[1..=50].iter().sum();
    assert_eq!(mertens(50), total);
}

#[test]
fn divisor_functions_match_direct_counts() {
    for n in 1..=100u64 {
        let divisors: Vec<u64> = (1..=n).filter(|d| n % d == 0).collect();
        assert_eq!(divisor_count(n), divisors.len() as u64);
        assert_eq!(divisor_sum_safe(n), divisors.iter().map(|&d| d as u128).sum::<u128>());
        assert_eq!(divisor_sum(n) as u128, divisor_sum_safe(n));
    }
    assert_eq!(divisor_count(0), 0);
    assert_eq!(divisor_sum(0), 0);
    assert_eq!(divisor_sum_safe(0), 0);
}

#[test]
fn divisor_sum_perfect_number() {
    assert_eq!(divisor_sum(28), 56);
    assert_eq!(divisor_sum(496), 992);
    assert_eq!(divisor_sum_safe(1 << 40), (1u128 << 41) - 1);
}

#[test]
fn gcd_times_lcm_is_product() {
    for (a, b) in [(12u64, 18u64), (7, 5), (0, 9), (100, 75), (1, 1)] {
        assert_eq!(gcd(a, b) * lcm(a, b), a * b);
    }
    assert_eq!(lcm(4, 6), 12);
    assert_eq!(lcm(4, 6) % 4, 0);
    assert_eq!(lcm(4, 6) % 6, 0);
    assert_eq!(gcd(0, 0), 0);
    assert_eq!(gcd(12, 18), gcd(18, 12));
}
