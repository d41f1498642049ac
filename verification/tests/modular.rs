use numtheory::modular::mul_mod;
use numtheory::{crt, extended_gcd, mod_add, mod_inverse, mod_mul, mod_pow, mod_sqrt, mod_sub};

#[test]
fn test_mod_inverse() {
    assert_eq!(mod_inverse(3, 7), Some(5)); // 3*5=15≡1(mod7)
    assert_eq!(mod_inverse(2, 5), Some(3)); // 2*3=6≡1(mod5)
    assert_eq!(mod_inverse(2, 4), None); // not coprime
}

#[test]
fn test_extended_gcd() {
    let (g, x, y) = extended_gcd(35, 15);
    assert_eq!(g, 5);
    assert_eq!(35 * x + 15 * y, 5);
}

#[test]
fn test_crt_basic() {
    // x ≡ 2 (mod 3), x ≡ 3 (mod 5), x ≡ 2 (mod 7) → x = 23
    let result = crt(&[2, 3, 2], &[3, 5, 7]);
    assert_eq!(result, Some(23));
}

#[test]
fn test_crt_pair() {
    // x ≡ 1 (mod 2), x ≡ 2 (mod 3) → x = 5
    let result = crt(&[1, 2], &[2, 3]);
    assert_eq!(result, Some(5));
}

#[test]
fn test_crt_single() {
    let result = crt(&[4], &[7]);
    assert_eq!(result, Some(4));
}

#[test]
fn test_mod_sqrt() {
    // sqrt(4) mod 7 = 2 or 5
    let r = mod_sqrt(4, 7);
    assert!(r == Some(2) || r == Some(5));
    // 3^2=9≡2(mod7), so 2 IS a QR mod 7
    let r2 = mod_sqrt(2, 7);
    assert!(r2.is_some());
    let r2v = r2.unwrap();
    assert_eq!(mul_mod(r2v, r2v, 7), 2);
}

#[test]
fn test_mod_add_sub_mul() {
    assert_eq!(mod_add(5, 7, 10), 2);
    assert_eq!(mod_sub(3, 7, 10), 6);
    assert_eq!(mod_mul(6, 7, 10), 2);
}

#[test]
fn extended_gcd_bezout_and_signs() {
    for (a, b) in [(240i64, 46i64), (-240, 46), (17, -5), (0, 9), (9, 0), (-12, -18)] {
        let (g, x, y) = extended_gcd(a, b);
        assert_eq!(a * x + b * y, g);
        assert_eq!(g, numtheory::gcd(a.unsigned_abs(), b.unsigned_abs()) as i64);
    }
    assert_eq!(extended_gcd(0, 0), (0, 0, 1));
    assert_eq!(extended_gcd(0, -5), (5, 0, -1));
    assert_eq!(extended_gcd(-4, 0).0, 4);
}

#[test]
fn mod_inverse_of_negative_and_failure() {
    let x = mod_inverse(-3, 7).unwrap();
    assert_eq!(x, 2); // -3 * 2 = -6 ≡ 1 (mod 7)
    assert_eq!(mod_inverse(6, 9), None);
    assert_eq!(mod_inverse(5, 1), Some(0));
    let inv = mod_inverse(123_456_789, 1_000_000_007).unwrap();
    assert_eq!(mod_mul(123_456_789, inv, 1_000_000_007), 1);
}

#[test]
fn mod_add_and_sub_undo_each_other() {
    let m = 97u64;
    for a in [0u64, 5, 96, 1000, u64::MAX] {
        for b in [0u64, 1, 50, 96, u64::MAX] {
            assert_eq!(mod_sub(mod_add(a, b, m), b, m), a % m);
            assert_eq!(mod_add(mod_sub(a, b, m), b, m), a % m);
        }
    }
    assert_eq!(mod_add(u64::MAX, u64::MAX, u64::MAX), 0);
    assert_eq!(mod_mul(u64::MAX, u64::MAX, 1_000_000_007), ((u64::MAX as u128 * u64::MAX as u128) % 1_000_000_007) as u64);
}

#[test]
fn crt_solution_satisfies_every_congruence() {
    let rems = [3u64, 4, 5, 0];
    let mods = [7u64, 11, 13, 17];
    let x = crt(&rems, &mods).unwrap();
    assert!(x < 7 * 11 * 13 * 17);
    for i in 0..4 {
        assert_eq!(x % mods[i], rems[i] % mods[i]);
    }
    assert_eq!(crt(&[9, 1], &[4, 3]), Some(1));
}

#[test]
fn crt_refusals() {
    // moduli that share a factor
    assert_eq!(crt(&[1, 2], &[4, 6]), None);
    // lengths differ
    assert_eq!(crt(&[1, 2], &[3]), None);
    // nothing to solve
    assert_eq!(crt(&[], &[]), None);
}

#[test]
fn mod_sqrt_cases() {
    // p = 2
    assert_eq!(mod_sqrt(5, 2), Some(1));
    assert_eq!(mod_sqrt(4, 2), Some(0));
    // non-residue
    assert_eq!(mod_sqrt(3, 7), None);
    // multiples of p have the root 0
    assert_eq!(mod_sqrt(0, 7), Some(0));
    assert_eq!(mod_sqrt(7, 7), Some(0));
    assert_eq!(mod_sqrt(26, 13), Some(0));
    // p ≡ 1 (mod 4) takes the full Tonelli–Shanks loop
    for (n, p) in [(10u64, 13u64), (5, 41), (2, 17), (3, 73), (15, 1_000_000_009)] {
        if mod_pow(n, (p - 1) / 2, p) == 1 {
            let r = mod_sqrt(n, p).unwrap();
            assert!(r < p);
            assert_eq!(mul_mod(r, r, p), n % p);
        } else {
            assert_eq!(mod_sqrt(n, p), None);
        }
    }
    // p ≡ 3 (mod 4)
    let r = mod_sqrt(2, 23).unwrap();
    assert_eq!(mul_mod(r, r, 23), 2);
    // a larger prime with a long 2-power part: p - 1 = 2^6 * ... for p = 193
    for n in 1..193u64 {
        match mod_sqrt(n, 193) {
            Some(r) => assert_eq!(mul_mod(r, r, 193), n),
            None => assert_eq!(mod_pow(n, 96, 193), 192),
        }
    }
}

#[test]
fn crt_solution_is_unique_below_the_product() {
    let mods = [4u64, 9, 5];
    let rems = [3u64, 7, 2];
    let x = crt(&rems, &mods).unwrap();
    let matching: Vec<u64> = (0..180u64)
        .filter(|y| (0..3).all(|i| y % mods[i] == rems[i] % mods[i]))
        .collect();
    assert_eq!(matching, vec![x]);
}

#[test]
fn squares_modulo_three_mod_four_primes_have_roots() {
    for p in [3u64, 7, 11, 19, 23, 31, 43] {
        for x in 1..p {
            let n = x * x % p;
            let r = mod_sqrt(n, p).unwrap();
            assert_eq!(mul_mod(r, r, p), n);
        }
    }
}

#[test]
fn every_square_has_a_root_modulo_a_prime() {
    for p in [5u64, 13, 17, 29, 37, 41, 97, 113] {
        for x in 1..p {
            let n = x * x % p;
            let r = mod_sqrt(n, p).unwrap();
            assert_eq!(mul_mod(r, r, p), n);
        }
        // the non-squares are refused
        let squares: Vec<u64> = (1..p).map(|x| x * x % p).collect();
        for n in 1..p {
            assert_eq!(mod_sqrt(n, p).is_some(), squares.contains(&n));
        }
    }
}

#[test]
fn extended_gcd_at_the_bottom_of_the_range() {
    for (a, b) in [(i64::MIN, 5i64), (5, i64::MIN), (i64::MIN, -3), (-1, i64::MIN), (i64::MIN, 6)] {
        let (g, x, y) = extended_gcd(a, b);
        let expected = if a == i64::MIN && b % 2 == 0 { 2 } else { 1 };
        assert_eq!(g, expected);
        assert_eq!(a as i128 * x as i128 + b as i128 * y as i128, g as i128);
    }
}
