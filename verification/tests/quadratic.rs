use numtheory::{is_quadratic_residue, jacobi, kronecker, legendre, quadratic_residues};

#[test]
fn test_legendre() {
    // (2/7) = 1 since 3^2 ≡ 2 (mod 7)
    assert_eq!(legendre(2, 7), 1);
    // QRs mod 7: {1, 2, 4}. So 3 is not a QR.
    assert_eq!(legendre(3, 7), -1);
    assert_eq!(legendre(7, 7), 0);
}

#[test]
fn test_legendre_values() {
    // (5/11) — QRs mod 11: 1,3,4,5,9. So 5 is a QR.
    assert_eq!(legendre(5, 11), 1);
    // (2/11) — 2 is not a QR mod 11 (since 11 ≡ 3 mod 8)
    assert_eq!(legendre(2, 11), -1);
}

#[test]
fn test_jacobi() {
    // (2/15) = (2/3)(2/5) = (-1)(-1) = 1
    assert_eq!(jacobi(2, 15), 1);
    // (5/21) = (5/3)(5/7) = (-1)(-1) = 1
    assert_eq!(jacobi(5, 21), 1);
}

#[test]
fn test_jacobi_prime_agrees() {
    // Jacobi with prime modulus should equal Legendre
    assert_eq!(jacobi(2, 7), legendre(2, 7));
    assert_eq!(jacobi(3, 7), legendre(3, 7));
}

#[test]
fn test_is_quadratic_residue() {
    assert!(is_quadratic_residue(2, 7));
    assert!(!is_quadratic_residue(3, 7));
}

#[test]
fn test_quadratic_residues() {
    let qrs = quadratic_residues(7);
    assert_eq!(qrs, vec![1, 2, 4]);
}

#[test]
fn test_kronecker() {
    assert_eq!(kronecker(2, 15), 1);
    assert_eq!(kronecker(1, 0), 1);
}

#[test]
fn legendre_of_negative_and_large_arguments() {
    assert_eq!(legendre(-1, 7), -1);
    assert_eq!(legendre(-1, 13), 1);
    assert_eq!(legendre(-14, 7), 0);
    assert_eq!(legendre(30, 7), 1); // 30 ≡ 2
}

#[test]
fn jacobi_agrees_with_legendre_on_primes() {
    for p in [3i64, 5, 7, 11, 13, 17, 19, 23, 29, 31] {
        for a in -40i64..40 {
            assert_eq!(jacobi(a, p), legendre(a, p as u64));
        }
    }
}

#[test]
fn jacobi_special_values() {
    assert_eq!(jacobi(0, 1), 1);
    assert_eq!(jacobi(5, 1), 1);
    assert_eq!(jacobi(3, 9), 0);
    assert_eq!(jacobi(2, 9), 1);
    assert_eq!(jacobi(-1, 15), -1);
}

#[test]
fn kronecker_extends_jacobi() {
    for n in [1i64, 3, 9, 15, 21, 35] {
        for a in -20i64..20 {
            assert_eq!(kronecker(a, n), jacobi(a, n));
        }
    }
    assert_eq!(kronecker(0, 0), 0);
    assert_eq!(kronecker(-1, 0), 1);
    assert_eq!(kronecker(2, 0), 0);
    // even moduli
    assert_eq!(kronecker(4, 2), 0);
    assert_eq!(kronecker(3, 2), -1);
    assert_eq!(kronecker(7, 2), 1);
    assert_eq!(kronecker(5, 8), -1);
    // negative moduli
    assert_eq!(kronecker(-1, -1), -1);
    assert_eq!(kronecker(1, -1), 1);
}

#[test]
fn quadratic_residues_lists() {
    assert_eq!(quadratic_residues(11), vec![1, 3, 4, 5, 9]);
    assert_eq!(quadratic_residues(13).len(), 6);
    assert!(quadratic_residues(1).is_empty());
    assert!(quadratic_residues(0).is_empty());
    assert_eq!(quadratic_residues(2), vec![1]);
    for r in quadratic_residues(23) {
        assert!(is_quadratic_residue(r, 23));
    }
}

#[test]
fn legendre_is_multiplicative_and_squares_are_residues() {
    for p in [2u64, 3, 5, 7, 11, 13, 101] {
        for a in -15i64..15 {
            for b in -15i64..15 {
                assert_eq!(legendre(a * b, p), legendre(a, p) * legendre(b, p));
            }
            if a % p as i64 != 0 {
                assert_eq!(legendre(a * a, p), 1);
                assert!(is_quadratic_residue((a * a) as u64 % p, p));
                let v = legendre(a, p);
                assert!(v == 1 || v == -1);
            }
        }
    }
}

#[test]
fn legendre_symbol_detects_squares() {
    for p in [2u64, 3, 5, 13, 17, 29, 37, 41] {
        for a in 0..(3 * p as i64) {
            let is_square = (a as u64) % p != 0 && (0..p).any(|x| x * x % p == a as u64 % p);
            assert_eq!(legendre(a, p) == 1, is_square);
            assert_eq!(legendre(a, p) == -1, (a as u64) % p != 0 && !is_square);
        }
    }
}

#[test]
fn half_of_the_residues_are_squares() {
    for p in [3u64, 5, 7, 11, 13, 101, 997] {
        assert_eq!(quadratic_residues(p).len() as u64, (p - 1) / 2);
    }
}

#[test]
fn jacobi_vanishes_with_legendre_at_primes() {
    for p in [3i64, 5, 7, 11, 13, 97] {
        for a in -60i64..60 {
            let j = jacobi(a, p);
            assert!(j == -1 || j == 0 || j == 1);
            assert_eq!(j == 0, legendre(a, p as u64) == 0, "a = {}, p = {}", a, p);
        }
    }
    // a composite modulus: zero exactly on a common factor
    for a in 0i64..45 {
        let common = a % 3 == 0 || a % 5 == 0;
        assert_eq!(jacobi(a, 15) == 0, common);
    }
}
