use numtheory::{count_primitive_characters, euler_totient, legendre, DirichletCharacter};

#[test]
fn test_principal_character() {
    let chi = DirichletCharacter::principal(5);
    assert_eq!(chi.eval_i64(1), 1);
    assert_eq!(chi.eval_i64(2), 1);
    assert_eq!(chi.eval_i64(3), 1);
    assert_eq!(chi.eval_i64(4), 1);
    assert_eq!(chi.eval_i64(5), 0); // gcd(5,5)≠1
    assert!(chi.is_principal());
}

#[test]
fn test_legendre_character_mod5() {
    let chi = DirichletCharacter::legendre_character(5);
    // QRs mod 5: 1, 4. So (1/5)=1, (2/5)=-1, (3/5)=-1, (4/5)=1
    assert_eq!(chi.eval_i64(1), 1);
    assert_eq!(chi.eval_i64(2), -1);
    assert_eq!(chi.eval_i64(3), -1);
    assert_eq!(chi.eval_i64(4), 1);
    assert!(!chi.is_principal());
}

#[test]
fn principal_character_is_multiplicative_and_periodic() {
    let chi = DirichletCharacter::principal(12);
    assert_eq!(chi.modulus(), 12);
    for a in 0..40u64 {
        for b in 0..40u64 {
            assert_eq!(chi.eval_i64(a * b), chi.eval_i64(a) * chi.eval_i64(b));
        }
        if a > 0 {
            assert_eq!(chi.eval_i64(a + 12), chi.eval_i64(a));
        }
    }
    assert_eq!(chi.eval_i64(0), 0);
    assert_eq!(chi.eval_i64(7), 1);
    assert_eq!(chi.eval_i64(9), 0);
    assert!(chi.is_principal());
}

#[test]
fn principal_character_mod_one() {
    let chi = DirichletCharacter::principal(1);
    assert_eq!(chi.modulus(), 1);
    assert_eq!(chi.eval_i64(0), 0);
    assert_eq!(chi.eval_i64(5), 1);
    assert!(chi.is_principal());
}

#[test]
fn legendre_character_values() {
    let chi = DirichletCharacter::legendre_character(7);
    assert_eq!(chi.modulus(), 7);
    for n in 1..30u64 {
        assert_eq!(chi.eval_i64(n), legendre(n as i64, 7));
    }
    assert_eq!(chi.eval_i64(14), 0);
}

#[test]
fn primitive_character_count() {
    assert_eq!(count_primitive_characters(5), 3);
    assert_eq!(count_primitive_characters(7), 5);
    assert_eq!(count_primitive_characters(12), 1);
    assert_eq!(count_primitive_characters(4), 1);
    assert_eq!(count_primitive_characters(8), 2);
    assert_eq!(count_primitive_characters(2), 0);
    assert_eq!(count_primitive_characters(6), 0);
    assert_eq!(count_primitive_characters(1), 1);
    assert_eq!(count_primitive_characters(0), 0);
    assert_eq!(count_primitive_characters(100), 16);
    // summing over the divisors d of q gives the number φ(q) of all characters mod q
    for q in 1..200u64 {
        let total: u64 = (1..=q).filter(|d| q % d == 0).map(count_primitive_characters).sum();
        assert_eq!(total, euler_totient(q));
    }
}

#[test]
fn character_from_its_table() {
    let chi = DirichletCharacter::from_table(3, vec![0, 1, -1]).unwrap();
    assert_eq!(chi.modulus(), 3);
    assert_eq!(chi.table(), &vec![0, 1, -1]);
    assert_eq!(chi.eval_i64(5), -1);
    assert!(!chi.is_principal());
    assert!(DirichletCharacter::from_table(4, vec![0, 1]).is_none());
    let principal = DirichletCharacter::principal(4);
    assert_eq!(principal.table(), &vec![0, 1, 0, 1]);
}

#[test]
fn legendre_characters_are_not_principal_and_multiplicative() {
    for p in [3u64, 5, 7, 11, 13] {
        let chi = DirichletCharacter::legendre_character(p);
        assert!(!chi.is_principal());
        for a in 0..30u64 {
            for b in 0..30u64 {
                assert_eq!(chi.eval_i64(a * b), chi.eval_i64(a) * chi.eval_i64(b));
            }
        }
    }
}
