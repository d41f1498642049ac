use numtheory::{rational_cf, ContinuedFraction};

#[test]
fn test_cf_sqrt2() {
    let cf = ContinuedFraction::from_sqrt(2);
    assert_eq!(cf.a0, 1);
    assert_eq!(cf.periodic, vec![2]);
}

#[test]
fn test_cf_sqrt3() {
    let cf = ContinuedFraction::from_sqrt(3);
    assert_eq!(cf.a0, 1);
    assert_eq!(cf.periodic, vec![1, 2]);
}

#[test]
fn test_cf_sqrt7() {
    let cf = ContinuedFraction::from_sqrt(7);
    assert_eq!(cf.a0, 2);
    assert_eq!(cf.periodic, vec![1, 1, 1, 4]);
}

#[test]
fn test_cf_perfect_square() {
    let cf = ContinuedFraction::from_sqrt(9);
    assert_eq!(cf.a0, 3);
    assert!(cf.periodic.is_empty());
}

#[test]
fn test_convergents_sqrt2() {
    let cf = ContinuedFraction::from_sqrt(2);
    let convs = cf.convergents(6);
    assert_eq!(convs[0], (1, 1)); // 1
    assert_eq!(convs[1], (3, 2)); // 1.5
    assert_eq!(convs[2], (7, 5)); // 1.4
    assert_eq!(convs[3], (17, 12)); // 1.4166...
    assert_eq!(convs[4], (41, 29)); // 1.4137...
    assert_eq!(convs[5], (99, 70)); // 1.41428...
}

#[test]
fn test_rational_cf() {
    let cf = rational_cf(22, 7);
    assert_eq!(cf.a0, 3);
    assert_eq!(cf.periodic, vec![7]);
}

#[test]
fn test_rational_cf_simple() {
    let cf = rational_cf(7, 3);
    assert_eq!(cf.a0, 2);
    assert_eq!(cf.periodic, vec![3]);
}

#[test]
fn test_period_length() {
    let cf = ContinuedFraction::from_sqrt(13);
    assert_eq!(cf.period_length(), 5);
}

#[test]
fn sqrt_expansions() {
    assert_eq!(ContinuedFraction::from_sqrt(13).periodic, vec![1, 1, 1, 1, 6]);
    assert_eq!(ContinuedFraction::from_sqrt(23).periodic, vec![1, 3, 1, 8]);
    let cf = ContinuedFraction::from_sqrt(0);
    assert_eq!((cf.a0, cf.periodic.len()), (0, 0));
    let cf = ContinuedFraction::from_sqrt(1);
    assert_eq!((cf.a0, cf.periodic.len()), (1, 0));
    // the period always ends with 2 * a0
    for n in [2u64, 3, 5, 6, 7, 8, 10, 11, 12, 14, 15, 19, 31, 46, 94, 1_000_001] {
        let cf = ContinuedFraction::from_sqrt(n);
        assert_eq!(*cf.periodic.last().unwrap(), 2 * cf.a0);
        assert!(cf.a0 * cf.a0 < n && (cf.a0 + 1) * (cf.a0 + 1) > n);
    }
}

#[test]
fn consecutive_convergents_have_unit_determinant() {
    for n in [2u64, 3, 7, 13, 19] {
        let convs = ContinuedFraction::from_sqrt(n).convergents(12);
        for i in 1..convs.len() {
            let (h, k) = convs[i];
            let (h1, k1) = convs[i - 1];
            let det = h as i128 * k1 as i128 - h1 as i128 * k as i128;
            assert_eq!(det, if i % 2 == 0 { -1 } else { 1 });
        }
    }
}

#[test]
fn convergent_counts() {
    let cf = ContinuedFraction::from_sqrt(2);
    assert!(cf.convergents(0).is_empty());
    assert_eq!(cf.convergents(1), vec![(1, 1)]);
    let cf = rational_cf(5, 0);
    assert_eq!(cf.convergents(1), vec![(5, 1)]);
    assert_eq!(cf.convergents(4), vec![(5, 1)]);
    assert_eq!(ContinuedFraction::from_sqrt(9).convergents(3), vec![(3, 1)]);
    assert!(ContinuedFraction::from_sqrt(9).convergents(0).is_empty());
}

fn evaluate(a0: u64, terms: &[u64]) -> (u128, u128) {
    // value of [a0; terms] as a fraction n / d
    let mut n: u128 = 1;
    let mut d: u128 = 0;
    for &t in terms.iter().rev() {
        let next = t as u128 * n + d;
        d = n;
        n = next;
    }
    (a0 as u128 * n + d, n)
}

#[test]
fn rational_expansion_evaluates_back() {
    for (p, q) in [(22u64, 7u64), (7, 3), (355, 113), (1, 5), (0, 9), (144, 89), (1_000_000_007, 998_244_353)] {
        let cf = rational_cf(p, q);
        let (n, d) = evaluate(cf.a0, &cf.periodic);
        assert!(d >= 1);
        assert_eq!(n * q as u128, d * p as u128);
    }
    let cf = rational_cf(5, 0);
    assert_eq!(cf.a0, 5);
    assert!(cf.periodic.is_empty());
    assert_eq!(rational_cf(1, 5).periodic, vec![5]);
    assert!(rational_cf(0, 5).periodic.is_empty());
    assert_eq!(rational_cf(12, 4).periodic, Vec::<u64>::new());
}

fn gcd_u64(a: u64, b: u64) -> u64 {
    if b == 0 { a } else { gcd_u64(b, a % b) }
}

#[test]
fn sqrt_period_is_a_palindrome_with_small_terms() {
    for n in 2u64..2000 {
        let cf = ContinuedFraction::from_sqrt(n);
        if cf.a0 * cf.a0 == n {
            continue;
        }
        let len = cf.periodic.len();
        assert_eq!(cf.periodic[len - 1], 2 * cf.a0);
        for j in 0..len - 1 {
            assert!(1 <= cf.periodic[j] && cf.periodic[j] <= cf.a0, "n = {}", n);
            assert_eq!(cf.periodic[j], cf.periodic[len - 2 - j], "n = {}", n);
        }
    }
    assert_eq!(ContinuedFraction::from_sqrt(31).periodic, vec![1, 1, 3, 5, 3, 1, 1, 10]);
}

#[test]
fn rational_expansion_is_in_lowest_terms() {
    assert_eq!(rational_cf(415, 93).a0, 4);
    assert_eq!(rational_cf(415, 93).periodic, vec![2, 6, 7]);
    assert_eq!(rational_cf(6, 4).periodic, vec![2]);
    for (p, q) in [(415u64, 93u64), (6, 4), (100, 10), (0, 7), (13, 21), (1024, 96), (1, 1)] {
        let cf = rational_cf(p, q);
        for &t in &cf.periodic {
            assert!(t >= 1);
        }
        if let Some(&last) = cf.periodic.last() {
            assert!(last >= 2);
        }
        // the last convergent is p/q reduced
        let (mut h2, mut h1, mut k2, mut k1) = (0u64, 1u64, 1u64, 0u64);
        let terms: Vec<u64> = std::iter::once(cf.a0).chain(cf.periodic.iter().copied()).collect();
        for a in terms {
            let (h, k) = (a * h1 + h2, a * k1 + k2);
            h2 = h1;
            h1 = h;
            k2 = k1;
            k1 = k;
        }
        let g = gcd_u64(p, q);
        assert_eq!((h1, k1), (p / g, q / g), "p = {}, q = {}", p, q);
    }
}
