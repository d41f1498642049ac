use numtheory::{
    linear_diophantine, linear_diophantine_general, pell_nth_solution, pell_solve,
    pell_negative_fits_check, pell_solve_fits_check, pell_solve_negative, PellSolution,
};

#[test]
fn test_linear_diophantine() {
    // 3x + 5y = 8 → x=1, y=1 is a solution
    let sol = linear_diophantine(3, 5, 8);
    assert!(sol.is_some());
    let (x, y) = sol.unwrap();
    assert_eq!(3 * x + 5 * y, 8);
}

#[test]
fn test_linear_diophantine_no_solution() {
    // 2x + 4y = 5 → no solution (gcd(2,4)=2 does not divide 5)
    assert!(linear_diophantine(2, 4, 5).is_none());
}

#[test]
fn test_linear_diophantine_general() {
    let sol = linear_diophantine_general(6, 9, 21);
    assert!(sol.is_some());
    let sol = sol.unwrap();
    let (x0, y0) = sol.particular;
    assert_eq!(6 * x0 + 9 * y0, 21);
}

#[test]
fn test_pell_d2() {
    // x² - 2y² = 1 → fundamental: x=3, y=2
    let sol = pell_solve(2);
    assert!(sol.is_some());
    let sol = sol.unwrap();
    assert_eq!(sol.x, 3);
    assert_eq!(sol.y, 2);
}

#[test]
fn test_pell_d3() {
    // x² - 3y² = 1 → fundamental: x=2, y=1
    let sol = pell_solve(3);
    assert!(sol.is_some());
    let sol = sol.unwrap();
    assert_eq!(sol.x, 2);
    assert_eq!(sol.y, 1);
}

#[test]
fn test_pell_d5() {
    // x² - 5y² = 1 → fundamental: x=9, y=4
    let sol = pell_solve(5);
    assert!(sol.is_some());
    let sol = sol.unwrap();
    assert_eq!(sol.x as u128 * sol.x as u128 - 5u128 * sol.y as u128 * sol.y as u128, 1);
    assert_eq!(sol.x, 9);
    assert_eq!(sol.y, 4);
}

#[test]
fn test_pell_d7() {
    // x² - 7y² = 1 → fundamental: x=8, y=3
    let sol = pell_solve(7);
    assert!(sol.is_some());
    let sol = sol.unwrap();
    assert_eq!(sol.x, 8);
    assert_eq!(sol.y, 3);
}

#[test]
fn test_pell_d13() {
    // x² - 13y² = 1 → fundamental: x=649, y=180
    let sol = pell_solve(13);
    assert!(sol.is_some());
    let sol = sol.unwrap();
    assert_eq!(sol.x, 649);
    assert_eq!(sol.y, 180);
}

#[test]
fn test_pell_perfect_square() {
    assert!(pell_solve(4).is_none());
}

#[test]
fn test_pell_negative_d2() {
    // x² - 2y² = -1 → x=1, y=1
    let sol = pell_solve_negative(2);
    assert!(sol.is_some());
    let sol = sol.unwrap();
    assert_eq!(sol.x, 1);
    assert_eq!(sol.y, 1);
}

#[test]
fn test_pell_nth_solution() {
    let fund = PellSolution { x: 3, y: 2 };
    let sol2 = pell_nth_solution(2, &fund, 2);
    assert_eq!(sol2.x, 17);
    assert_eq!(sol2.y, 12);
    assert_eq!(sol2.x as u128 * sol2.x as u128 - 2 * sol2.y as u128 * sol2.y as u128, 1);
}

#[test]
fn linear_particular_solutions() {
    assert_eq!(linear_diophantine(3, 5, 8), Some((16, -8)));
    for (a, b, c) in [(-3i64, 5i64, 8i64), (3, -5, 8), (-3, -5, 8), (0, 7, 21), (6, 0, -18), (240, 46, 4)] {
        let (x, y) = linear_diophantine(a, b, c).unwrap();
        assert_eq!(a * x + b * y, c);
    }
    assert_eq!(linear_diophantine(0, 7, 5), None);
    assert_eq!(linear_diophantine(-4, 6, 3), None);
}

#[test]
fn general_solution_covers_the_whole_family() {
    for (a, b, c) in [(6i64, 9i64, 21i64), (3, -5, 1), (-4, 6, 10), (-7, -3, 2), (0, 5, 10), (4, 0, 8)] {
        let sol = linear_diophantine_general(a, b, c).unwrap();
        let (x0, y0) = sol.particular;
        let (dx, dy) = sol.homogeneous;
        assert_eq!(a * dx + b * dy, 0);
        for t in -5i64..=5 {
            assert_eq!(a * (x0 + t * dx) + b * (y0 + t * dy), c);
        }
    }
    let sol = linear_diophantine_general(6, 9, 21).unwrap();
    assert_eq!(sol.homogeneous, (3, -2));
    let sol = linear_diophantine_general(3, -5, 1).unwrap();
    assert_eq!(sol.homogeneous, (5, 3));
    assert!(linear_diophantine_general(2, 4, 5).is_none());
}

#[test]
fn pell_solutions_solve_the_equation() {
    for d in [2u64, 3, 5, 6, 7, 8, 10, 11, 12, 13, 14, 15, 17, 19, 21, 29, 31, 46, 61] {
        let s = pell_solve(d).unwrap();
        assert_eq!(s.x as u128 * s.x as u128, d as u128 * s.y as u128 * s.y as u128 + 1);
    }
    assert_eq!(pell_solve(61).map(|s| (s.x, s.y)), Some((1766319049, 226153980)));
    assert!(pell_solve(0).is_none());
    assert!(pell_solve(1).is_none());
    assert!(pell_solve(49).is_none());
}

#[test]
fn negative_pell() {
    let s = pell_solve_negative(13).unwrap();
    assert_eq!((s.x, s.y), (18, 5));
    let s = pell_solve_negative(5).unwrap();
    assert_eq!((s.x, s.y), (2, 1));
    // even period: no solution
    assert!(pell_solve_negative(3).is_none());
    assert!(pell_solve_negative(7).is_none());
    // perfect square
    assert!(pell_solve_negative(16).is_none());
}

#[test]
fn powers_of_the_fundamental_solution() {
    let fund = PellSolution { x: 3, y: 2 };
    let first = pell_nth_solution(2, &fund, 1);
    assert_eq!((first.x, first.y), (3, 2));
    let zeroth = pell_nth_solution(2, &fund, 0);
    assert_eq!((zeroth.x, zeroth.y), (1, 0));
    let third = pell_nth_solution(2, &fund, 3);
    assert_eq!((third.x, third.y), (99, 70));
    let fund13 = pell_solve(13).unwrap();
    for n in 0..4u32 {
        let s = pell_nth_solution(13, &fund13, n);
        assert_eq!(s.x as u128 * s.x as u128, 13 * s.y as u128 * s.y as u128 + 1);
    }
}

#[test]
fn both_coefficients_zero() {
    assert_eq!(linear_diophantine(0, 0, 0), Some((0, 0)));
    assert_eq!(linear_diophantine(0, 0, 7), None);
    assert_eq!(linear_diophantine(0, 0, -1), None);
    let sol = linear_diophantine_general(0, 0, 0).unwrap();
    assert_eq!(sol.particular, (0, 0));
    assert_eq!(sol.homogeneous, (0, 0));
    assert!(linear_diophantine_general(0, 0, 3).is_none());
}

#[test]
fn every_solution_lies_in_the_general_family() {
    // brute force over a box: each solution of a*x + b*y = c is x0 + t*dx, y0 + t*dy
    for (a, b, c) in [(6i64, 9i64, 21i64), (3, -5, 1), (-4, 6, 10), (0, 5, 10), (4, 0, 8), (-7, -3, 2)] {
        let sol = linear_diophantine_general(a, b, c).unwrap();
        let (x0, y0) = sol.particular;
        let (dx, dy) = sol.homogeneous;
        for x in -40i64..=40 {
            for y in -40i64..=40 {
                if a * x + b * y != c {
                    continue;
                }
                let found = (-200i64..=200).any(|t| x0 + t * dx == x && y0 + t * dy == y);
                assert!(found, "({}, {}) not in the family for ({}, {}, {})", x, y, a, b, c);
            }
        }
    }
}

#[test]
fn negative_pell_on_squares() {
    for m in [0u64, 2, 3, 7] {
        let d = m * m;
        assert!(pell_solve_negative(d).is_none());
        for x in 0i64..200 {
            for y in 0i64..200 {
                assert_ne!(x * x - (d as i64) * y * y, -1);
            }
        }
    }
}

#[test]
fn overflow_checks_before_solving() {
    for d in 2u64..200 {
        assert!(pell_solve_fits_check(d));
        assert!(pell_negative_fits_check(d));
    }
    assert!(pell_solve_fits_check(61));
    assert!(!pell_solve_fits_check(991));
    assert!(pell_negative_fits_check(991));
    assert!(!pell_negative_fits_check(277));
    assert!(pell_solve_fits_check(4));
}
