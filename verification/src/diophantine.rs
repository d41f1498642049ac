//! Diophantine equations: linear equations and Pell's equation.
use crate::divisibility::{lemma_gcd_divides, spec_gcd};
use crate::modular::{
    abs, ext_gcd_spec, extended_gcd, lemma_exec_signed_div_rem, lemma_ext_gcd, lemma_trunc_div_rem,
    trunc_div, trunc_rem,
};
use vstd::arithmetic::div_mod::*;
use vstd::arithmetic::mul::*;
use crate::continued_fraction::{
    convergent_denominator, convergent_numerator, isqrt, lemma_cf_term_is_sqrt_term,
    lemma_isqrt_unique, lemma_period_end_state, lemma_sqrt_a0_facts, lemma_states_reduced,
    lemma_states_repeat, lemma_state_term, sqrt_a0, sqrt_cf_state, sqrt_cf_term,
    sqrt_period_length, sqrt_periodic_part, ContinuedFraction,
};
use vstd::prelude::*;

verus! {

// ---------------------------------------------------------------------------
// Linear equations
// ---------------------------------------------------------------------------

pub open spec fn signum(x: int) -> int {
    if x > 0 {
        1
    } else if x < 0 {
        -1
    } else {
        0
    }
}

/// `a*x + b*y = c` has an integer solution: `gcd(|a|, |b|)` divides `c`, and when
/// `a == b == 0` (where the gcd is 0) exactly when `c == 0`.
pub open spec fn linear_solvable(a: int, b: int, c: int) -> bool {
    if a == 0 && b == 0 {
        c == 0
    } else {
        c % (spec_gcd(abs(a) as nat, abs(b) as nat) as int) == 0
    }
}

/// The solution of `a*x + b*y = c` built from the Bézout coefficients of `|a|` and `|b|`:
/// `(x0 * c/g * sign(a), y0 * c/g * sign(b))` with `g = gcd(|a|, |b|)`; `(0, 0)` when
/// `a == b == 0`.
pub open spec fn linear_particular(a: int, b: int, c: int) -> (int, int) {
    if a == 0 && b == 0 {
        (0, 0)
    } else {
        let (g, x0, y0) = ext_gcd_spec(abs(a), abs(b));
        (x0 * (c / g) * signum(a), y0 * (c / g) * signum(b))
    }
}

/// The particular solution fits in 64 bits whenever `gcd(|a|, |b|)` divides `c`.
pub open spec fn linear_particular_fits(a: int, b: int, c: int) -> bool {
    let (g, x0, y0) = ext_gcd_spec(abs(a), abs(b));
    (a != 0 || b != 0) ==> (c % g == 0 ==> abs(x0 * (c / g)) <= i64::MAX && abs(y0 * (c / g))
        <= i64::MAX)
}

/// Solve the linear Diophantine equation `a*x + b*y = c`: `Some((x, y))` exactly when a
/// solution exists, that is when `gcd(|a|, |b|)` divides `c` (for `a == b == 0`, when
/// `c == 0`, answered with `(0, 0)`).
pub fn linear_diophantine(a: i64, b: i64, c: i64) -> (r: Option<(i64, i64)>)
    requires
        a != i64::MIN,
        b != i64::MIN,
        linear_particular_fits(a as int, b as int, c as int),
    ensures
        r is Some <==> linear_solvable(a as int, b as int, c as int),
        r matches Some((x, y)) ==> (x as int, y as int) == linear_particular(
            a as int,
            b as int,
            c as int,
        ) && a * x + b * y == c,
{
    if a == 0 && b == 0 {
        return if c == 0 {
            Some((0, 0))
        } else {
            None
        };
    }
    let aa = if a < 0 {
        -a
    } else {
        a
    };
    let ba = if b < 0 {
        -b
    } else {
        b
    };
    proof {
        crate::modular::lemma_ext_gcd_fits(aa as int, ba as int);
    }
    let (g, x, y) = extended_gcd(aa, ba);
    proof {
        lemma_ext_gcd(aa as int, ba as int);
        assert(g > 0);
        lemma_exec_signed_div_rem(c as int, g as int);
        lemma_trunc_div_rem(c as int, g as int);
        crate::modular::lemma_trunc_rem_to_euclid(c as int, g as int);
    }
    if c % g != 0 {
        return None;
    }
    let factor = c / g;
    proof {
        // g divides c exactly, so the quotient rounding toward zero is exact
        assert(c == factor * g);
        lemma_fundamental_div_mod_converse(c as int, g as int, factor as int, 0);
        assert(abs(x as int * factor as int) <= i64::MAX);
        assert(abs(y as int * factor as int) <= i64::MAX);
    }
    let sa: i64 = if a > 0 {
        1
    } else if a < 0 {
        -1
    } else {
        0
    };
    let sb: i64 = if b > 0 {
        1
    } else if b < 0 {
        -1
    } else {
        0
    };
    proof {
        assert(abs(x as int * factor as int * sa as int) <= i64::MAX) by (nonlinear_arith)
            requires
                abs(x as int * factor as int) <= i64::MAX,
                sa == 1 || sa == -1 || sa == 0,
        ;
        assert(abs(y as int * factor as int * sb as int) <= i64::MAX) by (nonlinear_arith)
            requires
                abs(y as int * factor as int) <= i64::MAX,
                sb == 1 || sb == -1 || sb == 0,
        ;
    }
    let xs = x * factor * sa;
    let ys = y * factor * sb;
    proof {
        assert(a == sa * aa);
        assert(b == sb * ba);
        let xf = x as int * factor as int;
        let yf = y as int * factor as int;
        assert(a * xs == aa * xf) by {
            if sa == 0 {
                assert(a == 0 && aa == 0);
            } else if sa == 1 {
                assert(xs == xf);
            } else {
                assert(xs == -xf);
                assert(a == -aa);
                lemma_mul_unary_negation(aa as int, xf);
                lemma_mul_cancels_negatives(aa as int, xf);
            }
        }
        assert(b * ys == ba * yf) by {
            if sb == 0 {
                assert(b == 0 && ba == 0);
            } else if sb == 1 {
                assert(ys == yf);
            } else {
                assert(ys == -yf);
                assert(b == -ba);
                lemma_mul_cancels_negatives(ba as int, yf);
            }
        }
        assert(aa * xf + ba * yf == factor * g) by (nonlinear_arith)
            requires
                aa * x + ba * y == g,
                xf == x * factor,
                yf == y * factor,
        ;
    }
    Some((xs, ys))
}

/// General solution of a linear Diophantine equation: `x = x0 + t*dx, y = y0 + t*dy`.
pub struct LinearDiophantineSolution {
    pub particular: (i64, i64),
    pub homogeneous: (i64, i64),
}

/// The step `(dx, dy)` between solutions: `(|b|/g, ∓|a|/g)`, the sign of `dy` chosen so that
/// `a*dx + b*dy = 0`; `(0, 0)` when `a == b == 0`.
pub open spec fn linear_homogeneous(a: int, b: int) -> (int, int) {
    if a == 0 && b == 0 {
        (0, 0)
    } else {
        let g = spec_gcd(abs(a) as nat, abs(b) as nat) as int;
        (abs(b) / g, if signum(a) * signum(b) < 0 {
            abs(a) / g
        } else {
            -(abs(a) / g)
        })
    }
}

/// Solve `a*x + b*y = c` with the general solution parameterized by `t ∈ Z`. For
/// `a == b == 0` and `c == 0` the answer is the particular solution `(0, 0)` with step `(0, 0)`.
pub fn linear_diophantine_general(a: i64, b: i64, c: i64) -> (r: Option<LinearDiophantineSolution>)
    requires
        a != i64::MIN,
        b != i64::MIN,
        linear_particular_fits(a as int, b as int, c as int),
    ensures
        r is Some <==> linear_solvable(a as int, b as int, c as int),
        r matches Some(sol) ==> {
            &&& (sol.particular.0 as int, sol.particular.1 as int) == linear_particular(
                a as int,
                b as int,
                c as int,
            )
            &&& (sol.homogeneous.0 as int, sol.homogeneous.1 as int) == linear_homogeneous(
                a as int,
                b as int,
            )
        },
{
    let (x0, y0) = match linear_diophantine(a, b, c) {
        Some(s) => s,
        None => {
            return None;
        },
    };
    if a == 0 && b == 0 {
        return Some(LinearDiophantineSolution { particular: (x0, y0), homogeneous: (0, 0) });
    }
    let aa = if a < 0 {
        -a
    } else {
        a
    };
    let ba = if b < 0 {
        -b
    } else {
        b
    };
    proof {
        crate::modular::lemma_ext_gcd_fits(aa as int, ba as int);
    }
    let g = extended_gcd(aa, ba).0;
    proof {
        lemma_ext_gcd(aa as int, ba as int);
        lemma_div_pos_is_pos(aa as int, g as int);
        lemma_div_pos_is_pos(ba as int, g as int);
        lemma_div_is_ordered_by_denominator(aa as int, 1, g as int);
        lemma_div_is_ordered_by_denominator(ba as int, 1, g as int);
    }
    let dx = ba / g;
    let dy = if (a < 0 && b > 0) || (a > 0 && b < 0) {
        aa / g
    } else {
        -(aa / g)
    };
    Some(LinearDiophantineSolution { particular: (x0, y0), homogeneous: (dx, dy) })
}


/// With `s` the sign of `a`, `a * (x * s) == |a| * x`.
proof fn lemma_signed_scale(a: int, x: int)
    ensures
        a * (x * signum(a)) == abs(a) * x,
{
    let sa = signum(a);
    let aa = abs(a);
    assert(a * (x * sa) == aa * x) by (nonlinear_arith)
        requires
            a > 0 ==> sa == 1 && aa == a,
            a < 0 ==> sa == -1 && aa == -a,
            a == 0 ==> sa == 0 && aa == 0,
    ;
}

/// The particular solution built from Bézout's coefficients solves `a*x + b*y = c` whenever
/// `gcd(|a|, |b|)` divides `c`.
pub proof fn lemma_linear_particular_solves(a: int, b: int, c: int)
    requires
        a != 0 || b != 0,
        c % (spec_gcd(abs(a) as nat, abs(b) as nat) as int) == 0,
    ensures
        ({
            let (x, y) = linear_particular(a, b, c);
            a * x + b * y == c
        }),
{
    let (g, x0, y0) = ext_gcd_spec(abs(a), abs(b));
    lemma_ext_gcd(abs(a), abs(b));
    let f = c / g;
    lemma_fundamental_div_mod(c, g);
    lemma_signed_scale(a, x0 * f);
    lemma_signed_scale(b, y0 * f);
    assert(abs(a) * (x0 * f) + abs(b) * (y0 * f) == (abs(a) * x0 + abs(b) * y0) * f)
        by (nonlinear_arith);
    lemma_mul_is_commutative(g, f);
}

/// The step `(dx, dy)` solves the homogeneous equation: `a*dx + b*dy == 0`.
pub proof fn lemma_linear_homogeneous_solves(a: int, b: int)
    requires
        a != 0 || b != 0,
    ensures
        ({
            let (dx, dy) = linear_homogeneous(a, b);
            a * dx + b * dy == 0
        }),
{
    let g = spec_gcd(abs(a) as nat, abs(b) as nat) as int;
    lemma_gcd_divides(abs(a) as nat, abs(b) as nat);
    let al = abs(a) / g;
    let be = abs(b) / g;
    lemma_fundamental_div_mod(abs(a), g);
    lemma_fundamental_div_mod(abs(b), g);
    let (dx, dy) = linear_homogeneous(a, b);
    // |a| * (|b| / g) == |b| * (|a| / g)
    assert(abs(a) * be == abs(b) * al) by (nonlinear_arith)
        requires
            abs(a) == g * al,
            abs(b) == g * be,
    ;
    let ab = abs(a) * be;
    if a > 0 && b > 0 || a < 0 && b < 0 {
        assert(dy == -al);
        assert(a * be + b * (-al) == 0) by (nonlinear_arith)
            requires
                a == abs(a) && b == abs(b) || a == -abs(a) && b == -abs(b),
                abs(a) * be == abs(b) * al,
        ;
    } else if a > 0 && b < 0 || a < 0 && b > 0 {
        assert(dy == al);
        assert(a * be + b * al == 0) by (nonlinear_arith)
            requires
                a == abs(a) && b == -abs(b) || a == -abs(a) && b == abs(b),
                abs(a) * be == abs(b) * al,
        ;
    } else if a == 0 {
        assert(b * dy == 0) by {
            assert(al == 0) by {
                lemma_div_basics(g);
            }
        }
    } else {
        assert(be == 0) by {
            lemma_div_basics(g);
        }
        assert(a * 0 == 0);
    }
}

/// Every member of the general solution solves the equation: for each `t`,
/// `a*(x0 + t*dx) + b*(y0 + t*dy) == c`.
pub proof fn lemma_linear_general_solves(a: int, b: int, c: int, t: int)
    requires
        a != 0 || b != 0,
        c % (spec_gcd(abs(a) as nat, abs(b) as nat) as int) == 0,
    ensures
        ({
            let (x0, y0) = linear_particular(a, b, c);
            let (dx, dy) = linear_homogeneous(a, b);
            a * (x0 + t * dx) + b * (y0 + t * dy) == c
        }),
{
    let (x0, y0) = linear_particular(a, b, c);
    let (dx, dy) = linear_homogeneous(a, b);
    lemma_linear_particular_solves(a, b, c);
    lemma_linear_homogeneous_solves(a, b);
    lemma_mul_is_distributive_add(a, x0, t * dx);
    lemma_mul_is_distributive_add(b, y0, t * dy);
    lemma_mul_is_distributive_add(t, a * dx, b * dy);
    lemma_mul_is_associative(a, t, dx);
    lemma_mul_is_associative(t, a, dx);
    lemma_mul_is_commutative(a, t);
    lemma_mul_is_associative(b, t, dy);
    lemma_mul_is_associative(t, b, dy);
    lemma_mul_is_commutative(b, t);
    assert(t * 0 == 0);
}

/// The member of the general solution with parameter `t`: `(x0 + t*dx, y0 + t*dy)`.
pub open spec fn linear_general_member(a: int, b: int, c: int, t: int) -> (int, int) {
    let (x0, y0) = linear_particular(a, b, c);
    let (dx, dy) = linear_homogeneous(a, b);
    (x0 + t * dx, y0 + t * dy)
}

/// The general solution is complete: when `a` and `b` are not both zero, every integer
/// solution `(x, y)` of `a*x + b*y = c` shows the equation solvable and is the member of the
/// general solution for some `t`.
pub proof fn lemma_linear_general_complete(a: int, b: int, c: int, x: int, y: int)
    requires
        a != 0 || b != 0,
        a * x + b * y == c,
    ensures
        linear_solvable(a, b, c),
        exists|t: int| #[trigger] linear_general_member(a, b, c, t) == (x, y),
{
    let g = spec_gcd(abs(a) as nat, abs(b) as nat) as int;
    lemma_gcd_divides(abs(a) as nat, abs(b) as nat);
    assert(g > 0);
    let ap = abs(a) / g;
    let bp = abs(b) / g;
    lemma_fundamental_div_mod(abs(a), g);
    lemma_fundamental_div_mod(abs(b), g);
    assert(abs(a) == g * ap);
    assert(abs(b) == g * bp);
    let sa = signum(a);
    let sb = signum(b);
    assert(a == sa * g * ap) by (nonlinear_arith)
        requires
            abs(a) == g * ap,
            a > 0 ==> sa == 1 && abs(a) == a,
            a < 0 ==> sa == -1 && abs(a) == -a,
            a == 0 ==> sa == 0,
    ;
    assert(b == sb * g * bp) by (nonlinear_arith)
        requires
            abs(b) == g * bp,
            b > 0 ==> sb == 1 && abs(b) == b,
            b < 0 ==> sb == -1 && abs(b) == -b,
            b == 0 ==> sb == 0,
    ;
    // g divides c
    let q = sa * ap * x + sb * bp * y;
    assert(a * x == g * (sa * ap * x)) by (nonlinear_arith)
        requires
            a == sa * g * ap,
    ;
    assert(b * y == g * (sb * bp * y)) by (nonlinear_arith)
        requires
            b == sb * g * bp,
    ;
    lemma_mul_is_distributive_add(g, sa * ap * x, sb * bp * y);
    lemma_mul_is_commutative(g, q);
    assert(c == q * g);
    lemma_mod_multiples_basic(q, g);
    assert(linear_solvable(a, b, c));
    // the difference to the particular solution solves the homogeneous equation
    lemma_linear_particular_solves(a, b, c);
    let (x0, y0) = linear_particular(a, b, c);
    let (dx, dy) = linear_homogeneous(a, b);
    let xd = x - x0;
    let yd = y - y0;
    assert(a * xd + b * yd == 0) by (nonlinear_arith)
        requires
            a * x + b * y == c,
            a * x0 + b * y0 == c,
            xd == x - x0,
            yd == y - y0,
    ;
    assert(sa * ap * xd + sb * bp * yd == 0) by (nonlinear_arith)
        requires
            a == sa * g * ap,
            b == sb * g * bp,
            a * xd + b * yd == 0,
            g > 0,
    ;
    assert(dx == bp);
    if b == 0 {
        assert(a != 0);
        assert(sb == 0);
        assert(abs(b) == 0);
        assert(g == abs(a));
        lemma_div_basics(g);
        assert(ap == 1);
        assert(bp == 0);
        assert(dy == -1);
        assert(sa * sa == 1);
        assert(xd == 0) by (nonlinear_arith)
            requires
                sa * ap * xd + sb * bp * yd == 0,
                ap == 1,
                bp == 0,
                sa * sa == 1,
        ;
        let t = -yd;
        assert(linear_general_member(a, b, c, t) == (x, y)) by (nonlinear_arith)
            requires
                linear_general_member(a, b, c, t) == (x0 + t * dx, y0 + t * dy),
                dx == 0,
                dy == -1,
                t == -yd,
                xd == 0,
                xd == x - x0,
                yd == y - y0,
        ;
    } else {
        assert(sb * sb == 1);
        assert(bp != 0);
        // Bezout for the reduced coefficients: ap*u + bp*v == 1
        let (g1, u, v) = ext_gcd_spec(abs(a), abs(b));
        lemma_ext_gcd(abs(a), abs(b));
        assert(g1 == g);
        assert(ap * u + bp * v == 1) by (nonlinear_arith)
            requires
                abs(a) * u + abs(b) * v == g,
                abs(a) == g * ap,
                abs(b) == g * bp,
                g > 0,
        ;
        let k = -sa * sb * yd;
        assert(ap * xd == bp * k) by {
            if a == 0 {
                assert(sa == 0);
                assert(ap == 0) by {
                    lemma_div_basics(g);
                }
                assert(ap * xd == 0);
                assert(bp * k == 0) by (nonlinear_arith)
                    requires
                        k == -sa * sb * yd,
                        sa == 0,
                ;
            } else {
                assert(sa * sa == 1);
                assert(ap * xd == bp * k) by (nonlinear_arith)
                    requires
                        sa * ap * xd + sb * bp * yd == 0,
                        sa * sa == 1,
                        k == -sa * sb * yd,
                ;
            }
        }
        let t = k * u + xd * v;
        assert(xd == bp * t) by (nonlinear_arith)
            requires
                ap * u + bp * v == 1,
                ap * xd == bp * k,
                t == k * u + xd * v,
        ;
        assert(yd == -sa * sb * ap * t) by (nonlinear_arith)
            requires
                sa * ap * xd + sb * bp * yd == 0,
                xd == bp * t,
                bp != 0,
                sb * sb == 1,
        ;
        assert(yd == t * dy) by {
            if sa * sb < 0 {
                assert(sa * sb == -1) by (nonlinear_arith)
                    requires
                        sa == 1 || sa == -1 || sa == 0,
                        sb == 1 || sb == -1,
                        sa * sb < 0,
                ;
                assert(dy == ap);
                assert(yd == t * dy) by (nonlinear_arith)
                    requires
                        yd == -sa * sb * ap * t,
                        sa * sb == -1,
                        dy == ap,
                ;
            } else {
                assert(dy == -ap);
                if a == 0 {
                    assert(ap == 0) by {
                        lemma_div_basics(g);
                    }
                    assert(sa == 0);
                    assert(yd == t * dy) by (nonlinear_arith)
                        requires
                            yd == -sa * sb * ap * t,
                            sa == 0,
                            dy == -ap,
                            ap == 0,
                    ;
                } else {
                    assert(sa * sb == 1) by (nonlinear_arith)
                        requires
                            sa == 1 || sa == -1,
                            sb == 1 || sb == -1,
                            sa * sb >= 0,
                    ;
                    assert(yd == t * dy) by (nonlinear_arith)
                        requires
                            yd == -sa * sb * ap * t,
                            sa * sb == 1,
                            dy == -ap,
                    ;
                }
            }
        }
        assert(linear_general_member(a, b, c, t) == (x, y)) by (nonlinear_arith)
            requires
                linear_general_member(a, b, c, t) == (x0 + t * dx, y0 + t * dy),
                dx == bp,
                xd == bp * t,
                yd == t * dy,
                xd == x - x0,
                yd == y - y0,
        ;
    }
}

// ---------------------------------------------------------------------------
// Pell's equation
// ---------------------------------------------------------------------------

/// A solution `(x, y)` of Pell's equation.
pub struct PellSolution {
    pub x: u64,
    pub y: u64,
}

/// The numerator `h_i` of the `i`-th convergent of √d.
pub open spec fn sqrt_convergent_numerator(d: nat, i: int) -> nat {
    convergent_numerator(sqrt_a0(d) as u64, sqrt_periodic_part(d), i)
}

/// The denominator `k_i` of the `i`-th convergent of √d.
pub open spec fn sqrt_convergent_denominator(d: nat, i: int) -> nat {
    convergent_denominator(sqrt_a0(d) as u64, sqrt_periodic_part(d), i)
}

/// `h_i^2 - d * k_i^2` for the `i`-th convergent of √d.
pub open spec fn pell_residual(d: nat, i: int) -> int {
    let h = sqrt_convergent_numerator(d, i);
    let k = sqrt_convergent_denominator(d, i);
    h * h - d * k * k
}

/// The first index `i` with `from <= i < limit` whose convergent of √d satisfies
/// `h_i^2 - d * k_i^2 = target`.
pub open spec fn first_pell_convergent(d: nat, target: int, from: nat, limit: nat) -> Option<nat>
    decreases limit - from,
{
    if from >= limit {
        None
    } else if pell_residual(d, from as int) == target {
        Some(from)
    } else {
        first_pell_convergent(d, target, from + 1, limit)
    }
}

/// The convergents of √d below `limit` fit in 64 bits.
pub open spec fn convergents_fit(d: nat, limit: nat) -> bool {
    forall|i: int|
        0 <= i < limit ==> #[trigger] sqrt_convergent_numerator(d, i) <= u64::MAX
            && sqrt_convergent_denominator(d, i) <= u64::MAX
}

/// The solution made of the `i`-th convergent, if any.
pub open spec fn pell_solution_at(d: nat, found: Option<nat>) -> Option<PellSolution> {
    match found {
        Some(i) => Some(
            PellSolution {
                x: sqrt_convergent_numerator(d, i as int) as u64,
                y: sqrt_convergent_denominator(d, i as int) as u64,
            },
        ),
        None => None,
    }
}

proof fn lemma_first_pell_extends(d: nat, target: int, from: nat, l1: nat, l2: nat)
    requires
        l1 <= l2,
        first_pell_convergent(d, target, from, l1) is Some,
    ensures
        first_pell_convergent(d, target, from, l2) == first_pell_convergent(d, target, from, l1),
    decreases l1 - from,
{
    if from < l1 && pell_residual(d, from as int) != target {
        lemma_first_pell_extends(d, target, from + 1, l1, l2);
    }
}

proof fn lemma_first_pell_found(d: nat, target: int, from: nat, limit: nat)
    requires
        from < limit,
        first_pell_convergent(d, target, from, limit) is Some,
    ensures
        ({
            let i = first_pell_convergent(d, target, from, limit)->0;
            &&& from <= i < limit
            &&& pell_residual(d, i as int) == target
        }),
    decreases limit - from,
{
    if pell_residual(d, from as int) != target {
        if from + 1 < limit {
            lemma_first_pell_found(d, target, from + 1, limit);
        }
    }
}

/// `(-1)^j`.
pub open spec fn minus_one_pow(j: int) -> int {
    if j % 2 == 0 {
        1
    } else {
        -1
    }
}

/// Expanding the quadratic form `x^2 - D y^2` along `x = a h1 + h2`, `y = a q1 + q2`.
proof fn lemma_norm_recurrence(a: int, h1: int, h2: int, q1: int, q2: int, dd: int)
    ensures
        (a * h1 + h2) * (a * h1 + h2) - dd * (a * q1 + q2) * (a * q1 + q2) == a * a * (h1 * h1
            - dd * q1 * q1) + 2 * a * (h1 * h2 - dd * q1 * q2) + (h2 * h2 - dd * q2 * q2),
        (a * h1 + h2) * h1 - dd * (a * q1 + q2) * q1 == a * (h1 * h1 - dd * q1 * q1) + (h1 * h2
            - dd * q1 * q2),
{
    let x = a * h1;
    let y = a * q1;
    lemma_square_of_sum(x, h2);
    lemma_square_of_sum(y, q2);
    lemma_mul_is_associative(dd, y + q2, y + q2);
    lemma_mul_is_distributive_add(dd, y * y + 2 * (y * q2), q2 * q2);
    lemma_mul_is_distributive_add(dd, y * y, 2 * (y * q2));
    lemma_square_product(a, h1);
    lemma_square_product(a, q1);
    // a*a*(h1*h1 - dd*q1*q1)
    lemma_mul_is_distributive_sub(a * a, h1 * h1, dd * q1 * q1);
    lemma_mul_is_associative(dd, q1, q1);
    lemma_mul_is_associative(a * a, dd, q1 * q1);
    lemma_mul_is_commutative(a * a, dd);
    lemma_mul_is_associative(dd, a * a, q1 * q1);
    // 2*a*(h1*h2 - dd*q1*q2)
    lemma_mul_is_distributive_sub(2 * a, h1 * h2, dd * q1 * q2);
    lemma_mul_is_associative(2, a, h1 * h2);
    lemma_mul_is_associative(a, h1, h2);
    lemma_mul_is_associative(dd, q1, q2);
    lemma_mul_is_associative(2 * a, dd, q1 * q2);
    lemma_mul_is_commutative(2 * a, dd);
    lemma_mul_is_associative(dd, 2 * a, q1 * q2);
    lemma_mul_is_associative(2, a, q1 * q2);
    lemma_mul_is_associative(a, q1, q2);
    lemma_mul_is_associative(dd, 2, y * q2);
    lemma_mul_is_commutative(dd, 2);
    lemma_mul_is_associative(2, dd, y * q2);
    lemma_mul_is_associative(dd, q2, q2);
    // the second identity
    lemma_mul_is_distributive_add_other_way(h1, x, h2);
    lemma_mul_is_associative(dd, y + q2, q1);
    lemma_mul_is_distributive_add_other_way(q1, y, q2);
    lemma_mul_is_distributive_add(dd, y * q1, q2 * q1);
    lemma_mul_is_associative(a, h1, h1);
    lemma_mul_is_associative(a, q1, q1);
    lemma_mul_is_distributive_sub(a, h1 * h1, dd * q1 * q1);
    lemma_mul_is_associative(a, dd, q1 * q1);
    lemma_mul_is_commutative(a, dd);
    lemma_mul_is_associative(dd, a, q1 * q1);
    lemma_mul_is_commutative(h2, h1);
    lemma_mul_is_commutative(q2, q1);
    lemma_mul_is_associative(dd, q1, q2);
}

/// The norms of the convergents of √d: `h_k^2 - d k_k^2 = (-1)^(k+1) d_{k+1}` and
/// `h_k h_{k-1} - d k_k k_{k-1} = (-1)^k m_{k+1}`, where `(m_j, d_j)` are the states of the
/// expansion.
pub proof fn lemma_convergent_norms(d: nat, k: int)
    requires
        sqrt_a0(d) * sqrt_a0(d) != d,
        d <= u64::MAX,
        k >= -1,
    ensures
        pell_residual(d, k) == minus_one_pow(k + 1) * sqrt_cf_state(d, sqrt_a0(d), (k + 1) as nat).1,
        sqrt_convergent_numerator(d, k) * sqrt_convergent_numerator(d, k - 1) - d
            * sqrt_convergent_denominator(d, k) * sqrt_convergent_denominator(d, k - 1)
            == minus_one_pow(k) * sqrt_cf_state(d, sqrt_a0(d), (k + 1) as nat).0,
    decreases k + 1,
{
    let a0 = sqrt_a0(d);
    lemma_sqrt_a0_facts(d);
    let di = d as int;
    if k == -1 {
        assert(sqrt_convergent_numerator(d, -1) == 1);
        assert(sqrt_convergent_denominator(d, -1) == 0);
        assert(sqrt_convergent_numerator(d, -2) == 0);
        assert(sqrt_convergent_denominator(d, -2) == 1);
        assert(sqrt_cf_state(d, a0, 0) == (0int, 1int, a0 as int));
        let h = sqrt_convergent_numerator(d, -1) as int;
        let q = sqrt_convergent_denominator(d, -1) as int;
        let hp = sqrt_convergent_numerator(d, -2) as int;
        let qp = sqrt_convergent_denominator(d, -2) as int;
        assert(pell_residual(d, -1) == h * h - di * q * q);
        assert(h * h - di * q * q == 1 && h * hp - di * q * qp == 0) by (nonlinear_arith)
            requires
                h == 1,
                q == 0,
                hp == 0,
                qp == 1,
        ;
        assert(minus_one_pow(0) == 1 && minus_one_pow(-1) == -1);
        assert(1int * 1 == 1 && -1int * 0 == 0);
        assert(pell_residual(d, -1) == minus_one_pow(0) * sqrt_cf_state(d, a0, 0).1);
    } else if k == 0 {
        lemma_cf_term_is_sqrt_term(d, 0);
        lemma_state_term(d, a0, 0);
        lemma_states_reduced(d, a0, 1);
        assert(sqrt_cf_term(d, a0, 0) == a0) by {
            lemma_div_basics(a0 as int);
        }
        assert(sqrt_convergent_numerator(d, -1) == 1);
        assert(sqrt_convergent_denominator(d, -1) == 0);
        assert(sqrt_convergent_numerator(d, -2) == 0);
        assert(sqrt_convergent_denominator(d, -2) == 1);
        let h0 = sqrt_convergent_numerator(d, 0) as int;
        let q0 = sqrt_convergent_denominator(d, 0) as int;
        assert(h0 == a0 * 1 + 0);
        assert(q0 == a0 * 0 + 1);
        assert(a0 * 1 + 0 == a0 && a0 * 0 + 1 == 1) by (nonlinear_arith);
        let s1 = sqrt_cf_state(d, a0, 1);
        assert(s1.0 == 1 * (a0 as int) - 0);
        assert(1 * (a0 as int) == a0) by (nonlinear_arith);
        assert(s1.1 * 1 == di - s1.0 * s1.0);
        assert(pell_residual(d, 0) == h0 * h0 - di * q0 * q0);
        assert(h0 * h0 - di * q0 * q0 == -(s1.1)) by (nonlinear_arith)
            requires
                h0 == a0,
                q0 == 1,
                s1.0 == a0,
                s1.1 * 1 == di - s1.0 * s1.0,
        ;
        assert(h0 * 1 - di * q0 * 0 == a0) by (nonlinear_arith)
            requires
                h0 == a0,
        ;
        assert(minus_one_pow(1) == -1);
        assert(-1 * s1.1 == -(s1.1));
        assert(pell_residual(d, 0) == minus_one_pow(1) * s1.1);
    } else {
        lemma_convergent_norms(d, k - 1);
        lemma_convergent_norms(d, k - 2);
        lemma_cf_term_is_sqrt_term(d, k as nat);
        lemma_state_term(d, a0, k as nat);
        lemma_states_reduced(d, a0, k as nat);
        lemma_states_reduced(d, a0, (k + 1) as nat);
        let a = sqrt_cf_term(d, a0, k as nat);
        let (mk, dk, ak) = sqrt_cf_state(d, a0, k as nat);
        let dk1 = sqrt_cf_state(d, a0, (k - 1) as nat).1;
        let (mn, dn, an) = sqrt_cf_state(d, a0, (k + 1) as nat);
        assert(ak == a);
        assert(mn == dk * a - mk);
        let hk = sqrt_convergent_numerator(d, k) as int;
        let qk = sqrt_convergent_denominator(d, k) as int;
        let h1 = sqrt_convergent_numerator(d, k - 1) as int;
        let h2 = sqrt_convergent_numerator(d, k - 2) as int;
        let q1 = sqrt_convergent_denominator(d, k - 1) as int;
        let q2 = sqrt_convergent_denominator(d, k - 2) as int;
        assert(hk == a * h1 + h2);
        assert(qk == a * q1 + q2);
        let s = minus_one_pow(k);
        assert(minus_one_pow(k + 1) == -s && minus_one_pow(k - 1) == -s);
        // the previous norms
        let a1 = h1 * h1 - di * q1 * q1;
        let a2 = h2 * h2 - di * q2 * q2;
        let b1 = h1 * h2 - di * q1 * q2;
        assert(a1 == s * dk);
        assert(a2 == -s * dk1);
        assert(b1 == -s * mk);
        // d_{k+1} = d_{k-1} + 2 a m_k - a^2 d_k
        assert(dn * dk == dk * (dk1 + 2 * a * mk - a * a * dk)) by (nonlinear_arith)
            requires
                dn * dk == di - mn * mn,
                dk * dk1 == di - mk * mk,
                mn == dk * a - mk,
        ;
        assert(dn == dk1 + 2 * a * mk - a * a * dk) by {
            lemma_mul_is_commutative(dn, dk);
            lemma_mul_equality_converse(dk, dn, dk1 + 2 * a * mk - a * a * dk);
        }
        lemma_norm_recurrence(a, h1, h2, q1, q2, di);
        assert(pell_residual(d, k) == hk * hk - di * qk * qk);
        assert(a * a * a1 + 2 * a * b1 + a2 == -s * dn) by (nonlinear_arith)
            requires
                a1 == s * dk,
                a2 == -s * dk1,
                b1 == -s * mk,
                dn == dk1 + 2 * a * mk - a * a * dk,
        ;
        assert(a * a1 + b1 == s * mn) by (nonlinear_arith)
            requires
                a1 == s * dk,
                b1 == -s * mk,
                mn == dk * a - mk,
        ;
        assert(pell_residual(d, k) == a * a * a1 + 2 * a * b1 + a2);
        assert(pell_residual(d, k) == minus_one_pow(k + 1) * dn);
    }
}

/// Where the convergents of √d solve Pell's equations: the one at `r - 1` (`r` the period)
/// gives `h^2 - d k^2 = (-1)^r`, and the one at `2r - 1` gives `1`.
#[verifier::spinoff_prover]
pub proof fn lemma_pell_at_period(d: nat)
    requires
        sqrt_a0(d) * sqrt_a0(d) != d,
        d <= u64::MAX,
    ensures
        pell_residual(d, sqrt_period_length(d) - 1) == minus_one_pow(sqrt_period_length(d) as int),
        pell_residual(d, 2 * sqrt_period_length(d) - 1) == 1,
{
    let r = sqrt_period_length(d);
    lemma_period_end_state(d);
    assert(r >= 1);
    lemma_convergent_norms(d, r - 1);
    lemma_convergent_norms(d, 2 * r - 1);
    lemma_states_repeat(d, r);
    assert((2 * r - 1 + 1) as nat == r + r);
    assert((2 * r) % 2 == 0);
}

/// The scan finds the first solution whenever some index in the range solves the equation.
proof fn lemma_first_pell_some(d: nat, target: int, from: nat, limit: nat, i: nat)
    requires
        from <= i < limit,
        pell_residual(d, i as int) == target,
    ensures
        first_pell_convergent(d, target, from, limit) is Some,
    decreases i - from,
{
    if pell_residual(d, from as int) != target {
        lemma_first_pell_some(d, target, from + 1, limit, i);
    }
}

/// Does `h^2 - d k^2` equal `1` (when `plus`) or `-1`? Computed exactly in 128 bits.
fn pell_residual_is_unit(h: u64, k: u64, d: u64, plus: bool) -> (r: bool)
    ensures
        r == ((h as int) * (h as int) - (d as int) * (k as int) * (k as int) == (if plus {
            1int
        } else {
            -1int
        })),
{
    proof {
        assert((h as int) * (h as int) <= 0xffff_ffff_ffff_ffffint * 0xffff_ffff_ffff_ffffint)
            by (nonlinear_arith)
            requires
                h <= 0xffff_ffff_ffff_ffffu64,
        ;
    }
    let hh = (h as u128) * (h as u128);
    let dk = (d as u128).checked_mul(k as u128);
    match dk {
        None => {
            proof {
                assert(k >= 1) by {
                    if k == 0 {
                        assert((d as int) * (k as int) == 0) by (nonlinear_arith)
                            requires
                                k == 0,
                        ;
                    }
                }
                assert((d as int) * (k as int) * (k as int) >= (d as int) * (k as int)) by (
                nonlinear_arith)
                    requires
                        (d as int) * (k as int) > 0,
                        k >= 1,
                ;
            }
            false
        },
        Some(dk) => {
            match dk.checked_mul(k as u128) {
                None => false,
                Some(dkk) => {
                    if plus {
                        dkk < u128::MAX && hh == dkk + 1
                    } else {
                        hh < u128::MAX && hh + 1 == dkk
                    }
                },
            }
        },
    }
}


/// Scan convergents of √d in order for the first one with `h^2 - d k^2 = ±1`.
fn first_unit_convergent(convs: &Vec<(u64, u64)>, d: u64, plus: bool) -> (r: Option<PellSolution>)
    requires
        forall|j: int|
            0 <= j < convs.len() ==> #[trigger] convs[j] == (
                sqrt_convergent_numerator(d as nat, j) as u64,
                sqrt_convergent_denominator(d as nat, j) as u64,
            ),
        convergents_fit(d as nat, convs.len() as nat),
    ensures
        r == pell_solution_at(
            d as nat,
            first_pell_convergent(
                d as nat,
                if plus {
                    1int
                } else {
                    -1int
                },
                0,
                convs.len() as nat,
            ),
        ),
        r matches Some(s) ==> (s.x as int) * (s.x as int) - (d as int) * (s.y as int) * (
        s.y as int) == (if plus {
            1int
        } else {
            -1int
        }),
{
    let ghost target: int = if plus {
        1int
    } else {
        -1int
    };
    let ghost limit = convs.len() as nat;
    let mut i: usize = 0;
    while i < convs.len()
        invariant
            0 <= i <= convs.len(),
            limit == convs.len(),
            target == (if plus {
                1int
            } else {
                -1int
            }),
            forall|j: int|
                0 <= j < convs.len() ==> #[trigger] convs[j] == (
                    sqrt_convergent_numerator(d as nat, j) as u64,
                    sqrt_convergent_denominator(d as nat, j) as u64,
                ),
            convergents_fit(d as nat, limit),
            first_pell_convergent(d as nat, target, 0, limit) == first_pell_convergent(
                d as nat,
                target,
                i as nat,
                limit,
            ),
        decreases convs.len() - i,
    {
        let (h, k) = convs[i];
        proof {
            assert(sqrt_convergent_numerator(d as nat, i as int) <= u64::MAX);
            assert(h as nat == sqrt_convergent_numerator(d as nat, i as int));
            assert(k as nat == sqrt_convergent_denominator(d as nat, i as int));
        }
        proof {
            assert(pell_residual(d as nat, i as int) == (h as int) * (h as int) - (d as int) * (
            k as int) * (k as int));
        }
        if pell_residual_is_unit(h, k, d, plus) {
            proof {
                assert(pell_residual(d as nat, i as int) == target);
                assert((i as nat) < limit);
                assert(first_pell_convergent(d as nat, target, i as nat, limit) == Some(i as nat));
            }
            return Some(PellSolution { x: h, y: k });
        }
        proof {
            assert(first_pell_convergent(d as nat, target, i as nat, limit) == first_pell_convergent(
                d as nat,
                target,
                (i + 1) as nat,
                limit,
            ));
        }
        i = i + 1;
    }
    None
}

/// The convergents of √d computed by `ContinuedFraction::convergents` are
/// `sqrt_convergent_numerator` / `sqrt_convergent_denominator`.
proof fn lemma_convergents_of_sqrt(d: nat, cf: ContinuedFraction, count: nat)
    requires
        cf.a0 == sqrt_a0(d),
        cf.periodic@ == sqrt_periodic_part(d),
        convergents_fit(d, count),
    ensures
        forall|i: int|
            0 <= i < count ==> #[trigger] convergent_numerator(cf.a0, cf.periodic@, i) <= u64::MAX
                && convergent_denominator(cf.a0, cf.periodic@, i) <= u64::MAX,
        forall|i: int|
            #![trigger convergent_numerator(cf.a0, cf.periodic@, i)]
            convergent_numerator(cf.a0, cf.periodic@, i) == sqrt_convergent_numerator(d, i)
                && convergent_denominator(cf.a0, cf.periodic@, i) == sqrt_convergent_denominator(
                d,
                i,
            ),
{
    assert forall|i: int|
        0 <= i < count implies #[trigger] convergent_numerator(cf.a0, cf.periodic@, i) <= u64::MAX
        && convergent_denominator(cf.a0, cf.periodic@, i) <= u64::MAX by {
        assert(sqrt_convergent_numerator(d, i) <= u64::MAX);
    }
}

/// What `pell_solve` needs to run without overflow on a non-square `d`, with `r` the period of
/// √d: the number of convergents it scans (`r` when `r` is even, `2r` otherwise) fits in
/// `usize`, and those convergents fit in 64 bits.
pub open spec fn pell_solve_fits(d: nat) -> bool {
    let a0 = sqrt_a0(d);
    a0 * a0 != d ==> {
        let r = sqrt_period_length(d);
        let num: nat = if r % 2 == 0 {
            r
        } else {
            2 * r
        };
        &&& num <= usize::MAX
        &&& convergents_fit(d, num)
    }
}

/// Decide `pell_solve_fits(d)`, the demand of `pell_solve`, by computing the convergents of √d
/// that `pell_solve` scans with overflow-checked arithmetic.
pub fn pell_solve_fits_check(d: u64) -> (r: bool)
    ensures
        r == pell_solve_fits(d as nat),
{
    let sqrt_d = isqrt(d);
    proof {
        lemma_isqrt_unique(sqrt_d as nat, sqrt_a0(d as nat), d as nat);
    }
    if sqrt_d * sqrt_d == d {
        return true;
    }
    let cf = ContinuedFraction::from_sqrt(d);
    let period = cf.period_length();
    proof {
        assert(cf.periodic@.len() == sqrt_period_length(d as nat));
    }
    let num: usize = if period % 2 == 0 {
        period
    } else {
        match period.checked_mul(2) {
            Some(v) => v,
            None => {
                return false;
            },
        }
    };
    sqrt_convergents_fit(d, &cf, num)
}

/// Decide `pell_negative_fits(d)`, the demand of `pell_solve_negative`, in the same way.
pub fn pell_negative_fits_check(d: u64) -> (r: bool)
    ensures
        r == pell_negative_fits(d as nat),
{
    let sqrt_d = isqrt(d);
    proof {
        lemma_isqrt_unique(sqrt_d as nat, sqrt_a0(d as nat), d as nat);
    }
    if sqrt_d * sqrt_d == d {
        return true;
    }
    let cf = ContinuedFraction::from_sqrt(d);
    let period = cf.period_length();
    proof {
        assert(cf.periodic@.len() == sqrt_period_length(d as nat));
    }
    let num: usize = match period.checked_mul(2) {
        Some(v) => v,
        None => {
            return false;
        },
    };
    if period % 2 == 0 {
        return true;
    }
    sqrt_convergents_fit(d, &cf, num)
}

/// Whether the first `num` convergents of √d (non-square `d`, `cf` its expansion) fit in 64
/// bits, computed with overflow-checked arithmetic.
fn sqrt_convergents_fit(d: u64, cf: &ContinuedFraction, num: usize) -> (r: bool)
    requires
        cf.a0 == sqrt_a0(d as nat),
        cf.periodic@ == sqrt_periodic_part(d as nat),
        cf.periodic.len() >= 1,
    ensures
        r == convergents_fit(d as nat, num as nat),
{
    let ghost a0 = cf.a0;
    let ghost per = cf.periodic@;
    let mut h_prev2: u64 = 0;
    let mut h_prev1: u64 = 1;
    let mut k_prev2: u64 = 1;
    let mut k_prev1: u64 = 0;
    let mut i: usize = 0;
    while i < num
        invariant
            a0 == cf.a0,
            per == cf.periodic@,
            cf.a0 == sqrt_a0(d as nat),
            cf.periodic@ == sqrt_periodic_part(d as nat),
            cf.periodic.len() >= 1,
            i <= num,
            h_prev1 == convergent_numerator(a0, per, i - 1),
            h_prev2 == convergent_numerator(a0, per, i - 2),
            k_prev1 == convergent_denominator(a0, per, i - 1),
            k_prev2 == convergent_denominator(a0, per, i - 2),
            forall|j: int|
                0 <= j < i ==> #[trigger] sqrt_convergent_numerator(d as nat, j) <= u64::MAX
                    && sqrt_convergent_denominator(d as nat, j) <= u64::MAX,
        decreases num - i,
    {
        let a_i = if i == 0 {
            cf.a0
        } else {
            proof {
                lemma_mod_bound((i - 1) as int, cf.periodic.len() as int);
            }
            cf.periodic[(i - 1) % cf.periodic.len()]
        };
        let ghost h_spec = convergent_numerator(a0, per, i as int);
        let ghost k_spec = convergent_denominator(a0, per, i as int);
        proof {
            assert(a_i as nat == crate::continued_fraction::cf_term(a0, per, i as nat));
            assert(h_spec == a_i * h_prev1 + h_prev2);
            assert(k_spec == a_i * k_prev1 + k_prev2);
        }
        let h = match a_i.checked_mul(h_prev1) {
            Some(x) => x.checked_add(h_prev2),
            None => None,
        };
        let k = match a_i.checked_mul(k_prev1) {
            Some(x) => x.checked_add(k_prev2),
            None => None,
        };
        match (h, k) {
            (Some(hv), Some(kv)) => {
                proof {
                    assert(hv == h_spec && kv == k_spec);
                    assert(sqrt_convergent_numerator(d as nat, i as int) == h_spec);
                    assert(sqrt_convergent_denominator(d as nat, i as int) == k_spec);
                    assert forall|j: int|
                        0 <= j < i + 1 implies #[trigger] sqrt_convergent_numerator(d as nat, j)
                        <= u64::MAX && sqrt_convergent_denominator(d as nat, j) <= u64::MAX by {
                        if j < i {
                        }
                    }
                }
                h_prev2 = h_prev1;
                h_prev1 = hv;
                k_prev2 = k_prev1;
                k_prev1 = kv;
                i = i + 1;
            },
            _ => {
                proof {
                    assert(h_spec > u64::MAX || k_spec > u64::MAX);
                    assert(sqrt_convergent_numerator(d as nat, i as int) == h_spec);
                    assert(sqrt_convergent_denominator(d as nat, i as int) == k_spec);
                    assert(!convergents_fit(d as nat, num as nat));
                }
                return false;
            },
        }
    }
    true
}

/// Solve Pell's equation `x^2 - d y^2 = 1` from the continued fraction of √d: the first of its
/// first `4r` convergents (`r` the period) that solves it, or `None` for a perfect square `d`.
pub fn pell_solve(d: u64) -> (r: Option<PellSolution>)
    requires
        pell_solve_fits(d as nat),
    ensures
        sqrt_a0(d as nat) * sqrt_a0(d as nat) == d ==> r is None,
        sqrt_a0(d as nat) * sqrt_a0(d as nat) != d ==> r == pell_solution_at(
            d as nat,
            first_pell_convergent(d as nat, 1, 0, 4 * sqrt_period_length(d as nat)),
        ),
        sqrt_a0(d as nat) * sqrt_a0(d as nat) != d ==> r is Some,
        r matches Some(s) ==> (s.x as int) * (s.x as int) - (d as int) * (s.y as int) * (
        s.y as int) == 1,
{
    let sqrt_d = isqrt(d);
    proof {
        lemma_isqrt_unique(sqrt_d as nat, sqrt_a0(d as nat), d as nat);
    }
    if sqrt_d * sqrt_d == d {
        return None;
    }
    if d <= 1 {
        proof {
            assert(sqrt_d * sqrt_d == d) by (nonlinear_arith)
                requires
                    sqrt_d * sqrt_d <= d,
                    d < (sqrt_d + 1) * (sqrt_d + 1),
                    d <= 1,
            ;
        }
        return None;
    }
    let cf = ContinuedFraction::from_sqrt(d);
    let period = cf.period_length();
    let ghost limit = 4 * sqrt_period_length(d as nat);
    let num = if period % 2 == 0 {
        period
    } else {
        2 * period
    };
    proof {
        // the convergent at r - 1 (r even) or 2r - 1 (r odd) solves the equation
        let r = sqrt_period_length(d as nat);
        lemma_pell_at_period(d as nat);
        crate::continued_fraction::lemma_period_end_state(d as nat);
        if r % 2 == 0 {
            assert(minus_one_pow(r as int) == 1);
            lemma_first_pell_some(d as nat, 1, 0, num as nat, (r - 1) as nat);
        } else {
            lemma_first_pell_some(d as nat, 1, 0, num as nat, (2 * r - 1) as nat);
        }
        lemma_convergents_of_sqrt(d as nat, cf, num as nat);
    }
    let convs = cf.convergents(num);
    let first = first_unit_convergent(&convs, d, true);
    if first.is_some() {
        proof {
            lemma_first_pell_extends(d as nat, 1, 0, num as nat, limit);
        }
        return first;
    }
    proof {
        assert(false);
    }
    let convs = cf.convergents(4 * period);
    first_unit_convergent(&convs, d, true)
}

/// What `pell_solve_negative` needs on a non-square `d`, with `r` the period of √d: `2r` fits
/// in `usize`, and when `r` is odd the first `2r` convergents fit in 64 bits.
pub open spec fn pell_negative_fits(d: nat) -> bool {
    let a0 = sqrt_a0(d);
    a0 * a0 != d ==> {
        let r = sqrt_period_length(d);
        &&& 2 * r <= usize::MAX
        &&& (r % 2 == 1 ==> convergents_fit(d, 2 * r))
    }
}

/// Solve the negative Pell equation `x^2 - d y^2 = -1`: `None` for a perfect square or an even
/// period, otherwise the first of the first `2r` convergents that solves it.
pub fn pell_solve_negative(d: u64) -> (r: Option<PellSolution>)
    requires
        pell_negative_fits(d as nat),
    ensures
        sqrt_a0(d as nat) * sqrt_a0(d as nat) == d ==> r is None,
        sqrt_a0(d as nat) * sqrt_a0(d as nat) != d && sqrt_period_length(d as nat) % 2 == 0
            ==> r is None,
        sqrt_a0(d as nat) * sqrt_a0(d as nat) != d && sqrt_period_length(d as nat) % 2 == 1
            ==> r == pell_solution_at(
            d as nat,
            first_pell_convergent(d as nat, -1, 0, 2 * sqrt_period_length(d as nat)),
        ),
        sqrt_a0(d as nat) * sqrt_a0(d as nat) != d && sqrt_period_length(d as nat) % 2 == 1
            ==> r is Some,
        r matches Some(s) ==> (s.x as int) * (s.x as int) - (d as int) * (s.y as int) * (
        s.y as int) == -1,
{
    let sqrt_d = isqrt(d);
    proof {
        lemma_isqrt_unique(sqrt_d as nat, sqrt_a0(d as nat), d as nat);
    }
    if sqrt_d * sqrt_d == d {
        return None;
    }
    let cf = ContinuedFraction::from_sqrt(d);
    let period = cf.period_length();
    if period % 2 == 0 {
        return None;
    }
    proof {
        let r = sqrt_period_length(d as nat);
        lemma_pell_at_period(d as nat);
        crate::continued_fraction::lemma_period_end_state(d as nat);
        assert(minus_one_pow(r as int) == -1);
        lemma_first_pell_some(d as nat, -1, 0, 2 * r, (r - 1) as nat);
    }
    proof {
        lemma_convergents_of_sqrt(d as nat, cf, (2 * period) as nat);
    }
    let convs = cf.convergents(2 * period);
    first_unit_convergent(&convs, d, false)
}


/// For a perfect square `d` other than 1, `x^2 - d y^2 = -1` has no integer solution, so the
/// `None` that `pell_solve_negative` gives for such `d` leaves no solution out.
pub proof fn lemma_negative_pell_square_unsolvable(m: int, x: int, y: int)
    requires
        m * m != 1,
    ensures
        x * x - (m * m) * y * y != -1,
{
    if x * x - (m * m) * y * y == -1 {
        let z = abs(m * y);
        let w = abs(x);
        assert(z * z == w * w + 1) by (nonlinear_arith)
            requires
                x * x - (m * m) * y * y == -1,
                z == abs(m * y),
                w == abs(x),
        ;
        if w == 0 {
            assert(w * w == 0) by (nonlinear_arith)
                requires
                    w == 0,
            ;
            assert(z == 1) by (nonlinear_arith)
                requires
                    z * z == 1,
                    z >= 0,
            ;
            assert(m * m == 1) by (nonlinear_arith)
                requires
                    abs(m * y) == 1,
            ;
        } else if z > w {
            assert(z * z >= (w + 1) * (w + 1)) by (nonlinear_arith)
                requires
                    z >= w + 1,
                    w >= 0,
            ;
            assert(false) by (nonlinear_arith)
                requires
                    z * z >= (w + 1) * (w + 1),
                    z * z == w * w + 1,
                    w >= 1,
            ;
        } else {
            assert(z * z <= w * w) by (nonlinear_arith)
                requires
                    0 <= z <= w,
            ;
        }
    }
}

/// Product in `Z[√d]`: `(a + b√d)(c + e√d) = (ac + d be) + (ae + bc)√d`.
pub open spec fn ring_mul(d: int, p: (int, int), q: (int, int)) -> (int, int) {
    (p.0 * q.0 + d * p.1 * q.1, p.0 * q.1 + p.1 * q.0)
}

/// `(x + y√d)^n` in `Z[√d]`.
pub open spec fn ring_pow(d: int, p: (int, int), n: nat) -> (int, int)
    decreases n,
{
    if n == 0 {
        (1, 0)
    } else {
        ring_mul(d, p, ring_pow(d, p, (n - 1) as nat))
    }
}

/// The norm `x^2 - d y^2` of `x + y√d`.
pub open spec fn ring_norm(d: int, p: (int, int)) -> int {
    p.0 * p.0 - d * p.1 * p.1
}

/// Every intermediate value of square-and-multiply from accumulator `acc` and base `b` with
/// exponent `e` fits in 128 bits.
pub open spec fn nth_solution_fits(d: int, acc: (int, int), b: (int, int), e: nat) -> bool
    decreases e,
{
    let m = u128::MAX as int;
    if e == 0 {
        true
    } else {
        let mul_fits = acc.0 * b.0 <= m && d * acc.1 <= m && d * acc.1 * b.1 <= m && acc.0 * b.0
            + d * acc.1 * b.1 <= m && acc.0 * b.1 <= m && acc.1 * b.0 <= m && acc.0 * b.1 + acc.1
            * b.0 <= m;
        let sq_fits = b.0 * b.0 <= m && d * b.1 <= m && d * b.1 * b.1 <= m && b.0 * b.0 + d * b.1
            * b.1 <= m && 2 * b.0 <= m && 2 * b.0 * b.1 <= m;
        let acc2 = if e % 2 == 1 {
            ring_mul(d, acc, b)
        } else {
            acc
        };
        &&& (e % 2 == 1 ==> mul_fits)
        &&& sq_fits
        &&& nth_solution_fits(d, acc2, ring_mul(d, b, b), e / 2)
    }
}

proof fn lemma_ring_mul_assoc_first(a: int, b: int, c: int, e: int, f: int, g: int, d: int)
    ensures
        (a * c + d * b * e) * f + d * (a * e + b * c) * g == a * (c * f + d * e * g) + d * b * (c
            * g + e * f),
{
    lemma_mul_is_distributive_add_other_way(f, a * c, d * b * e);
    lemma_mul_is_distributive_add(d, a * e, b * c);
    lemma_mul_is_distributive_add_other_way(g, d * (a * e), d * (b * c));
    lemma_mul_is_distributive_add(a, c * f, d * e * g);
    lemma_mul_is_distributive_add(d * b, c * g, e * f);
    lemma_mul_is_associative(a, c, f);
    lemma_mul_is_associative(d * b, e, f);
    lemma_mul_is_associative(d, a, e);
    lemma_mul_is_associative(a, d, e);
    lemma_mul_is_commutative(a, d);
    lemma_mul_is_associative(a, d * e, g);
    lemma_mul_is_associative(d * b, c, g);
    lemma_mul_is_associative(d, b, c);
}

proof fn lemma_ring_mul_assoc_second(a: int, b: int, c: int, e: int, f: int, g: int, d: int)
    ensures
        (a * c + d * b * e) * g + (a * e + b * c) * f == a * (c * g + e * f) + b * (c * f + d * e
            * g),
{
    lemma_mul_is_distributive_add_other_way(g, a * c, d * b * e);
    lemma_mul_is_distributive_add_other_way(f, a * e, b * c);
    lemma_mul_is_distributive_add(a, c * g, e * f);
    lemma_mul_is_distributive_add(b, c * f, d * e * g);
    lemma_mul_is_associative(a, c, g);
    lemma_mul_is_associative(a, e, f);
    lemma_mul_is_associative(b, c, f);
    lemma_mul_is_associative(b, d * e, g);
    lemma_mul_is_associative(b, d, e);
    lemma_mul_is_commutative(b, d);
}

proof fn lemma_ring_mul_assoc(d: int, p: (int, int), q: (int, int), s: (int, int))
    ensures
        ring_mul(d, ring_mul(d, p, q), s) == ring_mul(d, p, ring_mul(d, q, s)),
{
    lemma_ring_mul_assoc_first(p.0, p.1, q.0, q.1, s.0, s.1, d);
    lemma_ring_mul_assoc_second(p.0, p.1, q.0, q.1, s.0, s.1, d);
}

proof fn lemma_ring_pow_add(d: int, p: (int, int), m: nat, n: nat)
    ensures
        ring_pow(d, p, m + n) == ring_mul(d, ring_pow(d, p, m), ring_pow(d, p, n)),
    decreases m,
{
    if m == 0 {
        let q = ring_pow(d, p, n);
        assert(ring_mul(d, (1int, 0int), q) == q) by (nonlinear_arith);
    } else {
        lemma_ring_pow_add(d, p, (m - 1) as nat, n);
        assert((m + n - 1) as nat == (m - 1) as nat + n);
        lemma_ring_mul_assoc(d, p, ring_pow(d, p, (m - 1) as nat), ring_pow(d, p, n));
    }
}

proof fn lemma_ring_pow_square(d: int, p: (int, int), k: nat)
    ensures
        ring_pow(d, p, 2 * k) == ring_pow(d, ring_mul(d, p, p), k),
    decreases k,
{
    if k > 0 {
        lemma_ring_pow_square(d, p, (k - 1) as nat);
        lemma_ring_pow_add(d, p, 2, (2 * (k - 1)) as nat);
        assert(2 + (2 * (k - 1)) as nat == 2 * k);
        assert(ring_pow(d, p, 0) == (1int, 0int));
        assert(ring_pow(d, p, 1) == ring_mul(d, p, (1int, 0int)));
        assert(ring_mul(d, p, (1int, 0int)) == p) by (nonlinear_arith);
    }
}

/// The norm is multiplicative: `N(pq) = N(p) N(q)`.
#[verifier::rlimit(100)]
proof fn lemma_square_of_sum(x: int, y: int)
    by (nonlinear_arith)
    ensures
        (x + y) * (x + y) == x * x + 2 * (x * y) + y * y,
{
}

proof fn lemma_product_of_differences(x: int, y: int, z: int, w: int)
    by (nonlinear_arith)
    ensures
        (x - y) * (z - w) == x * z - x * w - y * z + y * w,
{
}

proof fn lemma_square_product(x: int, y: int)
    by (nonlinear_arith)
    ensures
        (x * x) * (y * y) == (x * y) * (x * y),
{
}

proof fn lemma_cross_products(a: int, b: int, c: int, e: int)
    by (nonlinear_arith)
    ensures
        (a * c) * (b * e) == (a * e) * (b * c),
{
}

proof fn lemma_norm_identity(a: int, b: int, c: int, e: int, d: int)
    ensures
        (a * c + d * b * e) * (a * c + d * b * e) - d * (a * e + b * c) * (a * e + b * c) == (a * a
            - d * b * b) * (c * c - d * e * e),
{
    let u = a * c;
    let v = b * e;
    let w = a * e;
    let z = b * c;
    lemma_mul_is_associative(d, b, e);
    let dv = d * v;
    lemma_square_of_sum(u, dv);
    lemma_mul_is_associative(d, w + z, w + z);
    lemma_square_of_sum(w, z);
    lemma_mul_is_distributive_add(d, w * w + 2 * (w * z), z * z);
    lemma_mul_is_distributive_add(d, w * w, 2 * (w * z));
    lemma_mul_is_associative(d, 2, w * z);
    lemma_mul_is_commutative(d, 2);
    lemma_mul_is_associative(2, d, w * z);
    // right-hand side
    lemma_mul_is_associative(d, b, b);
    lemma_mul_is_associative(d, e, e);
    lemma_product_of_differences(a * a, d * (b * b), c * c, d * (e * e));
    lemma_square_product(a, c);
    lemma_square_product(a, e);
    lemma_square_product(b, c);
    lemma_square_product(b, e);
    lemma_mul_is_associative(a * a, d, e * e);
    lemma_mul_is_commutative(a * a, d);
    lemma_mul_is_associative(d, a * a, e * e);
    lemma_mul_is_associative(d, b * b, c * c);
    lemma_mul_is_associative(d * (b * b), d, e * e);
    lemma_mul_is_commutative(d * (b * b), d);
    lemma_mul_is_associative(d, d * (b * b), e * e);
    lemma_mul_is_associative(d, b * b, e * e);
    lemma_mul_is_associative(d, d, (b * b) * (e * e));
    lemma_mul_is_associative(dv, d, v);
    lemma_mul_is_commutative(dv, d);
    lemma_mul_is_associative(d, d, v);
    lemma_mul_is_associative(d * d, v, v);
    // cross term
    lemma_cross_products(a, b, c, e);
    lemma_mul_is_associative(u, d, v);
    lemma_mul_is_commutative(u, d);
    lemma_mul_is_associative(d, u, v);
}

pub proof fn lemma_ring_norm_mul(d: int, p: (int, int), q: (int, int))
    ensures
        ring_norm(d, ring_mul(d, p, q)) == ring_norm(d, p) * ring_norm(d, q),
{
    lemma_norm_identity(p.0, p.1, q.0, q.1, d);
}

/// The first power is the fundamental solution itself: `pell_nth_solution(d, f, 1)` gives `f`.
pub proof fn lemma_ring_pow_one(d: int, p: (int, int))
    ensures
        ring_pow(d, p, 1) == p,
{
    assert(ring_pow(d, p, 0) == (1int, 0int));
    assert(ring_mul(d, p, (1int, 0int)) == p) by (nonlinear_arith);
}

/// Powers of a solution of `x^2 - d y^2 = 1` are solutions again.
pub proof fn lemma_pell_power_solves(d: int, p: (int, int), n: nat)
    requires
        ring_norm(d, p) == 1,
    ensures
        ring_norm(d, ring_pow(d, p, n)) == 1,
    decreases n,
{
    if n > 0 {
        lemma_pell_power_solves(d, p, (n - 1) as nat);
        lemma_ring_norm_mul(d, p, ring_pow(d, p, (n - 1) as nat));
    } else {
        assert(d * 0 * 0 == 0) by (nonlinear_arith);
    }
}

/// The `n`-th solution `x_n + y_n√d = (x_1 + y_1√d)^n` from a fundamental solution, computed by
/// square-and-multiply in 128 bits; each component is then cut to its low 64 bits.
pub fn pell_nth_solution(d: u64, fundamental: &PellSolution, n: u32) -> (r: PellSolution)
    requires
        nth_solution_fits(
            d as int,
            (1int, 0int),
            (fundamental.x as int, fundamental.y as int),
            n as nat,
        ),
    ensures
        r.x == ring_pow(d as int, (fundamental.x as int, fundamental.y as int), n as nat).0 as u64,
        r.y == ring_pow(d as int, (fundamental.x as int, fundamental.y as int), n as nat).1 as u64,
        ({
            let f = (fundamental.x as int, fundamental.y as int);
            let pn = ring_pow(d as int, f, n as nat);
            ring_norm(d as int, f) == 1 && pn.0 <= u64::MAX && pn.1 <= u64::MAX ==> ring_norm(
                d as int,
                (r.x as int, r.y as int),
            ) == 1
        }),
{
    let ghost p = (fundamental.x as int, fundamental.y as int);
    let ghost di = d as int;
    let mut x = 1u128;
    let mut y = 0u128;
    let mut bx = fundamental.x as u128;
    let mut by = fundamental.y as u128;
    let mut exp = n;
    proof {
        assert(ring_pow(di, p, 0) == (1int, 0int));
        assert(ring_mul(di, (1int, 0int), ring_pow(di, p, n as nat)) == ring_pow(di, p, n as nat))
            by (nonlinear_arith);
    }
    while exp > 0
        invariant
            p == (fundamental.x as int, fundamental.y as int),
            di == d as int,
            nth_solution_fits(di, (x as int, y as int), (bx as int, by as int), exp as nat),
            ring_mul(di, (x as int, y as int), ring_pow(di, (bx as int, by as int), exp as nat))
                == ring_pow(di, p, n as nat),
        decreases exp,
    {
        let ghost acc = (x as int, y as int);
        let ghost b = (bx as int, by as int);
        let ghost q = (exp / 2) as nat;
        let ghost sq = ring_mul(di, b, b);
        proof {
            lemma_ring_pow_square(di, b, q);
            if exp % 2 == 1 {
                assert(exp as nat == 2 * q + 1);
                lemma_ring_pow_add(di, b, 1, 2 * q);
                assert(ring_pow(di, b, 0) == (1int, 0int));
                assert(ring_pow(di, b, 1) == ring_mul(di, b, (1int, 0int)));
                assert(ring_mul(di, b, (1int, 0int)) == b) by (nonlinear_arith);
                lemma_ring_mul_assoc(di, acc, b, ring_pow(di, sq, q));
            } else {
                assert(exp as nat == 2 * q);
            }
        }
        if exp % 2 == 1 {
            let new_x = x * bx + d as u128 * y * by;
            let new_y = x * by + y * bx;
            x = new_x;
            y = new_y;
        }
        let new_bx = bx * bx + d as u128 * by * by;
        let new_by = 2 * bx * by;
        proof {
            assert(2 * bx * by == bx * by + by * bx) by (nonlinear_arith);
        }
        bx = new_bx;
        by = new_by;
        exp = exp / 2;
        proof {
            assert((bx as int, by as int) == sq);
        }
    }
    proof {
        assert(ring_pow(di, (bx as int, by as int), 0) == (1int, 0int));
        assert(ring_mul(di, (x as int, y as int), (1int, 0int)) == (x as int, y as int))
            by (nonlinear_arith);
    }
    proof {
        if ring_norm(di, p) == 1 {
            lemma_pell_power_solves(di, p, n as nat);
        }
    }
    PellSolution { x: x as u64, y: y as u64 }
}

} // verus!
