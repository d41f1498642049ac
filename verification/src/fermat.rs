//! Binomial coefficients and Fermat's little theorem, with what follows from it for the
//! primality test and the Legendre symbol.
use crate::divisibility::{lemma_euclid, prime};
use vstd::arithmetic::div_mod::*;
use vstd::arithmetic::mul::*;
use vstd::arithmetic::power::*;
use vstd::prelude::*;

verus! {

/// The binomial coefficient `C(n, k)`, by Pascal's rule.
pub open spec fn binom(n: nat, k: nat) -> nat
    decreases n,
{
    if k == 0 {
        1
    } else if n == 0 {
        0
    } else {
        binom((n - 1) as nat, (k - 1) as nat) + binom((n - 1) as nat, k)
    }
}

/// `C(n, k) = 0` for `k > n`.
proof fn lemma_binom_above(n: nat, k: nat)
    requires
        k > n,
    ensures
        binom(n, k) == 0,
    decreases n,
{
    if n > 0 {
        lemma_binom_above((n - 1) as nat, (k - 1) as nat);
        lemma_binom_above((n - 1) as nat, k);
    }
}

/// Absorption: `k C(n, k) = n C(n-1, k-1)`.
proof fn lemma_binom_absorption(n: nat, k: nat)
    requires
        n >= 1,
        k >= 1,
    ensures
        k * binom(n, k) == n * binom((n - 1) as nat, (k - 1) as nat),
    decreases n,
{
    let c1 = binom((n - 1) as nat, (k - 1) as nat);
    let c2 = binom((n - 1) as nat, k);
    assert(binom(n, k) == c1 + c2);
    if n == 1 {
        if k == 1 {
            assert(c1 == 1);
            assert(c2 == 0);
        } else {
            lemma_binom_above(0, (k - 1) as nat);
            lemma_binom_above(0, k);
            lemma_binom_above(1, k);
            assert(k * 0 == 0);
        }
    } else {
        // k C(n-1, k) = (n-1) C(n-2, k-1)
        lemma_binom_absorption((n - 1) as nat, k);
        let d1 = binom((n - 2) as nat, (k - 1) as nat);
        if k == 1 {
            assert(c1 == 1);
            assert(binom((n - 1) as nat, 0) == 1);
            assert(d1 == 1);
            assert(1 * (c1 + c2) == n * c1) by (nonlinear_arith)
                requires
                    1 * c2 == (n - 1) * d1,
                    c1 == 1,
                    d1 == 1,
            ;
        } else {
            // (k-1) C(n-1, k-1) = (n-1) C(n-2, k-2)
            lemma_binom_absorption((n - 1) as nat, (k - 1) as nat);
            let d2 = binom((n - 2) as nat, (k - 2) as nat);
            assert(c1 == d2 + d1);
            assert(k * (c1 + c2) == n * c1) by (nonlinear_arith)
                requires
                    k * c2 == (n - 1) * d1,
                    (k - 1) * c1 == (n - 1) * d2,
                    c1 == d2 + d1,
            ;
        }
    }
}

/// A prime `p` divides `C(p, k)` for `0 < k < p`.
pub proof fn lemma_prime_divides_binom(p: nat, k: nat)
    requires
        prime(p),
        0 < k < p,
    ensures
        binom(p, k) % p == 0,
{
    lemma_binom_absorption(p, k);
    let c = binom((p - 1) as nat, (k - 1) as nat);
    lemma_mod_multiples_basic(c as int, p as int);
    lemma_mul_is_commutative(c as int, p as int);
    lemma_euclid(k, binom(p, k), p);
    lemma_small_mod(k, p);
}

/// `sum_{i <= j} C(n, i) x^i` (0 for `j < 0`).
pub open spec fn binom_sum(n: nat, x: int, j: int) -> int
    decreases j + 1,
{
    if j < 0 {
        0
    } else {
        binom_sum(n, x, j - 1) + binom(n, j as nat) * pow(x, j as nat)
    }
}

/// Pascal's rule on the partial sums: `S(n+1, j) = x S(n, j-1) + S(n, j)`.
proof fn lemma_binom_sum_step(n: nat, x: int, j: int)
    ensures
        binom_sum(n + 1, x, j) == x * binom_sum(n, x, j - 1) + binom_sum(n, x, j),
    decreases j + 1,
{
    if j < 0 {
        assert(x * 0 == 0);
    } else if j == 0 {
        assert(binom_sum(n, x, -1) == 0);
        assert(x * 0 == 0);
        assert(binom_sum(n + 1, x, -1) == 0);
        assert(binom_sum(n + 1, x, 0) == binom(n + 1, 0) * pow(x, 0));
        assert(binom_sum(n, x, 0) == binom(n, 0) * pow(x, 0));
    } else {
        lemma_binom_sum_step(n, x, j - 1);
        let jn = j as nat;
        let a = binom(n, (jn - 1) as nat);
        let b = binom(n, jn);
        assert(binom(n + 1, jn) == a + b);
        let xj1 = pow(x, (jn - 1) as nat);
        assert(pow(x, jn) == x * xj1) by {
            lemma_pow_adds(x, 1, (jn - 1) as nat);
            lemma_pow1(x);
        }
        let s2 = binom_sum(n, x, j - 2);
        let s1 = binom_sum(n, x, j - 1);
        assert(s1 == s2 + a * xj1);
        assert(binom_sum(n + 1, x, j) == x * s2 + s1 + (a + b) * (x * xj1));
        assert(x * s2 + s1 + (a + b) * (x * xj1) == x * (s2 + a * xj1) + (s1 + b * (x * xj1)))
            by (nonlinear_arith);
    }
}

/// Partial sums past `n` add nothing: `S(n, j) = S(n, n)` for `j >= n`.
proof fn lemma_binom_sum_past_end(n: nat, x: int, j: int)
    requires
        j >= n,
    ensures
        binom_sum(n, x, j) == binom_sum(n, x, n as int),
    decreases j,
{
    if j > n {
        lemma_binom_sum_past_end(n, x, j - 1);
        lemma_binom_above(n, j as nat);
        assert(0 * pow(x, j as nat) == 0);
    }
}

/// The binomial theorem: `(x + 1)^n = sum_i C(n, i) x^i`.
pub proof fn lemma_binomial_theorem(n: nat, x: int)
    ensures
        pow(x + 1, n) == binom_sum(n, x, n as int),
    decreases n,
{
    if n == 0 {
        assert(pow(x + 1, 0) == 1) by {
            lemma_pow0(x + 1);
        }
        assert(binom_sum(0, x, -1) == 0);
        assert(binom_sum(0, x, 0) == binom(0, 0) * pow(x, 0));
        lemma_pow0(x);
    } else {
        let m = (n - 1) as nat;
        lemma_binomial_theorem(m, x);
        lemma_binom_sum_step(m, x, n as int);
        lemma_binom_sum_past_end(m, x, n as int);
        lemma_pow_adds(x + 1, 1, m);
        lemma_pow1(x + 1);
        let s = binom_sum(m, x, m as int);
        assert(pow(x + 1, n) == (x + 1) * s);
        assert((x + 1) * s == x * s + s) by (nonlinear_arith);
    }
}

/// The middle terms vanish mod a prime: `S(p, j) ≡ 1 (mod p)` for `0 <= j < p`.
proof fn lemma_binom_sum_mod_prime(p: nat, x: int, j: int)
    requires
        prime(p),
        0 <= j < p,
    ensures
        binom_sum(p, x, j) % (p as int) == 1int % (p as int),
    decreases j,
{
    if j == 0 {
        assert(binom_sum(p, x, -1) == 0);
        assert(binom_sum(p, x, 0) == binom(p, 0) * pow(x, 0));
        lemma_pow0(x);
    } else {
        lemma_binom_sum_mod_prime(p, x, j - 1);
        lemma_prime_divides_binom(p, j as nat);
        let c = binom(p, j as nat);
        let t = pow(x, j as nat);
        lemma_fundamental_div_mod(c as int, p as int);
        assert(c * t == p * ((c as int / p as int) * t)) by (nonlinear_arith)
            requires
                c == p * (c as int / p as int),
        ;
        lemma_mod_multiples_vanish((c as int / p as int) * t, binom_sum(p, x, j - 1), p as int);
    }
}

/// `(x + 1)^p ≡ x^p + 1 (mod p)` for a prime `p`.
proof fn lemma_freshmans_dream(p: nat, x: int)
    requires
        prime(p),
    ensures
        pow(x + 1, p) % (p as int) == (pow(x, p) + 1) % (p as int),
{
    lemma_binomial_theorem(p, x);
    lemma_binom_sum_mod_prime(p, x, p - 1);
    assert(binom(p, p) == 1) by {
        lemma_binom_diag(p);
    }
    assert(binom_sum(p, x, p as int) == binom_sum(p, x, p - 1) + pow(x, p));
    lemma_add_mod_noop(binom_sum(p, x, p - 1), pow(x, p), p as int);
    lemma_add_mod_noop(1, pow(x, p), p as int);
}

/// `C(n, n) = 1`.
proof fn lemma_binom_diag(n: nat)
    ensures
        binom(n, n) == 1,
    decreases n,
{
    if n > 0 {
        lemma_binom_diag((n - 1) as nat);
        lemma_binom_above((n - 1) as nat, n);
    }
}

/// Fermat's little theorem, first form: `a^p ≡ a (mod p)` for every `a >= 0`.
pub proof fn lemma_fermat_power(p: nat, a: nat)
    requires
        prime(p),
    ensures
        pow(a as int, p) % (p as int) == (a as int) % (p as int),
    decreases a,
{
    if a == 0 {
        lemma0_pow(p);
    } else {
        let b = (a - 1) as nat;
        lemma_fermat_power(p, b);
        lemma_freshmans_dream(p, b as int);
        lemma_add_mod_noop(pow(b as int, p), 1, p as int);
        lemma_add_mod_noop(b as int, 1, p as int);
    }
}

/// Fermat's little theorem: `a^(p-1) ≡ 1 (mod p)` when the prime `p` does not divide `a`.
pub proof fn lemma_fermat_little(p: nat, a: int)
    requires
        prime(p),
        a % (p as int) != 0,
    ensures
        pow(a, (p - 1) as nat) % (p as int) == 1,
{
    let pi = p as int;
    let r = (a % pi) as nat;
    lemma_mod_bound(a, pi);
    lemma_fermat_power(p, r);
    let e = pow(r as int, (p - 1) as nat);
    lemma_pow_positive(r as int, (p - 1) as nat);
    assert(pow(r as int, p) == r * e) by {
        lemma_pow_adds(r as int, 1, (p - 1) as nat);
        lemma_pow1(r as int);
    }
    // p | r e - r = r (e - 1), and p does not divide r, so p | e - 1
    lemma_small_mod(r, p);
    assert(r >= 1);
    assert(e >= 1);
    let f = (e - 1) as nat;
    assert(r * e - r == r * f) by (nonlinear_arith)
        requires
            f == e - 1,
    ;
    assert((r * f) % p == 0) by {
        lemma_sub_mod_noop(r * e, r as int, pi);
        lemma_small_mod(0, p);
    }
    lemma_euclid(r, f, p);
    assert(f % p == 0);
    // so e ≡ 1
    lemma_fundamental_div_mod(f as int, pi);
    lemma_mod_multiples_vanish(f as int / pi, 1, pi);
    lemma_small_mod(1, p);
    assert(e == pi * (f as int / pi) + 1);
    // the power of `a` reduces to that of `r`
    lemma_pow_mod_noop(a, (p - 1) as nat, pi);
}

} // verus!
