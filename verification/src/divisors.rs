//! The divisor functions as sums over the divisors: `d(n)` counts them and `σ(n)` adds them
//! up, in agreement with their product formulas.
use crate::arithmetic::{
    divisor_count_factors, divisor_sigma, divisor_sum_factors, geometric_sum, num_divisors,
    seq_product,
};
use crate::divisibility::{
    lemma_divides_mul, lemma_divisor_le, lemma_euclid, lemma_gcd_divides, lemma_has_prime_divisor,
    lemma_multiplicity_coprime_factor, lemma_multiplicity_of_multiple,
    lemma_prime_divisors_below_contains, lemma_prime_divisors_below_sorted,
    lemma_prime_divisors_below_unique, multiplicity, prime, prime_divisors, spec_gcd,
};
use crate::modular::{ext_gcd_spec, lemma_ext_gcd};
use vstd::arithmetic::div_mod::*;
use vstd::arithmetic::mul::*;
use vstd::arithmetic::power::*;
use vstd::prelude::*;

verus! {

/// `sum of d^k` over the divisors `d` of `n` with `1 <= d <= j`.
pub open spec fn divisor_power_sum(n: nat, j: nat, k: nat) -> int
    decreases j,
{
    if j == 0 {
        0
    } else {
        divisor_power_sum(n, (j - 1) as nat, k) + if n % j == 0 {
            pow(j as int, k)
        } else {
            0
        }
    }
}

/// The part of that sum over the divisors that `c` divides.
spec fn multiples_sum(n: nat, c: nat, j: nat, k: nat) -> int
    decreases j,
{
    if j == 0 {
        0
    } else {
        multiples_sum(n, c, (j - 1) as nat, k) + if n % j == 0 && j % c == 0 {
            pow(j as int, k)
        } else {
            0
        }
    }
}

/// The part over the divisors that `c` does not divide.
spec fn others_sum(n: nat, c: nat, j: nat, k: nat) -> int
    decreases j,
{
    if j == 0 {
        0
    } else {
        others_sum(n, c, (j - 1) as nat, k) + if n % j == 0 && j % c != 0 {
            pow(j as int, k)
        } else {
            0
        }
    }
}

proof fn lemma_sum_splits(n: nat, c: nat, j: nat, k: nat)
    ensures
        divisor_power_sum(n, j, k) == others_sum(n, c, j, k) + multiples_sum(n, c, j, k),
    decreases j,
{
    if j > 0 {
        lemma_sum_splits(n, c, (j - 1) as nat, k);
    }
}

/// No divisor of `n >= 1` exceeds `n`.
proof fn lemma_sum_past_n(n: nat, j: nat, k: nat)
    requires
        n >= 1,
        j >= n,
    ensures
        divisor_power_sum(n, j, k) == divisor_power_sum(n, n, k),
    decreases j,
{
    if j > n {
        lemma_sum_past_n(n, (j - 1) as nat, k);
        if n % j == 0 {
            lemma_small_mod(n, j);
        }
    }
}

/// `c d` divides `c m` exactly when `d` divides `m`.
proof fn lemma_cancel_common_factor(c: nat, m: nat, d: nat)
    requires
        c >= 1,
        d >= 1,
    ensures
        ((c * m) % (c * d) == 0) == (m % d == 0),
{
    assert(c * d >= 1) by (nonlinear_arith)
        requires
            c >= 1,
            d >= 1,
    ;
    if m % d == 0 {
        lemma_fundamental_div_mod(m as int, d as int);
        assert(c * m == (c * d) * (m / d)) by (nonlinear_arith)
            requires
                m == d * (m / d),
        ;
        lemma_mod_multiples_basic((m / d) as int, (c * d) as int);
        lemma_mul_is_commutative((m / d) as int, (c * d) as int);
    }
    if (c * m) % (c * d) == 0 {
        lemma_fundamental_div_mod((c * m) as int, (c * d) as int);
        let t = (c * m) / (c * d);
        assert(c * m == c * (d * t)) by (nonlinear_arith)
            requires
                c * m == (c * d) * t,
        ;
        lemma_mul_equality_converse(c as int, m as int, (d * t) as int);
        lemma_mod_multiples_basic(t as int, d as int);
        lemma_mul_is_commutative(t as int, d as int);
    }
}

/// Inside one block of `c` numbers only the last is a multiple of `c`.
proof fn lemma_multiples_block(n: nat, c: nat, m: nat, r: nat, k: nat)
    requires
        c >= 1,
        r < c,
    ensures
        multiples_sum(n, c, c * m + r, k) == multiples_sum(n, c, c * m, k),
    decreases r,
{
    if r > 0 {
        lemma_multiples_block(n, c, m, (r - 1) as nat, k);
        lemma_mod_multiples_vanish(m as int, r as int, c as int);
        lemma_small_mod(r, c);
        assert((c * m + r - 1) as nat == c * m + (r - 1) as nat);
    }
}

/// The divisors of `c m` that are multiples of `c`, up to `c M`, are `c` times the divisors of
/// `m` up to `M`: their sum of `k`-th powers is `c^k` times.
proof fn lemma_multiples_sum(c: nat, m: nat, big_m: nat, k: nat)
    requires
        c >= 1,
    ensures
        multiples_sum(c * m, c, c * big_m, k) == pow(c as int, k) * divisor_power_sum(m, big_m, k),
    decreases big_m,
{
    if big_m == 0 {
        assert(c * 0 == 0);
        assert(pow(c as int, k) * 0 == 0);
    } else {
        let b = (big_m - 1) as nat;
        lemma_multiples_sum(c, m, b, k);
        lemma_multiples_block(c * m, c, b, (c - 1) as nat, k);
        assert(c * big_m == c * b + (c - 1) as nat + 1) by (nonlinear_arith)
            requires
                big_m == b + 1,
                c >= 1,
        ;
        assert((c * big_m - 1) as nat == c * b + (c - 1) as nat);
        lemma_mod_multiples_basic(big_m as int, c as int);
        lemma_mul_is_commutative(big_m as int, c as int);
        lemma_cancel_common_factor(c, m, big_m);
        lemma_pow_distributes(c as int, big_m as int, k);
        let pc = pow(c as int, k);
        let here: int = if m % big_m == 0 {
            pow(big_m as int, k)
        } else {
            0
        };
        assert(multiples_sum(c * m, c, c * big_m, k) == multiples_sum(c * m, c, (c * big_m - 1) as nat, k)
            + if (c * m) % (c * big_m) == 0 && (c * big_m) % c == 0 {
            pow((c * big_m) as int, k)
        } else {
            0
        });
        assert(divisor_power_sum(m, big_m, k) == divisor_power_sum(m, b, k) + here);
        assert(pc * divisor_power_sum(m, b, k) + pc * here == pc * (divisor_power_sum(m, b, k)
            + here)) by (nonlinear_arith);
        assert(pc * 0 == 0);
    }
}

/// Gauss: a number prime to `p` that divides `p x` divides `x`.
proof fn lemma_gauss(d: nat, p: nat, x: nat)
    requires
        prime(p),
        d >= 1,
        d % p != 0,
        (p * x) % d == 0,
    ensures
        x % d == 0,
{
    let (g, u, v) = ext_gcd_spec(d as int, p as int);
    lemma_ext_gcd(d as int, p as int);
    lemma_gcd_divides(d, p);
    let gg = spec_gcd(d, p);
    assert(g == gg);
    // the gcd divides p, so it is 1 or p; p would divide d
    if gg != 1 {
        lemma_divisor_le(gg, p);
        if gg < p {
            assert(p % gg != 0);
        }
    }
    // x = x (d u + p v) = d (x u) + (p x) v
    lemma_fundamental_div_mod((p * x) as int, d as int);
    let t = (p * x) / d;
    assert(x == d * (x * u + t * v)) by (nonlinear_arith)
        requires
            d * u + p * v == 1,
            p * x == d * t,
    ;
    lemma_mod_multiples_basic(x * u + t * v, d as int);
    lemma_mul_is_commutative(x * u + t * v, d as int);
}

/// For `n = p^e m` with `p` prime not dividing `m`, the divisors of `n` that `p^e` does not
/// divide are the divisors of `p^(e-1) m`.
proof fn lemma_divisors_below_top_power(p: nat, e: nat, m: nat, d: nat)
    requires
        prime(p),
        e >= 1,
        m >= 1,
        m % p != 0,
        d >= 1,
    ensures
        ((pow(p as int, e) * m) as nat % d == 0 && d % (pow(p as int, e) as nat) != 0) == ((pow(
            p as int,
            (e - 1) as nat,
        ) * m) as nat % d == 0),
    decreases e,
{
    let pe = pow(p as int, e) as nat;
    let pe1 = pow(p as int, (e - 1) as nat) as nat;
    crate::primes::lemma_pow_nonneg(p, e);
    crate::primes::lemma_pow_nonneg(p, (e - 1) as nat);
    lemma_pow_positive(p as int, e);
    lemma_pow_positive(p as int, (e - 1) as nat);
    assert(pe == p * pe1) by {
        lemma_pow_adds(p as int, 1, (e - 1) as nat);
        lemma_pow1(p as int);
    }
    let n = pe * m;
    let n1 = pe1 * m;
    assert(n == p * n1) by {
        lemma_mul_is_associative(p as int, pe1 as int, m as int);
    }
    // a divisor of n1 divides n, and p^e does not divide it
    if n1 % d == 0 {
        crate::divisibility::lemma_divides_mul(d, n1 as int, p as int);
        assert(n1 >= 1) by (nonlinear_arith)
            requires
                pe1 >= 1,
                m >= 1,
                n1 == pe1 * m,
        ;
        if d % pe == 0 {
            crate::divisibility::lemma_divides_trans(pe, d, n1);
            // p^e | p^(e-1) m forces p | m
            lemma_fundamental_div_mod(n1 as int, pe as int);
            let t = n1 / pe;
            assert(pe1 * m == pe1 * (p * t)) by (nonlinear_arith)
                requires
                    n1 == pe * t,
                    pe == p * pe1,
                    n1 == pe1 * m,
            ;
            lemma_mul_equality_converse(pe1 as int, m as int, (p * t) as int);
            crate::divisibility::lemma_mod_of_multiple(t, p);
        }
    }
    // a divisor of n that p^e does not divide divides n1
    if n % d == 0 && d % pe != 0 {
        if d % p != 0 {
            lemma_gauss(d, p, n1);
        } else {
            assert(e >= 2) by {
                if e == 1 {
                    lemma_pow1(p as int);
                }
            }
            lemma_fundamental_div_mod(d as int, p as int);
            let d1 = d / p;
            assert(d == p * d1);
            assert(d1 >= 1) by {
                if d1 == 0 {
                    assert(p * 0 == 0);
                }
            }
            lemma_cancel_common_factor(p, n1, d1);
            // p^(e-1) does not divide d1
            if d1 % pe1 == 0 {
                lemma_cancel_common_factor(p, d1, pe1);
            }
            lemma_divisors_below_top_power(p, (e - 1) as nat, m, d1);
            let pe2 = pow(p as int, (e - 2) as nat) as nat;
            assert(pe1 == p * pe2) by {
                crate::primes::lemma_pow_nonneg(p, (e - 2) as nat);
                assert(1 + (e - 2) as nat == (e - 1) as nat);
                lemma_pow_adds(p as int, 1, (e - 2) as nat);
                lemma_pow1(p as int);
            }
            assert(n1 == p * (pe2 * m)) by {
                lemma_mul_is_associative(p as int, pe2 as int, m as int);
            }
            lemma_pow_positive(p as int, (e - 2) as nat);
            lemma_cancel_common_factor(p, pe2 * m, d1);
        }
    }
}

/// The divisors of `p^e m` that `p^e` does not divide contribute what all divisors of
/// `p^(e-1) m` do.
proof fn lemma_others_sum(p: nat, e: nat, m: nat, j: nat, k: nat)
    requires
        prime(p),
        e >= 1,
        m >= 1,
        m % p != 0,
    ensures
        others_sum((pow(p as int, e) * m) as nat, pow(p as int, e) as nat, j, k)
            == divisor_power_sum((pow(p as int, (e - 1) as nat) * m) as nat, j, k),
    decreases j,
{
    if j > 0 {
        lemma_others_sum(p, e, m, (j - 1) as nat, k);
        lemma_divisors_below_top_power(p, e, m, j);
    }
}

/// `sum_{i <= e} (p^i)^k`: the contribution of the powers of `p`.
pub open spec fn prime_power_weight(p: nat, e: nat, k: nat) -> int
    decreases e,
{
    if e == 0 {
        pow(pow(p as int, 0), k)
    } else {
        prime_power_weight(p, (e - 1) as nat, k) + pow(pow(p as int, e), k)
    }
}

/// Peeling a prime power: the divisor sums of `p^e m` are those of `m` times the weight of
/// `p^e`.
proof fn lemma_peel_prime_power(p: nat, e: nat, m: nat, k: nat)
    requires
        prime(p),
        m >= 1,
        m % p != 0,
    ensures
        divisor_power_sum((pow(p as int, e) * m) as nat, (pow(p as int, e) * m) as nat, k)
            == prime_power_weight(p, e, k) * divisor_power_sum(m, m, k),
    decreases e,
{
    let dm = divisor_power_sum(m, m, k);
    if e == 0 {
        lemma_pow0(p as int);
        lemma1_pow(k);
        assert(1 * m == m);
        assert(1 * dm == dm);
    } else {
        lemma_peel_prime_power(p, (e - 1) as nat, m, k);
        crate::primes::lemma_pow_nonneg(p, e);
        crate::primes::lemma_pow_nonneg(p, (e - 1) as nat);
        lemma_pow_positive(p as int, e);
        lemma_pow_positive(p as int, (e - 1) as nat);
        let c = pow(p as int, e) as nat;
        let pe1 = pow(p as int, (e - 1) as nat) as nat;
        assert(c == p * pe1) by {
            lemma_pow_adds(p as int, 1, (e - 1) as nat);
            lemma_pow1(p as int);
        }
        let n = c * m;
        let n1 = pe1 * m;
        assert(n == p * n1) by {
            lemma_mul_is_associative(p as int, pe1 as int, m as int);
        }
        assert(n1 >= 1 && n >= n1) by (nonlinear_arith)
            requires
                pe1 >= 1,
                m >= 1,
                n1 == pe1 * m,
                n == p * n1,
                p >= 2,
        ;
        lemma_sum_splits(n, c, n, k);
        lemma_others_sum(p, e, m, n, k);
        lemma_sum_past_n(n1, n, k);
        lemma_multiples_sum(c, m, m, k);
        let w1 = prime_power_weight(p, (e - 1) as nat, k);
        let pc = pow(c as int, k);
        assert(w1 * dm + pc * dm == (w1 + pc) * dm) by (nonlinear_arith);
    }
}

/// The weights for counting and for summing: `e + 1` and `1 + p + ... + p^e`.
proof fn lemma_prime_power_weight(p: nat, e: nat)
    ensures
        prime_power_weight(p, e, 0) == e + 1,
        prime_power_weight(p, e, 1) == geometric_sum(p, e),
    decreases e,
{
    lemma_pow0(pow(p as int, e));
    lemma_pow1(pow(p as int, e));
    if e == 0 {
        lemma_pow0(p as int);
    } else {
        lemma_prime_power_weight(p, (e - 1) as nat);
        crate::primes::lemma_pow_nonneg(p, e);
    }
}

/// `n = p^v m` with `v` the multiplicity of `p` and `p` not dividing `m`.
proof fn lemma_split_prime_power(n: nat, p: nat) -> (m: nat)
    requires
        p >= 2,
        n >= 1,
    ensures
        n == pow(p as int, multiplicity(n, p)) * m,
        m >= 1,
        m % p != 0,
    decreases n,
{
    if n % p == 0 {
        lemma_fundamental_div_mod(n as int, p as int);
        let h = n / p;
        assert(n == p * h);
        assert(h >= 1) by {
            if h == 0 {
                assert(p * 0 == 0);
            }
        }
        assert(h < n) by (nonlinear_arith)
            requires
                n == p * h,
                h >= 1,
                p >= 2,
        ;
        let m = lemma_split_prime_power(h, p);
        lemma_multiplicity_of_multiple(h, p);
        lemma_pow_adds(p as int, 1, multiplicity(h, p));
        lemma_pow1(p as int);
        lemma_mul_is_associative(p as int, pow(p as int, multiplicity(h, p)), m as int);
        assert(1 + multiplicity(h, p) == multiplicity(n, p));
        m
    } else {
        assert(multiplicity(n, p) == 0);
        lemma_pow0(p as int);
        n
    }
}

/// The product of a list extended by one element.
proof fn lemma_seq_product_push(s: Seq<nat>, x: nat)
    ensures
        seq_product(s.push(x)) == seq_product(s) * x,
{
    assert(s.push(x).drop_last() =~= s);
}

/// `d(n)` counts the divisors of `n` and `σ(n)` adds them up: for `n >= 1`,
/// `d(n) = #{d : d | n}` and `σ(n) = sum of d over d | n`.
pub proof fn lemma_divisor_functions_are_sums(n: nat)
    requires
        n >= 1,
    ensures
        num_divisors(n) == divisor_power_sum(n, n, 0),
        divisor_sigma(n) == divisor_power_sum(n, n, 1),
    decreases n,
{
    let ps = prime_divisors(n);
    if n == 1 {
        assert(ps.len() == 0) by {
            if ps.len() > 0 {
                assert(ps.contains(ps[0]));
                lemma_prime_divisors_below_contains(1, 2, ps[0]);
            }
        }
        assert(divisor_count_factors(1) =~= Seq::<nat>::empty());
        assert(divisor_sum_factors(1) =~= Seq::<nat>::empty());
        lemma_pow0(1);
        lemma_pow1(1);
        assert(divisor_power_sum(1, 0, 0) == 0 && divisor_power_sum(1, 0, 1) == 0);
    } else {
        // the largest prime divisor p of n
        lemma_has_prime_divisor(n);
        let q0 = choose|q: nat| prime(q) && q <= n && #[trigger] (n % q) == 0;
        lemma_prime_divisors_below_contains(n, n + 1, q0);
        assert(ps.len() > 0);
        lemma_prime_divisors_below_sorted(n, n + 1);
        let p = ps.last();
        assert(ps.contains(p));
        lemma_prime_divisors_below_contains(n, n + 1, p);
        let e = multiplicity(n, p);
        let m = lemma_split_prime_power(n, p);
        let c = pow(p as int, e);
        crate::primes::lemma_pow_nonneg(p, e);
        lemma_pow_positive(p as int, e);
        assert(e >= 1);
        assert(c >= 2) by {
            lemma_pow_adds(p as int, 1, (e - 1) as nat);
            lemma_pow1(p as int);
            lemma_pow_positive(p as int, (e - 1) as nat);
            assert(p * pow(p as int, (e - 1) as nat) >= p) by (nonlinear_arith)
                requires
                    pow(p as int, (e - 1) as nat) >= 1,
                    p >= 2,
            ;
        }
        assert(m < n) by (nonlinear_arith)
            requires
                n == c * m,
                c >= 2,
                m >= 1,
        ;
        // the prime divisors of m are those of n but p
        let rest = ps.drop_last();
        assert forall|q: nat| #[trigger] rest.contains(q) == (prime(q) && q < m + 1 && m % q
            == 0) by {
            lemma_prime_divisors_below_contains(n, n + 1, q);
            if rest.contains(q) {
                let i = choose|i: int| 0 <= i < rest.len() && rest[i] == q;
                assert(ps[i] == q && ps.contains(q));
                assert(q < p);
                crate::primes::lemma_prime_pow_not_divisible(q, p, e);
                lemma_euclid(c as nat, m, q);
                lemma_divisor_le(q, m);
            }
            if prime(q) && q < m + 1 && m % q == 0 {
                lemma_divides_mul(q, m as int, c);
                lemma_mul_is_commutative(m as int, c);
                assert(q <= n);
                assert(ps.contains(q));
                let i = choose|i: int| 0 <= i < ps.len() && ps[i] == q;
                assert(q != p);
                assert(i != ps.len() - 1);
                assert(rest[i] == q);
            }
        }
        assert forall|i: int, j: int| 0 <= i < j < rest.len() implies rest[i] < rest[j] by {
            assert(rest[i] == ps[i] && rest[j] == ps[j]);
        }
        lemma_prime_divisors_below_unique(m, m + 1, rest);
        assert(prime_divisors(m) == rest);
        // the multiplicities of the other primes are those in m
        assert forall|i: int| 0 <= i < rest.len() implies multiplicity(n, #[trigger] rest[i])
            == multiplicity(m, rest[i]) by {
            let q = rest[i];
            assert(rest.contains(q));
            assert(prime(q) && m % q == 0);
            assert(q != p) by {
                assert(ps[i] == q);
            }
            crate::primes::lemma_prime_pow_not_divisible(q, p, e);
            lemma_multiplicity_coprime_factor(c as nat, m, q);
        }
        let fc = divisor_count_factors(n);
        let fs = divisor_sum_factors(n);
        assert(fc =~= divisor_count_factors(m).push(e + 1)) by {
            assert forall|i: int| 0 <= i < rest.len() implies fc[i] == divisor_count_factors(
                m,
            )[i] by {
                assert(multiplicity(n, rest[i]) == multiplicity(m, rest[i]));
            }
        }
        assert(fs =~= divisor_sum_factors(m).push(geometric_sum(p, e))) by {
            assert forall|i: int| 0 <= i < rest.len() implies fs[i] == divisor_sum_factors(m)[i] by {
                assert(multiplicity(n, rest[i]) == multiplicity(m, rest[i]));
            }
        }
        lemma_seq_product_push(divisor_count_factors(m), e + 1);
        lemma_seq_product_push(divisor_sum_factors(m), geometric_sum(p, e));
        lemma_divisor_functions_are_sums(m);
        lemma_peel_prime_power(p, e, m, 0);
        lemma_peel_prime_power(p, e, m, 1);
        lemma_prime_power_weight(p, e);
        lemma_mul_is_commutative(num_divisors(m) as int, (e + 1) as int);
        lemma_mul_is_commutative(divisor_sigma(m) as int, geometric_sum(p, e) as int);
    }
}

} // verus!
