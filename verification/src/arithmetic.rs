//! Arithmetic functions: Euler's totient, Möbius, divisor count and sum, Mertens, gcd, lcm.
use crate::divisibility::{
    lemma_distinct_primes, lemma_divides_mul, lemma_euclid, lemma_mod_of_multiple,
    lemma_divides_trans, lemma_divisor_le, lemma_has_prime_divisor,
    lemma_prime_divisors_below_contains, lemma_prime_divisors_below_sorted, prime,
    prime_divisors, prime_divisors_below, spec_gcd,
};
use crate::primes::{
    factor_product, factor_primes, factorize, factors_valid, lemma_mul_le, lemma_pow_nonneg,
    PrimeFactor,
};
use crate::divisibility::multiplicity;
use vstd::arithmetic::power::*;
use vstd::arithmetic::div_mod::*;
use vstd::arithmetic::mul::*;
use vstd::prelude::*;

verus! {

// ---------------------------------------------------------------------------
// gcd and lcm
// ---------------------------------------------------------------------------

/// GCD of two numbers, by Euclid's algorithm.
pub fn gcd(a: u64, b: u64) -> (r: u64)
    ensures
        r == spec_gcd(a as nat, b as nat),
    decreases b,
{
    if b == 0 {
        a
    } else {
        gcd(b, a % b)
    }
}

/// LCM of two numbers: `a / gcd(a, b) * b`.
pub fn lcm(a: u64, b: u64) -> (r: u64)
    requires
        a != 0 || b != 0,
        (a as nat) / spec_gcd(a as nat, b as nat) * (b as nat) <= u64::MAX,
    ensures
        r == (a as nat) / spec_gcd(a as nat, b as nat) * (b as nat),
{
    proof {
        crate::divisibility::lemma_gcd_divides(a as nat, b as nat);
    }
    a / gcd(a, b) * b
}

// ---------------------------------------------------------------------------
// Euler's totient
// ---------------------------------------------------------------------------

/// `x` multiplied by `(1 - 1/p)` for each `p` of `ps` in turn.
pub open spec fn totient_apply(x: nat, ps: Seq<nat>) -> nat
    decreases ps.len(),
{
    if ps.len() == 0 {
        x
    } else {
        totient_apply(x, ps.drop_last()) / ps.last() * ((ps.last() - 1) as nat)
    }
}

/// Euler's totient by Euler's product formula: `φ(n) = n ∏_{p | n} (1 - 1/p)`
/// (so `φ(0) = 0` and `φ(1) = 1`).
pub open spec fn totient(n: nat) -> nat {
    totient_apply(n, prime_divisors(n))
}

proof fn lemma_totient_apply_le(x: nat, ps: Seq<nat>)
    requires
        forall|i: int| 0 <= i < ps.len() ==> #[trigger] ps[i] >= 1,
    ensures
        totient_apply(x, ps) <= x,
    decreases ps.len(),
{
    if ps.len() > 0 {
        let t = ps.drop_last();
        assert forall|i: int| 0 <= i < t.len() implies #[trigger] t[i] >= 1 by {
            assert(t[i] == ps[i]);
        }
        lemma_totient_apply_le(x, t);
        let y = totient_apply(x, t);
        let p = ps.last();
        assert(ps[ps.len() - 1] >= 1);
        lemma_step_le(y, p);
    }
}

proof fn lemma_step_le(y: nat, p: nat)
    requires
        p >= 1,
    ensures
        y / p * ((p - 1) as nat) <= y,
        p >= 2 && y >= p ==> y / p * ((p - 1) as nat) < y,
{
    lemma_fundamental_div_mod(y as int, p as int);
    lemma_mod_pos_bound(y as int, p as int);
    let q = y / p;
    let pm = (p - 1) as nat;
    assert(q * pm <= q * p) by (nonlinear_arith)
        requires
            pm + 1 == p,
    ;
    lemma_mul_is_commutative(q as int, p as int);
    if p >= 2 && y >= p {
        lemma_div_pos_is_pos(y as int, p as int);
        assert(q >= 1) by {
            lemma_div_is_ordered(p as int, y as int, p as int);
            lemma_div_by_self(p as int);
        }
        assert(q * pm < q * p) by (nonlinear_arith)
            requires
                q >= 1,
                pm + 1 == p,
        ;
    }
}

proof fn lemma_totient_apply_zero(ps: Seq<nat>)
    requires
        forall|i: int| 0 <= i < ps.len() ==> #[trigger] ps[i] >= 1,
    ensures
        totient_apply(0, ps) == 0,
    decreases ps.len(),
{
    if ps.len() > 0 {
        let t = ps.drop_last();
        assert forall|i: int| 0 <= i < t.len() implies #[trigger] t[i] >= 1 by {
            assert(t[i] == ps[i]);
        }
        lemma_totient_apply_zero(t);
        assert(ps[ps.len() - 1] >= 1);
        lemma_div_of0(ps.last() as int);
        assert(0nat / ps.last() == 0);
        lemma_mul_basics(((ps.last() - 1) as nat) as int);
    }
}

/// A non-empty list whose first prime divides `x` strictly lowers `x`.
proof fn lemma_totient_apply_lt(x: nat, ps: Seq<nat>)
    requires
        ps.len() >= 1,
        ps[0] >= 2,
        x % ps[0] == 0,
        x >= 1,
        forall|i: int| 0 <= i < ps.len() ==> #[trigger] ps[i] >= 1,
    ensures
        totient_apply(x, ps) < x,
    decreases ps.len(),
{
    let t = ps.drop_last();
    if ps.len() == 1 {
        lemma_divisor_le(ps[0], x);
        lemma_step_le(x, ps[0]);
    } else {
        assert forall|i: int| 0 <= i < t.len() implies #[trigger] t[i] >= 1 by {
            assert(t[i] == ps[i]);
        }
        assert(t[0] == ps[0]);
        lemma_totient_apply_lt(x, t);
        assert(ps[ps.len() - 1] >= 1);
        lemma_step_le(totient_apply(x, t), ps.last());
    }
}

proof fn lemma_take_push(s: Seq<nat>, i: int)
    requires
        0 <= i < s.len(),
    ensures
        s.take(i + 1).drop_last() == s.take(i),
        s.take(i + 1).last() == s[i],
{
    assert(s.take(i + 1).drop_last() =~= s.take(i));
}

/// Euler's totient function φ(n): `n ∏ (1 - 1/p)` over the primes `p` dividing `n`
/// (0 for `n = 0`, 1 for `n = 1`), the number of `1 <= k <= n` coprime to `n`
/// (`lemma_totient_counts_coprimes`).
pub fn euler_totient(n: u64) -> (r: u64)
    ensures
        r == totient(n as nat),
{
    if n <= 1 {
        proof {
            assert(prime_divisors(n as nat) =~= Seq::<nat>::empty());
        }
        return n;
    }
    let factors = factorize(n);
    let ghost ps = factor_primes(factors@);
    let mut result: u64 = n;
    let mut i: usize = 0;
    proof {
        assert(ps.take(0) =~= Seq::<nat>::empty());
    }
    while i < factors.len()
        invariant
            0 <= i <= factors.len(),
            ps == factor_primes(factors@),
            ps == prime_divisors(n as nat),
            factors_valid(factors@, n as nat, n as nat + 1),
            result == totient_apply(n as nat, ps.take(i as int)),
            result <= n,
        decreases factors.len() - i,
    {
        let p = factors[i].prime;
        proof {
            assert(prime(factors@[i as int].prime as nat));
            assert(ps[i as int] == p as nat);
            lemma_take_push(ps, i as int);
            lemma_step_le(result as nat, p as nat);
        }
        result = result / p * (p - 1);
        i = i + 1;
    }
    proof {
        assert(ps.take(factors.len() as int) =~= ps);
    }
    result
}

/// `x` multiplied, for each prime `p` of `ps` in turn, by `(1 - 2/p)` when `p` divides `n`
/// once and by `(1 - 1/p)^2` when `p^2` divides `n`.
pub open spec fn primitive_apply(n: nat, x: nat, ps: Seq<nat>) -> nat
    decreases ps.len(),
{
    if ps.len() == 0 {
        x
    } else {
        let y = primitive_apply(n, x, ps.drop_last());
        let p = ps.last();
        if multiplicity(n, p) == 1 {
            y / p * ((p - 2) as nat)
        } else {
            y / p / p * ((p - 1) as nat) * ((p - 1) as nat)
        }
    }
}

/// The number of primitive Dirichlet characters mod `q`, by its product formula
/// `q ∏_{p || q} (1 - 2/p) ∏_{p^2 | q} (1 - 1/p)^2` (1 for `q = 1`, 0 for `q = 0`).
pub open spec fn primitive_character_count(q: nat) -> nat {
    if q == 0 {
        0
    } else {
        primitive_apply(q, q, prime_divisors(q))
    }
}

proof fn lemma_primitive_step_le(y: nat, p: nat)
    requires
        p >= 2,
    ensures
        y / p * ((p - 2) as nat) <= y,
        y / p / p * ((p - 1) as nat) * ((p - 1) as nat) <= y,
{
    lemma_step_le(y, p);
    let a = y / p;
    assert(a * ((p - 2) as nat) <= a * ((p - 1) as nat)) by (nonlinear_arith)
        requires
            p >= 2,
    ;
    lemma_step_le(a, p);
    let b = a / p * ((p - 1) as nat);
    assert(b <= a);
    assert(a / p * ((p - 1) as nat) * ((p - 1) as nat) <= a * ((p - 1) as nat)) by (
    nonlinear_arith)
        requires
            a / p * ((p - 1) as nat) <= a,
    ;
}

/// The number of primitive Dirichlet characters mod `q`, from the factorization of `q`.
pub(crate) fn primitive_characters(q: u64) -> (r: u64)
    ensures
        r == primitive_character_count(q as nat),
{
    if q <= 1 {
        proof {
            assert(prime_divisors(q as nat) =~= Seq::<nat>::empty());
        }
        return q;
    }
    let factors = factorize(q);
    let ghost ps = factor_primes(factors@);
    let mut result: u64 = q;
    let mut i: usize = 0;
    proof {
        assert(ps.take(0) =~= Seq::<nat>::empty());
    }
    while i < factors.len()
        invariant
            0 <= i <= factors.len(),
            ps == factor_primes(factors@),
            ps == prime_divisors(q as nat),
            factors_valid(factors@, q as nat, q as nat + 1),
            result == primitive_apply(q as nat, q as nat, ps.take(i as int)),
            result <= q,
        decreases factors.len() - i,
    {
        let p = factors[i].prime;
        let e = factors[i].exponent;
        proof {
            assert(prime(factors@[i as int].prime as nat));
            assert(ps[i as int] == p as nat);
            lemma_take_push(ps, i as int);
            lemma_primitive_step_le(result as nat, p as nat);
        }
        if e == 1 {
            result = result / p * (p - 2);
        } else {
            proof {
                lemma_step_le((result / p) as nat, p as nat);
                lemma_step_le(result as nat, p as nat);
                assert(result / p / p * (p - 1) <= result);
            }
            result = result / p / p * (p - 1) * (p - 1);
        }
        i = i + 1;
    }
    proof {
        assert(ps.take(factors.len() as int) =~= ps);
    }
    result
}

/// For `k >= 1`, no prime above `k` divides `k`.
proof fn lemma_prime_divisors_saturate(k: nat, hi: nat)
    requires
        k >= 1,
        hi >= k + 1,
    ensures
        prime_divisors_below(k, hi) == prime_divisors(k),
    decreases hi,
{
    if hi > k + 1 {
        let p = (hi - 1) as nat;
        lemma_prime_divisors_saturate(k, p);
        if k % p == 0 {
            lemma_divisor_le(p, k);
        }
    }
}

/// `prime_divisors_below(i, i)` is empty exactly when `i` is prime (for `i >= 2`).
proof fn lemma_no_smaller_prime_divisor(i: nat)
    requires
        i >= 2,
    ensures
        (prime_divisors_below(i, i).len() == 0) == prime(i),
        !prime(i) ==> prime_divisors_below(i, i)[0] >= 2 && i % prime_divisors_below(i, i)[0] == 0,
{
    let s = prime_divisors_below(i, i);
    lemma_prime_divisors_below_sorted(i, i);
    if prime(i) {
        if s.len() > 0 {
            let q = s[0];
            assert(prime(q) && q < i && i % q == 0);
        }
    } else {
        let d = choose|d: nat| 2 <= d < i && #[trigger] (i % d) == 0;
        lemma_has_prime_divisor(d);
        let q = choose|q: nat| prime(q) && q <= d && #[trigger] (d % q) == 0;
        lemma_divides_trans(q, d, i);
        lemma_prime_divisors_below_contains(i, i, q);
        assert(s.len() > 0);
        assert(prime(s[0]) && i % s[0] == 0);
    }
}

/// The sieve's table after handling `i`: entries move from the primes below `i` to those
/// below `i + 1`.
proof fn lemma_step_proof(phi: Seq<u64>, n: usize, i: usize, marked: bool)
    requires
        2 <= i <= n,
        phi.len() == n + 1,
        marked ==> prime(i as nat),
        !marked ==> !prime(i as nat),
        forall|k: int|
            0 <= k <= n ==> #[trigger] phi[k] == (if marked && k % (i as int) == 0 && i <= k {
                totient_apply(k as nat, prime_divisors_below(k as nat, i as nat).push(i as nat))
            } else {
                totient_apply(k as nat, prime_divisors_below(k as nat, i as nat))
            }),
    ensures
        forall|k: int|
            0 <= k <= n ==> #[trigger] phi[k] == totient_apply(
                k as nat,
                prime_divisors_below(k as nat, (i + 1) as nat),
            ),
{
    assert forall|k: int| 0 <= k <= n implies #[trigger] phi[k] == totient_apply(
        k as nat,
        prime_divisors_below(k as nat, (i + 1) as nat),
    ) by {
        let s0 = prime_divisors_below(k as nat, i as nat);
        let s1 = prime_divisors_below(k as nat, (i + 1) as nat);
        lemma_prime_divisors_below_sorted(k as nat, i as nat);
        lemma_prime_divisors_below_sorted(k as nat, (i + 1) as nat);
        assert forall|t: int| 0 <= t < s0.len() implies #[trigger] s0[t] >= 1 by {}
        assert forall|t: int| 0 <= t < s1.len() implies #[trigger] s1[t] >= 1 by {}
        assert(s1 == (if prime(i as nat) && (k as nat) % (i as nat) == 0 {
            s0.push(i as nat)
        } else {
            s0
        }));
        assert((k as nat) % (i as nat) == k % (i as int));
        if 0 < k < i {
            lemma_small_mod(k as nat, i as nat);
        }
        if k == 0 {
            lemma_totient_apply_zero(s1);
            lemma_totient_apply_zero(s0);
            assert(s0.push(i as nat).drop_last() =~= s0);
            assert forall|t: int| 0 <= t < s0.push(i as nat).len() implies #[trigger] s0.push(
                i as nat,
            )[t] >= 1 by {
                if t < s0.len() {
                    assert(s0.push(i as nat)[t] == s0[t]);
                }
            }
            lemma_totient_apply_zero(s0.push(i as nat));
        }
    }
}

/// Euler's totient for all numbers `0..=n` using a sieve: entry `k` is `φ(k)`.
pub fn euler_totient_sieve(n: usize) -> (r: Vec<u64>)
    requires
        n < usize::MAX,
    ensures
        r.len() == n + 1,
        forall|k: int| 0 <= k <= n ==> #[trigger] r[k] == totient(k as nat),
{
    let mut phi: Vec<u64> = Vec::new();
    let mut k: usize = 0;
    while k <= n
        invariant
            k <= n + 1,
            n < usize::MAX,
            phi.len() == k,
            forall|j: int| 0 <= j < k ==> #[trigger] phi[j] == j,
        decreases n + 1 - k,
    {
        phi.push(k as u64);
        k = k + 1;
    }
    proof {
        assert forall|j: int| 0 <= j <= n implies #[trigger] phi[j] == totient_apply(
            j as nat,
            prime_divisors_below(j as nat, 2),
        ) by {}
    }
    let mut i: usize = 2;
    while i <= n
        invariant
            2 <= i <= n + 2,
            n < usize::MAX,
            phi.len() == n + 1,
            forall|j: int|
                0 <= j <= n ==> #[trigger] phi[j] == totient_apply(
                    j as nat,
                    prime_divisors_below(j as nat, i as nat),
                ),
        decreases n + 1 - i,
    {
        proof {
            lemma_no_smaller_prime_divisor(i as nat);
            let s = prime_divisors_below(i as nat, i as nat);
            lemma_prime_divisors_below_sorted(i as nat, i as nat);
            if !prime(i as nat) {
                assert forall|t: int| 0 <= t < s.len() implies #[trigger] s[t] >= 1 by {}
                lemma_totient_apply_lt(i as nat, s);
            }
        }
        if phi[i] == i as u64 {
            let mut j: usize = i;
            proof {
                lemma_mod_self_0(i as int);
            }
            while j <= n
                invariant
                    2 <= i <= n,
                    prime(i as nat),
                    n < usize::MAX,
                    phi.len() == n + 1,
                    i <= j <= n + 1,
                    j <= n ==> j % i == 0,
                    forall|k: int|
                        0 <= k <= n ==> #[trigger] phi[k] == (if k % (i as int) == 0 && i <= k < j {
                            totient_apply(
                                k as nat,
                                prime_divisors_below(k as nat, i as nat).push(i as nat),
                            )
                        } else {
                            totient_apply(k as nat, prime_divisors_below(k as nat, i as nat))
                        }),
                decreases n + 1 - j,
            {
                let ghost j0 = j as int;
                proof {
                    let s = prime_divisors_below(j as nat, i as nat);
                    assert(s.push(i as nat).drop_last() =~= s);
                    lemma_prime_divisors_below_sorted(j as nat, i as nat);
                    assert forall|t: int| 0 <= t < s.len() implies #[trigger] s[t] >= 1 by {}
                    lemma_totient_apply_le(j as nat, s);
                    lemma_step_le(phi[j as int] as nat, i as nat);
                }
                phi.set(j, phi[j] / (i as u64) * (i as u64 - 1));
                proof {
                    assert forall|k: int| #[trigger] (k % (i as int)) == 0 && k > j0 implies k >= j0
                        + i by {
                        crate::primes::lemma_next_multiple(k, j0, i as int);
                    }
                }
                if j <= n - i {
                    proof {
                        lemma_mod_add_multiples_vanish(j as int, i as int);
                    }
                    j = j + i;
                } else {
                    j = n + 1;
                }
            }
            proof {
                lemma_step_proof(phi@, n, i, true);
            }
        } else {
            proof {
                lemma_step_proof(phi@, n, i, false);
            }
        }
        i = i + 1;
    }
    proof {
        assert forall|k: int| 0 <= k <= n implies #[trigger] phi[k] == totient(k as nat) by {
            if k >= 1 {
                lemma_prime_divisors_saturate(k as nat, i as nat);
            } else {
                let s0 = prime_divisors_below(0, i as nat);
                lemma_prime_divisors_below_sorted(0, i as nat);
                assert forall|t: int| 0 <= t < s0.len() implies #[trigger] s0[t] >= 1 by {}
                lemma_totient_apply_zero(s0);
                assert(prime_divisors(0) =~= Seq::<nat>::empty());
            }
        }
    }
    phi
}


// ---------------------------------------------------------------------------
// Products over the prime factorization
// ---------------------------------------------------------------------------

/// The product of a sequence of naturals.
pub open spec fn seq_product(s: Seq<nat>) -> nat
    decreases s.len(),
{
    if s.len() == 0 {
        1
    } else {
        seq_product(s.drop_last()) * s.last()
    }
}

proof fn lemma_seq_product_take(s: Seq<nat>, i: int)
    requires
        0 <= i < s.len(),
    ensures
        seq_product(s.take(i + 1)) == seq_product(s.take(i)) * s[i],
{
    assert(s.take(i + 1).drop_last() =~= s.take(i));
}

/// With every factor at least 1, a prefix product and a single factor are at most the
/// whole product.
proof fn lemma_seq_product_bounds(s: Seq<nat>, i: int)
    requires
        forall|k: int| 0 <= k < s.len() ==> #[trigger] s[k] >= 1,
        0 <= i <= s.len(),
    ensures
        seq_product(s) >= 1,
        seq_product(s.take(i)) <= seq_product(s),
        i < s.len() ==> s[i] <= seq_product(s),
    decreases s.len(),
{
    if s.len() > 0 {
        let t = s.drop_last();
        assert forall|k: int| 0 <= k < t.len() implies #[trigger] t[k] >= 1 by {
            assert(t[k] == s[k]);
        }
        let last = s.last();
        assert(s[s.len() - 1] >= 1);
        if i < s.len() {
            lemma_seq_product_bounds(t, i);
            assert(s.take(i) =~= t.take(i));
        } else {
            lemma_seq_product_bounds(t, 0);
            assert(s.take(i) =~= s);
        }
        let pt = seq_product(t);
        assert(pt <= pt * last && last <= pt * last && pt * last >= 1) by (nonlinear_arith)
            requires
                pt >= 1,
                last >= 1,
        ;
        if i < t.len() {
            lemma_seq_product_bounds(t, i);
            assert(t[i] == s[i]);
        }
    }
}

// ---------------------------------------------------------------------------
// Möbius function
// ---------------------------------------------------------------------------

/// No square of a prime divides `n`.
pub open spec fn squarefree(n: nat) -> bool {
    forall|q: nat| #[trigger] prime_divisors(n).contains(q) ==> n % (q * q) != 0
}

/// The Möbius function: 0 if a prime square divides `n`, otherwise `(-1)^k` for the number
/// `k` of distinct primes dividing `n`.
pub open spec fn mobius_value(n: nat) -> int {
    if !squarefree(n) {
        0
    } else if prime_divisors(n).len() % 2 == 0 {
        1
    } else {
        -1
    }
}

/// Möbius function μ(n): 1 if `n` is square-free with an even number of prime factors,
/// -1 if square-free with an odd number, 0 if a squared prime divides `n`.
pub fn mobius(n: u64) -> (r: i64)
    ensures
        r == mobius_value(n as nat),
{
    if n == 1 {
        proof {
            assert(prime_divisors(1) =~= Seq::<nat>::empty());
        }
        return 1;
    }
    let factors = factorize(n);
    let ghost ps = factor_primes(factors@);
    let mut i: usize = 0;
    while i < factors.len()
        invariant
            0 <= i <= factors.len(),
            ps == factor_primes(factors@),
            ps == prime_divisors(n as nat),
            factors_valid(factors@, n as nat, n as nat + 1),
            forall|j: int| 0 <= j < i ==> #[trigger] factors@[j].exponent <= 1,
        decreases factors.len() - i,
    {
        if factors[i].exponent > 1 {
            proof {
                let q = ps[i as int];
                assert(prime(q));
                assert(n > 0) by {
                    if n == 0 {
                        assert(prime_divisors(0) =~= Seq::<nat>::empty());
                    }
                }
                crate::divisibility::lemma_multiplicity_square(n as nat, q);
                assert(ps.contains(q));
            }
            return 0;
        }
        i = i + 1;
    }
    proof {
        assert forall|q: nat| #[trigger] prime_divisors(n as nat).contains(q) implies (n as nat) % (q
            * q) != 0 by {
            let j = choose|j: int| 0 <= j < ps.len() && ps[j] == q;
            assert(prime(factors@[j].prime as nat));
            crate::divisibility::lemma_multiplicity_square(n as nat, q);
        }
    }
    if factors.len() % 2 == 0 {
        1
    } else {
        -1
    }
}

// ---------------------------------------------------------------------------
// Divisor count and divisor sum
// ---------------------------------------------------------------------------

/// The exponents plus one, `e + 1`, over the prime factorization of `n`.
pub open spec fn divisor_count_factors(n: nat) -> Seq<nat> {
    prime_divisors(n).map_values(|p: nat| multiplicity(n, p) + 1)
}

/// The number of divisors d(n), by its product formula `∏ (e + 1)` (0 for `n = 0`).
pub open spec fn num_divisors(n: nat) -> nat {
    if n == 0 {
        0
    } else {
        seq_product(divisor_count_factors(n))
    }
}

/// `1 + p + p^2 + ... + p^e`.
pub open spec fn geometric_sum(p: nat, e: nat) -> nat
    decreases e,
{
    if e == 0 {
        1
    } else {
        geometric_sum(p, (e - 1) as nat) + (pow(p as int, e) as nat)
    }
}

/// The divisor sums of the prime powers `p^e` in the factorization of `n`.
pub open spec fn divisor_sum_factors(n: nat) -> Seq<nat> {
    prime_divisors(n).map_values(|p: nat| geometric_sum(p, multiplicity(n, p)))
}

/// The sum of divisors σ(n), by its product formula `∏ (1 + p + ... + p^e)` (0 for `n = 0`).
pub open spec fn divisor_sigma(n: nat) -> nat {
    if n == 0 {
        0
    } else {
        seq_product(divisor_sum_factors(n))
    }
}

proof fn lemma_exponent_plus_one_le_pow(p: nat, e: nat)
    requires
        p >= 2,
    ensures
        e + 1 <= pow(p as int, e),
    decreases e,
{
    reveal(pow);
    if e > 0 {
        lemma_exponent_plus_one_le_pow(p, (e - 1) as nat);
        let q = pow(p as int, (e - 1) as nat);
        assert(e + 1 <= p * q) by (nonlinear_arith)
            requires
                e <= q,
                p >= 2,
                e >= 1,
        ;
    }
}

proof fn lemma_factor_product_take(s: Seq<PrimeFactor>, i: int)
    requires
        0 <= i < s.len(),
    ensures
        factor_product(s.take(i + 1)) == factor_product(s.take(i)) * (pow(
            s[i].prime as int,
            s[i].exponent as nat,
        ) as nat),
{
    assert(s.take(i + 1).drop_last() =~= s.take(i));
}

/// Number of divisors d(n), by `∏ (e + 1)` over the factorization (it counts the divisors:
/// `crate::divisors::lemma_divisor_functions_are_sums`).
pub fn divisor_count(n: u64) -> (r: u64)
    ensures
        r == num_divisors(n as nat),
{
    if n == 0 {
        return 0;
    }
    let factors = factorize(n);
    let ghost ps = factor_primes(factors@);
    let ghost ds = divisor_count_factors(n as nat);
    let mut prod: u64 = 1;
    let mut i: usize = 0;
    proof {
        assert(ds.take(0) =~= Seq::<nat>::empty());
        assert(factors@.take(0) =~= Seq::<PrimeFactor>::empty());
    }
    while i < factors.len()
        invariant
            0 <= i <= factors.len(),
            n >= 1,
            ps == factor_primes(factors@),
            ps == prime_divisors(n as nat),
            ds == divisor_count_factors(n as nat),
            ds.len() == factors.len(),
            factors_valid(factors@, n as nat, n as nat + 1),
            factor_product(factors@) == n,
            prod == seq_product(ds.take(i as int)),
            prod <= factor_product(factors@.take(i as int)),
        decreases factors.len() - i,
    {
        let e = factors[i].exponent;
        proof {
            let f = factors@[i as int];
            assert(prime(f.prime as nat));
            assert(ds[i as int] == e as nat + 1);
            lemma_seq_product_take(ds, i as int);
            lemma_factor_product_take(factors@, i as int);
            lemma_exponent_plus_one_le_pow(f.prime as nat, e as nat);
            lemma_mul_le(
                prod as nat,
                (e + 1) as nat,
                factor_product(factors@.take(i as int)),
                pow(f.prime as int, e as nat) as nat,
            );
            lemma_factor_product_prefix_le(factors@, i as int + 1);
        }
        prod = prod * (e as u64 + 1);
        i = i + 1;
    }
    proof {
        assert(ds.take(factors.len() as int) =~= ds);
    }
    prod
}

/// A prefix of a factorization has a product at most the whole product.
proof fn lemma_factor_product_prefix_le(s: Seq<PrimeFactor>, i: int)
    requires
        0 <= i <= s.len(),
        forall|k: int| 0 <= k < s.len() ==> #[trigger] s[k].prime >= 1,
    ensures
        factor_product(s.take(i)) <= factor_product(s),
        factor_product(s.take(i)) >= 1,
    decreases s.len() - i,
{
    if i < s.len() {
        lemma_factor_product_prefix_le(s, i + 1);
        lemma_factor_product_take(s, i);
        lemma_pow_nonneg(s[i].prime as nat, s[i].exponent as nat);
        let a = factor_product(s.take(i));
        let b = pow(s[i].prime as int, s[i].exponent as nat) as nat;
        assert(a <= a * b) by (nonlinear_arith)
            requires
                b >= 1,
        ;
        assert(a >= 1) by (nonlinear_arith)
            requires
                a * b >= 1,
        ;
    } else {
        assert(s.take(i) =~= s);
        lemma_factor_product_positive(s);
    }
}

proof fn lemma_factor_product_positive(s: Seq<PrimeFactor>)
    requires
        forall|k: int| 0 <= k < s.len() ==> #[trigger] s[k].prime >= 1,
    ensures
        factor_product(s) >= 1,
    decreases s.len(),
{
    if s.len() > 0 {
        let t = s.drop_last();
        assert forall|k: int| 0 <= k < t.len() implies #[trigger] t[k].prime >= 1 by {
            assert(t[k] == s[k]);
        }
        lemma_factor_product_positive(t);
        assert(s[s.len() - 1].prime >= 1);
        lemma_pow_nonneg(s.last().prime as nat, s.last().exponent as nat);
        let a = factor_product(t);
        let b = pow(s.last().prime as int, s.last().exponent as nat) as nat;
        assert(a * b >= 1) by (nonlinear_arith)
            requires
                a >= 1,
                b >= 1,
        ;
    }
}


/// `(p - 1)(1 + p + ... + p^e) = p^(e+1) - 1`.
proof fn lemma_geometric_identity(p: nat, e: nat)
    requires
        p >= 1,
    ensures
        (p - 1) * geometric_sum(p, e) == pow(p as int, e + 1) - 1,
        geometric_sum(p, e) >= 1,
        pow(p as int, e) <= geometric_sum(p, e),
    decreases e,
{
    reveal(pow);
    lemma_pow_nonneg(p, e);
    if e > 0 {
        lemma_geometric_identity(p, (e - 1) as nat);
        let g = geometric_sum(p, (e - 1) as nat);
        let q = pow(p as int, e);
        assert(q == p * pow(p as int, (e - 1) as nat));
        assert(pow(p as int, e + 1) == p * q);
        assert(geometric_sum(p, e) == g + q);
        assert((p - 1) * (g + q) == p * q - 1) by (nonlinear_arith)
            requires
                (p - 1) * g == q - 1,
        ;
        assert((p - 1) * geometric_sum(p, e) == (p - 1) * (g + q));
    } else {
        lemma_pow1(p as int);
        assert(e + 1 == 1);
        assert(geometric_sum(p, e) == 1);
        assert((p - 1) * 1 == p - 1);
    }
}

proof fn lemma_geometric_monotone(p: nat, j: nat, e: nat)
    requires
        j <= e,
    ensures
        geometric_sum(p, j) <= geometric_sum(p, e),
    decreases e,
{
    if j < e {
        lemma_geometric_monotone(p, j, (e - 1) as nat);
        lemma_pow_nonneg(p, e);
    }
}

proof fn lemma_divisor_sum_factors(n: nat, factors: Seq<PrimeFactor>)
    requires
        n >= 1,
        factor_primes(factors) == prime_divisors(n),
        factors_valid(factors, n, n + 1),
    ensures
        divisor_sum_factors(n).len() == factors.len(),
        forall|i: int|
            0 <= i < factors.len() ==> #[trigger] divisor_sum_factors(n)[i] == geometric_sum(
                factors[i].prime as nat,
                factors[i].exponent as nat,
            ),
        forall|i: int| 0 <= i < factors.len() ==> #[trigger] divisor_sum_factors(n)[i] >= 1,
{
    assert forall|i: int| 0 <= i < factors.len() implies #[trigger] divisor_sum_factors(n)[i] >= 1 by {
        assert(factor_primes(factors)[i] == factors[i].prime as nat);
        assert(prime(factors[i].prime as nat));
        lemma_geometric_identity(factors[i].prime as nat, factors[i].exponent as nat);
    }
    assert forall|i: int| 0 <= i < factors.len() implies #[trigger] divisor_sum_factors(n)[i]
        == geometric_sum(factors[i].prime as nat, factors[i].exponent as nat) by {
        assert(factor_primes(factors)[i] == factors[i].prime as nat);
    }
}

/// Sum of divisors σ(n) (0 for `n = 0`), when it fits in 64 bits; by `∏ (1 + p + ... + p^e)`,
/// which is the sum of the divisors (`crate::divisors::lemma_divisor_functions_are_sums`).
pub fn divisor_sum(n: u64) -> (r: u64)
    requires
        divisor_sigma(n as nat) <= u64::MAX,
    ensures
        r == divisor_sigma(n as nat),
{
    if n == 0 {
        return 0;
    }
    let factors = factorize(n);
    let ghost ss = divisor_sum_factors(n as nat);
    proof {
        lemma_divisor_sum_factors(n as nat, factors@);
        lemma_seq_product_bounds(ss, 0);
        assert(ss.take(0) =~= Seq::<nat>::empty());
    }
    let mut acc: u64 = 1;
    let mut i: usize = 0;
    while i < factors.len()
        invariant
            0 <= i <= factors.len(),
            n >= 1,
            ss == divisor_sum_factors(n as nat),
            ss.len() == factors.len(),
            factors_valid(factors@, n as nat, n as nat + 1),
            forall|k: int|
                0 <= k < factors.len() ==> #[trigger] ss[k] == geometric_sum(
                    factors@[k].prime as nat,
                    factors@[k].exponent as nat,
                ),
            forall|k: int| 0 <= k < ss.len() ==> #[trigger] ss[k] >= 1,
            seq_product(ss) == divisor_sigma(n as nat),
            divisor_sigma(n as nat) <= u64::MAX,
            acc == seq_product(ss.take(i as int)),
        decreases factors.len() - i,
    {
        let p = factors[i].prime;
        let e = factors[i].exponent;
        proof {
            assert(prime(factors@[i as int].prime as nat));
            lemma_seq_product_bounds(ss, i as int);
            lemma_seq_product_bounds(ss, i as int + 1);
            lemma_seq_product_take(ss, i as int);
            lemma_pow0(p as int);
        }
        let mut term: u64 = 1;
        let mut pk: u64 = 1;
        let mut j: u32 = 0;
        while j < e
            invariant
                0 <= j <= e,
                term == geometric_sum(p as nat, j as nat),
                pk == pow(p as int, j as nat),
                p >= 2,
                geometric_sum(p as nat, e as nat) <= u64::MAX,
            decreases e - j,
        {
            proof {
                reveal(pow);
                lemma_geometric_monotone(p as nat, (j + 1) as nat, e as nat);
                lemma_geometric_identity(p as nat, (j + 1) as nat);
                assert(pow(p as int, (j + 1) as nat) == p * pow(p as int, j as nat));
            }
            pk = pk * p;
            term = term + pk;
            j = j + 1;
        }
        proof {
            assert(acc * term <= seq_product(ss));
        }
        acc = acc * term;
        i = i + 1;
    }
    proof {
        assert(ss.take(factors.len() as int) =~= ss);
    }
    acc
}

/// Sum of divisors σ(n), computed in 128 bits so it never overflows.
pub fn divisor_sum_safe(n: u64) -> (r: u128)
    ensures
        r == divisor_sigma(n as nat),
{
    if n == 0 {
        return 0;
    }
    let factors = factorize(n);
    let ghost ss = divisor_sum_factors(n as nat);
    proof {
        lemma_divisor_sum_factors(n as nat, factors@);
        assert(ss.take(0) =~= Seq::<nat>::empty());
        assert(factors@.take(0) =~= Seq::<PrimeFactor>::empty());
        assert(factor_product(factors@.take(0)) == 1);
        assert(1 <= factor_product(factors@.take(0)) * factor_product(factors@.take(0)));
    }
    let mut acc: u128 = 1;
    let mut i: usize = 0;
    while i < factors.len()
        invariant
            0 <= i <= factors.len(),
            n >= 1,
            ss == divisor_sum_factors(n as nat),
            ss.len() == factors.len(),
            factors_valid(factors@, n as nat, n as nat + 1),
            factor_product(factors@) == n,
            forall|k: int|
                0 <= k < factors.len() ==> #[trigger] ss[k] == geometric_sum(
                    factors@[k].prime as nat,
                    factors@[k].exponent as nat,
                ),
            acc == seq_product(ss.take(i as int)),
            acc <= factor_product(factors@.take(i as int)) * factor_product(factors@.take(i as int)),
        decreases factors.len() - i,
    {
        let p = factors[i].prime as u128;
        let k = factors[i].exponent;
        let ghost f = factors@[i as int];
        let ghost pe = pow(p as int, k as nat);
        let ghost fpi = factor_product(factors@.take(i as int));
        proof {
            assert(prime(f.prime as nat));
            lemma_factor_product_take(factors@, i as int);
            lemma_factor_product_prefix_le(factors@, i as int + 1);
            lemma_factor_product_prefix_le(factors@, i as int);
            lemma_pow_nonneg(p as nat, k as nat);
            // p^k <= n and p <= p^k
            assert(pe <= n) by (nonlinear_arith)
                requires
                    fpi >= 1,
                    fpi * pe <= n,
                    pe >= 0,
            ;
            lemma_pow1(p as int);
            lemma_pow_increases(p as nat, 1, k as nat);
            crate::primes::lemma_exponent_below_64(p as nat, k as nat, n as nat);
            lemma_pow0(p as int);
            assert(p * pe <= n * n) by (nonlinear_arith)
                requires
                    p <= pe,
                    pe <= n,
                    p >= 0,
            ;
            assert(n * n <= 0xffff_ffff_ffff_ffffint * 0xffff_ffff_ffff_ffffint) by (nonlinear_arith)
                requires
                    n <= 0xffff_ffff_ffff_ffffu64,
            ;
        }
        let mut pw: u128 = 1;
        let mut j: u32 = 0;
        while j < k + 1
            invariant
                0 <= j <= k + 1,
                k < 64,
                p >= 2,
                pw == pow(p as int, j as nat),
                p * pe < 0x1_0000_0000_0000_0000_0000_0000_0000_0000int,
                pe == pow(p as int, k as nat),
            decreases k + 1 - j,
        {
            proof {
                reveal(pow);
                lemma_pow_increases(p as nat, (j + 1) as nat, (k + 1) as nat);
                assert(pow(p as int, (k + 1) as nat) == p * pe);
                assert(pow(p as int, (j + 1) as nat) == p * pw);
            }
            pw = pw * p;
            j = j + 1;
        }
        proof {
            lemma_geometric_identity(p as nat, k as nat);
            reveal(pow);
            assert(pow(p as int, (k + 1) as nat) == p * pe);
            let g = geometric_sum(p as nat, k as nat);
            lemma_div_multiples_vanish(g as int, (p - 1) as int);
            lemma_mul_is_commutative(g as int, (p - 1) as int);
        }
        let term = (pw - 1) / (p - 1);
        proof {
            let g = geometric_sum(p as nat, k as nat);
            assert(term == g);
            lemma_seq_product_take(ss, i as int);
            // g < p^(k+1) = p * p^k <= p^k * p^k
            assert(g < p * pe) by (nonlinear_arith)
                requires
                    (p - 1) * g == p * pe - 1,
                    p >= 2,
            ;
            assert(acc * term <= (fpi * pe) * (fpi * pe)) by (nonlinear_arith)
                requires
                    acc <= fpi * fpi,
                    term < p * pe,
                    p <= pe,
                    acc >= 0,
                    fpi >= 1,
                    pe >= 1,
            ;
            assert((fpi * pe) * (fpi * pe) <= n * n) by (nonlinear_arith)
                requires
                    fpi * pe <= n,
                    fpi * pe >= 0,
            ;
        }
        acc = acc * term;
        i = i + 1;
    }
    proof {
        assert(ss.take(factors.len() as int) =~= ss);
    }
    acc
}


// ---------------------------------------------------------------------------
// Linear sieve for the Möbius function
// ---------------------------------------------------------------------------

/// The least prime factor of `m >= 2`.
pub open spec fn least_prime_factor(m: nat) -> nat {
    prime_divisors(m)[0]
}

/// A composite `k` whose cofactor `k / lpf(k)` is below `i`: the linear sieve has reached it.
pub open spec fn sieve_reached(k: nat, i: nat) -> bool {
    k >= 2 && !prime(k) && k / least_prime_factor(k) < i
}

proof fn lemma_least_prime_factor(m: nat)
    requires
        m >= 2,
    ensures
        prime(least_prime_factor(m)),
        m % least_prime_factor(m) == 0,
        least_prime_factor(m) <= m,
        forall|q: nat| prime(q) && #[trigger] (m % q) == 0 ==> least_prime_factor(m) <= q,
        prime_divisors(m).len() >= 1,
{
    let s = prime_divisors(m);
    lemma_prime_divisors_below_sorted(m, m + 1);
    lemma_has_prime_divisor(m);
    let q0 = choose|q: nat| prime(q) && q <= m && #[trigger] (m % q) == 0;
    lemma_prime_divisors_below_contains(m, m + 1, q0);
    assert(s.len() >= 1);
    assert forall|q: nat| prime(q) && #[trigger] (m % q) == 0 implies least_prime_factor(m) <= q by {
        lemma_divisor_le(q, m);
        lemma_prime_divisors_below_contains(m, m + 1, q);
        let j = choose|j: int| 0 <= j < s.len() && s[j] == q;
        if j > 0 {
            assert(s[0] < s[j]);
        }
    }
}

/// Multiplying `i` by a prime `p <= lpf(i)` gives a composite whose least prime factor is `p`.
proof fn lemma_least_prime_factor_product(i: nat, p: nat)
    requires
        i >= 2,
        prime(p),
        p <= least_prime_factor(i),
    ensures
        i * p >= 2,
        !prime(i * p),
        least_prime_factor(i * p) == p,
        (i * p) / p == i,
{
    lemma_least_prime_factor(i);
    assert(i * p >= 2 * p && i * p > i && i * p > p) by (nonlinear_arith)
        requires
            i >= 2,
            p >= 2,
    ;
    lemma_mod_of_multiple(i, p);
    lemma_div_multiples_vanish(i as int, p as int);
    lemma_mul_is_commutative(i as int, p as int);
    assert(!prime(i * p)) by {
        assert((i * p) % p == 0);
        assert(2 <= p < i * p);
    }
    lemma_least_prime_factor(i * p);
    let l = least_prime_factor(i * p);
    lemma_euclid(i, p, l);
    if i % l == 0 {
        assert(least_prime_factor(i) <= l);
    } else {
        if l != p {
            lemma_distinct_primes(l, p);
        }
    }
}

/// `p^2` divides `i * p` when `p` divides `i`, so `μ(i * p) = 0`.
proof fn lemma_mobius_square_factor(i: nat, p: nat)
    requires
        i >= 1,
        prime(p),
        i % p == 0,
    ensures
        mobius_value(i * p) == 0,
{
    lemma_fundamental_div_mod(i as int, p as int);
    let k = i / p;
    assert(i * p == (p * p) * k) by (nonlinear_arith)
        requires
            i == p * k,
    ;
    assert(p * p > 0) by (nonlinear_arith)
        requires
            p >= 2,
    ;
    lemma_mod_of_multiple(k, p * p);
    lemma_mul_is_commutative((p * p) as int, k as int);
    assert(i * p >= 1) by (nonlinear_arith)
        requires
            i >= 1,
            p >= 2,
    ;
    lemma_mod_of_multiple(i, p);
    lemma_divisor_le(p, i * p);
    lemma_prime_divisors_below_contains(i * p, i * p + 1, p);
}

/// The Möbius function of a prime is -1.
proof fn lemma_mobius_prime(p: nat)
    requires
        prime(p),
    ensures
        mobius_value(p) == -1,
{
    let s = prime_divisors(p);
    lemma_mod_self_0(p as int);
    assert forall|q: nat| #[trigger] s.contains(q) == (prime(q) && q < p + 1 && p % q == 0) by {
        lemma_prime_divisors_below_contains(p, p + 1, q);
    }
    assert forall|q: nat| #[trigger] seq![p].contains(q) == (prime(q) && q < p + 1 && p % q == 0) by {
        if prime(q) && q < p + 1 && p % q == 0 {
            if q != p {
                lemma_distinct_primes(q, p);
            }
            assert(seq![p][0] == q);
        }
    }
    crate::divisibility::lemma_prime_divisors_below_unique(p, p + 1, seq![p]);
    assert(p < p * p) by (nonlinear_arith)
        requires
            p >= 2,
    ;
    lemma_small_mod(p, p * p);
}

/// Multiplying by a prime below every prime factor of `i` flips the sign of `μ`.
proof fn lemma_mobius_new_prime(i: nat, p: nat)
    requires
        i >= 2,
        prime(p),
        p < least_prime_factor(i),
    ensures
        mobius_value(i * p) == -mobius_value(i),
{
    lemma_least_prime_factor(i);
    lemma_least_prime_factor_product(i, p);
    let m = i * p;
    let si = prime_divisors(i);
    let sm = prime_divisors(m);
    let t = seq![p] + si;
    assert(i % p != 0) by {
        if i % p == 0 {
            assert(least_prime_factor(i) <= p);
        }
    }
    lemma_prime_divisors_below_sorted(i, i + 1);
    lemma_mod_of_multiple(i, p);
    lemma_mul_is_commutative(i as int, p as int);
    assert forall|q: nat| #[trigger] t.contains(q) == (prime(q) && q < m + 1 && m % q == 0) by {
        lemma_prime_divisors_below_contains(i, i + 1, q);
        if t.contains(q) {
            let j = choose|j: int| 0 <= j < t.len() && t[j] == q;
            if j > 0 {
                assert(si[j - 1] == q);
                assert(si.contains(q));
                lemma_divides_mul(q, i as int, p as int);
            }
            lemma_divisor_le(q, m);
        }
        if prime(q) && q < m + 1 && m % q == 0 {
            lemma_euclid(i, p, q);
            if i % q == 0 {
                lemma_divisor_le(q, i);
                let j = choose|j: int| 0 <= j < si.len() && si[j] == q;
                assert(t[j + 1] == q);
            } else {
                if q != p {
                    lemma_distinct_primes(q, p);
                }
                assert(t[0] == q);
            }
        }
    }
    assert forall|a: int, b: int| 0 <= a < b < t.len() implies t[a] < t[b] by {
        if a == 0 {
            assert(si.contains(t[b]));
            lemma_prime_divisors_below_contains(i, i + 1, t[b]);
            assert(least_prime_factor(i) <= t[b]);
        } else {
            assert(t[a] == si[a - 1] && t[b] == si[b - 1]);
        }
    }
    crate::divisibility::lemma_prime_divisors_below_unique(m, m + 1, t);
    assert(sm.len() == si.len() + 1);
    // square-freeness is unchanged
    assert(squarefree(m) == squarefree(i)) by {
        assert(m % (p * p) != 0) by {
            crate::divisibility::lemma_multiplicity_square(m, p);
            crate::primes::lemma_pow_multiplicity(p, 1, i);
            vstd::arithmetic::power::lemma_pow1(p as int);
            crate::divisibility::lemma_multiplicity_positive(i, p);
        }
        assert forall|q: nat| #[trigger] si.contains(q) implies (m % (q * q) == 0) == (i % (q * q)
            == 0) by {
            lemma_prime_divisors_below_contains(i, i + 1, q);
            if q == p {
            } else {
                lemma_distinct_primes(q, p);
                crate::divisibility::lemma_multiplicity_coprime_factor(p, i, q);
                lemma_mul_is_commutative(i as int, p as int);
                crate::divisibility::lemma_multiplicity_square(m, q);
                crate::divisibility::lemma_multiplicity_square(i, q);
            }
        }
        if squarefree(i) {
            assert forall|q: nat| #[trigger] sm.contains(q) implies m % (q * q) != 0 by {
                if q != p {
                    assert(t.contains(q));
                    let j = choose|j: int| 0 <= j < t.len() && t[j] == q;
                    assert(j > 0);
                    assert(si[j - 1] == q);
                    assert(si.contains(q));
                }
            }
        }
        if squarefree(m) {
            assert forall|q: nat| #[trigger] si.contains(q) implies i % (q * q) != 0 by {
                let j = choose|j: int| 0 <= j < si.len() && si[j] == q;
                assert(t[j + 1] == q);
                assert(sm.contains(q));
            }
        }
    }
}


/// What the linear sieve has handled while processing `i` with the primes below `covered`.
pub open spec fn sieve_handled(k: nat, i: nat, covered: nat) -> bool {
    ||| sieve_reached(k, i)
    ||| (k >= 2 && !prime(k) && k / least_prime_factor(k) == i && least_prime_factor(k) < covered)
}

proof fn lemma_mobius_bounded(k: nat)
    ensures
        -1 <= mobius_value(k) <= 1,
{
}

/// A composite is its least prime factor times its cofactor, and that factor is at most the
/// least prime factor of the cofactor.
proof fn lemma_cofactor(k: nat)
    requires
        k >= 2,
        !prime(k),
    ensures
        k == (k / least_prime_factor(k)) * least_prime_factor(k),
        k / least_prime_factor(k) >= 2,
        least_prime_factor(k) <= least_prime_factor(k / least_prime_factor(k)),
        k / least_prime_factor(k) < k,
{
    lemma_least_prime_factor(k);
    let l = least_prime_factor(k);
    let c = k / l;
    lemma_fundamental_div_mod(k as int, l as int);
    lemma_mul_is_commutative(l as int, c as int);
    assert(c >= 2) by {
        if c < 2 {
            if c == 0 {
                assert(l * c == 0) by (nonlinear_arith)
                    requires
                        c == 0,
                ;
            } else {
                lemma_mul_basics(l as int);
                assert(k == l);
            }
        }
    }
    assert(c < k) by (nonlinear_arith)
        requires
            k == l * c,
            l >= 2,
            c >= 2,
    ;
    lemma_least_prime_factor(c);
    lemma_mod_of_multiple(l, c);
    lemma_mul_is_commutative(c as int, l as int);
    lemma_divides_trans(least_prime_factor(c), c, k);
}

/// Möbius function for all numbers `0..=n` (entry 0 is 0), by a linear sieve.
pub fn mobius_sieve(n: usize) -> (r: Vec<i64>)
    requires
        n < usize::MAX,
    ensures
        r.len() == n + 1,
        r[0] == 0,
        forall|k: int| 1 <= k <= n ==> #[trigger] r[k] == mobius_value(k as nat),
{
    if n == 0 {
        return vec![0i64];
    }
    let mut mu: Vec<i64> = vec![0i64; n + 1];
    mu.set(1, 1);
    let mut is_p: Vec<bool> = vec![true; n + 1];
    let mut primes: Vec<usize> = Vec::new();
    let mut i: usize = 2;
    proof {
        assert forall|k: int| 2 <= k <= n implies #[trigger] mu[k] == 0 && is_p[k] by {}
        assert forall|k: nat| 2 <= k <= n implies !sieve_reached(k, 2) by {
            if sieve_reached(k, 2) {
                lemma_cofactor(k);
            }
        }
    }
    while i <= n
        invariant
            2 <= i <= n + 1,
            n < usize::MAX,
            mu.len() == n + 1,
            is_p.len() == n + 1,
            mu[0] == 0,
            mu[1] == 1,
            forall|a: int, b: int| 0 <= a < b < primes.len() ==> primes[a] < primes[b],
            forall|a: int| 0 <= a < primes.len() ==> prime(#[trigger] primes[a] as nat) && primes[a] < i,
            forall|q: nat| prime(q) && q < i ==> #[trigger] primes@.contains(q as usize),
            forall|k: int| 2 <= k <= n ==> #[trigger] is_p[k] == !sieve_reached(k as nat, i as nat),
            forall|k: int|
                2 <= k <= n ==> #[trigger] mu[k] == (if (prime(k as nat) && k < i) || sieve_reached(
                    k as nat,
                    i as nat,
                ) {
                    mobius_value(k as nat)
                } else {
                    0
                }),
        decreases n + 1 - i,
    {
        proof {
            if !prime(i as nat) {
                lemma_cofactor(i as nat);
            }
        }
        let ghost before = primes@;
        let ghost old_mu = mu@;
        if is_p[i] {
            primes.push(i);
            mu.set(i, -1);
            proof {
                lemma_mobius_prime(i as nat);
            }
        }
        proof {
            lemma_least_prime_factor(i as nat);
            assert forall|q: nat| prime(q) && q < i + 1 implies #[trigger] primes@.contains(q as usize) by {
                if q == i {
                    assert(primes@[primes.len() - 1] == i);
                } else {
                    assert(before.contains(q as usize));
                    let t = choose|t: int| 0 <= t < before.len() && before[t] == q as usize;
                    assert(primes@[t] == q as usize);
                }
            }
            assert(primes@.contains(least_prime_factor(i as nat) as usize));
            assert(mu[i as int] == mobius_value(i as nat));
        }
        let mut t: usize = 0;
        let mut done: bool = false;
        let ghost mut covered: nat = primes[0] as nat;
        proof {
            assert(primes.len() > 0);
            // nothing has least prime factor below the smallest prime
            assert forall|k: int| #![trigger is_p[k]] #![trigger mu[k]] 2 <= k <= n implies is_p[k] == !sieve_handled(
                k as nat,
                i as nat,
                covered,
            ) && mu[k] == (if (prime(k as nat) && k <= i) || sieve_handled(
                k as nat,
                i as nat,
                covered,
            ) {
                mobius_value(k as nat)
            } else {
                0
            }) by {
                if (k as nat) >= 2 && !prime(k as nat) && least_prime_factor(k as nat) < covered {
                    lemma_least_prime_factor(k as nat);
                    let l = least_prime_factor(k as nat);
                    assert(l < i) by {
                        lemma_cofactor(k as nat);
                        if k as nat / l == i {
                            lemma_least_prime_factor(i as nat);
                        }
                    }
                    assert(primes@.contains(l as usize));
                    let s = choose|s: int| 0 <= s < primes.len() && primes@[s] == l as usize;
                    if s > 0 {
                        assert(primes[0] < primes[s]);
                    }
                }
            }
        }
        while t < primes.len() && !done
            invariant
                2 <= i <= n,
                n < usize::MAX,
                mu.len() == n + 1,
                is_p.len() == n + 1,
                mu[0] == 0,
                mu[1] == 1,
                primes.len() > 0,
                forall|a: int, b: int| 0 <= a < b < primes.len() ==> primes[a] < primes[b],
                forall|a: int|
                    0 <= a < primes.len() ==> prime(#[trigger] primes[a] as nat) && primes[a] <= i,
                forall|q: nat| prime(q) && q <= i ==> #[trigger] primes@.contains(q as usize),
                0 <= t <= primes.len(),
                !done ==> covered == (if t < primes.len() {
                    primes[t as int] as nat
                } else {
                    (i + 1) as nat
                }),
                done ==> covered == n + 1,
                forall|a: int| 0 <= a < t ==> (i as nat) % (#[trigger] primes[a] as nat) != 0,
                mu[i as int] == mobius_value(i as nat),
                forall|k: int|
                    2 <= k <= n ==> #[trigger] is_p[k] == !sieve_handled(k as nat, i as nat, covered),
                forall|k: int|
                    2 <= k <= n ==> #[trigger] mu[k] == (if (prime(k as nat) && k <= i)
                        || sieve_handled(k as nat, i as nat, covered) {
                        mobius_value(k as nat)
                    } else {
                        0
                    }),
            decreases primes.len() - t + (if done {
                0int
            } else {
                1int
            }),
        {
            let p = primes[t];
            proof {
                lemma_least_prime_factor(i as nat);
                let l = least_prime_factor(i as nat);
                assert(primes@.contains(l as usize));
                let s = choose|s: int| 0 <= s < primes.len() && primes@[s] == l as usize;
                // p is at most the least prime factor of i
                if s < t {
                    assert((i as nat) % (primes[s] as nat) != 0);
                }
                if s > t {
                    assert(primes[t as int] < primes[s]);
                }
                assert(p as nat <= l);
            }
            if p > n / i {
                proof {
                    lemma_fundamental_div_mod(n as int, i as int);
                    lemma_mod_pos_bound(n as int, i as int);
                    assert(i * p > n) by (nonlinear_arith)
                        requires
                            p > n / i,
                            n == i * (n / i) + n % i,
                            n % i < i,
                    ;
                    assert forall|k: int| 2 <= k <= n implies #[trigger] sieve_handled(
                        k as nat,
                        i as nat,
                        covered,
                    ) == sieve_handled(k as nat, i as nat, (n + 1) as nat) by {
                        if (k as nat) >= 2 && !prime(k as nat) && (k as nat) / least_prime_factor(
                            k as nat,
                        ) == i {
                            lemma_cofactor(k as nat);
                            lemma_least_prime_factor(k as nat);
                            let l = least_prime_factor(k as nat);
                            assert(l < covered) by {
                                if l >= covered {
                                    assert(l >= p);
                                    assert(k == i * l);
                                    assert(i * l >= i * p) by (nonlinear_arith)
                                        requires
                                            l >= p,
                                    ;
                                }
                            }
                            assert(l < n + 1);
                        }
                    }
                    let old_cov = covered;
                    covered = (n + 1) as nat;
                    assert forall|k: int| #![trigger is_p[k]] #![trigger mu[k]] 2 <= k <= n implies is_p[k] == !sieve_handled(
                        k as nat,
                        i as nat,
                        covered,
                    ) && mu[k] == (if (prime(k as nat) && k <= i) || sieve_handled(
                        k as nat,
                        i as nat,
                        covered,
                    ) {
                        mobius_value(k as nat)
                    } else {
                        0
                    }) by {
                        assert(sieve_handled(k as nat, i as nat, old_cov) == sieve_handled(
                            k as nat,
                            i as nat,
                            (n + 1) as nat,
                        ));
                    }
                }
                done = true;
            } else {
                proof {
                    lemma_fundamental_div_mod(n as int, i as int);
                    assert(i * p <= n) by (nonlinear_arith)
                        requires
                            p <= n / i,
                            n == i * (n / i) + n % i,
                            n % i >= 0,
                    ;
                    lemma_least_prime_factor_product(i as nat, p as nat);
                }
                let m = i * p;
                is_p.set(m, false);
                if i % p == 0 {
                    mu.set(m, 0);
                    proof {
                        lemma_mobius_square_factor(i as nat, p as nat);
                        lemma_least_prime_factor(i as nat);
                        assert(least_prime_factor(i as nat) == p);
                        let old_cov = covered;
                        covered = (n + 1) as nat;
                        assert forall|k: int| #![trigger is_p[k]] #![trigger mu[k]] 2 <= k <= n implies is_p[k] == !sieve_handled(
                            k as nat,
                            i as nat,
                            covered,
                        ) && mu[k] == (if (prime(k as nat) && k <= i) || sieve_handled(
                            k as nat,
                            i as nat,
                            covered,
                        ) {
                            mobius_value(k as nat)
                        } else {
                            0
                        }) by {
                            if (k as nat) >= 2 && !prime(k as nat) && (k as nat) / least_prime_factor(
                                k as nat,
                            ) == i {
                                lemma_cofactor(k as nat);
                                lemma_least_prime_factor(k as nat);
                                if least_prime_factor(k as nat) >= old_cov {
                                    assert(k == m);
                                }
                            }
                        }
                    }
                    done = true;
                } else {
                    proof {
                        lemma_least_prime_factor(i as nat);
                        assert(p as nat != least_prime_factor(i as nat));
                        lemma_mobius_new_prime(i as nat, p as nat);
                        lemma_mobius_bounded(i as nat);
                    }
                    let v = -mu[i];
                    mu.set(m, v);
                    let ghost old_cov = covered;
                    t = t + 1;
                    proof {
                        covered = if t < primes.len() {
                            primes[t as int] as nat
                        } else {
                            (i + 1) as nat
                        };
                        assert forall|k: int| #![trigger is_p[k]] #![trigger mu[k]] 2 <= k <= n implies is_p[k] == !sieve_handled(
                            k as nat,
                            i as nat,
                            covered,
                        ) && mu[k] == (if (prime(k as nat) && k <= i) || sieve_handled(
                            k as nat,
                            i as nat,
                            covered,
                        ) {
                            mobius_value(k as nat)
                        } else {
                            0
                        }) by {
                            if (k as nat) >= 2 && !prime(k as nat) && (k as nat) / least_prime_factor(
                                k as nat,
                            ) == i {
                                lemma_cofactor(k as nat);
                                lemma_least_prime_factor(k as nat);
                                let l = least_prime_factor(k as nat);
                                if old_cov <= l < covered {
                                    // no prime strictly between consecutive listed primes
                                    assert(l <= i) by {
                                        lemma_least_prime_factor(i as nat);
                                    }
                                    assert(primes@.contains(l as usize));
                                    let s = choose|s: int|
                                        0 <= s < primes.len() && primes@[s] == l as usize;
                                    if s < t - 1 {
                                        assert(primes[s] < primes[t - 1]);
                                    }
                                    if s > t - 1 {
                                        assert(primes[t as int] <= primes[s]);
                                    }
                                    assert(l == p);
                                    assert(k == m);
                                }
                                if k == m {
                                    assert(l == p);
                                }
                            }
                        }
                    }
                }
            }
        }
        proof {
            assert forall|k: int| 2 <= k <= n implies #[trigger] sieve_handled(k as nat, i as nat, covered)
                == sieve_reached(k as nat, (i + 1) as nat) by {
                if (k as nat) >= 2 && !prime(k as nat) && (k as nat) / least_prime_factor(k as nat)
                    == i {
                    lemma_cofactor(k as nat);
                    lemma_least_prime_factor(k as nat);
                    lemma_least_prime_factor(i as nat);
                }
            }
        }
        i = i + 1;
    }
    proof {
        assert forall|k: int| 1 <= k <= n implies #[trigger] mu[k] == mobius_value(k as nat) by {
            if k == 1 {
                assert(prime_divisors(1) =~= Seq::<nat>::empty());
            } else if !prime(k as nat) {
                lemma_cofactor(k as nat);
            }
        }
    }
    mu
}


// ---------------------------------------------------------------------------
// Mertens function
// ---------------------------------------------------------------------------

/// The Mertens function `M(n) = Σ_{k=1}^{n} μ(k)`.
pub open spec fn mertens_value(n: nat) -> int
    decreases n,
{
    if n == 0 {
        0
    } else {
        mertens_value((n - 1) as nat) + mobius_value(n)
    }
}

/// Mertens function M(n) = sum of μ(k) for k = 1..n.
pub fn mertens(n: usize) -> (r: i64)
    requires
        n < usize::MAX,
        n <= i64::MAX,
    ensures
        r == mertens_value(n as nat),
{
    if n == 0 {
        return 0;
    }
    let mu = mobius_sieve(n);
    let mut sum: i64 = 0;
    let mut k: usize = 1;
    while k <= n
        invariant
            1 <= k <= n + 1,
            n < usize::MAX,
            n <= i64::MAX,
            mu.len() == n + 1,
            forall|j: int| 1 <= j <= n ==> #[trigger] mu[j] == mobius_value(j as nat),
            sum == mertens_value((k - 1) as nat),
            -(k as int) < sum < k as int,
        decreases n + 1 - k,
    {
        proof {
            lemma_mobius_bounded(k as nat);
        }
        sum = sum + mu[k];
        k = k + 1;
    }
    sum
}

// ---------------------------------------------------------------------------
// Identities between the arithmetic functions
// ---------------------------------------------------------------------------

/// `gcd(a, b) * lcm(a, b) == a * b`.
pub proof fn lemma_gcd_times_lcm(a: nat, b: nat)
    requires
        a != 0 || b != 0,
    ensures
        spec_gcd(a, b) * (a / spec_gcd(a, b) * b) == a * b,
{
    let g = spec_gcd(a, b);
    crate::divisibility::lemma_gcd_divides(a, b);
    lemma_fundamental_div_mod(a as int, g as int);
    assert(a == g * (a / g));
    lemma_mul_is_associative(g as int, (a / g) as int, b as int);
}

/// `lcm(a, b)` is a multiple of both `a` and `b`.
pub proof fn lemma_lcm_common_multiple(a: nat, b: nat)
    requires
        a != 0 && b != 0,
    ensures
        (a / spec_gcd(a, b) * b) % a == 0,
        (a / spec_gcd(a, b) * b) % b == 0,
{
    let g = spec_gcd(a, b);
    crate::divisibility::lemma_gcd_divides(a, b);
    lemma_fundamental_div_mod(a as int, g as int);
    lemma_fundamental_div_mod(b as int, g as int);
    let l = a / g * b;
    lemma_mod_multiples_basic((a / g) as int, b as int);
    // l = (a / g) * (b / g) * g = a * (b / g)
    assert(l == a * (b / g)) by {
        assert(b == g * (b / g));
        lemma_mul_is_associative((a / g) as int, g as int, (b / g) as int);
        lemma_mul_is_commutative((a / g) as int, g as int);
    }
    lemma_mod_multiples_basic((b / g) as int, a as int);
    lemma_mul_is_commutative(a as int, (b / g) as int);
}

/// The only prime dividing a prime `p` is `p` itself.
pub proof fn lemma_prime_divisors_of_prime(p: nat)
    requires
        prime(p),
    ensures
        prime_divisors(p) == seq![p],
{
    let below = prime_divisors_below(p, p);
    assert(below.len() == 0) by {
        if below.len() > 0 {
            assert(below.contains(below[0]));
            lemma_prime_divisors_below_contains(p, p, below[0]);
        }
    }
    lemma_mod_self_0(p as int);
    assert(prime_divisors(p) == below.push(p));
}

/// `φ(p) = p - 1` for a prime `p`.
pub proof fn lemma_totient_of_prime(p: nat)
    requires
        prime(p),
    ensures
        totient(p) == p - 1,
{
    lemma_prime_divisors_of_prime(p);
    let ps = seq![p];
    assert(ps.drop_last() =~= Seq::<nat>::empty());
    lemma_div_by_self(p as int);
    assert(totient_apply(p, ps) == totient_apply(p, ps.drop_last()) / p * ((p - 1) as nat));
    assert(totient_apply(p, ps.drop_last()) == p);
    assert(p / p == 1);
    assert(1 * ((p - 1) as nat) == p - 1);
    assert(totient(p) == totient_apply(p, ps));
}

/// `μ(p) = -1` for a prime `p`.
pub proof fn lemma_mobius_of_prime(p: nat)
    requires
        prime(p),
    ensures
        mobius_value(p) == -1,
{
    lemma_prime_divisors_of_prime(p);
    assert forall|q: nat| #[trigger] prime_divisors(p).contains(q) implies p % (q * q) != 0 by {
        assert(q == p);
        assert(p < p * p) by (nonlinear_arith)
            requires
                p >= 2,
        ;
        lemma_small_mod(p, p * p);
    }
}

/// `μ(p^2) = 0` for a prime `p`.
pub proof fn lemma_mobius_of_prime_square(p: nat)
    requires
        prime(p),
    ensures
        mobius_value(p * p) == 0,
{
    assert(p * p > 0) by (nonlinear_arith)
        requires
            p >= 2,
    ;
    lemma_mod_self_0((p * p) as int);
    assert((p * p) % p == 0) by {
        lemma_mod_multiples_basic(p as int, p as int);
    }
    assert(p < p * p + 1) by (nonlinear_arith)
        requires
            p >= 2,
    ;
    lemma_prime_divisors_below_contains(p * p, p * p + 1, p);
    assert(prime_divisors(p * p).contains(p));
}

// ---------------------------------------------------------------------------
// φ(n) counts the integers in 1..n coprime to n
// ---------------------------------------------------------------------------

/// The number of `k` with `1 <= k <= j` and `gcd(k, n) = 1`.
pub open spec fn coprime_count(n: nat, j: nat) -> nat
    decreases j,
{
    if j == 0 {
        0
    } else {
        coprime_count(n, (j - 1) as nat) + if spec_gcd(j, n) == 1 {
            1nat
        } else {
            0nat
        }
    }
}

/// No element of `ps` divides `k`.
pub open spec fn avoids(ps: Seq<nat>, k: nat) -> bool {
    forall|i: int| 0 <= i < ps.len() ==> k % #[trigger] ps[i] != 0
}

/// The number of `k` with `1 <= k <= j` that no element of `ps` divides.
pub open spec fn avoiding_count(ps: Seq<nat>, j: nat) -> nat
    decreases j,
{
    if j == 0 {
        0
    } else {
        avoiding_count(ps, (j - 1) as nat) + if avoids(ps, j) {
            1nat
        } else {
            0nat
        }
    }
}

/// The number of multiples `k` of `q` with `1 <= k <= j` that no element of `ps` divides.
pub open spec fn avoiding_multiples(ps: Seq<nat>, q: nat, j: nat) -> nat
    decreases j,
{
    if j == 0 {
        0
    } else {
        avoiding_multiples(ps, q, (j - 1) as nat) + if avoids(ps, j) && j % q == 0 {
            1nat
        } else {
            0nat
        }
    }
}

/// `ps` lists distinct primes that all divide `n`.
pub open spec fn distinct_prime_divisors(ps: Seq<nat>, n: nat) -> bool {
    &&& forall|i: int| 0 <= i < ps.len() ==> prime(#[trigger] ps[i]) && n % ps[i] == 0
    &&& forall|i: int, j: int| 0 <= i < j < ps.len() ==> #[trigger] ps[i] != #[trigger] ps[j]
}

/// Adding a prime `q` to the sieve removes the multiples of `q`.
proof fn lemma_avoiding_push(ps: Seq<nat>, q: nat, j: nat)
    ensures
        avoiding_count(ps.push(q), j) + avoiding_multiples(ps, q, j) == avoiding_count(ps, j),
    decreases j,
{
    if j > 0 {
        lemma_avoiding_push(ps, q, (j - 1) as nat);
        let qs = ps.push(q);
        assert(avoids(qs, j) == (avoids(ps, j) && j % q != 0)) by {
            if avoids(qs, j) {
                assert forall|i: int| 0 <= i < ps.len() implies j % #[trigger] ps[i] != 0 by {
                    assert(qs[i] == ps[i]);
                }
                assert(qs[ps.len() as int] == q);
            }
            if avoids(ps, j) && j % q != 0 {
                assert forall|i: int| 0 <= i < qs.len() implies j % #[trigger] qs[i] != 0 by {
                    if i < ps.len() {
                        assert(qs[i] == ps[i]);
                    }
                }
            }
        }
    }
}

/// For a prime `q` outside `ps`, `q k` avoids the primes of `ps` exactly when `k` does.
proof fn lemma_avoids_scaled(ps: Seq<nat>, q: nat, k: nat)
    requires
        prime(q),
        forall|i: int| 0 <= i < ps.len() ==> prime(#[trigger] ps[i]) && ps[i] != q,
    ensures
        avoids(ps, q * k) == avoids(ps, k),
{
    if avoids(ps, k) {
        assert forall|i: int| 0 <= i < ps.len() implies (q * k) % #[trigger] ps[i] != 0 by {
            let p = ps[i];
            lemma_distinct_primes(p, q);
            if (q * k) % p == 0 {
                lemma_euclid(q, k, p);
            }
        }
    }
    if avoids(ps, q * k) {
        assert forall|i: int| 0 <= i < ps.len() implies k % #[trigger] ps[i] != 0 by {
            let p = ps[i];
            if k % p == 0 {
                lemma_divides_mul(p, k as int, q as int);
            }
        }
    }
}

/// Within one block of `q` numbers only its last one is a multiple of `q`.
proof fn lemma_avoiding_multiples_block(ps: Seq<nat>, q: nat, m: nat, r: nat)
    requires
        q >= 1,
        r < q,
    ensures
        avoiding_multiples(ps, q, q * m + r) == avoiding_multiples(ps, q, q * m),
    decreases r,
{
    if r > 0 {
        lemma_avoiding_multiples_block(ps, q, m, (r - 1) as nat);
        lemma_mod_multiples_vanish(m as int, r as int, q as int);
        lemma_small_mod(r, q);
        assert((q * m + r - 1) as nat == q * m + (r - 1) as nat);
    }
}

/// The multiples of `q` up to `q m` that avoid `ps` correspond to the numbers up to `m` that
/// do.
proof fn lemma_avoiding_multiples_count(ps: Seq<nat>, q: nat, m: nat)
    requires
        prime(q),
        forall|i: int| 0 <= i < ps.len() ==> prime(#[trigger] ps[i]) && ps[i] != q,
    ensures
        avoiding_multiples(ps, q, q * m) == avoiding_count(ps, m),
    decreases m,
{
    if m > 0 {
        let k = (m - 1) as nat;
        lemma_avoiding_multiples_count(ps, q, k);
        lemma_avoiding_multiples_block(ps, q, k, (q - 1) as nat);
        assert(q * m == q * k + (q - 1) as nat + 1) by (nonlinear_arith)
            requires
                m == k + 1,
                q >= 1,
        ;
        lemma_mod_multiples_basic(m as int, q as int);
        lemma_mul_is_commutative(m as int, q as int);
        lemma_avoids_scaled(ps, q, m);
        assert((q * m - 1) as nat == q * k + (q - 1) as nat);
        assert((q * m) % q == 0);
        assert(avoiding_multiples(ps, q, q * m) == avoiding_multiples(ps, q, (q * m - 1) as nat)
            + if avoids(ps, q * m) && (q * m) % q == 0 {
            1nat
        } else {
            0nat
        });
        assert(avoiding_count(ps, m) == avoiding_count(ps, k) + if avoids(ps, m) {
            1nat
        } else {
            0nat
        });
    } else {
        assert(q * m == 0) by (nonlinear_arith)
            requires
                m == 0,
        ;
    }
}

/// A prime `p` outside `ps` that divides `m` divides `m ∏ (1 - 1/p')` over `ps`.
proof fn lemma_totient_apply_divisible(m: nat, ps: Seq<nat>, p: nat)
    requires
        distinct_prime_divisors(ps, m),
        prime(p),
        m % p == 0,
        forall|i: int| 0 <= i < ps.len() ==> #[trigger] ps[i] != p,
    ensures
        totient_apply(m, ps) % p == 0,
    decreases ps.len(),
{
    if ps.len() > 0 {
        let u = ps.drop_last();
        let q = ps.last();
        assert(distinct_prime_divisors(u, m)) by {
            assert forall|i: int| 0 <= i < u.len() implies prime(#[trigger] u[i]) && m % u[i]
                == 0 by {
                assert(u[i] == ps[i]);
            }
            assert forall|i: int, j: int| 0 <= i < j < u.len() implies #[trigger] u[i]
                != #[trigger] u[j] by {
                assert(u[i] == ps[i] && u[j] == ps[j]);
            }
        }
        assert forall|i: int| 0 <= i < u.len() implies #[trigger] u[i] != p by {
            assert(u[i] == ps[i]);
        }
        assert forall|i: int| 0 <= i < u.len() implies #[trigger] u[i] != q by {
            assert(u[i] == ps[i]);
            assert(ps[i] != ps[ps.len() - 1]);
        }
        assert(prime(q) && m % q == 0 && q != p) by {
            assert(ps[ps.len() - 1] == q);
        }
        lemma_totient_apply_divisible(m, u, p);
        lemma_totient_apply_divisible(m, u, q);
        let x = totient_apply(m, u);
        lemma_fundamental_div_mod(x as int, q as int);
        let y = x / q;
        assert(x == q * y);
        lemma_distinct_primes(p, q);
        lemma_euclid(q, y, p);
        lemma_divides_mul(p, y as int, (q - 1) as int);
    }
}

/// `q m ∏ (1 - 1/p) = q (m ∏ (1 - 1/p))` over primes `p` of `ps` dividing `m`.
proof fn lemma_totient_apply_scale(m: nat, ps: Seq<nat>, q: nat)
    requires
        distinct_prime_divisors(ps, m),
        q >= 1,
    ensures
        totient_apply(q * m, ps) == q * totient_apply(m, ps),
    decreases ps.len(),
{
    if ps.len() > 0 {
        let u = ps.drop_last();
        let p = ps.last();
        assert(distinct_prime_divisors(u, m)) by {
            assert forall|i: int| 0 <= i < u.len() implies prime(#[trigger] u[i]) && m % u[i]
                == 0 by {
                assert(u[i] == ps[i]);
            }
            assert forall|i: int, j: int| 0 <= i < j < u.len() implies #[trigger] u[i]
                != #[trigger] u[j] by {
                assert(u[i] == ps[i] && u[j] == ps[j]);
            }
        }
        assert forall|i: int| 0 <= i < u.len() implies #[trigger] u[i] != p by {
            assert(u[i] == ps[i]);
            assert(ps[i] != ps[ps.len() - 1]);
        }
        assert(prime(p) && m % p == 0) by {
            assert(ps[ps.len() - 1] == p);
        }
        lemma_totient_apply_scale(m, u, q);
        lemma_totient_apply_divisible(m, u, p);
        let x = totient_apply(m, u);
        lemma_fundamental_div_mod(x as int, p as int);
        let y = x / p;
        assert(x == p * y);
        // (q x) / p = q y
        assert(q * x == p * (q * y)) by (nonlinear_arith)
            requires
                x == p * y,
        ;
        lemma_div_multiples_vanish((q * y) as int, p as int);
        lemma_mul_is_associative(q as int, y as int, (p - 1) as int);
    }
}

/// The sieve of the distinct primes `ps` dividing `n` leaves `n ∏ (1 - 1/p)` numbers.
proof fn lemma_avoiding_count_is_totient_apply(n: nat, ps: Seq<nat>)
    requires
        n >= 1,
        distinct_prime_divisors(ps, n),
    ensures
        avoiding_count(ps, n) == totient_apply(n, ps),
    decreases ps.len(),
{
    if ps.len() == 0 {
        lemma_avoiding_count_all(ps, n);
    } else {
        let u = ps.drop_last();
        let q = ps.last();
        assert(ps == u.push(q));
        assert(prime(q) && n % q == 0) by {
            assert(ps[ps.len() - 1] == q);
        }
        let m = n / q;
        lemma_fundamental_div_mod(n as int, q as int);
        assert(n == q * m);
        assert(m >= 1) by {
            if m == 0 {
                assert(q * 0 == 0);
            }
        }
        assert forall|i: int| 0 <= i < u.len() implies prime(#[trigger] u[i]) && u[i] != q by {
            assert(u[i] == ps[i]);
            assert(ps[i] != ps[ps.len() - 1]);
        }
        // the primes of u divide m as well as n
        assert(distinct_prime_divisors(u, m)) by {
            assert forall|i: int| 0 <= i < u.len() implies prime(#[trigger] u[i]) && m % u[i]
                == 0 by {
                let p = u[i];
                assert(p == ps[i]);
                lemma_distinct_primes(p, q);
                lemma_euclid(q, m, p);
            }
            assert forall|i: int, j: int| 0 <= i < j < u.len() implies #[trigger] u[i]
                != #[trigger] u[j] by {
                assert(u[i] == ps[i] && u[j] == ps[j]);
            }
        }
        assert(distinct_prime_divisors(u, n)) by {
            assert forall|i: int| 0 <= i < u.len() implies prime(#[trigger] u[i]) && n % u[i]
                == 0 by {
                assert(u[i] == ps[i]);
            }
        }
        lemma_avoiding_count_is_totient_apply(n, u);
        lemma_avoiding_count_is_totient_apply(m, u);
        lemma_avoiding_push(u, q, n);
        lemma_avoiding_multiples_count(u, q, m);
        lemma_totient_apply_scale(m, u, q);
        // totient_apply(n, ps) = T(n, u) / q * (q - 1) = T(m, u) * (q - 1)
        let t = totient_apply(m, u);
        assert(totient_apply(n, ps) == totient_apply(n, u) / q * ((q - 1) as nat));
        lemma_div_multiples_vanish(t as int, q as int);
        assert((q * t) / q == t);
        assert(t * ((q - 1) as nat) == q * t - t) by (nonlinear_arith)
            requires
                q >= 1,
        ;
    }
}

/// With nothing to avoid every number counts.
proof fn lemma_avoiding_count_all(ps: Seq<nat>, j: nat)
    requires
        ps.len() == 0,
    ensures
        avoiding_count(ps, j) == j,
    decreases j,
{
    if j > 0 {
        lemma_avoiding_count_all(ps, (j - 1) as nat);
    }
}

/// For `n >= 1`, `k >= 1`: `gcd(k, n) = 1` exactly when no prime divisor of `n` divides `k`.
proof fn lemma_coprime_iff_avoids(n: nat, k: nat)
    requires
        n >= 1,
        k >= 1,
    ensures
        (spec_gcd(k, n) == 1) == avoids(prime_divisors(n), k),
{
    let ps = prime_divisors(n);
    let g = spec_gcd(k, n);
    crate::divisibility::lemma_gcd_divides(k, n);
    if g != 1 {
        assert(g >= 2);
        lemma_has_prime_divisor(g);
        let p = choose|p: nat| prime(p) && p <= g && #[trigger] (g % p) == 0;
        lemma_divides_trans(p, g, k);
        lemma_divides_trans(p, g, n);
        lemma_prime_divisors_below_contains(n, n + 1, p);
        lemma_divisor_le(p, n);
        let i = choose|i: int| 0 <= i < ps.len() && ps[i] == p;
        assert(k % ps[i] == 0);
    } else {
        assert forall|i: int| 0 <= i < ps.len() implies k % #[trigger] ps[i] != 0 by {
            let p = ps[i];
            assert(ps.contains(p));
            lemma_prime_divisors_below_contains(n, n + 1, p);
            if k % p == 0 {
                crate::divisibility::lemma_common_divisor_divides_gcd(k, n, p);
                lemma_small_mod(1, p);
            }
        }
    }
}

proof fn lemma_coprime_count_is_avoiding_count(n: nat, j: nat)
    requires
        n >= 1,
    ensures
        coprime_count(n, j) == avoiding_count(prime_divisors(n), j),
    decreases j,
{
    if j > 0 {
        lemma_coprime_count_is_avoiding_count(n, (j - 1) as nat);
        lemma_coprime_iff_avoids(n, j);
    }
}

/// φ(n) counts the integers `1 <= k <= n` coprime to `n`.
pub proof fn lemma_totient_counts_coprimes(n: nat)
    ensures
        totient(n) == coprime_count(n, n),
{
    if n >= 1 {
        lemma_coprime_count_is_avoiding_count(n, n);
        let ps = prime_divisors(n);
        assert(distinct_prime_divisors(ps, n)) by {
            lemma_prime_divisors_below_sorted(n, n + 1);
            assert forall|i: int| 0 <= i < ps.len() implies prime(#[trigger] ps[i]) && n % ps[i]
                == 0 by {
                assert(ps.contains(ps[i]));
                lemma_prime_divisors_below_contains(n, n + 1, ps[i]);
            }
        }
        lemma_avoiding_count_is_totient_apply(n, ps);
    } else {
        assert(prime_divisors(0) =~= Seq::<nat>::empty());
    }
}

} // verus!
