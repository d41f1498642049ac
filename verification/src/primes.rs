//! Prime generation and primality testing.
use crate::divisibility::{
    lemma_composite_has_small_divisor, lemma_divides_add_sub, lemma_divides_trans, lemma_divisor_le, lemma_mod_of_multiple,
    lemma_prime_no_small_divisor, lemma_prime_from_no_small_divisor, no_divisor_in, prime,
    prime_pi, multiplicity, prime_divisors, lemma_euclid, lemma_distinct_primes,
    lemma_multiplicity_of_multiple, lemma_least_divisor_is_prime, lemma_multiplicity_coprime_factor,
    lemma_multiplicity_self, lemma_multiplicity_positive, lemma_prime_divisors_below_unique,
    lemma_has_prime_divisor,
};
use vstd::arithmetic::div_mod::*;
use vstd::arithmetic::mul::*;
use vstd::arithmetic::power::*;
use vstd::arithmetic::power2::{
    lemma2_to64, lemma2_to64_rest, lemma_pow2, lemma_pow2_pos, lemma_pow2_unfold, pow2,
};
use crate::fermat::lemma_fermat_little;
use crate::modular::{lemma_square_root_of_one, mul_mod};
use vstd::prelude::*;

verus! {

// ---------------------------------------------------------------------------
// Sieve of Eratosthenes
// ---------------------------------------------------------------------------

/// `k` survives sieving by every `d < i`: no such `d >= 2` with `d * d <= k` divides it.
pub open spec fn sieve_survivor(k: nat, i: nat) -> bool {
    forall|d: nat| 2 <= d < i && d * d <= k ==> #[trigger] (k % d) != 0
}

proof fn lemma_survivor_is_prime(k: nat, i: nat)
    requires
        k >= 2,
        k < i * i,
    ensures
        sieve_survivor(k, i) == prime(k),
{
    if prime(k) {
        assert forall|d: nat| 2 <= d < i && d * d <= k implies #[trigger] (k % d) != 0 by {
            lemma_prime_no_small_divisor(k, d);
        }
    } else {
        lemma_composite_has_small_divisor(k);
        let d = choose|d: nat| 2 <= d && d * d <= k && #[trigger] (k % d) == 0;
        if d >= i {
            assert(d * d >= i * i) by (nonlinear_arith)
                requires
                    d >= i,
            ;
        }
    }
}

/// Between a multiple `j` of `i` and the next one there is no other multiple.
pub proof fn lemma_next_multiple(k: int, j: int, i: int)
    requires
        i > 0,
        k % i == 0,
        j % i == 0,
        k > j,
    ensures
        k >= j + i,
{
    lemma_divides_add_sub(i as nat, k, j);
    lemma_divisor_le(i as nat, (k - j) as nat);
}

/// `prime_count` grows by one exactly at each prime.
proof fn lemma_prime_count_small()
    ensures
        prime_pi(0) == 0,
        prime_pi(1) == 0,
{
    assert(prime_pi(1) == prime_pi(0) + 0);
}

/// Sieve of Eratosthenes: all primes up to `limit`, in increasing order.
pub fn sieve_primes(limit: usize) -> (r: Vec<u64>)
    requires
        limit < usize::MAX,
    ensures
        r.len() == prime_pi(limit as nat),
        forall|i: int|
            0 <= i < r.len() ==> prime(#[trigger] r[i] as nat) && r[i] <= limit && prime_pi(
                r[i] as nat,
            ) == i + 1,
        forall|i: int, j: int| 0 <= i < j < r.len() ==> r[i] < r[j],
        forall|p: nat| prime(p) && p <= limit ==> #[trigger] r@.contains(p as u64),
{
    proof {
        lemma_prime_count_small();
    }
    if limit < 2 {
        return Vec::new();
    }
    let mut is_p: Vec<bool> = vec![true; limit + 1];
    is_p.set(0, false);
    is_p.set(1, false);
    let mut i: usize = 2;
    while i <= limit / i
        invariant
            2 <= i <= limit,
            limit < usize::MAX,
            is_p.len() == limit + 1,
            forall|k: int| 2 <= k <= limit ==> #[trigger] is_p[k] == sieve_survivor(k as nat, i as nat),
        decreases limit - i,
    {
        proof {
            lemma_fundamental_div_mod(limit as int, i as int);
            assert(i * i <= limit) by (nonlinear_arith)
                requires
                    i <= limit / i,
                    limit == i * (limit / i) + limit % i,
                    limit % i >= 0,
                    i >= 2,
            ;
        }
        if is_p[i] {
            let mut j: usize = i * i;
            proof {
                lemma_mod_of_multiple(i as nat, i as nat);
            }
            while j <= limit
                invariant
                    2 <= i <= limit,
                    i * i <= limit,
                    limit < usize::MAX,
                    is_p.len() == limit + 1,
                    i * i <= j <= limit + 1,
                    j <= limit ==> j % i == 0,
                    forall|k: int|
                        2 <= k <= limit ==> #[trigger] is_p[k] == (sieve_survivor(k as nat, i as nat)
                            && !(k % (i as int) == 0 && i * i <= k && k < j)),
                decreases limit + 1 - j,
            {
                let ghost j0 = j as int;
                is_p.set(j, false);
                proof {
                    assert forall|k: int| #[trigger] (k % (i as int)) == 0 && k > j0 implies k >= j0
                        + i by {
                        lemma_next_multiple(k, j0, i as int);
                    }
                }
                if j <= limit - i {
                    proof {
                        lemma_mod_add_multiples_vanish(j as int, i as int);
                    }
                    j = j + i;
                } else {
                    j = limit + 1;
                }
                proof {
                    assert forall|k: int|
                        2 <= k <= limit implies #[trigger] is_p[k] == (sieve_survivor(
                        k as nat,
                        i as nat,
                    ) && !(k % (i as int) == 0 && i * i <= k && k < j)) by {
                        if k != j0 && k % (i as int) == 0 && k > j0 {
                            assert(k >= j0 + i);
                        }
                    }
                }
            }
        } else {
            proof {
                // a composite i has a smaller divisor that already removed its multiples
                assert forall|k: int|
                    2 <= k <= limit && #[trigger] (k % (i as int)) == 0 && i * i <= k implies !sieve_survivor(
                    k as nat,
                    i as nat,
                ) by {
                    assert(!sieve_survivor(i as nat, i as nat));
                    let d = choose|d: nat|
                        2 <= d < i && d * d <= i && #[trigger] ((i as nat) % d) == 0;
                    lemma_divides_trans(d, i as nat, k as nat);
                    assert(d * d <= k) by (nonlinear_arith)
                        requires
                            d * d <= i,
                            i * i <= k,
                            i >= 2,
                    ;
                }
            }
        }
        proof {
            assert forall|k: int| 2 <= k <= limit implies #[trigger] is_p[k] == sieve_survivor(
                k as nat,
                (i + 1) as nat,
            ) by {
                assert(sieve_survivor(k as nat, (i + 1) as nat) == (sieve_survivor(k as nat, i as nat)
                    && !(k % (i as int) == 0 && i * i <= k)));
            }
        }
        proof {
            assert(i + 1 <= i * i) by (nonlinear_arith)
                requires
                    i >= 2,
            ;
        }
        i = i + 1;
    }
    proof {
        lemma_fundamental_div_mod(limit as int, i as int);
        lemma_mod_pos_bound(limit as int, i as int);
        assert(limit < i * i) by (nonlinear_arith)
            requires
                i > limit / i,
                limit == i * (limit / i) + limit % i,
                limit % i < i,
        ;
        assert forall|k: int| 2 <= k <= limit implies #[trigger] is_p[k] == prime(k as nat) by {
            lemma_survivor_is_prime(k as nat, i as nat);
        }
    }
    let mut r: Vec<u64> = Vec::new();
    let mut k: usize = 2;
    while k <= limit
        invariant
            2 <= k <= limit + 1,
            limit < usize::MAX,
            is_p.len() == limit + 1,
            forall|m: int| 2 <= m <= limit ==> #[trigger] is_p[m] == prime(m as nat),
            r.len() == prime_pi((k - 1) as nat),
            forall|a: int|
                0 <= a < r.len() ==> prime(#[trigger] r[a] as nat) && r[a] < k && prime_pi(
                    r[a] as nat,
                ) == a + 1,
            forall|a: int, b: int| 0 <= a < b < r.len() ==> r[a] < r[b],
            forall|p: nat| prime(p) && p < k ==> #[trigger] r@.contains(p as u64),
        decreases limit + 1 - k,
    {
        let ghost prev = r@;
        if is_p[k] {
            r.push(k as u64);
            proof {
                assert(r[r.len() - 1] == k as u64);
            }
        }
        proof {
            assert(prime_pi(k as nat) == prime_pi((k - 1) as nat) + if prime(k as nat) {
                1nat
            } else {
                0nat
            });
            assert forall|p: nat| prime(p) && p < k + 1 implies #[trigger] r@.contains(p as u64) by {
                if p == k {
                    assert(r@[r.len() - 1] == k as u64);
                } else {
                    assert(prev.contains(p as u64));
                    let t = choose|t: int| 0 <= t < prev.len() && prev[t] == p as u64;
                    assert(r@[t] == p as u64);
                }
            }
        }
        k = k + 1;
    }
    r
}


// ---------------------------------------------------------------------------
// Trial division
// ---------------------------------------------------------------------------

/// A divisor of `n` that is a multiple of `small` makes `small` a divisor of `n`.
proof fn lemma_divisor_through(small: nat, d: nat, n: nat)
    requires
        small > 0,
        d > 0,
        d % small == 0,
        n % small != 0,
    ensures
        n % d != 0,
{
    if n % d == 0 {
        lemma_divides_trans(small, d, n);
    }
}

/// Deterministic primality test by trial division over 6k ± 1.
pub fn is_prime_small(n: u64) -> (r: bool)
    ensures
        r == prime(n as nat),
{
    if n < 2 {
        return false;
    }
    if n < 4 {
        assert(prime(n as nat)) by {
            assert forall|d: nat| 2 <= d < n implies #[trigger] ((n as nat) % d) != 0 by {
                assert(d == 2 && n == 3);
            }
        }
        return true;
    }
    if n % 2 == 0 || n % 3 == 0 {
        return false;
    }
    let mut i: u64 = 5;
    proof {
        assert forall|d: nat| 2 <= d < 5 implies #[trigger] ((n as nat) % d) != 0 by {
            if d == 4 {
                lemma_divisor_through(2, 4, n as nat);
            }
        }
    }
    while i <= n / i
        invariant
            5 <= i,
            n >= 5,
            i % 6 == 5,
            n % 2 != 0,
            n % 3 != 0,
            no_divisor_in(n as nat, 2, i as nat),
        decreases n - i,
    {
        proof {
            lemma_fundamental_div_mod(n as int, i as int);
            assert(i * i <= n) by (nonlinear_arith)
                requires
                    i <= n / i,
                    n == i * (n / i) + n % i,
                    n % i >= 0,
                    i >= 5,
            ;
            assert(i + 2 < n) by (nonlinear_arith)
                requires
                    i * i <= n,
                    i >= 5,
            ;
        }
        if n % i == 0 || n % (i + 2) == 0 {
            return false;
        }
        proof {
            assert forall|d: nat| 2 <= d < i + 6 implies #[trigger] ((n as nat) % d) != 0 by {
                if d >= i && (n as nat) % d == 0 {
                    if d == i + 1 || d == i + 3 || d == i + 5 {
                        lemma_divisor_through(2, d, n as nat);
                    } else if d == i + 4 {
                        lemma_divisor_through(3, d, n as nat);
                    }
                }
            }
        }
        i = i + 6;
    }
    proof {
        lemma_fundamental_div_mod(n as int, i as int);
        lemma_mod_pos_bound(n as int, i as int);
        assert(n < i * i) by (nonlinear_arith)
            requires
                i > n / i,
                n == i * (n / i) + n % i,
                n % i < i,
        ;
        lemma_prime_from_no_small_divisor(n as nat, i as nat);
    }
    true
}

// ---------------------------------------------------------------------------
// Modular exponentiation
// ---------------------------------------------------------------------------

/// One step of square-and-multiply keeps `r * b^e (mod m)` unchanged.
proof fn lemma_square_and_multiply_step(r: int, b: int, e: nat, m: int)
    requires
        m > 0,
    ensures
        (r * pow(b, e)) % m == ((if e % 2 == 1 {
            (r * b) % m
        } else {
            r
        }) * pow((b * b) % m, e / 2)) % m,
{
    let h = e / 2;
    let p = pow(b * b, h);
    lemma_pow_multiplies(b, 2, h);
    lemma_square_is_pow2(b);
    assert(pow(b, 2 * h) == p);
    lemma_pow_mod_noop(b * b, h, m);
    if e % 2 == 1 {
        lemma_pow_adds(b, 2 * h, 1);
        lemma_pow1(b);
        assert(e == 2 * h + 1);
        assert(pow(b, e) == p * b);
        lemma_mul_is_associative(r, b, p);
        lemma_mul_is_commutative(p, b);
        lemma_mul_is_associative(r, p, b);
        lemma_mul_mod_noop_general(r * b, p, m);
        lemma_mul_mod_noop_general(r * b, pow((b * b) % m, h), m);
    } else {
        assert(e == 2 * h);
        lemma_mul_mod_noop_general(r, p, m);
        lemma_mul_mod_noop_general(r, pow((b * b) % m, h), m);
    }
}

/// Modular exponentiation: computes `base^exp mod modulus`.
pub fn mod_pow(base: u64, exp: u64, modulus: u64) -> (r: u64)
    requires
        modulus > 0,
    ensures
        r == pow(base as int, exp as nat) % (modulus as int),
        r < modulus,
{
    if modulus == 1 {
        return 0;
    }
    let mut result: u64 = 1;
    let mut b: u64 = base % modulus;
    let mut e: u64 = exp;
    proof {
        lemma_pow_mod_noop(base as int, exp as nat, modulus as int);
        lemma_mul_basics(pow(b as int, e as nat));
    }
    while e > 0
        invariant
            modulus > 1,
            result < modulus,
            b < modulus,
            (result * pow(b as int, e as nat)) % (modulus as int) == pow(base as int, exp as nat) % (
            modulus as int),
        decreases e,
    {
        proof {
            lemma_square_and_multiply_step(result as int, b as int, e as nat, modulus as int);
        }
        if e % 2 == 1 {
            result = mul_mod(result, b, modulus);
        }
        e = e / 2;
        b = mul_mod(b, b, modulus);
    }
    proof {
        lemma_pow0(b as int);
        lemma_small_mod(result as nat, modulus as nat);
    }
    result
}


// ---------------------------------------------------------------------------
// Factorization
// ---------------------------------------------------------------------------

/// A prime with its exponent in a factorization.
#[derive(Debug, Clone)]
pub struct PrimeFactor {
    pub prime: u64,
    pub exponent: u32,
}

/// The product of `p^e` over a list of factors.
pub open spec fn factor_product(s: Seq<PrimeFactor>) -> nat
    decreases s.len(),
{
    if s.len() == 0 {
        1
    } else {
        factor_product(s.drop_last()) * (pow(s.last().prime as int, s.last().exponent as nat) as nat)
    }
}

/// The primes of a list of factors, in order.
pub open spec fn factor_primes(s: Seq<PrimeFactor>) -> Seq<nat> {
    s.map_values(|f: PrimeFactor| f.prime as nat)
}

/// Every entry is a prime below `bound`, with its multiplicity in `n` as a positive
/// exponent, and the primes increase strictly.
pub open spec fn factors_valid(s: Seq<PrimeFactor>, n: nat, bound: nat) -> bool {
    &&& forall|i: int|
        0 <= i < s.len() ==> prime(#[trigger] s[i].prime as nat) && s[i].exponent >= 1
            && s[i].exponent as nat == multiplicity(n, s[i].prime as nat) && (s[i].prime as nat)
            < bound
    &&& forall|i: int, j: int| 0 <= i < j < s.len() ==> s[i].prime < s[j].prime
}

pub proof fn lemma_pow_nonneg(b: nat, e: nat)
    ensures
        pow(b as int, e) >= 0,
        b > 0 ==> pow(b as int, e) > 0,
{
    if b > 0 {
        lemma_pow_positive(b as int, e);
    } else if e == 0 {
        lemma_pow0(b as int);
    } else {
        lemma0_pow(e);
    }
}

proof fn lemma_pow_base_monotone(a: nat, b: nat, e: nat)
    requires
        a <= b,
    ensures
        pow(a as int, e) <= pow(b as int, e),
    decreases e,
{
    reveal(pow);
    if e > 0 {
        lemma_pow_base_monotone(a, b, (e - 1) as nat);
        lemma_pow_nonneg(a, (e - 1) as nat);
        lemma_mul_le(a, pow(a as int, (e - 1) as nat) as nat, b, pow(b as int, (e - 1) as nat) as nat);
    }
}

pub proof fn lemma_mul_le(a: nat, x: nat, b: nat, y: nat)
    requires
        a <= b,
        x <= y,
    ensures
        a * x <= b * y,
{
    assert(a * x <= b * y) by (nonlinear_arith)
        requires
            a <= b,
            x <= y,
    ;
}

/// An exponent of a prime power below 2^64 is below 64.
pub proof fn lemma_exponent_below_64(p: nat, c: nat, n: nat)
    requires
        p >= 2,
        pow(p as int, c) <= n,
        n <= 0xffff_ffff_ffff_ffff,
    ensures
        c < 64,
{
    if c >= 64 {
        lemma_pow_base_monotone(2, p, c);
        lemma_pow_increases(2, 64, c);
        lemma_pow2(64);
        lemma2_to64_rest();
    }
}

/// `p^c * m` has multiplicity `c` more than `m` at `p`.
pub proof fn lemma_pow_multiplicity(p: nat, c: nat, m: nat)
    requires
        p >= 2,
        m > 0,
    ensures
        multiplicity((pow(p as int, c) * m) as nat, p) == c + multiplicity(m, p),
    decreases c,
{
    reveal(pow);
    if c > 0 {
        let k = (pow(p as int, (c - 1) as nat) * m) as nat;
        lemma_pow_nonneg(p, (c - 1) as nat);
        assert(k > 0) by (nonlinear_arith)
            requires
                pow(p as int, (c - 1) as nat) > 0,
                m > 0,
                k == pow(p as int, (c - 1) as nat) * m,
        ;
        lemma_pow_multiplicity(p, (c - 1) as nat, m);
        lemma_mul_is_associative(p as int, pow(p as int, (c - 1) as nat), m as int);
        lemma_multiplicity_of_multiple(k, p);
    }
}

/// A prime different from `p` does not divide a power of `p`.
pub proof fn lemma_prime_pow_not_divisible(q: nat, p: nat, e: nat)
    requires
        prime(q),
        prime(p),
        q != p,
    ensures
        pow(p as int, e) % (q as int) != 0,
    decreases e,
{
    reveal(pow);
    if e == 0 {
        lemma_small_mod(1, q);
    } else {
        lemma_prime_pow_not_divisible(q, p, (e - 1) as nat);
        lemma_pow_nonneg(p, (e - 1) as nat);
        lemma_distinct_primes(q, p);
        if (p * pow(p as int, (e - 1) as nat)) % (q as int) == 0 {
            lemma_euclid(p, pow(p as int, (e - 1) as nat) as nat, q);
        }
    }
}

/// A prime missing from a list of prime factors does not divide their product.
proof fn lemma_product_not_divisible(s: Seq<PrimeFactor>, q: nat)
    requires
        prime(q),
        forall|i: int| 0 <= i < s.len() ==> prime(#[trigger] s[i].prime as nat) && s[i].prime != q,
    ensures
        factor_product(s) % q != 0,
        factor_product(s) > 0,
    decreases s.len(),
{
    if s.len() == 0 {
        lemma_small_mod(1, q);
    } else {
        let t = s.drop_last();
        assert forall|i: int| 0 <= i < t.len() implies prime(#[trigger] t[i].prime as nat)
            && t[i].prime != q by {
            assert(t[i] == s[i]);
        }
        lemma_product_not_divisible(t, q);
        let f = s.last();
        assert(prime(s[s.len() - 1].prime as nat));
        lemma_prime_pow_not_divisible(q, f.prime as nat, f.exponent as nat);
        lemma_pow_nonneg(f.prime as nat, f.exponent as nat);
        let a = factor_product(t);
        let b = pow(f.prime as int, f.exponent as nat) as nat;
        assert(a * b > 0) by (nonlinear_arith)
            requires
                a > 0,
                b > 0,
        ;
        if (a * b) % q == 0 {
            lemma_euclid(a, b, q);
        }
    }
}

pub proof fn lemma_factor_push(s: Seq<PrimeFactor>, f: PrimeFactor)
    ensures
        factor_product(s.push(f)) == factor_product(s) * (pow(f.prime as int, f.exponent as nat) as nat),
        factor_primes(s.push(f)) == factor_primes(s).push(f.prime as nat),
{
    assert(s.push(f).drop_last() =~= s);
    assert(factor_primes(s.push(f)) =~= factor_primes(s).push(f.prime as nat));
}

/// Return the prime factorization of `n`: its distinct primes in increasing order,
/// each with its multiplicity (empty for `n <= 1`).
pub fn factorize(n: u64) -> (r: Vec<PrimeFactor>)
    ensures
        n <= 1 ==> r.len() == 0,
        n >= 1 ==> factor_product(r@) == n,
        factor_primes(r@) == prime_divisors(n as nat),
        factors_valid(r@, n as nat, n as nat + 1),
{
    if n <= 1 {
        proof {
            assert(factor_primes(Seq::<PrimeFactor>::empty()) =~= Seq::<nat>::empty());
        }
        return Vec::new();
    }
    let mut m: u64 = n;
    let mut factors: Vec<PrimeFactor> = Vec::new();
    let mut count: u32 = 0;
    proof {
        lemma_pow0(2);
    }
    while m % 2 == 0
        invariant
            m >= 1,
            n == pow(2, count as nat) * m,
            count < 64,
        decreases m,
    {
        proof {
            lemma_fundamental_div_mod(m as int, 2);
            reveal(pow);
            lemma_mul_is_associative(pow(2, count as nat), 2, (m / 2) as int);
            lemma_pow_nonneg(2, (count + 1) as nat);
            assert(pow(2, (count + 1) as nat) <= n) by (nonlinear_arith)
                requires
                    n == pow(2, (count + 1) as nat) * (m / 2),
                    m / 2 >= 1,
                    pow(2, (count + 1) as nat) >= 0,
            ;
            lemma_exponent_below_64(2, (count + 1) as nat, n as nat);
        }
        count = count + 1;
        m = m / 2;
    }
    let ghost two = PrimeFactor { prime: 2, exponent: count };
    proof {
        assert(prime(2)) by {
            assert forall|d: nat| 2 <= d < 2 implies #[trigger] (2nat % d) != 0 by {}
        }
        lemma_pow_multiplicity(2, count as nat, m as nat);
        lemma_pow_nonneg(2, count as nat);
        assert(multiplicity(m as nat, 2) == 0);
        lemma_factor_push(Seq::empty(), two);
        assert(factor_product(Seq::<PrimeFactor>::empty()) == 1);
        if count == 0 {
            lemma_pow0(2);
        }
    }
    if count > 0 {
        factors.push(PrimeFactor { prime: 2, exponent: count });
    }
    proof {
        assert(factors@ == Seq::<PrimeFactor>::empty() || factors@ == seq![two]);
        if count > 0 {
            assert(factors@ =~= Seq::empty().push(two));
            assert(factor_product(factors@) == 1 * (pow(2, count as nat) as nat));
        } else {
            assert(factors@ =~= Seq::<PrimeFactor>::empty());
            assert(factor_product(factors@) == 1);
        }
        assert(n == factor_product(factors@) * m);
        assert forall|q: nat| prime(q) && q < 3 && (n as nat) % q == 0 implies factor_primes(
            factors@,
        ).contains(q) by {
            assert(q == 2);
            assert(count > 0) by {
                if count == 0 {
                    lemma_pow0(2);
                }
            }
            assert(factor_primes(factors@)[0] == 2);
        }
        assert forall|d: nat| 2 <= d < 3 implies #[trigger] ((m as nat) % d) != 0 by {}
    }
    let mut p: u64 = 3;
    proof {
        lemma_pow_nonneg(2, count as nat);
        assert(m <= n) by (nonlinear_arith)
            requires
                n == pow(2, count as nat) * m,
                pow(2, count as nat) > 0,
                m >= 1,
        ;
    }
    while p <= m / p
        invariant
            3 <= p,
            p % 2 == 1,
            1 <= m <= n,
            m % 2 == 1,
            n == factor_product(factors@) * m,
            factors_valid(factors@, n as nat, p as nat),
            no_divisor_in(m as nat, 2, p as nat),
            forall|q: nat|
                prime(q) && q < p && (n as nat) % q == 0 ==> #[trigger] factor_primes(factors@).contains(q),
        decreases m, m - p,
    {
        proof {
            lemma_fundamental_div_mod(m as int, p as int);
            assert(p * p <= m) by (nonlinear_arith)
                requires
                    p <= m / p,
                    m == p * (m / p) + m % p,
                    m % p >= 0,
                    p >= 3,
            ;
        }
        let ghost m0 = m;
        let mut c: u32 = 0;
        proof {
            lemma_pow0(p as int);
        }
        while m % p == 0
            invariant
                p >= 3,
                m >= 1,
                m0 == pow(p as int, c as nat) * m,
                m0 <= n,
                c < 64,
            decreases m,
        {
            proof {
                lemma_fundamental_div_mod(m as int, p as int);
                reveal(pow);
                lemma_mul_is_associative(pow(p as int, c as nat), p as int, (m / p) as int);
                lemma_mul_is_commutative(pow(p as int, c as nat), p as int);
                lemma_pow_nonneg(p as nat, (c + 1) as nat);
                assert((m / p) >= 1) by {
                    if m / p == 0 {
                        assert(m == 0);
                    }
                }
                assert(pow(p as int, (c + 1) as nat) <= m0) by (nonlinear_arith)
                    requires
                        m0 == pow(p as int, (c + 1) as nat) * (m / p),
                        m / p >= 1,
                        pow(p as int, (c + 1) as nat) >= 0,
                ;
                lemma_exponent_below_64(p as nat, (c + 1) as nat, n as nat);
                lemma_div_is_strictly_smaller(m as int, p as int);
            }
            c = c + 1;
            m = m / p;
        }
        let ghost fp = PrimeFactor { prime: p, exponent: c };
        let ghost old_factors = factors@;
        proof {
            let pc = pow(p as int, c as nat);
            lemma_pow_nonneg(p as nat, c as nat);
            assert forall|i: int| 0 <= i < factors@.len() implies prime(
                #[trigger] factors@[i].prime as nat,
            ) && factors@[i].prime != p by {}
            assert((m0 as int) % (m as int) == 0) by {
                lemma_mod_of_multiple(pc as nat, m as nat);
            }
            assert forall|d: nat| 2 <= d < p implies #[trigger] ((m as nat) % d) != 0 by {
                if (m as nat) % d == 0 {
                    lemma_divides_trans(d, m as nat, m0 as nat);
                }
            }
            if m % 2 == 0 {
                lemma_divisor_through(2, m as nat, m0 as nat);
            }
            lemma_divisor_through(2, (p + 1) as nat, m as nat);
            assert(n == factor_product(factors@) * pc * m) by {
                lemma_mul_is_associative(factor_product(factors@) as int, pc, m as int);
            }
            lemma_pow_multiplicity(p as nat, c as nat, m as nat);
            assert(multiplicity(m as nat, p as nat) == 0);
            assert(pc * m > 0) by (nonlinear_arith)
                requires
                    pc > 0,
                    m >= 1,
            ;
            lemma_mul_is_associative(factor_product(factors@) as int, pc, m as int);
            if c == 0 {
                lemma_pow0(p as int);
                lemma_mul_basics(factor_product(factors@) as int);
                lemma_mul_basics(m as int);
                assert(m0 == m);
                // a prime p cannot divide n: it divides neither the product nor m
                if prime(p as nat) && n % p == 0 {
                    assert(n as nat == factor_product(factors@) * (m as nat));
                    lemma_product_not_divisible(factors@, p as nat);
                    lemma_euclid(factor_product(factors@), m as nat, p as nat);
                }
            } else {
                reveal(pow);
                lemma_mul_is_associative(p as int, pow(p as int, (c - 1) as nat), m as int);
                lemma_mod_of_multiple((pow(p as int, (c - 1) as nat) * m) as nat, p as nat);
                lemma_mul_is_commutative(p as int, pow(p as int, (c - 1) as nat) * m);
                lemma_least_divisor_is_prime(m0 as nat, p as nat);
                lemma_product_not_divisible(factors@, p as nat);
                lemma_multiplicity_coprime_factor(
                    factor_product(factors@),
                    (pc * m) as nat,
                    p as nat,
                );
                lemma_factor_push(factors@, fp);
                assert(factor_product(factors@.push(fp)) == factor_product(factors@) * pc);
            }
        }
        if c > 0 {
            factors.push(PrimeFactor { prime: p, exponent: c });
        }
        proof {
            assert(m <= m0) by (nonlinear_arith)
                requires
                    m0 == pow(p as int, c as nat) * m,
                    pow(p as int, c as nat) > 0,
                    m >= 1,
            ;
            if c > 0 {
                assert(factors@ == old_factors.push(fp));
                assert(factors@[factors@.len() - 1] == fp);
                assert forall|i: int| 0 <= i < old_factors.len() implies factors@[i] == old_factors[i] by {}
                assert(factor_primes(factors@)[factors@.len() - 1] == p as nat);
            }
            assert forall|q: nat|
                prime(q) && q < p + 2 && (n as nat) % q == 0 implies #[trigger] factor_primes(
                factors@,
            ).contains(q) by {
                if q < p {
                    assert(factor_primes(old_factors).contains(q));
                    if c > 0 {
                        let t = choose|t: int|
                            0 <= t < factor_primes(old_factors).len() && factor_primes(old_factors)[t]
                                == q;
                        assert(factor_primes(factors@)[t] == q);
                    }
                } else if q == p + 1 {
                    assert(q % 2 == 0);
                    assert(!prime(q)) by {
                        assert(2 <= 2 < q);
                    }
                } else {
                    assert(q == p);
                }
            }
        }
        p = p + 2;
    }
    proof {
        lemma_fundamental_div_mod(m as int, p as int);
        lemma_mod_pos_bound(m as int, p as int);
        assert(m < p * p) by (nonlinear_arith)
            requires
                p > m / p,
                m == p * (m / p) + m % p,
                m % p < p,
        ;
    }
    let ghost before = factors@;
    if m > 1 {
        proof {
            lemma_prime_from_no_small_divisor(m as nat, p as nat);
            lemma_mod_self_0(m as int);
            assert(m >= p);
            assert forall|i: int| 0 <= i < before.len() implies prime(
                #[trigger] before[i].prime as nat,
            ) && before[i].prime != m by {}
            lemma_product_not_divisible(before, m as nat);
            lemma_multiplicity_coprime_factor(factor_product(before), m as nat, m as nat);
            lemma_multiplicity_self(m as nat);
            lemma_factor_push(before, PrimeFactor { prime: m, exponent: 1 });
            lemma_pow1(m as int);
        }
        factors.push(PrimeFactor { prime: m, exponent: 1 });
        proof {
            assert(factors@ == before.push(PrimeFactor { prime: m, exponent: 1 }));
            assert(factors@[factors@.len() - 1].prime == m);
            assert forall|i: int| 0 <= i < before.len() implies factors@[i] == before[i] by {}
        }
    }
    proof {
        assert forall|q: nat| prime(q) && (n as nat) % q == 0 implies #[trigger] factor_primes(
            factors@,
        ).contains(q) by {
            if q < p {
                assert(factor_primes(before).contains(q));
                if m > 1 {
                    let t = choose|t: int|
                        0 <= t < factor_primes(before).len() && factor_primes(before)[t] == q;
                    assert(factor_primes(factors@)[t] == q);
                }
            } else {
                assert forall|i: int| 0 <= i < before.len() implies prime(
                    #[trigger] before[i].prime as nat,
                ) && before[i].prime != q by {}
                lemma_product_not_divisible(before, q);
                lemma_euclid(factor_product(before), m as nat, q);
                if m > 1 {
                    assert(q == m) by {
                        if q != m {
                            lemma_distinct_primes(q, m as nat);
                        }
                    }
                    assert(factor_primes(factors@)[factors@.len() - 1] == q);
                } else {
                    lemma_small_mod(1, q);
                }
            }
        }
        if m <= 1 {
            lemma_mul_basics(factor_product(factors@) as int);
            assert(n as nat == factor_product(factors@));
        }
        assert(factors_valid(factors@, n as nat, (p + m + 1) as nat));
        lemma_factors_complete(factors@, n as nat);
    }
    factors
}

/// Once a valid list of factors holds every prime dividing `n`, it is exactly the list of
/// prime divisors of `n`.
proof fn lemma_factors_complete(s: Seq<PrimeFactor>, n: nat)
    requires
        n >= 1,
        exists|bound: nat| factors_valid(s, n, bound),
        forall|q: nat| prime(q) && (n as nat) % q == 0 ==> #[trigger] factor_primes(s).contains(q),
    ensures
        factors_valid(s, n, n + 1),
        factor_primes(s) == prime_divisors(n),
{
    let bound = choose|bound: nat| factors_valid(s, n, bound);
    assert forall|i: int| 0 <= i < s.len() implies (s[i].prime as nat) <= n by {
        assert(prime(s[i].prime as nat));
        lemma_multiplicity_positive(n, s[i].prime as nat);
        lemma_divisor_le(s[i].prime as nat, n);
    }
    let fs = factor_primes(s);
    assert forall|q: nat| #[trigger] fs.contains(q) == (prime(q) && q < n + 1 && (n as nat) % q == 0) by {
        if fs.contains(q) {
            let i = choose|i: int| 0 <= i < fs.len() && fs[i] == q;
            assert(prime(s[i].prime as nat));
            lemma_multiplicity_positive(n, q);
        }
    }
    lemma_prime_divisors_below_unique(n, n + 1, fs);
}


// ---------------------------------------------------------------------------
// Miller–Rabin
// ---------------------------------------------------------------------------

/// The odd part of `m`: `m` with every factor 2 removed.
pub open spec fn odd_part(m: nat) -> nat {
    m / pow2(multiplicity(m, 2))
}

/// `n` is a strong probable prime to base `a`: writing `n - 1 = 2^s * d` with `d` odd,
/// either `a^d ≡ 1` or `a^(d * 2^j) ≡ -1 (mod n)` for some `j < s`.
pub open spec fn strong_probable_prime(n: nat, a: nat) -> bool {
    let d = odd_part((n - 1) as nat);
    let s = multiplicity((n - 1) as nat, 2);
    ||| pow(a as int, d) % (n as int) == 1
    ||| exists|j: nat| j < s && #[trigger] pow(a as int, d * pow2(j)) % (n as int) == n - 1
}

/// The twelve fixed Miller–Rabin bases.
pub open spec fn miller_rabin_bases() -> Seq<nat> {
    seq![2nat, 3, 5, 7, 11, 13, 17, 19, 23, 29, 31, 37]
}

/// What the deterministic Miller–Rabin test accepts: 2 and 3, and the odd `n >= 5` that are
/// strong probable primes to every base below `n` among the twelve fixed bases.
pub open spec fn miller_rabin_accepts(n: nat) -> bool {
    &&& n >= 2
    &&& (n < 4 || (n % 2 == 1 && forall|i: int|
        0 <= i < 12 ==> #[trigger] miller_rabin_bases()[i] >= n || strong_probable_prime(
            n,
            miller_rabin_bases()[i],
        )))
}

/// Squaring `a^e mod n` gives `a^(2e) mod n`.
proof fn lemma_square_of_power_mod(a: int, e: nat, n: int)
    requires
        n > 0,
    ensures
        pow(pow(a, e) % n, 2) % n == pow(a, e * 2) % n,
{
    lemma_pow_mod_noop(pow(a, e), 2, n);
    lemma_pow_multiplies(a, e, 2);
}

/// Writing `m = d * 2^r` with `d` odd fixes `d` as the odd part and `r` as the multiplicity of 2.
pub proof fn lemma_odd_part(m: nat, d: nat, r: nat)
    requires
        m == d * pow2(r),
        d % 2 == 1,
    ensures
        odd_part(m) == d,
        multiplicity(m, 2) == r,
{
    lemma_pow2(r);
    lemma_pow2_pos(r);
    lemma_mul_is_commutative(d as int, pow2(r) as int);
    lemma_pow_multiplicity(2, r, d);
    assert(multiplicity(d, 2) == 0);
    lemma_div_multiples_vanish(d as int, pow2(r) as int);
}

/// One Miller–Rabin round: is `n` a strong probable prime to base `a`?
fn strong_probable_prime_test(n: u64, a: u64, d: u64, s: u32) -> (r: bool)
    requires
        n >= 5,
        a < n,
        s >= 1,
        d as nat == odd_part((n - 1) as nat),
        s as nat == multiplicity((n - 1) as nat, 2),
    ensures
        r == strong_probable_prime(n as nat, a as nat),
{
    let x0 = mod_pow(a, d, n);
    let mut x = x0;
    proof {
        lemma2_to64();
        assert((d as nat) * pow2(0) == d as nat);
    }
    if x == 1 || x == n - 1 {
        return true;
    }
    let mut j: u32 = 1;
    while j < s
        invariant
            n >= 5,
            1 <= j <= s,
            d as nat == odd_part((n - 1) as nat),
            s as nat == multiplicity((n - 1) as nat, 2),
            x as int == pow(a as int, (d as nat) * pow2((j - 1) as nat)) % (n as int),
            pow(a as int, d as nat) % (n as int) != 1,
            forall|k: nat|
                k < j ==> #[trigger] pow(a as int, (d as nat) * pow2(k)) % (n as int) != n - 1,
        decreases s - j,
    {
        let ghost e = (d as nat) * pow2((j - 1) as nat);
        proof {
            lemma_square_of_power_mod(a as int, e, n as int);
            lemma_pow2_unfold(j as nat);
            assert(e * 2 == (d as nat) * pow2(j as nat)) by (nonlinear_arith)
                requires
                    e == (d as nat) * pow2((j - 1) as nat),
                    pow2(j as nat) == 2 * pow2((j - 1) as nat),
            ;
        }
        x = mod_pow(x, 2, n);
        if x == n - 1 {
            return true;
        }
        j = j + 1;
    }
    false
}

/// `n` has no prime factor `p <= 37` other than itself.
pub open spec fn no_prime_factor_to_37(n: nat) -> bool {
    forall|p: nat| prime(p) && p <= 37 && p < n ==> #[trigger] (n % p) != 0
}

/// What the laws of the test give about an accepted or rejected `n`.
proof fn lemma_miller_rabin_outcome(n: nat)
    ensures
        prime(n) ==> miller_rabin_accepts(n),
        miller_rabin_accepts(n) ==> no_prime_factor_to_37(n),
        n < 1681 ==> (miller_rabin_accepts(n) <==> prime(n)),
{
    if prime(n) {
        lemma_miller_rabin_accepts_primes(n);
    }
    if miller_rabin_accepts(n) {
        assert forall|p: nat| prime(p) && p <= 37 && p < n implies #[trigger] (n % p) != 0 by {
            lemma_miller_rabin_accepted_has_no_small_factor(n, p);
        }
    }
    if n < 1681 {
        lemma_miller_rabin_exact_below_1681(n);
    }
}

/// Miller–Rabin primality test with the twelve fixed bases 2, 3, 5, ..., 37.
/// The round count `_k` is not used: every base below `n` is always tried. Every prime is
/// accepted; an accepted `n` has no prime factor up to 37 but itself, and below 1681 exactly
/// the primes are accepted.
pub fn miller_rabin(n: u64, _k: usize) -> (r: bool)
    ensures
        r == miller_rabin_accepts(n as nat),
        prime(n as nat) ==> r,
        r ==> no_prime_factor_to_37(n as nat),
        n < 1681 ==> (r <==> prime(n as nat)),
{
    let r = miller_rabin_run(n);
    proof {
        lemma_miller_rabin_outcome(n as nat);
    }
    r
}

/// The rounds of the Miller–Rabin test.
fn miller_rabin_run(n: u64) -> (r: bool)
    ensures
        r == miller_rabin_accepts(n as nat),
{
    if n < 2 {
        return false;
    }
    if n < 4 {
        return true;
    }
    if n % 2 == 0 {
        return false;
    }
    let mut d: u64 = n - 1;
    let mut r: u32 = 0;
    proof {
        lemma2_to64();
    }
    while d % 2 == 0
        invariant
            d >= 1,
            (n - 1) as nat == (d as nat) * pow2(r as nat),
            r < 64,
            n >= 5,
        decreases d,
    {
        proof {
            lemma_pow2_unfold((r + 1) as nat);
            lemma_pow2_pos((r + 1) as nat);
            lemma_fundamental_div_mod(d as int, 2);
            assert((d as nat) * pow2(r as nat) == ((d / 2) as nat) * pow2((r + 1) as nat))
                by (nonlinear_arith)
                requires
                    d == 2 * (d / 2),
                    pow2((r + 1) as nat) == 2 * pow2(r as nat),
            ;
            assert(pow2((r + 1) as nat) <= n) by (nonlinear_arith)
                requires
                    (n - 1) as nat == ((d / 2) as nat) * pow2((r + 1) as nat),
                    d / 2 >= 1,
                    n >= 5,
            ;
            lemma_pow2((r + 1) as nat);
            lemma_exponent_below_64(2, (r + 1) as nat, n as nat);
        }
        d = d / 2;
        r = r + 1;
    }
    proof {
        lemma_odd_part((n - 1) as nat, d as nat, r as nat);
        assert(r >= 1) by {
            if r == 0 {
                lemma2_to64();
            }
        }
    }
    let witnesses: [u64; 12] = [2, 3, 5, 7, 11, 13, 17, 19, 23, 29, 31, 37];
    let mut i: usize = 0;
    while i < 12
        invariant
            0 <= i <= 12,
            n >= 5,
            n % 2 == 1,
            r >= 1,
            d as nat == odd_part((n - 1) as nat),
            r as nat == multiplicity((n - 1) as nat, 2),
            forall|k: int| 0 <= k < 12 ==> #[trigger] witnesses[k] as nat == miller_rabin_bases()[k],
            forall|k: int|
                0 <= k < i ==> #[trigger] miller_rabin_bases()[k] >= n || strong_probable_prime(
                    n as nat,
                    miller_rabin_bases()[k],
                ),
        decreases 12 - i,
    {
        let a = witnesses[i];
        if a < n {
            if !strong_probable_prime_test(n, a, d, r) {
                return false;
            }
        }
        i = i + 1;
    }
    true
}

/// General primality test: trial division below one million, Miller–Rabin above.
pub fn is_prime(n: u64) -> (r: bool)
    ensures
        n < 1_000_000 ==> r == prime(n as nat),
        n >= 1_000_000 ==> r == miller_rabin_accepts(n as nat),
        prime(n as nat) ==> r,
        r ==> no_prime_factor_to_37(n as nat),
{
    proof {
        lemma_miller_rabin_outcome(n as nat);
        if n < 1_000_000 && prime(n as nat) {
            assert forall|p: nat| prime(p) && p <= 37 && p < n implies #[trigger] ((n as nat) % p)
                != 0 by {
                assert(p >= 2);
            }
        }
    }
    if n < 1_000_000 {
        return is_prime_small(n);
    }
    miller_rabin(n, 12)
}

// ---------------------------------------------------------------------------
// Counting primes
// ---------------------------------------------------------------------------

/// The prime counting function π(n): the number of primes `p <= n`.
pub fn prime_count(n: u64) -> (r: u64)
    requires
        (n as nat) < usize::MAX,
    ensures
        r as nat == prime_pi(n as nat),
{
    sieve_primes(n as usize).len() as u64
}

/// π is monotone: `a <= b` gives `π(a) <= π(b)`. With `prime_count` it lets a caller of
/// `nth_prime` establish its demand: `n < prime_count(m)` for some `m <= usize::MAX - 1`.
pub proof fn lemma_prime_pi_monotone(a: nat, b: nat)
    requires
        a <= b,
    ensures
        prime_pi(a) <= prime_pi(b),
    decreases b - a,
{
    if a < b {
        lemma_prime_pi_monotone(a, (b - 1) as nat);
    }
}

/// The `n`-th prime, counting from 0: the prime `p` with exactly `n` primes below it.
/// The sieve limit starts at 20 and doubles until enough primes are found.
pub fn nth_prime(n: usize) -> (r: u64)
    requires
        n < prime_pi((usize::MAX - 1) as nat),
    ensures
        prime(r as nat),
        prime_pi(r as nat) == n + 1,
{
    let mut limit: usize = 20;
    loop
        invariant
            20 <= limit <= usize::MAX - 1,
            n < prime_pi((usize::MAX - 1) as nat),
        decreases usize::MAX - 1 - limit,
    {
        let primes = sieve_primes(limit);
        if n < primes.len() {
            return primes[n];
        }
        if limit == usize::MAX - 1 {
            // the precondition says there are more than n primes up to this limit
            assert(false);
        }
        if limit <= (usize::MAX - 1) / 2 {
            limit = limit * 2;
        } else {
            limit = usize::MAX - 1;
        }
    }
}

// ---------------------------------------------------------------------------
// Every prime passes the Miller–Rabin test
// ---------------------------------------------------------------------------

/// Every `m >= 1` is its odd part times `2^v`, `v` the multiplicity of 2, and the odd part is odd.
pub proof fn lemma_odd_part_decomposition(m: nat)
    requires
        m >= 1,
    ensures
        m == odd_part(m) * pow2(multiplicity(m, 2)),
        odd_part(m) % 2 == 1,
    decreases m,
{
    let v = multiplicity(m, 2);
    lemma_pow2_pos(v);
    if m % 2 == 0 {
        let h = m / 2;
        lemma_fundamental_div_mod(m as int, 2);
        lemma_odd_part_decomposition(h);
        let o = odd_part(h);
        let w = multiplicity(h, 2);
        assert(v == w + 1);
        lemma_pow2_unfold(v);
        assert(m == o * pow2(v)) by (nonlinear_arith)
            requires
                m == 2 * h,
                h == o * pow2(w),
                pow2(v) == 2 * pow2(w),
        ;
        lemma_odd_part(m, o, v);
    } else {
        assert(v == 0);
        lemma_pow2(0);
        lemma_pow0(2);
        lemma_odd_part(m, m, 0);
    }
}

/// Along the squaring chain `x_k = a^(d 2^k) mod n`, a value other than 1 and -1 never
/// squares to 1: if `x_0 != 1` and `x_j != -1` for all `j < k`, then `x_k != 1`.
proof fn lemma_chain_avoids_one(n: nat, a: int, d: nat, k: nat)
    requires
        prime(n),
        n > 2,
        pow(a, d) % (n as int) != 1,
        forall|j: nat| j < k ==> #[trigger] pow(a, d * pow2(j)) % (n as int) != n - 1,
    ensures
        pow(a, d * pow2(k)) % (n as int) != 1,
    decreases k,
{
    let ni = n as int;
    if k == 0 {
        lemma_pow2(0);
        lemma_pow0(2);
        assert(d * pow2(0) == d);
    } else {
        let j = (k - 1) as nat;
        lemma_chain_avoids_one(n, a, d, j);
        let e = d * pow2(j);
        let y = pow(a, e) % ni;
        lemma_mod_bound(pow(a, e), ni);
        lemma_square_of_power_mod(a, e, ni);
        lemma_pow2_unfold(k);
        assert(e * 2 == d * pow2(k)) by (nonlinear_arith)
            requires
                e == d * pow2(j),
                pow2(k) == 2 * pow2(j),
        ;
        assert(pow(y, 2) == y * y) by {
            lemma_pow_adds(y, 1, 1);
            lemma_pow1(y);
        }
        if pow(a, d * pow2(k)) % ni == 1 {
            lemma_square_root_of_one(y, ni);
            assert(y == n - 1);
        }
    }
}

/// A prime is a strong probable prime to every base it does not divide.
pub proof fn lemma_prime_is_strong_probable_prime(n: nat, a: nat)
    requires
        prime(n),
        n > 2,
        a % n != 0,
    ensures
        strong_probable_prime(n, a),
{
    let m = (n - 1) as nat;
    lemma_odd_part_decomposition(m);
    let d = odd_part(m);
    let s = multiplicity(m, 2);
    lemma_fermat_little(n, a as int);
    if !strong_probable_prime(n, a) {
        assert forall|j: nat| j < s implies #[trigger] pow(a as int, d * pow2(j)) % (n as int)
            != n - 1 by {
        }
        lemma_chain_avoids_one(n, a as int, d, s);
        assert(d * pow2(s) == m);
    }
}

/// Every prime passes the Miller–Rabin test: `miller_rabin(p, _)` is true for a prime `p`.
pub proof fn lemma_miller_rabin_accepts_primes(n: nat)
    requires
        prime(n),
    ensures
        miller_rabin_accepts(n),
{
    if n >= 4 {
        assert(n % 2 != 0);
        assert forall|i: int|
            0 <= i < 12 implies #[trigger] miller_rabin_bases()[i] >= n || strong_probable_prime(
            n,
            miller_rabin_bases()[i],
        ) by {
            let a = miller_rabin_bases()[i];
            if a < n {
                assert(a >= 2);
                lemma_small_mod(a, n);
                lemma_prime_is_strong_probable_prime(n, a);
            }
        }
    }
}

/// A power `p^e` with `e >= 1` of a divisor `p` of `n` is, modulo `n`, neither 1 nor `n - 1`.
proof fn lemma_power_of_divisor_not_unit(n: nat, p: nat, e: nat)
    requires
        2 <= p < n,
        n % p == 0,
        e >= 1,
    ensures
        pow(p as int, e) % (n as int) != 1,
        pow(p as int, e) % (n as int) != n - 1,
{
    let x = pow(p as int, e);
    lemma_pow_positive(p as int, e);
    lemma_pow_adds(p as int, 1, (e - 1) as nat);
    lemma_pow1(p as int);
    lemma_mod_multiples_basic(pow(p as int, (e - 1) as nat), p as int);
    lemma_mul_is_commutative(p as int, pow(p as int, (e - 1) as nat));
    assert(x % (p as int) == 0);
    lemma_fundamental_div_mod(n as int, p as int);
    let k = n / p;
    assert(n == p * k);
    assert(k >= 1) by (nonlinear_arith)
        requires
            n == p * k,
            n > p,
            p >= 2,
    ;
    lemma_mod_mod(x, p as int, k as int);
    assert((x % (n as int)) % (p as int) == 0);
    lemma_small_mod(1, p);
    // (n - 1) mod p is p - 1
    assert(((n - 1) as int) % (p as int) == p - 1) by {
        assert((n - 1) as int == (k - 1) * p + (p - 1)) by (nonlinear_arith)
            requires
                n == p * k,
        ;
        lemma_fundamental_div_mod_converse((n - 1) as int, p as int, k - 1, p - 1);
    }
}

/// The Miller–Rabin test rejects every multiple of one of its bases: if `n` is accepted and a
/// base `b < n` of the twelve divides `n`, that is a contradiction. So an accepted `n` has no
/// prime factor up to 37 other than itself.
pub proof fn lemma_miller_rabin_rejects_base_multiples(n: nat, i: int)
    requires
        miller_rabin_accepts(n),
        0 <= i < 12,
        miller_rabin_bases()[i] < n,
    ensures
        n % miller_rabin_bases()[i] != 0,
{
    let b = miller_rabin_bases()[i];
    assert(b >= 2);
    if n < 4 {
        assert(n == 3 && b == 2);
    } else if n % b == 0 {
        assert(n % 2 == 1);
        assert(strong_probable_prime(n, b));
        let m = (n - 1) as nat;
        lemma_odd_part_decomposition(m);
        let d = odd_part(m);
        assert(d >= 1);
        if pow(b as int, d) % (n as int) == 1 {
            lemma_power_of_divisor_not_unit(n, b, d);
        } else {
            let s = multiplicity(m, 2);
            let j = choose|j: nat| j < s && #[trigger] pow(b as int, d * pow2(j)) % (n as int) == n
                - 1;
            lemma_pow2_pos(j);
            assert(d * pow2(j) >= 1) by (nonlinear_arith)
                requires
                    d >= 1,
                    pow2(j) >= 1,
            ;
            lemma_power_of_divisor_not_unit(n, b, d * pow2(j));
        }
    }
}

/// Every prime below 41 is one of the twelve bases.
proof fn lemma_small_primes_are_bases(p: nat)
    requires
        prime(p),
        p <= 40,
    ensures
        exists|i: int| 0 <= i < 12 && miller_rabin_bases()[i] == p,
{
    let bs = miller_rabin_bases();
    assert(p % 2 != 0 || p == 2) by {
        if p > 2 {
            assert(p % 2 != 0);
        }
    }
    assert(p % 3 != 0 || p == 3) by {
        if p > 3 {
            assert(p % 3 != 0);
        }
    }
    assert(p % 5 != 0 || p == 5) by {
        if p > 5 {
            assert(p % 5 != 0);
        }
    }
    if p == 2 {
        assert(bs[0] == p);
    } else if p == 3 {
        assert(bs[1] == p);
    } else if p == 5 {
        assert(bs[2] == p);
    } else if p == 7 {
        assert(bs[3] == p);
    } else if p == 11 {
        assert(bs[4] == p);
    } else if p == 13 {
        assert(bs[5] == p);
    } else if p == 17 {
        assert(bs[6] == p);
    } else if p == 19 {
        assert(bs[7] == p);
    } else if p == 23 {
        assert(bs[8] == p);
    } else if p == 29 {
        assert(bs[9] == p);
    } else if p == 31 {
        assert(bs[10] == p);
    } else if p == 37 {
        assert(bs[11] == p);
    } else {
        assert(p % 2 == 0 || p % 3 == 0 || p % 5 == 0);
        assert(false);
    }
}

/// An `n` that the Miller–Rabin test accepts has no prime factor `p <= 37` other than itself.
pub proof fn lemma_miller_rabin_accepted_has_no_small_factor(n: nat, p: nat)
    requires
        miller_rabin_accepts(n),
        prime(p),
        p <= 37,
        p < n,
    ensures
        n % p != 0,
{
    lemma_small_primes_are_bases(p);
    let i = choose|i: int| 0 <= i < 12 && miller_rabin_bases()[i] == p;
    lemma_miller_rabin_rejects_base_multiples(n, i);
}

/// Below `41^2 = 1681` the Miller–Rabin test is exact: it accepts `n` exactly when `n` is
/// prime. (Above that a composite passes only if all its prime factors exceed 37 and it is a
/// strong pseudoprime to all twelve bases.)
pub proof fn lemma_miller_rabin_exact_below_1681(n: nat)
    requires
        n < 1681,
    ensures
        miller_rabin_accepts(n) <==> prime(n),
{
    if prime(n) {
        lemma_miller_rabin_accepts_primes(n);
    }
    if miller_rabin_accepts(n) && !prime(n) {
        lemma_composite_has_small_divisor(n);
        let d = choose|d: nat| 2 <= d && d * d <= n && #[trigger] (n % d) == 0;
        assert(d <= 40) by {
            if d >= 41 {
                assert(d * d >= 41 * 41) by (nonlinear_arith)
                    requires
                        d >= 41,
                ;
            }
        }
        assert(d < n) by (nonlinear_arith)
            requires
                2 <= d,
                d * d <= n,
        ;
        lemma_has_prime_divisor(d);
        let p = choose|p: nat| prime(p) && p <= d && #[trigger] (d % p) == 0;
        lemma_divides_trans(p, d, n);
        lemma_small_primes_are_bases(p);
        let i = choose|i: int| 0 <= i < 12 && miller_rabin_bases()[i] == p;
        lemma_miller_rabin_rejects_base_multiples(n, i);
    }
}

} // verus!
