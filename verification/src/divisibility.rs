//! The mathematical model shared by the whole library: divisibility,
//! primality, greatest common divisors and the lemmas that relate them.
use vstd::arithmetic::div_mod::*;
use vstd::arithmetic::mul::*;
use vstd::prelude::*;

verus! {

/// `p` is a prime number: at least 2 and without a divisor strictly between 1 and `p`.
pub open spec fn prime(p: nat) -> bool {
    p >= 2 && forall|d: nat| 2 <= d < p ==> #[trigger] (p % d) != 0
}

/// `n` has no divisor `d` with `lo <= d < hi`.
pub open spec fn no_divisor_in(n: nat, lo: nat, hi: nat) -> bool {
    forall|d: nat| lo <= d < hi ==> #[trigger] (n % d) != 0
}

/// Greatest common divisor, by Euclid's recursion.
pub open spec fn spec_gcd(a: nat, b: nat) -> nat
    decreases b,
{
    if b == 0 {
        a
    } else {
        spec_gcd(b, a % b)
    }
}

/// Number of primes `p` with `p <= n` (the prime counting function π(n)).
pub open spec fn prime_pi(n: nat) -> nat
    decreases n,
{
    if n == 0 {
        0
    } else {
        prime_pi((n - 1) as nat) + if prime(n) {
            1nat
        } else {
            0nat
        }
    }
}

/// The exponent of `p` in `n`: how many times `p` divides `n`.
pub open spec fn multiplicity(n: nat, p: nat) -> nat
    decreases n,
{
    if p >= 2 && n > 0 && n % p == 0 {
        proof {
            lemma_div_is_strictly_smaller(n as int, p as int);
        }
        1 + multiplicity(n / p, p)
    } else {
        0
    }
}

/// The primes `p < hi` that divide `n`, in increasing order.
pub open spec fn prime_divisors_below(n: nat, hi: nat) -> Seq<nat>
    decreases hi,
{
    if hi <= 2 {
        Seq::empty()
    } else {
        let p = (hi - 1) as nat;
        let rest = prime_divisors_below(n, p);
        if prime(p) && n % p == 0 {
            rest.push(p)
        } else {
            rest
        }
    }
}

/// The distinct primes that divide `n`, in increasing order (none for `n <= 1`).
pub open spec fn prime_divisors(n: nat) -> Seq<nat> {
    prime_divisors_below(n, n + 1)
}

// ---------------------------------------------------------------------------
// Elementary divisibility
// ---------------------------------------------------------------------------

pub proof fn lemma_mod_of_multiple(k: nat, d: nat)
    requires
        d > 0,
    ensures
        (k * d) % d == 0,
        (d * k) % d == 0,
{
    lemma_mod_multiples_basic(k as int, d as int);
    lemma_mul_is_commutative(k as int, d as int);
}

/// A positive multiple of `d` is at least `d`.
pub proof fn lemma_divisor_le(d: nat, n: nat)
    requires
        d > 0,
        n > 0,
        n % d == 0,
    ensures
        d <= n,
{
    lemma_fundamental_div_mod(n as int, d as int);
    let q = n / d;
    assert(n == d * q);
    if q == 0 {
        assert(d * q == 0) by (nonlinear_arith)
            requires
                q == 0,
        ;
    } else {
        lemma_mul_increases(q as int, d as int);
        lemma_mul_is_commutative(q as int, d as int);
    }
}

/// `d | a` and `a | b` give `d | b`.
pub proof fn lemma_divides_trans(d: nat, a: nat, b: nat)
    requires
        d > 0,
        a > 0,
        a % d == 0,
        b % a == 0,
    ensures
        b % d == 0,
{
    lemma_fundamental_div_mod(a as int, d as int);
    lemma_fundamental_div_mod(b as int, a as int);
    let x = a / d;
    let y = b / a;
    assert(b == (d * x) * y);
    lemma_mul_is_associative(d as int, x as int, y as int);
    lemma_mod_of_multiple((x * y) as nat, d);
}

/// If `d` divides `a` and `b`, it divides `a + b` and `a - b`.
pub proof fn lemma_divides_add_sub(d: nat, a: int, b: int)
    requires
        d > 0,
        a % (d as int) == 0,
        b % (d as int) == 0,
    ensures
        (a + b) % (d as int) == 0,
        (a - b) % (d as int) == 0,
{
    lemma_add_mod_noop(a, b, d as int);
    lemma_sub_mod_noop(a, b, d as int);
    lemma_small_mod(0, d);
}

/// If `d` divides `a`, it divides every multiple of `a`.
pub proof fn lemma_divides_mul(d: nat, a: int, k: int)
    requires
        d > 0,
        a % (d as int) == 0,
    ensures
        (a * k) % (d as int) == 0,
        (k * a) % (d as int) == 0,
{
    lemma_mul_mod_noop_left(a, k, d as int);
    lemma_mul_is_commutative(a, k);
    lemma_small_mod(0, d);
}

// ---------------------------------------------------------------------------
// Primes
// ---------------------------------------------------------------------------

/// A composite number has a divisor no larger than its square root.
pub proof fn lemma_composite_has_small_divisor(n: nat)
    requires
        n >= 2,
        !prime(n),
    ensures
        exists|d: nat| 2 <= d && d * d <= n && #[trigger] (n % d) == 0,
{
    let d = choose|d: nat| 2 <= d < n && #[trigger] (n % d) == 0;
    if d * d > n {
        lemma_fundamental_div_mod(n as int, d as int);
        let e = n / d;
        assert(n == d * e);
        assert(e >= 2) by {
            if e < 2 {
                assert(d * e <= d * 1) by (nonlinear_arith)
                    requires
                        e < 2,
                ;
            }
        }
        assert(e < d) by {
            if e >= d {
                assert(d * e >= d * d) by (nonlinear_arith)
                    requires
                        e >= d,
                ;
            }
        }
        assert(e * e < n) by (nonlinear_arith)
            requires
                e < d,
                n == d * e,
                e >= 2,
        ;
        lemma_mod_of_multiple(d, e);
        lemma_mul_is_commutative(d as int, e as int);
        assert(n % e == 0);
    }
}

/// A number with no divisor between 2 and its square root is prime.
pub proof fn lemma_prime_from_no_small_divisor(n: nat, p: nat)
    requires
        n >= 2,
        no_divisor_in(n, 2, p),
        p * p > n,
    ensures
        prime(n),
{
    if !prime(n) {
        lemma_composite_has_small_divisor(n);
        let d = choose|d: nat| 2 <= d && d * d <= n && #[trigger] (n % d) == 0;
        if d >= p {
            assert(d * d >= p * p) by (nonlinear_arith)
                requires
                    d >= p,
            ;
        }
    }
}

/// A prime has no divisor `d` with `d * d <= p` besides 1.
pub proof fn lemma_prime_no_small_divisor(p: nat, d: nat)
    requires
        prime(p),
        2 <= d,
        d * d <= p,
    ensures
        p % d != 0,
{
    assert(d < p) by (nonlinear_arith)
        requires
            2 <= d,
            d * d <= p,
    ;
}

/// The least divisor above 1 of a number is prime.
pub proof fn lemma_least_divisor_is_prime(n: nat, p: nat)
    requires
        n >= 2,
        2 <= p,
        n % p == 0,
        no_divisor_in(n, 2, p),
    ensures
        prime(p),
{
    assert forall|d: nat| 2 <= d < p implies #[trigger] (p % d) != 0 by {
        if p % d == 0 {
            lemma_divides_trans(d, p, n);
        }
    }
}

/// Every number at least 2 has a prime divisor no larger than itself.
pub proof fn lemma_has_prime_divisor(n: nat)
    requires
        n >= 2,
    ensures
        exists|p: nat| prime(p) && p <= n && #[trigger] (n % p) == 0,
    decreases n,
{
    if prime(n) {
        lemma_mod_self_0(n as int);
        assert(prime(n) && n <= n && n % n == 0);
    } else {
        let d = choose|d: nat| 2 <= d < n && #[trigger] (n % d) == 0;
        lemma_has_prime_divisor(d);
        let p = choose|p: nat| prime(p) && p <= d && #[trigger] (d % p) == 0;
        lemma_divides_trans(p, d, n);
    }
}

/// Euclid's lemma, for a factor already reduced below `p`.
proof fn lemma_euclid_reduced(a: nat, b: nat, p: nat)
    requires
        prime(p),
        0 < a < p,
        (a * b) % p == 0,
    ensures
        b % p == 0,
    decreases a,
{
    if a == 1 {
        assert(a * b == b);
    } else {
        let q = p / a;
        let r = p % a;
        lemma_fundamental_div_mod(p as int, a as int);
        assert(r != 0) by {
            assert(p % a != 0);
        }
        lemma_mod_pos_bound(p as int, a as int);
        // r * b = p * b - q * (a * b)
        assert(r * b == p * b - q * (a * b)) by (nonlinear_arith)
            requires
                p == a * q + r,
        ;
        lemma_mod_of_multiple(b, p);
        lemma_divides_mul(p, (a * b) as int, q as int);
        lemma_mul_is_commutative((a * b) as int, q as int);
        lemma_divides_add_sub(p, (p * b) as int, (q * (a * b)) as int);
        lemma_euclid_reduced(r, b, p);
    }
}

/// Euclid's lemma: a prime dividing a product divides one of the factors.
pub proof fn lemma_euclid(a: nat, b: nat, p: nat)
    requires
        prime(p),
        (a * b) % p == 0,
    ensures
        a % p == 0 || b % p == 0,
{
    if a % p != 0 {
        let r = a % p;
        lemma_mod_pos_bound(a as int, p as int);
        lemma_mul_mod_noop_left(a as int, b as int, p as int);
        lemma_euclid_reduced(r, b, p);
    }
}

/// Two distinct primes do not divide each other.
pub proof fn lemma_distinct_primes(p: nat, q: nat)
    requires
        prime(p),
        prime(q),
        p != q,
    ensures
        q % p != 0,
{
    if q % p == 0 {
        lemma_divisor_le(p, q);
    }
}

// ---------------------------------------------------------------------------
// Multiplicity and prime divisors
// ---------------------------------------------------------------------------

pub proof fn lemma_multiplicity_of_multiple(m: nat, p: nat)
    requires
        p >= 2,
        m > 0,
    ensures
        multiplicity(p * m, p) == 1 + multiplicity(m, p),
{
    lemma_mod_of_multiple(m, p);
    lemma_div_multiples_vanish(m as int, p as int);
    assert(p * m > 0) by (nonlinear_arith)
        requires
            p >= 2,
            m > 0,
    ;
}

/// Multiplying by a factor prime to `p` does not change the multiplicity of `p`.
pub proof fn lemma_multiplicity_coprime_factor(a: nat, m: nat, p: nat)
    requires
        prime(p),
        a > 0,
        m > 0,
        a % p != 0,
    ensures
        multiplicity(a * m, p) == multiplicity(m, p),
    decreases m,
{
    assert(a * m > 0) by (nonlinear_arith)
        requires
            a > 0,
            m > 0,
    ;
    if (a * m) % p == 0 {
        lemma_euclid(a, m, p);
        lemma_fundamental_div_mod(m as int, p as int);
        let k = m / p;
        assert(m == p * k);
        assert(k > 0) by {
            if k == 0 {
                assert(p * k == 0) by (nonlinear_arith)
                    requires
                        k == 0,
                ;
            }
        }
        assert(a * m == p * (a * k)) by (nonlinear_arith)
            requires
                m == p * k,
        ;
        assert(a * k > 0) by (nonlinear_arith)
            requires
                a > 0,
                k > 0,
        ;
        lemma_multiplicity_of_multiple((a * k) as nat, p);
        lemma_multiplicity_of_multiple(k, p);
        lemma_multiplicity_coprime_factor(a, k, p);
    } else {
        if m % p == 0 {
            lemma_divides_mul(p, m as int, a as int);
        }
    }
}

/// The multiplicity of `p` is positive exactly when `p` divides `n`.
pub proof fn lemma_multiplicity_positive(n: nat, p: nat)
    requires
        p >= 2,
        n > 0,
    ensures
        (multiplicity(n, p) > 0) == (n % p == 0),
{
}

/// A prime's multiplicity in itself is one.
pub proof fn lemma_multiplicity_self(p: nat)
    requires
        prime(p),
    ensures
        multiplicity(p, p) == 1,
{
    lemma_mod_self_0(p as int);
    lemma_div_by_self(p as int);
    lemma_small_mod(1, p);
    assert(multiplicity(p, p) == 1 + multiplicity(1, p));
}

/// `p * p` divides `n` exactly when the multiplicity of `p` in `n` is at least two.
pub proof fn lemma_multiplicity_square(n: nat, p: nat)
    requires
        p >= 2,
        n > 0,
    ensures
        (multiplicity(n, p) >= 2) == (n % (p * p) == 0),
{
    assert(p * p > 0) by (nonlinear_arith)
        requires
            p >= 2,
    ;
    if n % p == 0 {
        lemma_fundamental_div_mod(n as int, p as int);
        let k = n / p;
        assert(k > 0) by {
            if k == 0 {
                assert(p * k == 0) by (nonlinear_arith)
                    requires
                        k == 0,
                ;
            }
        }
        assert(multiplicity(n, p) == 1 + multiplicity(k, p));
        lemma_multiplicity_positive(k, p);
        if k % p == 0 {
            lemma_fundamental_div_mod(k as int, p as int);
            let j = k / p;
            assert(n == (p * p) * j) by (nonlinear_arith)
                requires
                    n == p * k,
                    k == p * j,
            ;
            lemma_mod_of_multiple(j, p * p);
            lemma_mul_is_commutative((p * p) as int, j as int);
        } else {
            if n % (p * p) == 0 {
                lemma_fundamental_div_mod(n as int, (p * p) as int);
                let j = n / (p * p);
                assert(p * k == p * (p * j)) by (nonlinear_arith)
                    requires
                        n == p * k,
                        n == (p * p) * j,
                ;
                lemma_mul_equality_converse(p as int, k as int, (p * j) as int);
                lemma_mod_of_multiple(j, p);
            }
        }
    } else {
        if n % (p * p) == 0 {
            lemma_mod_of_multiple(p, p);
            lemma_divides_trans(p, p * p, n);
        }
    }
}

/// Membership in the list of prime divisors below a bound.
pub proof fn lemma_prime_divisors_below_contains(n: nat, hi: nat, q: nat)
    ensures
        prime_divisors_below(n, hi).contains(q) == (prime(q) && q < hi && n % q == 0),
    decreases hi,
{
    if hi > 2 {
        let p = (hi - 1) as nat;
        lemma_prime_divisors_below_contains(n, p, q);
        let rest = prime_divisors_below(n, p);
        if prime(p) && n % p == 0 {
            let full = rest.push(p);
            if q == p {
                assert(full[rest.len() as int] == p);
                assert(full.contains(q));
            } else if rest.contains(q) {
                let i = choose|i: int| 0 <= i < rest.len() && rest[i] == q;
                assert(full[i] == q);
                assert(full.contains(q));
            } else if full.contains(q) {
                let i = choose|i: int| 0 <= i < full.len() && full[i] == q;
                if i < rest.len() {
                    assert(rest[i] == q);
                    assert(rest.contains(q));
                }
            }
        }
    }
}

/// The list of prime divisors below a bound is strictly increasing and below the bound.
pub proof fn lemma_prime_divisors_below_sorted(n: nat, hi: nat)
    ensures
        forall|i: int, j: int|
            0 <= i < j < prime_divisors_below(n, hi).len() ==> prime_divisors_below(n, hi)[i]
                < prime_divisors_below(n, hi)[j],
        forall|i: int|
            0 <= i < prime_divisors_below(n, hi).len() ==> {
                let q = #[trigger] prime_divisors_below(n, hi)[i];
                prime(q) && q < hi && n % q == 0
            },
    decreases hi,
{
    if hi > 2 {
        let p = (hi - 1) as nat;
        lemma_prime_divisors_below_sorted(n, p);
        let rest = prime_divisors_below(n, p);
        if prime(p) && n % p == 0 {
            let full = rest.push(p);
            assert forall|i: int| 0 <= i < rest.len() implies full[i] == rest[i] && rest[i] < p by {}
            assert(full[rest.len() as int] == p);
        }
    }
}

/// A strictly increasing list of primes that holds exactly the primes below `hi`
/// dividing `n` is `prime_divisors_below(n, hi)`.
pub proof fn lemma_prime_divisors_below_unique(n: nat, hi: nat, s: Seq<nat>)
    requires
        forall|i: int, j: int| 0 <= i < j < s.len() ==> s[i] < s[j],
        forall|q: nat| #[trigger] s.contains(q) == (prime(q) && q < hi && n % q == 0),
    ensures
        s == prime_divisors_below(n, hi),
    decreases hi,
{
    lemma_prime_divisors_below_sorted(n, hi);
    if hi <= 2 {
        if s.len() > 0 {
            assert(s.contains(s[0]));
        }
        assert(s =~= Seq::empty());
    } else {
        let p = (hi - 1) as nat;
        if prime(p) && n % p == 0 {
            assert(s.contains(p));
            let k = choose|k: int| 0 <= k < s.len() && s[k] == p;
            // p is the largest element, so it is the last one
            assert(k == s.len() - 1) by {
                if k < s.len() - 1 {
                    assert(s[k] < s[k + 1]);
                    assert(s.contains(s[k + 1]));
                    assert(s[k + 1] < hi);
                }
            }
            let t = s.drop_last();
            assert forall|q: nat| t.contains(q) == (prime(q) && q < p && n % q == 0) by {
                if t.contains(q) {
                    let i = choose|i: int| 0 <= i < t.len() && t[i] == q;
                    assert(s.contains(s[i]));
                }
                if prime(q) && q < p && n % q == 0 {
                    assert(s.contains(q));
                    let i = choose|i: int| 0 <= i < s.len() && s[i] == q;
                    assert(i != k);
                    assert(t[i] == q);
                }
            }
            lemma_prime_divisors_below_unique(n, p, t);
            assert(s == t.push(p));
        } else {
            assert forall|q: nat| s.contains(q) == (prime(q) && q < p && n % q == 0) by {
                assert(s.contains(q) == (prime(q) && q < hi && n % q == 0));
            }
            lemma_prime_divisors_below_unique(n, p, s);
        }
    }
}

// ---------------------------------------------------------------------------
// Greatest common divisor
// ---------------------------------------------------------------------------

/// The gcd divides both arguments.
pub proof fn lemma_gcd_divides(a: nat, b: nat)
    ensures
        spec_gcd(a, b) > 0 ==> a % spec_gcd(a, b) == 0 && b % spec_gcd(a, b) == 0,
        spec_gcd(a, b) == 0 <==> (a == 0 && b == 0),
    decreases b,
{
    if b == 0 {
        if a > 0 {
            lemma_mod_self_0(a as int);
            lemma_small_mod(0, a);
        }
    } else {
        lemma_gcd_divides(b, a % b);
        let g = spec_gcd(a, b);
        lemma_mod_pos_bound(a as int, b as int);
        if g > 0 {
            lemma_fundamental_div_mod(a as int, b as int);
            lemma_divides_mul(g, b as int, (a / b) as int);
            lemma_divides_add_sub(g, (b * (a / b)) as int, (a % b) as int);
        }
    }
}

/// Every common divisor of `a` and `b` divides their gcd.
pub proof fn lemma_common_divisor_divides_gcd(a: nat, b: nat, d: nat)
    requires
        d > 0,
        a % d == 0,
        b % d == 0,
    ensures
        spec_gcd(a, b) % d == 0,
    decreases b,
{
    if b != 0 {
        lemma_fundamental_div_mod(a as int, b as int);
        lemma_divides_mul(d, b as int, (a / b) as int);
        lemma_divides_add_sub(d, a as int, (b * (a / b)) as int);
        lemma_common_divisor_divides_gcd(b, a % b, d);
    }
}

/// Euclid's gcd is symmetric.
pub proof fn lemma_gcd_commutes(a: nat, b: nat)
    ensures
        spec_gcd(a, b) == spec_gcd(b, a),
{
    let g = spec_gcd(a, b);
    let h = spec_gcd(b, a);
    lemma_gcd_divides(a, b);
    lemma_gcd_divides(b, a);
    if g > 0 {
        lemma_common_divisor_divides_gcd(b, a, g);
        lemma_common_divisor_divides_gcd(a, b, h);
        lemma_divisor_le(g, h);
        lemma_divisor_le(h, g);
    }
}

/// gcd(a, b) = gcd(b mod a, a) for a > 0.
pub proof fn lemma_gcd_step(a: nat, b: nat)
    requires
        a > 0,
    ensures
        spec_gcd(a, b) == spec_gcd(b % a, a),
{
    lemma_gcd_commutes(a, b);
    lemma_gcd_commutes(b % a, a);
}


/// `a * b` is coprime to `c` exactly when both `a` and `b` are.
pub proof fn lemma_coprime_mul(a: nat, b: nat, c: nat)
    requires
        a >= 1,
        b >= 1,
        c >= 1,
    ensures
        (spec_gcd(a * b, c) == 1) == (spec_gcd(a, c) == 1 && spec_gcd(b, c) == 1),
{
    assert(a * b >= 1) by (nonlinear_arith)
        requires
            a >= 1,
            b >= 1,
    ;
    lemma_gcd_divides(a * b, c);
    lemma_gcd_divides(a, c);
    lemma_gcd_divides(b, c);
    let h = spec_gcd(a * b, c);
    if spec_gcd(a, c) != 1 {
        let g = spec_gcd(a, c);
        lemma_divides_mul(g, a as int, b as int);
        lemma_common_divisor_divides_gcd(a * b, c, g);
        if h == 1 {
            lemma_divisor_le(g, 1);
        }
    }
    if spec_gcd(b, c) != 1 {
        let g = spec_gcd(b, c);
        lemma_divides_mul(g, b as int, a as int);
        lemma_common_divisor_divides_gcd(a * b, c, g);
        if h == 1 {
            lemma_divisor_le(g, 1);
        }
    }
    if h != 1 {
        lemma_has_prime_divisor(h);
        let p = choose|p: nat| prime(p) && p <= h && #[trigger] (h % p) == 0;
        lemma_divides_trans(p, h, a * b);
        lemma_divides_trans(p, h, c);
        lemma_euclid(a, b, p);
        if a % p == 0 {
            lemma_common_divisor_divides_gcd(a, c, p);
            if spec_gcd(a, c) == 1 {
                lemma_divisor_le(p, 1);
            }
        } else {
            lemma_common_divisor_divides_gcd(b, c, p);
            if spec_gcd(b, c) == 1 {
                lemma_divisor_le(p, 1);
            }
        }
    }
}

} // verus!
