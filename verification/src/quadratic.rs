//! Quadratic residues and the Legendre, Jacobi and Kronecker symbols.
use crate::modular::{abs, lemma_exec_signed_div_rem, lemma_trunc_div_rem, lemma_trunc_rem_to_euclid, trunc_rem};
use crate::primes::{
    lemma_exponent_below_64, lemma_odd_part, lemma_odd_part_decomposition, mod_pow, odd_part,
};
use crate::divisibility::{
    lemma_coprime_mul, lemma_divisor_le, lemma_euclid, lemma_gcd_divides, lemma_gcd_step,
    multiplicity, prime, spec_gcd,
};
use crate::fermat::lemma_fermat_little;
use crate::modular::{lemma_minus_one_squared, lemma_pow_product_mod, lemma_square_root_of_one};
use vstd::arithmetic::power2::{lemma2_to64, lemma_pow2, lemma_pow2_pos, lemma_pow2_unfold, pow2};
use vstd::arithmetic::div_mod::*;
use vstd::arithmetic::power::*;
use vstd::prelude::*;

verus! {

/// Euler's criterion as the symbol `(a/p)`: 0 when `p` divides `a`, 1 when
/// `a^((p-1)/2) ≡ 1 (mod p)`, and -1 otherwise.
pub open spec fn legendre_symbol(a: int, p: nat) -> int {
    let r = a % (p as int);
    if r == 0 {
        0
    } else if pow(r, ((p - 1) as nat) / 2) % (p as int) == 1 {
        1
    } else {
        -1
    }
}

/// Legendre symbol `(a/p)` for an odd prime `p`, computed by Euler's criterion:
/// 1 if `a` is a quadratic residue mod `p`, -1 if not, 0 if `p` divides `a`.
pub fn legendre(a: i64, p: u64) -> (r: i64)
    requires
        p > 0,
    ensures
        r == legendre_symbol(a as int, p as nat),
{
    let pi = p as i128;
    let t = (a as i128) % pi;
    proof {
        lemma_exec_signed_div_rem(a as int, pi as int);
        lemma_trunc_div_rem(a as int, pi as int);
    }
    let ar = ((t + pi) % pi) as u64;
    proof {
        lemma_trunc_rem_to_euclid(a as int, p as int);
        if t < 0 {
            lemma_small_mod((t + pi) as nat, p as nat);
        } else {
            lemma_mod_add_multiples_vanish(t as int, p as int);
            lemma_small_mod(t as nat, p as nat);
        }
        assert(ar as int == (a as int) % (p as int));
        lemma_mod_twice(a as int, p as int);
    }
    legendre_reduced(ar, p)
}

/// Euler's criterion on a residue `0 <= a < p`.
fn legendre_reduced(a: u64, p: u64) -> (r: i64)
    requires
        a < p,
    ensures
        r == legendre_symbol(a as int, p as nat),
{
    proof {
        lemma_small_mod(a as nat, p as nat);
    }
    if a == 0 {
        return 0;
    }
    let result = mod_pow(a, (p - 1) / 2, p);
    if result == 1 {
        1
    } else {
        -1
    }
}

/// The sign `(2/n)` contributes for odd `n`: -1 when `n ≡ 3, 5 (mod 8)`.
pub open spec fn two_sign(n: nat) -> int {
    if n % 8 == 3 || n % 8 == 5 {
        -1
    } else {
        1
    }
}

/// The sign quadratic reciprocity contributes for odd `a`, `n`: -1 when both are `3 (mod 4)`.
pub open spec fn reciprocity_sign(a: nat, n: nat) -> int {
    if a % 4 == 3 && n % 4 == 3 {
        -1
    } else {
        1
    }
}

/// The Jacobi symbol `(a/n)` for odd `n`, by its reduction rules: `(0/1) = 1`, `(0/n) = 0`
/// for `n > 1`, `(2a/n) = (2/n)(a/n)`, and for odd `a`,
/// `(a/n) = ±(n mod a / a)` by reciprocity.
pub open spec fn jacobi_symbol(a: nat, n: nat) -> int
    decreases a,
{
    if a == 0 {
        if n == 1 {
            1
        } else {
            0
        }
    } else if a % 2 == 0 {
        two_sign(n) * jacobi_symbol(a / 2, n)
    } else {
        proof {
            lemma_mod_pos_bound(n as int, a as int);
        }
        reciprocity_sign(a, n) * jacobi_symbol(n % a, a)
    }
}

/// Jacobi symbol `(a/n)` for odd positive `n`; `a` may be any integer and is first
/// reduced modulo `n`.
pub fn jacobi(a: i64, n: i64) -> (r: i64)
    requires
        n > 0,
        n % 2 == 1,
    ensures
        r == jacobi_symbol(((a as int) % (n as int)) as nat, n as nat),
{
    let ghost target = jacobi_symbol(((a as int) % (n as int)) as nat, n as nat);
    proof {
        lemma_exec_signed_div_rem(a as int, n as int);
        lemma_trunc_div_rem(a as int, n as int);
        lemma_trunc_rem_to_euclid(a as int, n as int);
    }
    let mut a = a % n;
    if a < 0 {
        a = a + n;
    }
    let mut n = n;
    let mut result: i64 = 1;
    while a != 0
        invariant
            n > 0,
            n % 2 == 1,
            0 <= a < n,
            result == 1 || result == -1,
            result * jacobi_symbol(a as nat, n as nat) == target,
        decreases a,
    {
        let ghost a_start = a;
        while a % 2 == 0
            invariant
                0 < a <= a_start,
                a < n,
                n % 2 == 1,
                result == 1 || result == -1,
                result * jacobi_symbol(a as nat, n as nat) == target,
            decreases a,
        {
            proof {
                let j = jacobi_symbol((a / 2) as nat, n as nat);
                assert(jacobi_symbol(a as nat, n as nat) == two_sign(n as nat) * j);
                assert(result * (two_sign(n as nat) * j) == (result * two_sign(n as nat)) * j)
                    by (nonlinear_arith);
            }
            a = a / 2;
            let n_mod_8 = n % 8;
            if n_mod_8 == 3 || n_mod_8 == 5 {
                result = -result;
            }
        }
        proof {
            let j = jacobi_symbol((n % a) as nat, a as nat);
            assert(jacobi_symbol(a as nat, n as nat) == reciprocity_sign(a as nat, n as nat) * j);
            assert(result * (reciprocity_sign(a as nat, n as nat) * j) == (result
                * reciprocity_sign(a as nat, n as nat)) * j) by (nonlinear_arith);
            lemma_mod_pos_bound(n as int, a as int);
        }
        let ghost sign = reciprocity_sign(a as nat, n as nat);
        let ghost r0 = result;
        let tmp = a;
        a = n;
        n = tmp;
        if a % 4 == 3 && n % 4 == 3 {
            result = -result;
        }
        proof {
            assert((tmp as nat) % 4 == (tmp % 4) as nat);
            assert((a as nat) % 4 == (a % 4) as nat);
            assert(sign == (if (tmp % 4 == 3 && a % 4 == 3) { -1int } else { 1int }));
            if tmp % 4 == 3 && a % 4 == 3 {
                assert(result == -r0);
                assert(sign == -1);
                assert(r0 * sign == -r0) by (nonlinear_arith)
                    requires
                        sign == -1,
                ;
            } else {
                assert(result == r0);
                assert(sign == 1);
                assert(r0 * sign == r0) by (nonlinear_arith)
                    requires
                        sign == 1,
                ;
            }
            assert(result == r0 * sign);
        }
        a = a % n;
    }
    if n == 1 {
        result
    } else {
        0
    }
}


/// The Kronecker symbol `(a/n)`: the Jacobi symbol extended to every `n` by
/// `(a/0) = [a = ±1]`, `(a/-1) = -1` for negative `a`, and `(a/2) = 0` for even `a`,
/// `-1` for `a ≡ ±3 (mod 8)`, `1` otherwise.
pub open spec fn kronecker_symbol(a: int, n: int) -> int {
    if n == 0 {
        if a == 1 || a == -1 {
            1
        } else {
            0
        }
    } else {
        let sign_part: int = if n < 0 && a < 0 {
            -1
        } else {
            1
        };
        let m = abs(n) as nat;
        let v = multiplicity(m, 2);
        let odd = odd_part(m);
        let two_part: int = if v == 0 {
            1
        } else if a % 2 == 0 {
            0
        } else if v % 2 == 1 && (a % 8 == 3 || a % 8 == 5) {
            -1
        } else {
            1
        };
        let odd_sym: int = if odd == 1 {
            1
        } else {
            jacobi_symbol((a % (odd as int)) as nat, odd)
        };
        sign_part * two_part * odd_sym
    }
}

/// Kronecker symbol `(a/n)` — generalization of the Jacobi symbol to every `n`.
pub fn kronecker(a: i64, n: i64) -> (r: i64)
    requires
        n != i64::MIN,
    ensures
        r == kronecker_symbol(a as int, n as int),
{
    if n == 0 {
        return if a == 1 || a == -1 {
            1
        } else {
            0
        };
    }
    let ghost m = abs(n as int) as nat;
    let mut n = n;
    let mut result: i64 = 1;
    if n < 0 {
        n = -n;
        if a < 0 {
            result = -1;
        }
    }
    let mut v: u32 = 0;
    proof {
        lemma2_to64();
        assert(m <= 0x7fff_ffff_ffff_ffff);
    }
    while n % 2 == 0
        invariant
            n > 0,
            m == (n as nat) * pow2(v as nat),
            m <= 0x7fff_ffff_ffff_ffff,
            v < 64,
        decreases n,
    {
        proof {
            lemma_pow2_unfold((v + 1) as nat);
            lemma_pow2_pos((v + 1) as nat);
            lemma_fundamental_div_mod(n as int, 2);
            let h = (n / 2) as nat;
            assert(n as int == 2 * h);
            assert(m == h * pow2((v + 1) as nat)) by (nonlinear_arith)
                requires
                    m == (n as nat) * pow2(v as nat),
                    n as int == 2 * h,
                    pow2((v + 1) as nat) == 2 * pow2(v as nat),
            ;
            assert(pow2((v + 1) as nat) <= m) by (nonlinear_arith)
                requires
                    m == ((n / 2) as nat) * pow2((v + 1) as nat),
                    n / 2 >= 1,
            ;
            lemma_pow2((v + 1) as nat);
            assert(m <= 0x7fff_ffff_ffff_ffff);
            lemma_exponent_below_64(2, (v + 1) as nat, m);
        }
        n = n / 2;
        v = v + 1;
    }
    proof {
        lemma_odd_part(m, n as nat, v as nat);
        lemma_exec_signed_div_rem(a as int, 8);
        lemma_exec_signed_div_rem(a as int, 2);
        lemma_trunc_rem_to_euclid(a as int, 8);
        lemma_trunc_rem_to_euclid(a as int, 2);
    }
    if v > 0 {
        let mut a8 = a % 8;
        if a8 < 0 {
            a8 = a8 + 8;
        }
        if a % 2 == 0 {
            result = 0;
        } else if v % 2 == 1 && (a8 == 3 || a8 == 5) {
            result = -result;
        }
    }
    assert(-1 <= result <= 1);
    if n == 1 {
        return result;
    }
    let j = jacobi(a, n);
    proof {
        assert(-1 <= j <= 1) by {
            lemma_jacobi_bounded(((a as int) % (n as int)) as nat, n as nat);
        }
        assert(-1 <= result * j <= 1) by (nonlinear_arith)
            requires
                -1 <= result <= 1,
                -1 <= j <= 1,
        ;
    }
    result * j
}

proof fn lemma_jacobi_bounded(a: nat, n: nat)
    ensures
        -1 <= jacobi_symbol(a, n) <= 1,
    decreases a,
{
    if a == 0 {
    } else if a % 2 == 0 {
        lemma_jacobi_bounded(a / 2, n);
        let j = jacobi_symbol(a / 2, n);
        assert(-1 <= two_sign(n) * j <= 1) by (nonlinear_arith)
            requires
                two_sign(n) == 1 || two_sign(n) == -1,
                -1 <= j <= 1,
        ;
    } else {
        lemma_mod_pos_bound(n as int, a as int);
        lemma_jacobi_bounded(n % a, a);
        let j = jacobi_symbol(n % a, a);
        assert(-1 <= reciprocity_sign(a, n) * j <= 1) by (nonlinear_arith)
            requires
                reciprocity_sign(a, n) == 1 || reciprocity_sign(a, n) == -1,
                -1 <= j <= 1,
        ;
    }
}

/// Is `a` a quadratic residue mod the prime `p`: is its Legendre symbol 1?
pub fn is_quadratic_residue(a: u64, p: u64) -> (r: bool)
    requires
        p > 0,
    ensures
        r == (legendre_symbol(a as int, p as nat) == 1),
{
    let ar = a % p;
    proof {
        lemma_mod_twice(a as int, p as int);
    }
    legendre_reduced(ar, p) == 1
}

/// `k` is the square of some `x` with `1 <= x < hi`, modulo `p`.
pub open spec fn square_below(k: nat, p: nat, hi: nat) -> bool {
    exists|x: nat| 1 <= x < hi && #[trigger] ((x * x) % p) == k
}

/// All quadratic residues mod `p`: the distinct values `x^2 mod p` for `1 <= x < p`,
/// in increasing order.
pub fn quadratic_residues(p: u64) -> (r: Vec<u64>)
    requires
        (p as nat) < usize::MAX,
    ensures
        forall|i: int, j: int| 0 <= i < j < r.len() ==> r[i] < r[j],
        forall|i: int| 0 <= i < r.len() ==> square_below(#[trigger] r[i] as nat, p as nat, p as nat),
        forall|x: nat| 1 <= x < p ==> #[trigger] r@.contains(((x * x) % (p as nat)) as u64),
{
    if p < 2 {
        return Vec::new();
    }
    let pu = p as usize;
    let mut seen: Vec<bool> = vec![false; pu];
    let mut x: u64 = 1;
    while x < p
        invariant
            1 <= x <= p,
            p >= 2,
            pu == p,
            seen.len() == p,
            forall|k: int| 0 <= k < p ==> #[trigger] seen[k] == square_below(k as nat, p as nat, x as nat),
        decreases p - x,
    {
        let sq = mod_pow(x, 2, p);
        proof {
            lemma_square_is_pow2(x as int);
        }
        seen.set(sq as usize, true);
        proof {
            assert forall|k: int| 0 <= k < p implies #[trigger] seen[k] == square_below(
                k as nat,
                p as nat,
                (x + 1) as nat,
            ) by {
                if k == sq {
                    assert(((x as nat) * (x as nat)) % (p as nat) == k);
                } else if square_below(k as nat, p as nat, (x + 1) as nat) {
                    let y = choose|y: nat| 1 <= y < x + 1 && #[trigger] ((y * y) % (p as nat)) == k;
                    assert(y != x);
                    assert(square_below(k as nat, p as nat, x as nat));
                }
            }
        }
        x = x + 1;
    }
    let mut r: Vec<u64> = Vec::new();
    let mut k: u64 = 0;
    while k < p
        invariant
            k <= p,
            p >= 2,
            pu == p,
            seen.len() == p,
            forall|j: int| 0 <= j < p ==> #[trigger] seen[j] == square_below(j as nat, p as nat, p as nat),
            forall|i: int, j: int| 0 <= i < j < r.len() ==> r[i] < r[j],
            forall|i: int| 0 <= i < r.len() ==> #[trigger] r[i] < k && square_below(r[i] as nat, p as nat, p as nat),
            forall|j: nat| j < k && square_below(j, p as nat, p as nat) ==> #[trigger] r@.contains(j as u64),
        decreases p - k,
    {
        let ghost prev = r@;
        if seen[k as usize] {
            r.push(k);
        }
        proof {
            assert forall|j: nat| j < k + 1 && square_below(j, p as nat, p as nat) implies #[trigger] r@.contains(j as u64) by {
                if j == k {
                    assert(r@[r.len() - 1] == k);
                } else {
                    assert(prev.contains(j as u64));
                    let t = choose|t: int| 0 <= t < prev.len() && prev[t] == j as u64;
                    assert(r@[t] == j as u64);
                }
            }
        }
        k = k + 1;
    }
    proof {
        assert forall|y: nat| 1 <= y < p implies #[trigger] r@.contains(((y * y) % (p as nat)) as u64) by {
            let k = (y * y) % (p as nat);
            lemma_mod_pos_bound((y * y) as int, p as int);
            assert(square_below(k, p as nat, p as nat));
        }
    }
    r
}

/// For odd positive `n` the Kronecker symbol is the Jacobi symbol: `kronecker(a, n) ==
/// jacobi(a, n)`.
pub proof fn lemma_kronecker_extends_jacobi(a: int, n: int)
    requires
        n > 0,
        n % 2 == 1,
    ensures
        kronecker_symbol(a, n) == jacobi_symbol((a % n) as nat, n as nat),
{
    let m = n as nat;
    assert(abs(n) == n);
    assert(multiplicity(m, 2) == 0);
    assert(pow2(0) == 1) by {
        vstd::arithmetic::power2::lemma_pow2(0);
        vstd::arithmetic::power::lemma_pow0(2);
    }
    assert(odd_part(m) == m) by {
        vstd::arithmetic::div_mod::lemma_div_basics(m as int);
    }
    let odd_sym: int = if m == 1 {
        1
    } else {
        jacobi_symbol((a % (m as int)) as nat, m)
    };
    assert(multiplicity(abs(n) as nat, 2) == 0);
    assert(odd_part(abs(n) as nat) == m);
    assert(n != 0);
    assert(!(n < 0 && a < 0));
    let sign_part: int = if n < 0 && a < 0 {
        -1
    } else {
        1
    };
    let v = multiplicity(m, 2);
    let two_part: int = if v == 0 {
        1
    } else if a % 2 == 0 {
        0
    } else if v % 2 == 1 && (a % 8 == 3 || a % 8 == 5) {
        -1
    } else {
        1
    };
    assert(kronecker_symbol(a, n) == sign_part * two_part * odd_sym);
    assert(sign_part * two_part * odd_sym == odd_sym) by (nonlinear_arith)
        requires
            sign_part == 1,
            two_part == 1,
    ;
    if m == 1 {
        assert(a % 1 == 0);
        assert(jacobi_symbol(0, 1) == 1);
        assert(odd_sym == jacobi_symbol((a % n) as nat, n as nat));
    } else {
        assert(odd_sym == jacobi_symbol((a % n) as nat, n as nat));
    }
}

/// A prime divides `a * b` only if it divides `a` or `b`, for integers of either sign.
proof fn lemma_prime_product_mod(a: int, b: int, p: nat)
    requires
        prime(p),
        a % (p as int) != 0,
        b % (p as int) != 0,
    ensures
        (a * b) % (p as int) != 0,
{
    let pi = p as int;
    let ra = (a % pi) as nat;
    let rb = (b % pi) as nat;
    lemma_mod_bound(a, pi);
    lemma_mod_bound(b, pi);
    lemma_mul_mod_noop_general(a, b, pi);
    if (a * b) % pi == 0 {
        lemma_euclid(ra, rb, p);
        lemma_small_mod(ra, p);
        lemma_small_mod(rb, p);
    }
}

/// Euler's criterion leaves two values: for a prime `p` not dividing `a`,
/// `a^((p-1)/2) ≡ 1` or `≡ -1 (mod p)`.
pub proof fn lemma_euler_criterion_values(a: int, p: nat)
    requires
        prime(p),
        a % (p as int) != 0,
    ensures
        ({
            let y = pow(a % (p as int), ((p - 1) as nat) / 2) % (p as int);
            y == 1 || y == p - 1
        }),
{
    let pi = p as int;
    let r = a % pi;
    let e = ((p - 1) as nat) / 2;
    let y = pow(r, e) % pi;
    lemma_mod_bound(a, pi);
    lemma_mod_bound(pow(r, e), pi);
    if p == 2 {
        assert(e == 0);
        lemma_pow0(r);
        lemma_small_mod(1, 2);
    } else {
        assert(p % 2 != 0) by {
            assert(p % 2nat != 0);
        }
        assert(2 * e == p - 1);
        // y^2 ≡ r^(p-1) ≡ 1
        lemma_pow_mod_noop(pow(r, e), 2, pi);
        lemma_pow_multiplies(r, e, 2);
        assert(pow(y, 2) == y * y) by {
            lemma_pow_adds(y, 1, 1);
            lemma_pow1(y);
        }
        lemma_mod_twice(a, pi);
        lemma_fermat_little(p, r);
        assert(e * 2 == p - 1);
        lemma_square_root_of_one(y, pi);
    }
}

/// Euler's criterion for squares: `(x^2 / p) = 1` for a prime `p` not dividing `x`; so
/// `is_quadratic_residue` holds for every non-zero square.
pub proof fn lemma_square_is_residue(x: int, p: nat)
    requires
        prime(p),
        x % (p as int) != 0,
    ensures
        legendre_symbol(x * x, p) == 1,
{
    let pi = p as int;
    let e = ((p - 1) as nat) / 2;
    lemma_prime_product_mod(x, x, p);
    lemma_pow_mod_noop(x * x, e, pi);
    assert(pow(x, 2) == x * x) by {
        lemma_pow_adds(x, 1, 1);
        lemma_pow1(x);
    }
    lemma_pow_multiplies(x, 2, e);
    if p == 2 {
        assert(e == 0);
        lemma_pow0((x * x) % pi);
        lemma_small_mod(1, 2);
    } else {
        assert(p % 2 != 0) by {
            assert(p % 2nat != 0);
        }
        assert(2 * e == p - 1);
        lemma_fermat_little(p, x);
    }
}

/// The Legendre symbol is completely multiplicative: `(ab/p) = (a/p)(b/p)` for a prime `p`.
pub proof fn lemma_legendre_multiplicative(a: int, b: int, p: nat)
    requires
        prime(p),
    ensures
        legendre_symbol(a * b, p) == legendre_symbol(a, p) * legendre_symbol(b, p),
{
    let pi = p as int;
    let e = ((p - 1) as nat) / 2;
    lemma_mul_mod_noop_general(a, b, pi);
    if a % pi == 0 || b % pi == 0 {
        assert((a % pi) * (b % pi) == 0) by (nonlinear_arith)
            requires
                a % pi == 0 || b % pi == 0,
        ;
        lemma_small_mod(0, p);
        assert(legendre_symbol(a, p) == 0 || legendre_symbol(b, p) == 0);
        assert(legendre_symbol(a, p) * legendre_symbol(b, p) == 0) by (nonlinear_arith)
            requires
                legendre_symbol(a, p) == 0 || legendre_symbol(b, p) == 0,
        ;
    } else {
        lemma_prime_product_mod(a, b, p);
        lemma_euler_criterion_values(a, p);
        lemma_euler_criterion_values(b, p);
        let ya = pow(a % pi, e) % pi;
        let yb = pow(b % pi, e) % pi;
        // (ab)^e ≡ a^e b^e
        lemma_pow_mod_noop(a * b, e, pi);
        lemma_pow_product_mod(a, b, e, pi);
        lemma_pow_mod_noop(a, e, pi);
        lemma_pow_mod_noop(b, e, pi);
        let yab = pow((a * b) % pi, e) % pi;
        assert(yab == (ya * yb) % pi);
        lemma_small_mod(1, p);
        lemma_small_mod((p - 1) as nat, p);
        lemma_minus_one_squared(pi);
        assert(1 * (p - 1) == p - 1 && (p - 1) * 1 == p - 1 && 1int * 1 == 1);
        let la = legendre_symbol(a, p);
        let lb = legendre_symbol(b, p);
        if ya == 1 && yb == 1 {
            assert(yab == 1);
        } else if ya == 1 {
            assert(yb == p - 1);
            assert(yab == p - 1);
            assert(la * lb == lb);
        } else if yb == 1 {
            assert(ya == p - 1);
            assert(yab == p - 1);
            assert(la * lb == la);
        } else {
            assert(ya == p - 1 && yb == p - 1);
            assert(yab == 1);
            assert(la == -1 && lb == -1);
            assert(la * lb == 1);
        }
    }
}

/// An odd `n` is coprime to 2.
proof fn lemma_odd_coprime_to_two(n: nat)
    requires
        n % 2 == 1,
    ensures
        spec_gcd(2, n) == 1,
{
    let g = spec_gcd(2, n);
    lemma_gcd_divides(2, n);
    lemma_divisor_le(g, 2);
    if g == 2 {
        assert(n % 2 == 0);
    }
}

/// The Jacobi symbol `(a/n)` of an odd `n` is -1, 0 or 1, and it is 0 exactly when `a` and
/// `n` have a common factor.
pub proof fn lemma_jacobi_zero_iff_common_factor(a: nat, n: nat)
    requires
        n % 2 == 1,
    ensures
        jacobi_symbol(a, n) == 0 <==> spec_gcd(a, n) != 1,
        jacobi_symbol(a, n) == -1 || jacobi_symbol(a, n) == 0 || jacobi_symbol(a, n) == 1,
    decreases a,
{
    if a == 0 {
        lemma_small_mod(0, n);
        assert(spec_gcd(0, n) == spec_gcd(n, 0));
        assert(spec_gcd(0, n) == n);
    } else if a % 2 == 0 {
        lemma_jacobi_zero_iff_common_factor(a / 2, n);
        lemma_fundamental_div_mod(a as int, 2);
        assert(a == 2 * (a / 2));
        lemma_coprime_mul(2, a / 2, n);
        lemma_odd_coprime_to_two(n);
    } else {
        lemma_mod_pos_bound(n as int, a as int);
        lemma_jacobi_zero_iff_common_factor(n % a, a);
        lemma_gcd_step(a, n);
    }
}

/// For an odd prime `p` the Jacobi symbol `(a mod p / p)` vanishes exactly where the Legendre
/// symbol `(a/p)` does, and is -1 or 1 elsewhere.
pub proof fn lemma_jacobi_prime_vanishes_with_legendre(a: int, p: nat)
    requires
        prime(p),
        p % 2 == 1,
    ensures
        (jacobi_symbol((a % (p as int)) as nat, p) == 0) == (legendre_symbol(a, p) == 0),
        jacobi_symbol((a % (p as int)) as nat, p) == -1 || jacobi_symbol(
            (a % (p as int)) as nat,
            p,
        ) == 0 || jacobi_symbol((a % (p as int)) as nat, p) == 1,
{
    let r = (a % (p as int)) as nat;
    lemma_mod_bound(a, p as int);
    lemma_jacobi_zero_iff_common_factor(r, p);
    let g = spec_gcd(r, p);
    lemma_gcd_divides(r, p);
    if r == 0 {
        lemma_small_mod(0, p);
        assert(spec_gcd(0, p) == spec_gcd(p, 0));
        assert(g == p);
    } else {
        lemma_divisor_le(g, p);
        if g != 1 {
            if g < p {
                assert(p % g != 0);
            } else {
                lemma_divisor_le(g, r);
            }
        }
        assert(g == 1);
    }
}

/// `(a/2)` is 0 for even `a`, 1 for `a ≡ ±1 (mod 8)` and -1 for `a ≡ ±3 (mod 8)`; `(a/-1)` is
/// -1 for negative `a` and 1 otherwise.
pub proof fn lemma_kronecker_two_and_minus_one(a: int)
    ensures
        kronecker_symbol(a, 2) == (if a % 2 == 0 {
            0int
        } else if a % 8 == 1 || a % 8 == 7 {
            1int
        } else {
            -1int
        }),
        kronecker_symbol(a, -1) == (if a < 0 {
            -1int
        } else {
            1int
        }),
{
    vstd::arithmetic::power2::lemma_pow2(1);
    vstd::arithmetic::power2::lemma_pow2(0);
    lemma_pow1(2);
    lemma_pow0(2);
    lemma_odd_part(2, 1, 1);
    lemma_odd_part(1, 1, 0);
    assert(abs(2) == 2 && abs(-1) == 1);
    lemma_fundamental_div_mod(a, 8);
    lemma_mod_bound(a, 8);
    lemma_fundamental_div_mod(a, 2);
    lemma_mod_bound(a, 2);
    assert(a % 2 == 0 <==> (a % 8) % 2 == 0) by {
        assert(a == 8 * (a / 8) + a % 8);
        assert(a == 2 * (4 * (a / 8)) + a % 8);
        if a % 8 < 2 {
            lemma_fundamental_div_mod_converse(a, 2, 4 * (a / 8), a % 8);
        } else if a % 8 < 4 {
            lemma_fundamental_div_mod_converse(a, 2, 4 * (a / 8) + 1, a % 8 - 2);
        } else if a % 8 < 6 {
            lemma_fundamental_div_mod_converse(a, 2, 4 * (a / 8) + 2, a % 8 - 4);
        } else {
            lemma_fundamental_div_mod_converse(a, 2, 4 * (a / 8) + 3, a % 8 - 6);
        }
    }
}

/// The Kronecker symbol is multiplicative in a factor 2 of its modulus:
/// `(a/2n) = (a/2)(a/n)` for `n != 0`; so `(a/2^k n) = (a/2)^k (a/n)`.
pub proof fn lemma_kronecker_times_two(a: int, n: int)
    requires
        n != 0,
    ensures
        kronecker_symbol(a, 2 * n) == kronecker_symbol(a, 2) * kronecker_symbol(a, n),
{
    let m = abs(n) as nat;
    assert(abs(2 * n) == 2 * m);
    lemma_odd_part_decomposition(m);
    let v = multiplicity(m, 2);
    let o = odd_part(m);
    vstd::arithmetic::power2::lemma_pow2_unfold(v + 1);
    assert((2 * m) as nat == o * pow2(v + 1)) by (nonlinear_arith)
        requires
            m == o * pow2(v),
            pow2(v + 1) == 2 * pow2(v),
    ;
    lemma_odd_part((2 * m) as nat, o, v + 1);
    vstd::arithmetic::power2::lemma_pow2(1);
    lemma_pow1(2);
    lemma_odd_part(2, 1, 1);
    assert(abs(2) == 2);
    let t2: int = if a % 2 == 0 {
        0
    } else if a % 8 == 3 || a % 8 == 5 {
        -1
    } else {
        1
    };
    let tn: int = if v == 0 {
        1
    } else if a % 2 == 0 {
        0
    } else if v % 2 == 1 && (a % 8 == 3 || a % 8 == 5) {
        -1
    } else {
        1
    };
    let t2n: int = if a % 2 == 0 {
        0
    } else if (v + 1) % 2 == 1 && (a % 8 == 3 || a % 8 == 5) {
        -1
    } else {
        1
    };
    assert(t2n == t2 * tn) by {
        if a % 2 == 0 {
            assert(t2 == 0 && t2n == 0);
            assert(t2 * tn == 0) by (nonlinear_arith)
                requires
                    t2 == 0,
            ;
        } else if a % 8 == 3 || a % 8 == 5 {
            assert(t2 == -1);
            if v == 0 {
                assert(tn == 1 && t2n == -1);
            } else if v % 2 == 1 {
                assert(tn == -1 && t2n == 1);
            } else {
                assert(tn == 1 && t2n == -1);
            }
            assert(t2 * tn == -tn) by (nonlinear_arith)
                requires
                    t2 == -1,
            ;
        } else {
            assert(t2 == 1 && tn == 1 && t2n == 1);
            assert(t2 * tn == 1) by (nonlinear_arith)
                requires
                    t2 == 1,
                    tn == 1,
            ;
        }
    }
    let sign: int = if n < 0 && a < 0 {
        -1
    } else {
        1
    };
    let odd_sym: int = if o == 1 {
        1
    } else {
        jacobi_symbol((a % (o as int)) as nat, o)
    };
    assert(2 * n < 0 <==> n < 0);
    assert(kronecker_symbol(a, 2 * n) == sign * t2n * odd_sym);
    assert(kronecker_symbol(a, n) == sign * tn * odd_sym);
    assert(kronecker_symbol(a, 2) == 1 * t2 * 1);
    assert(sign * t2n * odd_sym == (1 * t2 * 1) * (sign * tn * odd_sym)) by (nonlinear_arith)
        requires
            t2n == t2 * tn,
    ;
}

/// The Kronecker symbol is multiplicative in a factor -1 of its modulus:
/// `(a/-n) = (a/-1)(a/n)` for `n != 0`.
pub proof fn lemma_kronecker_negated_modulus(a: int, n: int)
    requires
        n != 0,
    ensures
        kronecker_symbol(a, -n) == kronecker_symbol(a, -1) * kronecker_symbol(a, n),
{
    let m = abs(n) as nat;
    assert(abs(-n) == m);
    assert(abs(-1) == 1);
    vstd::arithmetic::power2::lemma_pow2(0);
    lemma_pow0(2);
    lemma_odd_part(1, 1, 0);
    let v = multiplicity(m, 2);
    let o = odd_part(m);
    let t: int = if v == 0 {
        1
    } else if a % 2 == 0 {
        0
    } else if v % 2 == 1 && (a % 8 == 3 || a % 8 == 5) {
        -1
    } else {
        1
    };
    let odd_sym: int = if o == 1 {
        1
    } else {
        jacobi_symbol((a % (o as int)) as nat, o)
    };
    let s1: int = if -n < 0 && a < 0 {
        -1
    } else {
        1
    };
    let s2: int = if n < 0 && a < 0 {
        -1
    } else {
        1
    };
    let sm: int = if a < 0 {
        -1
    } else {
        1
    };
    assert(s1 == sm * s2) by {
        if a < 0 {
            assert(sm == -1);
            assert(sm * s2 == -s2) by (nonlinear_arith)
                requires
                    sm == -1,
            ;
        } else {
            assert(sm == 1 && s1 == 1 && s2 == 1);
            assert(sm * s2 == 1) by (nonlinear_arith)
                requires
                    sm == 1,
                    s2 == 1,
            ;
        }
    }
    assert(kronecker_symbol(a, -n) == s1 * t * odd_sym);
    assert(kronecker_symbol(a, n) == s2 * t * odd_sym);
    assert(kronecker_symbol(a, -1) == sm * 1 * 1);
    assert(s1 * t * odd_sym == (sm * 1 * 1) * (s2 * t * odd_sym)) by (nonlinear_arith)
        requires
            s1 == sm * s2,
    ;
}

} // verus!
