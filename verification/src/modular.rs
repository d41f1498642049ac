//! Modular arithmetic: exponentiation, inverse, CRT, square roots.
use vstd::arithmetic::div_mod::*;
use vstd::arithmetic::mul::*;
use crate::divisibility::{
    lemma_coprime_mul, lemma_divides_mul, lemma_divisor_le, lemma_euclid, lemma_gcd_commutes,
    lemma_gcd_divides, lemma_gcd_step, lemma_mod_of_multiple, prime, spec_gcd,
};
use crate::primes::mod_pow;
use vstd::arithmetic::power::*;
use vstd::arithmetic::power2::{lemma_pow2_adds, pow2};
use vstd::bits::{lemma_u64_pow2_no_overflow, lemma_u64_shl_is_mul};
use vstd::prelude::*;

verus! {

/// Modular multiplication through a 128-bit product, so it never overflows.
pub fn mul_mod(a: u64, b: u64, m: u64) -> (r: u64)
    requires
        m > 0,
    ensures
        r == (a as int * b as int) % (m as int),
{
    proof {
        assert(a as int * b as int <= 0xffff_ffff_ffff_ffffint * 0xffff_ffff_ffff_ffffint)
            by (nonlinear_arith)
            requires
                a <= 0xffff_ffff_ffff_ffffu64,
                b <= 0xffff_ffff_ffff_ffffu64,
        ;
        lemma_mod_pos_bound(a as int * b as int, m as int);
    }
    ((a as u128 * b as u128) % (m as u128)) as u64
}

// ---------------------------------------------------------------------------
// Signed division as Rust performs it (rounding toward zero)
// ---------------------------------------------------------------------------

pub open spec fn abs(x: int) -> int {
    if x < 0 {
        -x
    } else {
        x
    }
}

/// Rust's `b % a` on signed integers: the sign of `b`, the magnitude `|b| mod |a|`.
pub open spec fn trunc_rem(b: int, a: int) -> int {
    if b >= 0 {
        abs(b) % abs(a)
    } else {
        -(abs(b) % abs(a))
    }
}

/// Rust's `b / a` on signed integers: `|b| / |a|` rounded toward zero, with the sign of the
/// exact quotient.
pub open spec fn trunc_div(b: int, a: int) -> int {
    if (b >= 0) == (a > 0) {
        abs(b) / abs(a)
    } else {
        -(abs(b) / abs(a))
    }
}

/// Euclidean `/` and `%` by a negative divisor agree with those by its absolute value.
proof fn lemma_div_rem_negative_divisor(x: int, a: int)
    requires
        a < 0,
    ensures
        x % a == x % (-a),
        x / a == -(x / (-a)),
{
    assert(0 <= x % a < -a);
    assert(x == (x / a) * a + x % a) by (nonlinear_arith)
        requires
            a < 0,
    ;
    assert(x == (-(x / a)) * (-a) + x % a) by (nonlinear_arith)
        requires
            x == (x / a) * a + x % a,
    ;
    lemma_fundamental_div_mod_converse(x, -a, -(x / a), x % a);
}

/// The values Rust computes for `b % a` and `b / a` on `i64`.
pub proof fn lemma_exec_signed_div_rem(b: int, a: int)
    requires
        a != 0,
    ensures
        (if b >= 0 {
            b % a
        } else {
            -((-b) % a)
        }) == trunc_rem(b, a),
        (if b >= 0 {
            b / a
        } else {
            -((-b) / a)
        }) == trunc_div(b, a),
{
    if a < 0 {
        lemma_div_rem_negative_divisor(b, a);
        lemma_div_rem_negative_divisor(-b, a);
    }
}

/// Division rounding toward zero: `b = q * a + r` with `|r| = |b| mod |a|`.
pub proof fn lemma_trunc_div_rem(b: int, a: int)
    requires
        a != 0,
    ensures
        b == trunc_div(b, a) * a + trunc_rem(b, a),
        abs(trunc_rem(b, a)) == abs(b) % abs(a),
        abs(trunc_rem(b, a)) < abs(a),
        abs(b) == abs(trunc_div(b, a)) * abs(a) + abs(trunc_rem(b, a)),
        (b >= 0 && a > 0) ==> trunc_rem(b, a) >= 0 && trunc_div(b, a) >= 0,
{
    let bb = abs(b);
    let aa = abs(a);
    lemma_fundamental_div_mod(bb, aa);
    lemma_mod_pos_bound(bb, aa);
    lemma_div_pos_is_pos(bb, aa);
    let q = bb / aa;
    let r = bb % aa;
    assert(bb == aa * q + r);
    if b >= 0 && a > 0 {
    } else if b >= 0 && a < 0 {
        assert(b == (-q) * a + r) by (nonlinear_arith)
            requires
                bb == aa * q + r,
                aa == -a,
                bb == b,
        ;
    } else if b < 0 && a > 0 {
        assert(b == (-q) * a - r) by (nonlinear_arith)
            requires
                bb == aa * q + r,
                aa == a,
                bb == -b,
        ;
    } else {
        assert(b == q * a - r) by (nonlinear_arith)
            requires
                bb == aa * q + r,
                aa == -a,
                bb == -b,
        ;
    }
    lemma_mul_is_commutative(aa, q);
}

/// Adding the modulus to a negative remainder rounding toward zero gives the Euclidean one.
pub proof fn lemma_trunc_rem_to_euclid(x: int, m: int)
    requires
        m > 0,
    ensures
        (if trunc_rem(x, m) < 0 {
            trunc_rem(x, m) + m
        } else {
            trunc_rem(x, m)
        }) == x % m,
{
    lemma_trunc_div_rem(x, m);
    let q = trunc_div(x, m);
    let r = trunc_rem(x, m);
    if r < 0 {
        assert(x == (q - 1) * m + (r + m)) by (nonlinear_arith)
            requires
                x == q * m + r,
        ;
        lemma_fundamental_div_mod_converse(x, m, q - 1, r + m);
    } else {
        lemma_fundamental_div_mod_converse(x, m, q, r);
    }
}

// ---------------------------------------------------------------------------
// Extended Euclidean algorithm
// ---------------------------------------------------------------------------

/// The triple `(g, x, y)` that the extended Euclidean algorithm yields for `(a, b)`:
/// `(b, 0, 1)` when `a == 0`, otherwise derived from the triple for `(b % a, a)`.
pub open spec fn ext_gcd_spec(a: int, b: int) -> (int, int, int)
    decreases abs(a),
{
    if a == 0 {
        (b, 0, 1)
    } else {
        proof {
            lemma_trunc_div_rem(b, a);
        }
        let t = ext_gcd_spec(trunc_rem(b, a), a);
        (t.0, t.2 - trunc_div(b, a) * t.1, t.1)
    }
}

pub open spec fn max(x: int, y: int) -> int {
    if x >= y {
        x
    } else {
        y
    }
}

/// Bézout's identity and the size of the coefficients of the extended Euclidean algorithm.
#[verifier::spinoff_prover]
pub proof fn lemma_ext_gcd(a: int, b: int)
    ensures
        ({
            let (g, x, y) = ext_gcd_spec(a, b);
            &&& a * x + b * y == g
            &&& abs(g) == spec_gcd(abs(a) as nat, abs(b) as nat)
            &&& (a >= 0 && b >= 0) ==> g >= 0
            &&& (a != 0 || b != 0) ==> abs(g) >= 1
            &&& abs(g) * abs(x) <= max(abs(g), abs(b))
            &&& abs(g) * abs(y) <= max(abs(g), abs(a))
        }),
    decreases abs(a),
{
    let (g, x, y) = ext_gcd_spec(a, b);
    if a == 0 {
        let bb = abs(b) as nat;
        if bb > 0 {
            lemma_small_mod(0, bb);
            assert(spec_gcd(bb, 0) == bb);
        }
    } else {
        lemma_trunc_div_rem(b, a);
        let r = trunc_rem(b, a);
        let q = trunc_div(b, a);
        lemma_ext_gcd(r, a);
        let (g1, x1, y1) = ext_gcd_spec(r, a);
        assert(g == g1 && x == y1 - q * x1 && y == x1);
        // Bézout
        assert(a * x + b * y == g) by (nonlinear_arith)
            requires
                r * x1 + a * y1 == g,
                x == y1 - q * x1,
                y == x1,
                b == q * a + r,
        ;
        // gcd
        lemma_gcd_step(abs(a) as nat, abs(b) as nat);
        // sizes
        let gg = abs(g);
        let aa = abs(a);
        let bb = abs(b);
        let rr = abs(r);
        let qq = abs(q);
        lemma_gcd_divides(rr as nat, aa as nat);
        lemma_divisor_le(gg as nat, aa as nat);
        assert(gg * abs(x1) <= aa);
        if r == 0 {
            assert(ext_gcd_spec(r, a) == (a, 0int, 1int));
            assert(q * 0 == 0);
            assert(x == 1);
            assert(gg * abs(x) == gg) by (nonlinear_arith)
                requires
                    abs(x) == 1,
            ;
            assert(gg * abs(x) <= max(gg, bb));
        } else {
            lemma_divisor_le(gg as nat, rr as nat);
            assert(gg * abs(y1) <= rr);
            assert(abs(x) <= abs(y1) + qq * abs(x1)) by (nonlinear_arith)
                requires
                    x == y1 - q * x1,
                    qq == abs(q),
            ;
            assert(gg * abs(x) <= bb) by (nonlinear_arith)
                requires
                    abs(x) <= abs(y1) + qq * abs(x1),
                    gg * abs(y1) <= rr,
                    gg * abs(x1) <= aa,
                    bb == qq * aa + rr,
                    gg >= 0,
                    qq >= 0,
            ;
        }
    }
}

/// The extended Euclidean triple with its sign turned so that the gcd is not negative.
pub open spec fn ext_gcd_normalized(a: int, b: int) -> (int, int, int) {
    let t = ext_gcd_spec(a, b);
    if t.0 < 0 {
        (-t.0, -t.1, -t.2)
    } else {
        t
    }
}

/// The normalized extended Euclidean triple of `a` and `b` fits in 64-bit integers.
pub open spec fn ext_gcd_fits(a: int, b: int) -> bool {
    let t = ext_gcd_normalized(a, b);
    &&& t.0 <= i64::MAX
    &&& i64::MIN <= t.1 <= i64::MAX
    &&& i64::MIN <= t.2 <= i64::MAX
}

/// When neither argument is `i64::MIN`, the extended Euclidean triple fits in 64 bits.
pub proof fn lemma_ext_gcd_fits(a: int, b: int)
    requires
        i64::MIN < a <= i64::MAX,
        i64::MIN < b <= i64::MAX,
    ensures
        ext_gcd_fits(a, b),
{
    let (g, x, y) = ext_gcd_spec(a, b);
    lemma_ext_gcd(a, b);
    let gg = abs(g);
    if a != 0 || b != 0 {
        assert(gg >= 1);
        assert(gg <= i64::MAX) by {
            lemma_gcd_divides(abs(a) as nat, abs(b) as nat);
            if abs(a) > 0 {
                lemma_divisor_le(gg as nat, abs(a) as nat);
            } else {
                lemma_divisor_le(gg as nat, abs(b) as nat);
            }
        }
        assert(abs(x) <= i64::MAX) by (nonlinear_arith)
            requires
                gg >= 1,
                gg * abs(x) <= max(gg, abs(b)),
                gg <= i64::MAX,
                abs(b) <= i64::MAX,
        ;
        assert(abs(y) <= i64::MAX) by (nonlinear_arith)
            requires
                gg >= 1,
                gg * abs(y) <= max(gg, abs(a)),
                gg <= i64::MAX,
                abs(a) <= i64::MAX,
        ;
    } else {
        assert(ext_gcd_spec(a, b) == (0int, 0int, 1int));
    }
}

/// Extended Euclidean algorithm: returns `(g, x, y)` with `a*x + b*y == g`, where `g` is the
/// greatest common divisor of `|a|` and `|b|`. The one demand is that this triple fits in 64
/// bits, which holds whenever neither argument is `i64::MIN` (`lemma_ext_gcd_fits`).
pub fn extended_gcd(a: i64, b: i64) -> (r: (i64, i64, i64))
    requires
        ext_gcd_fits(a as int, b as int),
    ensures
        (r.0 as int, r.1 as int, r.2 as int) == ext_gcd_normalized(a as int, b as int),
        a * r.1 + b * r.2 == r.0,
        r.0 == spec_gcd(abs(a as int) as nat, abs(b as int) as nat),
        (a >= 0 && b >= 0) ==> (r.0 as int, r.1 as int, r.2 as int) == ext_gcd_spec(
            a as int,
            b as int,
        ),
{
    let (g, x, y) = ext_gcd_rec(a as i128, b as i128);
    proof {
        lemma_ext_gcd(a as int, b as int);
    }
    if g < 0 {
        proof {
            assert(a * (-x) + b * (-y) == -(a * x + b * y)) by (nonlinear_arith);
        }
        return ((-g) as i64, (-x) as i64, (-y) as i64);
    }
    (g as i64, x as i64, y as i64)
}

/// The extended Euclidean recursion itself, on integers of at most 63 bits of magnitude
/// (`i64::MIN` included).
fn ext_gcd_rec(a: i128, b: i128) -> (r: (i128, i128, i128))
    requires
        -0x8000_0000_0000_0000 <= a <= 0x8000_0000_0000_0000,
        -0x8000_0000_0000_0000 <= b <= 0x8000_0000_0000_0000,
    ensures
        (r.0 as int, r.1 as int, r.2 as int) == ext_gcd_spec(a as int, b as int),
    decreases abs(a as int),
{
    proof {
        lemma_ext_gcd(a as int, b as int);
    }
    if a == 0 {
        return (b, 0, 1);
    }
    proof {
        lemma_exec_signed_div_rem(b as int, a as int);
        lemma_trunc_div_rem(b as int, a as int);
    }
    let rem = b % a;
    let quot = b / a;
    let (g, x1, y1) = ext_gcd_rec(rem, a);
    proof {
        lemma_ext_gcd(rem as int, a as int);
        let gg = abs(g as int);
        assert(gg >= 1);
        lemma_gcd_divides(abs(rem as int) as nat, abs(a as int) as nat);
        lemma_divisor_le(gg as nat, abs(a as int) as nat);
        assert(gg * abs(x1 as int) <= abs(a as int));
        // |quot * x1| <= |b|
        assert(abs(quot as int) * abs(a as int) <= abs(b as int));
        assert(abs(quot as int * x1 as int) <= abs(b as int)) by (nonlinear_arith)
            requires
                gg >= 1,
                gg * abs(x1 as int) <= abs(a as int),
                abs(quot as int) * abs(a as int) <= abs(b as int),
        ;
        assert(abs(y1 as int) <= max(gg, abs(rem as int))) by (nonlinear_arith)
            requires
                gg >= 1,
                gg * abs(y1 as int) <= max(gg, abs(rem as int)),
        ;
        assert(gg <= abs(a as int));
    }
    let x = y1 - quot * x1;
    (g, x, x1)
}

// ---------------------------------------------------------------------------
// Modular inverse
// ---------------------------------------------------------------------------

/// Modular inverse using the extended Euclidean algorithm: the `x < m` with
/// `a * x ≡ 1 (mod m)`, or `None` when `a` and `m` are not coprime.
pub fn mod_inverse(a: i64, m: u64) -> (r: Option<u64>)
    requires
        0 < m <= i64::MAX,
    ensures
        r is Some <==> spec_gcd(((a as int) % (m as int)) as nat, m as nat) == 1,
        r matches Some(x) ==> x < m && (a as int * x as int) % (m as int) == 1int % (m as int),
{
    let mm = m as i64;
    let mut ar = a % mm;
    proof {
        lemma_exec_signed_div_rem(a as int, mm as int);
        lemma_trunc_div_rem(a as int, mm as int);
    }
    if ar < 0 {
        ar = ar + mm;
    }
    proof {
        lemma_trunc_rem_to_euclid(a as int, m as int);
    }
    proof {
        lemma_ext_gcd_fits(ar as int, mm as int);
    }
    let (g, x, _y) = extended_gcd(ar, mm);
    proof {
        assert(abs(ar as int) == ar);
        assert(abs(mm as int) == m);
    }
    if g != 1 {
        return None;
    }
    let mut xr = x % mm;
    proof {
        lemma_exec_signed_div_rem(x as int, mm as int);
        lemma_trunc_div_rem(x as int, mm as int);
    }
    if xr < 0 {
        xr = xr + mm;
    }
    proof {
        lemma_trunc_rem_to_euclid(x as int, m as int);
        // a * xr ≡ ar * x ≡ 1 (mod m)
        let y = ext_gcd_spec(ar as int, mm as int).2;
        assert(ar * x + m * y == 1);
        lemma_mod_multiples_vanish(y, ar * x, m as int);
        lemma_mul_is_commutative(m as int, y);
        lemma_mul_mod_noop_general(a as int, xr as int, m as int);
        lemma_mul_mod_noop_general(ar as int, x as int, m as int);
        lemma_mod_twice(a as int, m as int);
        lemma_mod_twice(x as int, m as int);
    }
    Some(xr as u64)
}

// ---------------------------------------------------------------------------
// Modular addition, subtraction and multiplication
// ---------------------------------------------------------------------------

/// Modular addition: `(a + b) mod m`.
pub fn mod_add(a: u64, b: u64, m: u64) -> (r: u64)
    requires
        m > 0,
    ensures
        r == (a as int + b as int) % (m as int),
{
    proof {
        lemma_mod_pos_bound(a as int + b as int, m as int);
    }
    ((a as u128 + b as u128) % (m as u128)) as u64
}

/// Modular subtraction: `(a - b) mod m`, always in `[0, m)`.
pub fn mod_sub(a: u64, b: u64, m: u64) -> (r: u64)
    requires
        m > 0,
    ensures
        r == (a as int - b as int) % (m as int),
{
    let x = a as i128;
    let y = b as i128;
    let mm = m as i128;
    let d = x - y;
    let mut t = d % mm;
    proof {
        lemma_exec_signed_div_rem(d as int, mm as int);
        lemma_trunc_div_rem(d as int, mm as int);
    }
    if t < 0 {
        t = t + mm;
    }
    proof {
        lemma_trunc_rem_to_euclid(d as int, m as int);
    }
    t as u64
}

/// Modular multiplication: `(a * b) mod m`.
pub fn mod_mul(a: u64, b: u64, m: u64) -> (r: u64)
    requires
        m > 0,
    ensures
        r == (a as int * b as int) % (m as int),
{
    mul_mod(a, b, m)
}


// ---------------------------------------------------------------------------
// Chinese remainder theorem
// ---------------------------------------------------------------------------

/// The product of a list of moduli.
pub open spec fn product(s: Seq<u64>) -> nat
    decreases s.len(),
{
    if s.len() == 0 {
        1
    } else {
        product(s.drop_last()) * (s.last() as nat)
    }
}

/// No two of the moduli share a factor above 1.
pub open spec fn pairwise_coprime(s: Seq<u64>) -> bool {
    forall|i: int, j: int|
        0 <= i < j < s.len() ==> spec_gcd(#[trigger] s[i] as nat, #[trigger] s[j] as nat) == 1
}

/// A list of positive moduli: its product is positive, grows along prefixes, and is a
/// multiple of each of them.
proof fn lemma_product_facts(s: Seq<u64>, k: int)
    requires
        forall|i: int| 0 <= i < s.len() ==> #[trigger] s[i] >= 1,
        0 <= k <= s.len(),
    ensures
        product(s) >= 1,
        product(s.subrange(0, k)) <= product(s),
        forall|i: int| 0 <= i < s.len() ==> product(s) % (#[trigger] s[i] as nat) == 0,
    decreases s.len(),
{
    if s.len() > 0 {
        let t = s.drop_last();
        let last = s.last() as nat;
        assert forall|i: int| 0 <= i < t.len() implies #[trigger] t[i] >= 1 by {
            assert(t[i] == s[i]);
        }
        if k < s.len() {
            lemma_product_facts(t, k);
            assert(s.subrange(0, k) =~= t.subrange(0, k));
        } else {
            lemma_product_facts(t, 0);
            assert(s.subrange(0, k) =~= s);
        }
        let pt = product(t);
        assert(s[s.len() - 1] >= 1);
        assert(pt <= pt * last) by (nonlinear_arith)
            requires
                last >= 1,
                pt >= 1,
        ;
        assert(pt * last >= 1) by (nonlinear_arith)
            requires
                last >= 1,
                pt >= 1,
        ;
        assert forall|i: int| 0 <= i < s.len() implies product(s) % (#[trigger] s[i] as nat) == 0 by {
            if i < t.len() {
                assert(t[i] == s[i]);
                lemma_divides_mul(s[i] as nat, pt as int, last as int);
            } else {
                lemma_mod_of_multiple(pt, last);
            }
        }
    }
}

/// The product of a prefix extended by one more modulus.
proof fn lemma_product_prefix_step(s: Seq<u64>, i: int)
    requires
        0 <= i < s.len(),
    ensures
        product(s.subrange(0, i + 1)) == product(s.subrange(0, i)) * (s[i] as nat),
{
    assert(s.subrange(0, i + 1).drop_last() =~= s.subrange(0, i));
}

/// The product of a list is coprime to `c` exactly when every element is.
proof fn lemma_coprime_product(s: Seq<u64>, c: nat)
    requires
        forall|i: int| 0 <= i < s.len() ==> #[trigger] s[i] >= 1,
        c >= 1,
    ensures
        (spec_gcd(product(s), c) == 1) == (forall|i: int|
            0 <= i < s.len() ==> spec_gcd(#[trigger] s[i] as nat, c) == 1),
    decreases s.len(),
{
    if s.len() == 0 {
        assert(spec_gcd(1, 0) == 1);
        if c > 1 {
            lemma_small_mod(1, c);
            assert(spec_gcd(1, c) == spec_gcd(c, 1));
            assert(spec_gcd(c, 1) == spec_gcd(1, c % 1));
        } else {
            assert(spec_gcd(1, 1) == spec_gcd(1, 1nat % 1));
        }
    } else {
        let t = s.drop_last();
        assert forall|i: int| 0 <= i < t.len() implies #[trigger] t[i] >= 1 by {
            assert(t[i] == s[i]);
        }
        lemma_coprime_product(t, c);
        lemma_product_facts(t, 0);
        assert(s[s.len() - 1] >= 1);
        lemma_coprime_mul(product(t), s.last() as nat, c);
        if forall|i: int| 0 <= i < t.len() ==> spec_gcd(#[trigger] t[i] as nat, c) == 1 {
            if spec_gcd(s.last() as nat, c) == 1 {
                assert forall|i: int| 0 <= i < s.len() implies spec_gcd(
                    #[trigger] s[i] as nat,
                    c,
                ) == 1 by {
                    if i < t.len() {
                        assert(t[i] == s[i]);
                    }
                }
            }
        } else {
            let i = choose|i: int| 0 <= i < t.len() && spec_gcd(#[trigger] t[i] as nat, c) != 1;
            assert(t[i] == s[i]);
        }
    }
}

/// Coprime divisors divide together: `a | d`, `b | d` and `gcd(a, b) = 1` give `ab | d`.
proof fn lemma_coprime_divisors_multiply(a: nat, b: nat, d: int)
    requires
        a >= 1,
        b >= 1,
        spec_gcd(a, b) == 1,
        d % (a as int) == 0,
        d % (b as int) == 0,
    ensures
        d % ((a * b) as int) == 0,
{
    lemma_ext_gcd(a as int, b as int);
    let (g, x, y) = ext_gcd_spec(a as int, b as int);
    assert(g == 1);
    lemma_fundamental_div_mod(d, a as int);
    lemma_fundamental_div_mod(d, b as int);
    let s = d / (a as int);
    let t = d / (b as int);
    // d = d (a x + b y) = a b (x t) + a b (y s)
    assert(d == (a * b) * (x * t + y * s)) by (nonlinear_arith)
        requires
            a * x + b * y == 1,
            d == a * s,
            d == b * t,
    ;
    assert((a * b) as int >= 1) by (nonlinear_arith)
        requires
            a >= 1,
            b >= 1,
    ;
    lemma_mod_multiples_basic(x * t + y * s, (a * b) as int);
    lemma_mul_is_commutative((a * b) as int, x * t + y * s);
}

/// When `y ≡ z` modulo each of pairwise coprime moduli, the product of the first `k` of them
/// divides `y - z`.
proof fn lemma_prefix_product_divides(moduli: Seq<u64>, y: int, z: int, k: int)
    requires
        0 <= k <= moduli.len(),
        forall|i: int| 0 <= i < moduli.len() ==> #[trigger] moduli[i] >= 1,
        pairwise_coprime(moduli),
        forall|i: int| 0 <= i < moduli.len() ==> y % (#[trigger] moduli[i] as int) == z % (
        moduli[i] as int),
    ensures
        (y - z) % (product(moduli.subrange(0, k)) as int) == 0,
    decreases k,
{
    let d = y - z;
    if k == 0 {
        assert(moduli.subrange(0, 0) =~= Seq::<u64>::empty());
        lemma_mod_bound(d, 1);
    } else {
        let j = k - 1;
        lemma_prefix_product_divides(moduli, y, z, j);
        let pre = moduli.subrange(0, j);
        let m = moduli[j] as nat;
        assert forall|i: int| 0 <= i < pre.len() implies #[trigger] pre[i] >= 1 by {
            assert(pre[i] == moduli[i]);
        }
        assert forall|i: int| 0 <= i < pre.len() implies spec_gcd(#[trigger] pre[i] as nat, m)
            == 1 by {
            assert(pre[i] == moduli[i]);
        }
        lemma_coprime_product(pre, m);
        lemma_product_facts(pre, 0);
        assert(d % (m as int) == 0) by {
            lemma_sub_mod_noop(y, z, m as int);
            lemma_mod_self_0(m as int);
            lemma_small_mod(0, m);
        }
        lemma_coprime_divisors_multiply(product(pre), m, d);
        lemma_product_prefix_step(moduli, j);
    }
}

/// The CRT solution is unique below the product of pairwise coprime moduli: two numbers in
/// that range that agree modulo every `m_i` are equal.
pub proof fn lemma_crt_unique(moduli: Seq<u64>, y: int, z: int)
    requires
        forall|i: int| 0 <= i < moduli.len() ==> #[trigger] moduli[i] >= 1,
        pairwise_coprime(moduli),
        0 <= y < product(moduli),
        0 <= z < product(moduli),
        forall|i: int| 0 <= i < moduli.len() ==> y % (#[trigger] moduli[i] as int) == z % (
        moduli[i] as int),
    ensures
        y == z,
{
    let d = y - z;
    lemma_prefix_product_divides(moduli, y, z, moduli.len() as int);
    assert(moduli.subrange(0, moduli.len() as int) =~= moduli);
    let n = product(moduli) as int;
    lemma_fundamental_div_mod(d, n);
    if d != 0 {
        let q = d / n;
        assert(d == n * q);
        if q >= 1 {
            assert(n * q >= n) by (nonlinear_arith)
                requires
                    q >= 1,
                    n >= 1,
            ;
        } else if q <= -1 {
            assert(n * q <= -n) by (nonlinear_arith)
                requires
                    q <= -1,
                    n >= 1,
            ;
        } else {
            assert(q == 0);
            assert(n * 0 == 0);
        }
    }
}

/// One combination step of the CRT: `x + m*t` keeps `x` modulo `m` and becomes `r` modulo `mi`.
proof fn lemma_crt_step(x: int, m: int, mi: int, t: int, diff: int, inv: int, y: int, r: int)
    requires
        mi >= 1,
        m * inv + mi * y == 1,
        t == (diff * inv) % mi,
        diff % mi == (r - x) % mi,
    ensures
        (x + m * t) % mi == r % mi,
{
    lemma_mul_mod_noop_right(m, diff * inv, mi);
    assert(m * (diff * inv) == mi * (-diff * y) + diff) by (nonlinear_arith)
        requires
            m * inv + mi * y == 1,
    ;
    lemma_mod_multiples_vanish(-diff * y, diff, mi);
    assert((m * t) % mi == diff % mi);
    lemma_add_mod_noop(x, m * t, mi);
    lemma_add_mod_noop(x, r - x, mi);
}

/// Chinese Remainder Theorem solver: the `x` below the product of the moduli with
/// `x ≡ r_i (mod m_i)` for all `i`, or `None` when the lists differ in length, are empty, or
/// the moduli are not pairwise coprime. A single congruence returns its remainder as given.
pub fn crt(remainders: &[u64], moduli: &[u64]) -> (r: Option<u64>)
    requires
        remainders.len() == moduli.len() && moduli.len() >= 2 ==> (forall|i: int|
            0 <= i < moduli.len() ==> #[trigger] moduli[i] >= 1) && product(moduli@)
            <= i64::MAX,
    ensures
        (remainders.len() != moduli.len() || moduli.len() == 0) ==> r is None,
        (remainders.len() == moduli.len() && moduli.len() == 1) ==> r == Some(remainders[0]),
        (remainders.len() == moduli.len() && moduli.len() >= 2) ==> {
            &&& (r is Some <==> pairwise_coprime(moduli@))
            &&& (r matches Some(x) ==> x < product(moduli@) && forall|i: int|
                0 <= i < moduli.len() ==> (x as int) % (#[trigger] moduli[i] as int) == (
                remainders[i as int] as int) % (moduli[i] as int))
        },
{
    let n = remainders.len();
    if n != moduli.len() || n == 0 {
        return None;
    }
    if n == 1 {
        return Some(remainders[0]);
    }
    proof {
        lemma_product_facts(moduli@, 1);
        assert(moduli[0] >= 1);
        let s1 = moduli@.subrange(0, 1);
        assert(s1.drop_last() =~= Seq::<u64>::empty());
        assert(s1.last() == moduli[0]);
        assert(product(s1) == product(s1.drop_last()) * (s1.last() as nat));
        assert(product(s1) == 1 * (moduli[0] as nat));
    }
    let mut x: u64 = remainders[0] % moduli[0];
    let mut m: u64 = moduli[0];
    proof {
        lemma_mod_twice(remainders[0] as int, moduli[0] as int);
        assert forall|i: int, j: int|
            0 <= i < j < moduli@.subrange(0, 1).len() implies spec_gcd(
            #[trigger] moduli@.subrange(0, 1)[i] as nat,
            #[trigger] moduli@.subrange(0, 1)[j] as nat,
        ) == 1 by {}
    }
    let mut i: usize = 1;
    while i < n
        invariant
            1 <= i <= n,
            n == remainders.len(),
            n == moduli.len(),
            forall|k: int| 0 <= k < moduli.len() ==> #[trigger] moduli[k] >= 1,
            product(moduli@) <= i64::MAX,
            m as nat == product(moduli@.subrange(0, i as int)),
            x < m,
            forall|j: int|
                0 <= j < i ==> (x as int) % (#[trigger] moduli[j] as int) == (remainders[j] as int)
                    % (moduli[j] as int),
            pairwise_coprime(moduli@.subrange(0, i as int)),
        decreases n - i,
    {
        let mi = moduli[i];
        let ghost prefix = moduli@.subrange(0, i as int);
        proof {
            lemma_product_facts(moduli@, i as int + 1);
            lemma_product_facts(moduli@, i as int);
            lemma_product_prefix_step(moduli@, i as int);
            assert forall|k: int| 0 <= k < prefix.len() implies #[trigger] prefix[k] >= 1 by {
                assert(prefix[k] == moduli[k]);
            }
            lemma_product_facts(prefix, 0);
            lemma_coprime_product(prefix, mi as nat);
            lemma_divisor_le(mi as nat, product(moduli@));
        }
        proof {
            lemma_ext_gcd_fits(m as int, mi as int);
        }
        let (g, inv, _y) = extended_gcd(m as i64, mi as i64);
        if g != 1 {
            proof {
                let k = choose|k: int| 0 <= k < prefix.len() && spec_gcd(#[trigger] prefix[k] as nat, mi as nat) != 1;
                assert(prefix[k] == moduli[k]);
                assert(!pairwise_coprime(moduli@)) by {
                    assert(spec_gcd(moduli@[k] as nat, moduli@[i as int] as nat) != 1);
                }
            }
            return None;
        }
        let ghost yy = ext_gcd_spec(m as int, mi as int).2;
        proof {
            lemma_ext_gcd(m as int, mi as int);
            assert(abs(inv as int) <= mi) by (nonlinear_arith)
                requires
                    1 * abs(inv as int) <= max(1, abs(mi as int)),
                    mi >= 1,
            ;
        }
        let ri = remainders[i] % mi;
        let xm = x % mi;
        let diff: i128 = ri as i128 - xm as i128;
        proof {
            assert(abs(diff as int) < mi);
            assert(abs(diff as int * inv as int) <= mi * mi) by (nonlinear_arith)
                requires
                    abs(diff as int) < mi,
                    abs(inv as int) <= mi,
            ;
            assert(mi <= 0x7fff_ffff_ffff_ffffu64);
            assert(mi as int * mi as int <= 0x7fff_ffff_ffff_ffffint * 0x7fff_ffff_ffff_ffffint)
                by (nonlinear_arith)
                requires
                    mi <= 0x7fff_ffff_ffff_ffffu64,
            ;
        }
        let prod: i128 = diff * (inv as i128);
        let mut t: i128 = prod % (mi as i128);
        proof {
            lemma_exec_signed_div_rem(prod as int, mi as int);
            lemma_trunc_div_rem(prod as int, mi as int);
        }
        if t < 0 {
            t = t + mi as i128;
        }
        proof {
            lemma_trunc_rem_to_euclid(prod as int, mi as int);
            lemma_mod_bound(prod as int, mi as int);
            // diff ≡ r_i - x (mod m_i)
            lemma_sub_mod_noop(remainders[i as int] as int, x as int, mi as int);
            lemma_mod_twice(remainders[i as int] as int, mi as int);
            lemma_mod_twice(x as int, mi as int);
            lemma_sub_mod_noop(ri as int, xm as int, mi as int);
            lemma_crt_step(x as int, m as int, mi as int, t as int, diff as int, inv as int, yy, remainders[i as int] as int);
            assert(m as int * t as int <= m as int * (mi as int - 1)) by (nonlinear_arith)
                requires
                    t < mi,
                    m >= 1,
            ;
            assert(m as int * (mi as int - 1) + m == m * mi) by (nonlinear_arith);
        }
        let tt = t as u64;
        let ghost x_old = x;
        x = x + m * tt;
        proof {
            assert forall|j: int| 0 <= j < i + 1 implies (x as int) % (#[trigger] moduli[j] as int)
                == (remainders[j] as int) % (moduli[j] as int) by {
                if j < i {
                    assert(prefix[j] == moduli[j]);
                    lemma_divides_mul(moduli[j] as nat, m as int, tt as int);
                    lemma_add_mod_noop(x_old as int, m as int * tt as int, moduli[j] as int);
                    lemma_mod_twice(x_old as int, moduli[j] as int);
                    lemma_small_mod(0, moduli[j] as nat);
                }
            }
            let next = moduli@.subrange(0, i as int + 1);
            assert forall|a: int, b: int|
                0 <= a < b < next.len() implies spec_gcd(
                #[trigger] next[a] as nat,
                #[trigger] next[b] as nat,
            ) == 1 by {
                if b < i {
                    assert(next[a] == prefix[a] && next[b] == prefix[b]);
                } else {
                    assert(prefix[a] == next[a]);
                    assert(spec_gcd(prefix[a] as nat, mi as nat) == 1);
                }
            }
        }
        m = m * mi;
        i = i + 1;
    }
    proof {
        assert(moduli@.subrange(0, n as int) =~= moduli@);
    }
    Some(x)
}


// ---------------------------------------------------------------------------
// Square roots modulo a prime (Tonelli–Shanks)
// ---------------------------------------------------------------------------

/// Some `z` with `2 <= z < p` satisfies `z^((p-1)/2) ≡ -1 (mod p)`: a quadratic non-residue
/// by Euler's criterion.
pub open spec fn has_non_residue_below(p: nat) -> bool {
    exists|z: nat| 2 <= z < p && #[trigger] pow(z as int, ((p - 1) / 2) as nat) % (p as int) == p
        - 1
}

/// `(x^a mod m)^b ≡ x^(a*b) (mod m)`.
proof fn lemma_pow_pow_mod(x: int, a: nat, b: nat, m: int)
    requires
        m > 0,
    ensures
        pow(pow(x, a) % m, b) % m == pow(x, a * b) % m,
{
    lemma_pow_mod_noop(pow(x, a), b, m);
    lemma_pow_multiplies(x, a, b);
}

/// `(x * y mod m)^e ≡ x^e * y^e (mod m)`, both sides reduced.
pub proof fn lemma_pow_product_mod(x: int, y: int, e: nat, m: int)
    requires
        m > 0,
    ensures
        pow((x * y) % m, e) % m == ((pow(x, e) % m) * (pow(y, e) % m)) % m,
{
    lemma_pow_mod_noop(x * y, e, m);
    lemma_pow_distributes(x, y, e);
    lemma_mul_mod_noop_general(pow(x, e), pow(y, e), m);
}

/// Modulo a prime, the only square roots of 1 are 1 and -1.
pub proof fn lemma_square_root_of_one(x: int, p: int)
    requires
        prime(p as nat),
        0 <= x < p,
        (x * x) % p == 1,
    ensures
        x == 1 || x == p - 1,
{
    if x == 0 {
        assert(0int * 0 == 0);
        lemma_small_mod(0, p as nat);
    }
    let a = (x - 1) as nat;
    let b = (x + 1) as nat;
    assert(a * b == x * x - 1) by (nonlinear_arith)
        requires
            a == x - 1,
            b == x + 1,
    ;
    lemma_fundamental_div_mod(x * x, p);
    lemma_mod_multiples_vanish((x * x) / p, 0, p);
    assert((a * b) as int == p * ((x * x) / p));
    lemma_mod_multiples_basic((x * x) / p, p);
    lemma_mul_is_commutative(p, (x * x) / p);
    lemma_euclid(a, b, p as nat);
    if a % (p as nat) == 0 {
        lemma_small_mod(a, p as nat);
    } else {
        if b < p {
            lemma_small_mod(b, p as nat);
        }
    }
}

/// `(p - 1)^2 ≡ 1 (mod p)`.
pub proof fn lemma_minus_one_squared(p: int)
    requires
        p > 1,
    ensures
        ((p - 1) * (p - 1)) % p == 1,
{
    assert((p - 1) * (p - 1) == p * (p - 2) + 1) by (nonlinear_arith);
    lemma_mod_multiples_vanish(p - 2, 1, p);
    lemma_small_mod(1, p as nat);
}

/// One Tonelli–Shanks step keeps the loop's three facts: with `c` of order `2^m` (its
/// `2^(m-1)`-th power is `-1`), `t`'s `2^(i-1)`-th power `-1`, and `r^2 ≡ n t`, the new
/// `c' = b^2`, `t' = t c'`, `r' = r b` for `b = c^(2^(m-i-1))` satisfy the same facts with `i`
/// in place of `m`.
proof fn lemma_tonelli_step(n: int, p: int, m: nat, i: nat, c: int, t: int, r: int, b: int)
    requires
        p > 1,
        1 <= i < m,
        pow(c, pow2((m - 1) as nat)) % p == p - 1,
        pow(t, pow2((i - 1) as nat)) % p == p - 1,
        (r * r) % p == (n * t) % p,
        b == pow(c, pow2((m - i - 1) as nat)) % p,
    ensures
        pow((b * b) % p, pow2((i - 1) as nat)) % p == p - 1,
        pow((t * ((b * b) % p)) % p, pow2((i - 1) as nat)) % p == 1,
        (((r * b) % p) * ((r * b) % p)) % p == (n * ((t * ((b * b) % p)) % p)) % p,
{
    let k = pow2((i - 1) as nat);
    let c2 = (b * b) % p;
    // c2^k = c^(2^(m-i-1) * 2 * 2^(i-1)) = c^(2^(m-1))
    assert(b * b == pow(b, 2)) by {
        lemma_pow1(b);
        lemma_pow_adds(b, 1, 1);
    }
    lemma_pow_pow_mod(b, 2, k, p);
    lemma_pow_pow_mod(c, pow2((m - i - 1) as nat), 2 * k, p);
    lemma_pow2_adds((m - i - 1) as nat, 1);
    lemma_pow2_adds((m - i) as nat, (i - 1) as nat);
    assert(pow2(1) == 2) by {
        lemma_pow1(2);
        vstd::arithmetic::power2::lemma_pow2(1);
    }
    assert(pow2((m - i - 1) as nat) * (2 * k) == pow2((m - 1) as nat)) by {
        assert((m - i - 1) as nat + 1 == (m - i) as nat);
        assert((m - i) as nat + (i - 1) as nat == (m - 1) as nat);
        lemma_mul_is_associative(pow2((m - i - 1) as nat) as int, 2, k as int);
    }
    // t' = t c2, (t')^k = t^k c2^k = (-1)(-1) = 1
    lemma_pow_product_mod(t, c2, k, p);
    lemma_minus_one_squared(p);
    // (r b)^2 = r^2 b^2 = n t b^2 = n t'
    let rb = (r * b) % p;
    lemma_mul_mod_noop_general(r * b, r * b, p);
    assert((r * b) * (r * b) == (r * r) * (b * b)) by (nonlinear_arith);
    lemma_mul_mod_noop_general(r * r, b * b, p);
    lemma_mul_mod_noop_general(n * t, b * b, p);
    assert((n * t) * (b * b) == n * (t * (b * b))) by (nonlinear_arith);
    lemma_mul_mod_noop_right(t, b * b, p);
    lemma_mul_mod_noop_right(n, t * (b * b), p);
    lemma_mul_mod_noop_right(n, t * c2, p);
}

/// `x^(2^j)` followed by one more squaring is `x^(2^(j+1))`, all reduced mod `p`.
proof fn lemma_square_again(x: int, j: nat, p: int)
    requires
        p > 0,
    ensures
        ((pow(x, pow2(j)) % p) * (pow(x, pow2(j)) % p)) % p == pow(x, pow2(j + 1)) % p,
{
    let y = pow(x, pow2(j)) % p;
    lemma_pow1(y);
    lemma_pow_adds(y, 1, 1);
    lemma_pow_pow_mod(x, pow2(j), 2, p);
    lemma_pow2_adds(j, 1);
    lemma_pow1(2);
    vstd::arithmetic::power2::lemma_pow2(1);
}

/// When `n^q ≡ 1 (mod p)` and `2h = q + 1`, `r = n^h mod p` squares to `n`.
proof fn lemma_square_of_half_power(n: int, p: int, q: nat, h: nat, r: int)
    requires
        p > 0,
        pow(n, q) % p == 1,
        2 * h == q + 1,
        r == pow(n, h) % p,
    ensures
        (r * r) % p == n % p,
{
    lemma_pow1(r);
    lemma_pow_adds(r, 1, 1);
    lemma_pow_pow_mod(n, h, 2, p);
    assert(h * 2 == q + 1);
    lemma_pow_adds(n, 1, q);
    lemma_pow1(n);
    lemma_mul_mod_noop_right(n, pow(n, q), p);
    assert(pow(r, 2) == r * r) by {
        lemma_pow1(r);
        lemma_pow_adds(r, 1, 1);
    }
}

/// Modular square root by Tonelli–Shanks: some `x < p` with `x^2 ≡ n (mod p)`, or `None` exactly
/// when there is none. For `p = 2` it is `n mod 2`, for `n ≡ 0` it is 0, and otherwise `None`
/// comes exactly when Euler's criterion `n^((p-1)/2) ≡ 1 (mod p)` fails.
pub fn mod_sqrt(n: u64, p: u64) -> (r: Option<u64>)
    requires
        prime(p as nat),
    ensures
        p == 2 ==> r == Some(n % 2),
        p != 2 && n % p == 0 ==> r == Some(0u64),
        p != 2 && n % p != 0 ==> (r is None <==> pow(n as int, ((p - 1) / 2) as nat) % (p as int)
            != 1),
        r is None <==> !exists|x: int| #[trigger] ((x * x) % (p as int)) == (n as int) % (p as int),
        r matches Some(x) ==> x < p && (x as int * x as int) % (p as int) == (n as int) % (
        p as int),
{
    let ghost pi = p as int;
    if p == 2 {
        proof {
            let x = (n % 2) as int;
            assert(x * x == x) by (nonlinear_arith)
                requires
                    x == 0 || x == 1,
            ;
            lemma_mod_twice(n as int, 2);
            assert((((n % 2) as int) * ((n % 2) as int)) % 2 == (n as int) % 2);
        }
        return Some(n % 2);
    }
    proof {
        assert((p as nat) % (2 as nat) != 0);
        if p == u64::MAX {
            assert((p as nat) % (3 as nat) != 0);
        }
    }
    proof {
        crate::lagrange::lemma_non_residue_exists(p as nat);
    }
    if n % p == 0 {
        proof {
            assert(0int * 0 == 0);
            lemma_small_mod(0, p as nat);
            assert(((0int * 0) % pi) == (n as int) % pi);
        }
        return Some(0);
    }
    proof {
        // a root exists exactly when Euler's criterion holds
        crate::lagrange::lemma_euler_criterion(n as int, p as nat);
        lemma_pow_mod_noop(n as int, ((p - 1) / 2) as nat, pi);
        assert(((p - 1) as nat) / 2 == ((p - 1) / 2) as nat);
    }
    if mod_pow(n, (p - 1) / 2, p) != 1 {
        return None;
    }
    let mut q = p - 1;
    let mut s = 0u32;
    proof {
        vstd::arithmetic::power2::lemma_pow2(0);
        lemma_pow0(2);
    }
    while q % 2 == 0
        invariant
            q >= 1,
            s <= 63,
            q * pow2(s as nat) == p - 1,
            p <= u64::MAX,
        decreases q,
    {
        proof {
            lemma_pow2_adds(s as nat, 1);
            lemma_pow1(2);
            vstd::arithmetic::power2::lemma_pow2(1);
            assert((q / 2) * pow2((s + 1) as nat) == q * pow2(s as nat)) by {
                lemma_mul_is_associative((q / 2) as int, 2, pow2(s as nat) as int);
            }
            if s == 63 {
                vstd::arithmetic::power2::lemma2_to64_rest();
                assert((q / 2) * pow2(64) >= pow2(64)) by (nonlinear_arith)
                    requires
                        q / 2 >= 1,
                ;
            }
        }
        q = q / 2;
        s = s + 1;
    }
    proof {
        if s == 0 {
            assert(q * pow2(0) == q);
        }
        assert(s >= 1);
        lemma_pow2_adds((s - 1) as nat, 1);
        lemma_pow1(2);
        vstd::arithmetic::power2::lemma_pow2(1);
        lemma_mul_is_associative(q as int, pow2((s - 1) as nat) as int, 2);
        assert(q * pow2((s - 1) as nat) == (p - 1) / 2);
    }
    if s == 1 {
        proof {
            assert(q * pow2(0) == q);
            assert((p - 1) % 4 == 2);
        }
        let r = mod_pow(n, (p + 1) / 4, p);
        proof {
            let h = ((p + 1) / 4) as nat;
            assert(2 * h == q + 1);
            lemma_square_of_half_power(n as int, pi, q as nat, h, r as int);
        }
        return Some(r);
    }
    proof {
        assert(pow2(2) == 4) by {
            vstd::arithmetic::power2::lemma2_to64();
        }
        lemma_pow2_adds(2, (s - 2) as nat);
        assert(2 + (s - 2) as nat == s as nat);
        let w = pow2((s - 2) as nat) as int;
        assert(p - 1 == (q * w) * 4) by (nonlinear_arith)
            requires
                q * pow2(s as nat) == p - 1,
                pow2(s as nat) == 4 * w,
        ;
        lemma_mod_multiples_basic(q * w, 4);
    }
    let mut z = 2u64;
    while mod_pow(z, (p - 1) / 2, p) != p - 1
        invariant
            2 <= z < p,
            has_non_residue_below(p as nat),
            forall|w: nat|
                2 <= w < z ==> #[trigger] pow(w as int, ((p - 1) / 2) as nat) % (p as int) != p
                    - 1,
        decreases p - z,
    {
        proof {
            // the non-residue lies beyond z
            let w = choose|w: nat|
                2 <= w < p && #[trigger] pow(w as int, ((p - 1) / 2) as nat) % (p as int) == p - 1;
            assert(w != z);
            assert(w > z);
        }
        z = z + 1;
    }
    proof {
        assert(has_non_residue_below(p as nat)) by {
            assert(pow(z as nat as int, ((p - 1) / 2) as nat) % (p as int) == p - 1);
        }
        assert(q <= q * pow2((s - 1) as nat)) by {
            vstd::arithmetic::power2::lemma_pow2_pos((s - 1) as nat);
            lemma_mul_increases(pow2((s - 1) as nat) as int, q as int);
        }
    }
    let mut m = s;
    let mut c = mod_pow(z, q, p);
    let mut t = mod_pow(n, q, p);
    let mut r = mod_pow(n, (q + 1) / 2, p);
    proof {
        let e = pow2((s - 1) as nat);
        lemma_pow_pow_mod(z as int, q as nat, e, pi);
        lemma_pow_pow_mod(n as int, q as nat, e, pi);
        let h = ((q + 1) / 2) as nat;
        assert(2 * h == q + 1);
        lemma_pow1(r as int);
        lemma_pow_adds(r as int, 1, 1);
        lemma_pow_pow_mod(n as int, h, 2, pi);
        lemma_pow_adds(n as int, 1, q as nat);
        lemma_pow1(n as int);
        lemma_mul_mod_noop_right(n as int, pow(n as int, q as nat), pi);
    }
    loop
        invariant
            prime(p as nat),
            pi == p as int,
            p > 2,
            has_non_residue_below(p as nat),
            n % p != 0,
            exists|x: int| #[trigger] ((x * x) % (p as int)) == (n as int) % (p as int),
            pow(n as int, ((p - 1) / 2) as nat) % (p as int) == 1,
            1 <= m <= 63,
            c < p,
            t < p,
            r < p,
            pow(c as int, pow2((m - 1) as nat)) % pi == pi - 1,
            pow(t as int, pow2((m - 1) as nat)) % pi == 1,
            (r as int * r as int) % pi == (n as int * t as int) % pi,
        decreases m,
    {
        if t == 1 {
            return Some(r);
        }
        proof {
            if m == 1 {
                vstd::arithmetic::power2::lemma_pow2(0);
                lemma_pow0(2);
                lemma_pow1(t as int);
                lemma_small_mod(t as nat, p as nat);
            }
            vstd::arithmetic::power2::lemma_pow2(0);
            lemma_pow0(2);
            lemma_pow1(t as int);
            lemma_small_mod(t as nat, p as nat);
            lemma_square_again(t as int, 0, pi);
        }
        let mut i = 1u32;
        let mut temp = mul_mod(t, t, p);
        while temp != 1
            invariant
                pi == p as int,
                p > 2,
                1 <= i < m <= 63,
                temp == pow(t as int, pow2(i as nat)) % pi,
                pow(t as int, pow2((m - 1) as nat)) % pi == 1,
                forall|j: nat| j < i ==> #[trigger] pow(t as int, pow2(j)) % pi != 1,
            decreases m - i,
        {
            proof {
                lemma_square_again(t as int, i as nat, pi);
            }
            temp = mul_mod(temp, temp, p);
            i = i + 1;
        }
        let ghost k = (i - 1) as nat;
        proof {
            lemma_square_again(t as int, k, pi);
            assert(k + 1 == i);
            lemma_mod_bound(pow(t as int, pow2(k)), pi);
            lemma_square_root_of_one(pow(t as int, pow2(k)) % pi, pi);
        }
        let sh: u64 = (m - i - 1) as u64;
        proof {
            lemma_u64_pow2_no_overflow(sh as nat);
            lemma_u64_shl_is_mul(1, sh);
        }
        let b = mod_pow(c, 1u64 << sh, p);
        proof {
            lemma_tonelli_step(
                n as int,
                pi,
                m as nat,
                i as nat,
                c as int,
                t as int,
                r as int,
                b as int,
            );
        }
        m = i;
        c = mul_mod(b, b, p);
        t = mul_mod(t, c, p);
        r = mul_mod(r, b, p);
    }
}

/// Euler's criterion on squares: when `n ≡ x^2 (mod p)` for a prime `p` not dividing `x`,
/// `n^((p-1)/2) ≡ 1 (mod p)`; with `p ≢ 1 (mod 4)` this is all `mod_sqrt` asks before it
/// returns a root.
pub proof fn lemma_squares_pass_euler_criterion(n: int, x: int, p: nat)
    requires
        prime(p),
        x % (p as int) != 0,
        n % (p as int) == (x * x) % (p as int),
    ensures
        pow(n, ((p - 1) / 2) as nat) % (p as int) == 1,
{
    let pi = p as int;
    let e = ((p - 1) / 2) as nat;
    lemma_pow_mod_noop(n, e, pi);
    lemma_pow_mod_noop(x * x, e, pi);
    assert(pow(x, 2) == x * x) by {
        lemma_pow_adds(x, 1, 1);
        lemma_pow1(x);
    }
    lemma_pow_multiplies(x, 2, e);
    if p == 2 {
        assert(e == 0);
        lemma_pow0(n);
        lemma_small_mod(1, 2);
    } else {
        assert(p % 2 != 0) by {
            assert(p % 2nat != 0);
        }
        assert(2 * e == p - 1);
        crate::fermat::lemma_fermat_little(p, x);
    }
}

// ---------------------------------------------------------------------------
// Algebraic properties of the modular operations
// ---------------------------------------------------------------------------

/// Subtracting `b` undoes adding `b`: `mod_sub(mod_add(a, b, m), b, m) == a mod m`.
pub proof fn lemma_mod_sub_undoes_add(a: int, b: int, m: int)
    requires
        m > 0,
    ensures
        (((a + b) % m) - b) % m == a % m,
{
    lemma_sub_mod_noop((a + b) % m, b, m);
    lemma_mod_twice(a + b, m);
    lemma_sub_mod_noop(a + b, b, m);
    assert(a + b - b == a);
}

/// Adding `b` undoes subtracting `b`: `mod_add(mod_sub(a, b, m), b, m) == a mod m`.
pub proof fn lemma_mod_add_undoes_sub(a: int, b: int, m: int)
    requires
        m > 0,
    ensures
        (((a - b) % m) + b) % m == a % m,
{
    lemma_add_mod_noop((a - b) % m, b, m);
    lemma_mod_twice(a - b, m);
    lemma_add_mod_noop(a - b, b, m);
    assert(a - b + b == a);
}

/// Multiplying by the inverse from `mod_inverse` gives 1: `(a mod m) * x ≡ 1`, so
/// `mod_mul(a mod m, x, m) == 1 mod m`.
pub proof fn lemma_mod_inverse_cancels(a: int, x: int, m: int)
    requires
        m > 0,
        (a * x) % m == 1int % m,
    ensures
        ((a % m) * x) % m == 1int % m,
{
    lemma_mul_mod_noop_left(a, x, m);
}

/// Exponents add: `a^e1 * a^e2 ≡ a^(e1 + e2) (mod m)`, the rule `mod_pow` results obey.
pub proof fn lemma_mod_pow_adds(a: int, e1: nat, e2: nat, m: int)
    requires
        m > 0,
    ensures
        ((pow(a, e1) % m) * (pow(a, e2) % m)) % m == pow(a, e1 + e2) % m,
{
    lemma_pow_adds(a, e1, e2);
    lemma_mul_mod_noop_general(pow(a, e1), pow(a, e2), m);
}

/// Exponents multiply: `(a^e1 mod m)^e2 ≡ a^(e1 * e2) (mod m)`.
pub proof fn lemma_mod_pow_multiplies(a: int, e1: nat, e2: nat, m: int)
    requires
        m > 0,
    ensures
        pow(pow(a, e1) % m, e2) % m == pow(a, e1 * e2) % m,
{
    lemma_pow_pow_mod(a, e1, e2, m);
}

} // verus!
