//! Polynomials modulo a prime have no more roots than their degree (Lagrange), and what
//! follows for quadratic residues: Euler's criterion in both directions and the existence of
//! a non-residue.
use crate::divisibility::{lemma_euclid, prime};
use crate::modular::has_non_residue_below;
use crate::quadratic::{
    lemma_euler_criterion_values, lemma_square_is_residue, legendre_symbol, square_below,
};
use vstd::arithmetic::div_mod::*;
use vstd::arithmetic::mul::*;
use vstd::arithmetic::power::*;
use vstd::prelude::*;

verus! {

/// The value at `x` of the polynomial `c[0] + c[1] x + c[2] x^2 + ...`, by Horner's rule.
pub open spec fn poly_eval(c: Seq<int>, x: int) -> int
    decreases c.len(),
{
    if c.len() == 0 {
        0
    } else {
        c[0] + x * poly_eval(c.drop_first(), x)
    }
}

/// The quotient of `c` by `x - r`: `c(x) - c(r) = (x - r) q(x)`.
pub open spec fn poly_quotient(c: Seq<int>, r: int) -> Seq<int>
    decreases c.len(),
{
    if c.len() <= 1 {
        Seq::empty()
    } else {
        seq![poly_eval(c.drop_first(), r)] + poly_quotient(c.drop_first(), r)
    }
}

/// Division by `x - r`: `c(x) - c(r) = (x - r) q(x)`, and `q` has one coefficient fewer with
/// the same leading one.
proof fn lemma_poly_division(c: Seq<int>, r: int, x: int)
    ensures
        poly_eval(c, x) - poly_eval(c, r) == (x - r) * poly_eval(poly_quotient(c, r), x),
        c.len() >= 1 ==> poly_quotient(c, r).len() == c.len() - 1,
        c.len() >= 2 ==> poly_quotient(c, r).last() == c.last(),
    decreases c.len(),
{
    if c.len() == 0 {
        assert(poly_quotient(c, r) =~= Seq::<int>::empty());
        assert(poly_eval(Seq::<int>::empty(), x) == 0);
        assert((x - r) * 0 == 0) by (nonlinear_arith);
    } else if c.len() == 1 {
        let t = c.drop_first();
        assert(t.len() == 0);
        assert(poly_eval(t, x) == 0 && poly_eval(t, r) == 0);
        assert(poly_quotient(c, r) =~= Seq::<int>::empty());
        assert(poly_eval(Seq::<int>::empty(), x) == 0);
        assert(x * 0 == 0 && r * 0 == 0 && (x - r) * 0 == 0) by (nonlinear_arith);
        assert(poly_eval(c, x) == c[0] + x * poly_eval(t, x));
        assert(poly_eval(c, r) == c[0] + r * poly_eval(t, r));
    } else {
        let t = c.drop_first();
        lemma_poly_division(t, r, x);
        let q = poly_quotient(c, r);
        let qt = poly_quotient(t, r);
        assert(q.drop_first() =~= qt);
        assert(q[0] == poly_eval(t, r));
        let ft_x = poly_eval(t, x);
        let ft_r = poly_eval(t, r);
        let gt = poly_eval(qt, x);
        assert(poly_eval(q, x) == ft_r + x * gt);
        assert(poly_eval(c, x) == c[0] + x * ft_x);
        assert(poly_eval(c, r) == c[0] + r * ft_r);
        // c(x) - c(r) = x t(x) - r t(r) = x (t(x) - t(r)) + (x - r) t(r)
        assert(x * ft_x - r * ft_r == (x - r) * (ft_r + x * gt)) by (nonlinear_arith)
            requires
                ft_x - ft_r == (x - r) * gt,
        ;
        if t.len() >= 2 {
            assert(q.last() == qt.last());
            assert(t.last() == c.last());
        } else {
            assert(q.len() == 1);
            assert(t.len() == 1);
            assert(q.last() == ft_r);
            assert(t.drop_first().len() == 0);
            assert(poly_eval(t.drop_first(), r) == 0);
            assert(r * 0 == 0);
            assert(ft_r == t[0] + r * poly_eval(t.drop_first(), r));
            assert(ft_r == t[0]);
        }
    }
}

/// A product of integers prime to `p` is prime to `p`.
proof fn lemma_prime_product_nonzero(a: int, b: int, p: nat)
    requires
        prime(p),
        a % (p as int) != 0,
        b % (p as int) != 0,
    ensures
        (a * b) % (p as int) != 0,
{
    let pi = p as int;
    let ra = (a % pi) as nat;
    let rb = (b % pi) as nat;
    lemma_mod_bound(a, pi);
    lemma_mod_bound(b, pi);
    lemma_mul_mod_noop_general(a, b, pi);
    if (a * b) % pi == 0 {
        lemma_euclid(ra, rb, p);
        lemma_small_mod(ra, p);
        lemma_small_mod(rb, p);
    }
}

/// `rs` lists distinct residues mod `p`, each a root of `c` mod `p`.
pub open spec fn distinct_roots(c: Seq<int>, p: nat, rs: Seq<int>) -> bool {
    &&& forall|i: int| 0 <= i < rs.len() ==> 0 <= #[trigger] rs[i] < p
    &&& forall|i: int, j: int| 0 <= i < j < rs.len() ==> #[trigger] rs[i] != #[trigger] rs[j]
    &&& forall|i: int| 0 <= i < rs.len() ==> #[trigger] poly_eval(c, rs[i]) % (p as int) == 0
}

/// Lagrange's theorem: modulo a prime, a polynomial whose leading coefficient is not divisible
/// by `p` has at most as many distinct roots as its degree.
pub proof fn lemma_lagrange(c: Seq<int>, p: nat, rs: Seq<int>)
    requires
        prime(p),
        c.len() >= 1,
        c.last() % (p as int) != 0,
        distinct_roots(c, p, rs),
    ensures
        rs.len() <= c.len() - 1,
    decreases c.len(),
{
    let pi = p as int;
    if rs.len() > 0 {
        if c.len() == 1 {
            assert(c.drop_first().len() == 0);
            assert(poly_eval(c.drop_first(), rs[0]) == 0);
            assert(rs[0] * 0 == 0);
            assert(poly_eval(c, rs[0]) == c[0] + rs[0] * poly_eval(c.drop_first(), rs[0]));
            assert(poly_eval(c, rs[0]) == c[0]);
            assert(c.last() == c[0]);
            assert(false);
        } else {
            let r1 = rs[0];
            let g = poly_quotient(c, r1);
            lemma_poly_division(c, r1, 0);
            let rest = rs.drop_first();
            assert forall|i: int| 0 <= i < rest.len() implies #[trigger] poly_eval(g, rest[i]) % pi
                == 0 by {
                let ri = rest[i];
                assert(ri == rs[i + 1]);
                lemma_poly_division(c, r1, ri);
                // (ri - r1) g(ri) ≡ c(ri) - c(r1) ≡ 0, and ri - r1 is prime to p
                lemma_sub_mod_noop(poly_eval(c, ri), poly_eval(c, r1), pi);
                lemma_small_mod(0, p);
                if poly_eval(g, ri) % pi != 0 {
                    assert((ri - r1) % pi != 0) by {
                        lemma_mod_bound(ri - r1, pi);
                        if ri > r1 {
                            lemma_small_mod((ri - r1) as nat, p);
                        } else {
                            lemma_mod_add_multiples_vanish(ri - r1, pi);
                            lemma_small_mod((ri - r1 + pi) as nat, p);
                        }
                    }
                    lemma_prime_product_nonzero(ri - r1, poly_eval(g, ri), p);
                }
            }
            assert(distinct_roots(g, p, rest)) by {
                assert forall|i: int| 0 <= i < rest.len() implies 0 <= #[trigger] rest[i] < p by {
                    assert(rest[i] == rs[i + 1]);
                }
                assert forall|i: int, j: int|
                    0 <= i < j < rest.len() implies #[trigger] rest[i] != #[trigger] rest[j] by {
                    assert(rest[i] == rs[i + 1] && rest[j] == rs[j + 1]);
                }
            }
            lemma_lagrange(g, p, rest);
        }
    }
}

/// The polynomial `x^k`.
pub open spec fn monomial(k: nat) -> Seq<int> {
    Seq::new(k + 1, |i: int| if i == k {
        1int
    } else {
        0int
    })
}

proof fn lemma_monomial_eval(k: nat, x: int)
    ensures
        poly_eval(monomial(k), x) == pow(x, k),
    decreases k,
{
    let c = monomial(k);
    let t = c.drop_first();
    if k == 0 {
        assert(t.len() == 0);
        assert(poly_eval(t, x) == 0);
        assert(x * 0 == 0);
        lemma_pow0(x);
    } else {
        assert(t =~= monomial((k - 1) as nat));
        lemma_monomial_eval((k - 1) as nat, x);
        lemma_pow_adds(x, 1, (k - 1) as nat);
        lemma_pow1(x);
    }
}

/// The polynomial `x^e - 1`, for `e >= 1`.
pub open spec fn power_minus_one(e: nat) -> Seq<int> {
    monomial(e).update(0, -1)
}

proof fn lemma_power_minus_one_eval(e: nat, x: int)
    requires
        e >= 1,
    ensures
        poly_eval(power_minus_one(e), x) == pow(x, e) - 1,
        power_minus_one(e).len() == e + 1,
        power_minus_one(e).last() == 1,
{
    let c = power_minus_one(e);
    let m = monomial(e);
    lemma_monomial_eval(e, x);
    assert(c.drop_first() =~= m.drop_first());
    assert(poly_eval(m, x) == m[0] + x * poly_eval(m.drop_first(), x));
    assert(poly_eval(c, x) == c[0] + x * poly_eval(c.drop_first(), x));
}

/// At most `(p-1)/2` distinct residues `r` mod an odd prime `p` have `r^((p-1)/2) ≡ 1`.
proof fn lemma_euler_roots_bound(p: nat, rs: Seq<int>)
    requires
        prime(p),
        p > 2,
        forall|i: int| 0 <= i < rs.len() ==> 0 <= #[trigger] rs[i] < p,
        forall|i: int, j: int| 0 <= i < j < rs.len() ==> #[trigger] rs[i] != #[trigger] rs[j],
        forall|i: int|
            0 <= i < rs.len() ==> #[trigger] pow(rs[i], ((p - 1) / 2) as nat) % (p as int) == 1,
    ensures
        rs.len() <= (p - 1) / 2,
{
    let pi = p as int;
    let e = ((p - 1) / 2) as nat;
    assert(p % 2 != 0) by {
        assert(p % 2nat != 0);
    }
    let c = power_minus_one(e);
    lemma_power_minus_one_eval(e, 0);
    lemma_small_mod(1, p);
    assert forall|i: int| 0 <= i < rs.len() implies #[trigger] poly_eval(c, rs[i]) % pi == 0 by {
        lemma_power_minus_one_eval(e, rs[i]);
        lemma_sub_mod_noop(pow(rs[i], e), 1, pi);
        lemma_small_mod(0, p);
    }
    lemma_lagrange(c, p, rs);
}

/// Every odd prime has a quadratic non-residue below it: some `z` with `z^((p-1)/2) ≡ -1`.
pub proof fn lemma_non_residue_exists(p: nat)
    requires
        prime(p),
        p > 2,
    ensures
        has_non_residue_below(p),
{
    let pi = p as int;
    let e = ((p - 1) / 2) as nat;
    if !has_non_residue_below(p) {
        let rs = Seq::new((p - 1) as nat, |i: int| i + 1);
        assert forall|i: int| 0 <= i < rs.len() implies #[trigger] pow(rs[i], e) % pi == 1 by {
            let z = rs[i];
            if z == 1 {
                lemma1_pow(e);
                lemma_small_mod(1, p);
            } else {
                lemma_small_mod(z as nat, p);
                lemma_euler_criterion_values(z, p);
                assert(pow(z as nat as int, e) % pi != p - 1);
            }
        }
        lemma_euler_roots_bound(p, rs);
        assert(false);
    }
}

/// Euler's criterion: for a prime `p`, `(a/p) = 1` exactly when `a` is a non-zero square
/// mod `p`, so `legendre` and `is_quadratic_residue` tell the quadratic residues apart.
pub proof fn lemma_euler_criterion(a: int, p: nat)
    requires
        prime(p),
    ensures
        legendre_symbol(a, p) == 1 <==> (a % (p as int) != 0 && exists|x: int|
            #[trigger] ((x * x) % (p as int)) == a % (p as int)),
{
    let pi = p as int;
    let r = a % pi;
    lemma_mod_bound(a, pi);
    // squares of non-multiples have symbol 1
    if a % pi != 0 && exists|x: int| #[trigger] ((x * x) % pi) == a % pi {
        let x = choose|x: int| #[trigger] ((x * x) % pi) == a % pi;
        if x % pi == 0 {
            lemma_mul_mod_noop_general(x, x, pi);
            lemma_small_mod(0, p);
            assert(0int * (x % pi) == 0);
        }
        lemma_square_is_residue(x, p);
        lemma_mod_twice(a, pi);
        lemma_mod_twice(x * x, pi);
    }
    // symbol 1 means a square
    if legendre_symbol(a, p) == 1 {
        if p == 2 {
            assert(r == 1);
            assert((1int * 1) % 2 == 1);
            lemma_mod_twice(a, pi);
            assert(((1int * 1) % pi) == a % pi);
        } else if !exists|x: int| #[trigger] ((x * x) % pi) == a % pi {
            lemma_square_roots_bound(a, p);
        }
    }
}

/// If `(a/p) = 1` for an odd prime `p`, `a` is a square: otherwise the `(p-1)/2` distinct
/// non-zero squares and `a` would be `(p+1)/2` roots of `x^((p-1)/2) - 1`.
proof fn lemma_square_roots_bound(a: int, p: nat)
    requires
        prime(p),
        p > 2,
        legendre_symbol(a, p) == 1,
    ensures
        exists|x: int| #[trigger] ((x * x) % (p as int)) == a % (p as int),
{
    let pi = p as int;
    let e = ((p - 1) / 2) as nat;
    let r = a % pi;
    lemma_mod_bound(a, pi);
    assert(p % 2 != 0) by {
        assert(p % 2nat != 0);
    }
    if !exists|x: int| #[trigger] ((x * x) % pi) == a % pi {
        let sq = Seq::new(e, |k: int| ((k + 1) * (k + 1)) % pi);
        let rs = sq.push(r);
        assert forall|i: int| 0 <= i < rs.len() implies 0 <= #[trigger] rs[i] < p by {
            if i < e {
                lemma_mod_bound((i + 1) * (i + 1), pi);
            }
        }
        assert forall|i: int, j: int| 0 <= i < j < rs.len() implies #[trigger] rs[i]
            != #[trigger] rs[j] by {
            if j == e {
                assert(rs[i] == ((i + 1) * (i + 1)) % pi);
                assert(rs[j] == r);
            } else {
                // (i+1)^2 ≡ (j+1)^2 would make p divide (j - i)(i + j + 2)
                let u = i + 1;
                let v = j + 1;
                if rs[i] == rs[j] {
                    lemma_sub_mod_noop(v * v, u * u, pi);
                    lemma_small_mod(0, p);
                    assert(v * v - u * u == (v - u) * (v + u)) by (nonlinear_arith);
                    lemma_small_mod((v - u) as nat, p);
                    lemma_small_mod((v + u) as nat, p);
                    lemma_prime_product_nonzero(v - u, v + u, p);
                }
            }
        }
        assert forall|i: int| 0 <= i < rs.len() implies #[trigger] pow(rs[i], e) % pi == 1 by {
            if i < e {
                let u = i + 1;
                lemma_small_mod(u as nat, p);
                lemma_square_is_residue(u, p);
                lemma_mod_twice(u * u, pi);
            } else {
                lemma_mod_twice(a, pi);
            }
        }
        lemma_euler_roots_bound(p, rs);
        assert(false);
    }
}

/// The squares of `1, ..., (p-1)/2` are distinct mod an odd prime `p`.
pub proof fn lemma_distinct_squares(p: nat, u: int, v: int)
    requires
        prime(p),
        p > 2,
        1 <= u < v <= (p - 1) / 2,
    ensures
        (u * u) % (p as int) != (v * v) % (p as int),
{
    let pi = p as int;
    if (u * u) % pi == (v * v) % pi {
        lemma_sub_mod_noop(v * v, u * u, pi);
        lemma_small_mod(0, p);
        assert(v * v - u * u == (v - u) * (v + u)) by (nonlinear_arith);
        lemma_small_mod((v - u) as nat, p);
        lemma_small_mod((v + u) as nat, p);
        lemma_prime_product_nonzero(v - u, v + u, p);
    }
}

/// `u` is one of `1, ..., (p-1)/2` and `u^2 ≡ t (mod p)`.
pub open spec fn is_small_root(p: nat, u: int, t: int) -> bool {
    1 <= u <= (p - 1) / 2 && (u * u) % (p as int) == t
}

/// Every non-zero square mod `p` is the square of some `1 <= u <= (p-1)/2`, as `x^2 = (p-x)^2`.
proof fn lemma_square_of_small(p: nat, x: int)
    requires
        prime(p),
        p > 2,
        1 <= x < p,
    ensures
        exists|u: int| #[trigger] is_small_root(p, u, (x * x) % (p as int)),
{
    let pi = p as int;
    assert(p % 2 != 0) by {
        assert(p % 2nat != 0);
    }
    if x <= (p - 1) / 2 {
        assert(is_small_root(p, x, (x * x) % pi));
    } else {
        let u = pi - x;
        assert(u * u == x * x + pi * (pi - 2 * x)) by (nonlinear_arith)
            requires
                u == pi - x,
        ;
        lemma_mod_multiples_vanish(pi - 2 * x, x * x, pi);
        assert(is_small_root(p, u, (x * x) % pi));
    }
}

/// There are exactly `(p-1)/2` quadratic residues mod an odd prime `p`: a strictly increasing
/// list of the non-zero squares mod `p`, as `quadratic_residues` returns, has that length.
pub proof fn lemma_residue_count(p: nat, s: Seq<u64>)
    requires
        prime(p),
        2 < p <= u64::MAX,
        forall|i: int, j: int| 0 <= i < j < s.len() ==> s[i] < s[j],
        forall|i: int| 0 <= i < s.len() ==> square_below(#[trigger] s[i] as nat, p, p),
        forall|x: nat| 1 <= x < p ==> #[trigger] s.contains(((x * x) % p) as u64),
    ensures
        s.len() == (p - 1) / 2,
{
    let pi = p as int;
    let e = ((p - 1) / 2) as nat;
    let sq = Seq::new(e, |i: int| (((i + 1) * (i + 1)) % pi) as u64);
    assert(sq.no_duplicates()) by {
        assert forall|i: int, j: int| 0 <= i < sq.len() && 0 <= j < sq.len() && i != j implies sq[i]
            != sq[j] by {
            lemma_mod_bound((i + 1) * (i + 1), pi);
            lemma_mod_bound((j + 1) * (j + 1), pi);
            assert(sq[i] as int == ((i + 1) * (i + 1)) % pi);
            assert(sq[j] as int == ((j + 1) * (j + 1)) % pi);
            if i < j {
                lemma_distinct_squares(p, i + 1, j + 1);
            } else {
                lemma_distinct_squares(p, j + 1, i + 1);
            }
        }
    }
    assert(s.no_duplicates()) by {
        assert forall|i: int, j: int| 0 <= i < s.len() && 0 <= j < s.len() && i != j implies s[i]
            != s[j] by {
            if i < j {
                assert(s[i] < s[j]);
            } else {
                assert(s[j] < s[i]);
            }
        }
    }
    assert(s.to_set() =~= sq.to_set()) by {
        assert forall|v: u64| s.to_set().contains(v) implies sq.to_set().contains(v) by {
            let i = choose|i: int| 0 <= i < s.len() && s[i] == v;
            assert(square_below(s[i] as nat, p, p));
            let x = choose|x: nat| 1 <= x < p && #[trigger] ((x * x) % p) == s[i] as nat;
            lemma_square_of_small(p, x as int);
            let xi = x as int;
            let u = choose|u: int| #[trigger] is_small_root(p, u, (xi * xi) % pi);
            assert(sq[u - 1] == v);
        }
        assert forall|v: u64| sq.to_set().contains(v) implies s.to_set().contains(v) by {
            let i = choose|i: int| 0 <= i < sq.len() && sq[i] == v;
            let x = (i + 1) as nat;
            assert(s.contains(((x * x) % p) as u64));
        }
    }
    s.unique_seq_to_set();
    sq.unique_seq_to_set();
}

} // verus!
