//! Continued fractions: expansions of square roots and of rationals, and convergents.
use crate::divisibility::{
    lemma_common_divisor_divides_gcd, lemma_divides_add_sub, lemma_divides_mul, lemma_divisor_le,
    lemma_gcd_commutes, lemma_gcd_divides, spec_gcd,
};
use crate::modular::{ext_gcd_spec, lemma_ext_gcd};
use vstd::arithmetic::div_mod::*;
use vstd::arithmetic::mul::*;
use vstd::prelude::*;

verus! {

/// A continued fraction `[a0; periodic...]`: for a square root the periodic part repeats,
/// for a rational it is the finite tail.
pub struct ContinuedFraction {
    /// Integer part (a0)
    pub a0: u64,
    /// Periodic part (empty for perfect squares and integers)
    pub periodic: Vec<u64>,
}

// ---------------------------------------------------------------------------
// Integer square root
// ---------------------------------------------------------------------------

/// `r` is the integer square root of `n`: `r^2 <= n < (r+1)^2`.
pub open spec fn is_isqrt(r: nat, n: nat) -> bool {
    r * r <= n < (r + 1) * (r + 1)
}

/// The integer square root by bisection.
pub(crate) fn isqrt(n: u64) -> (r: u64)
    ensures
        is_isqrt(r as nat, n as nat),
        r <= 0xffff_ffff,
{
    let mut lo: u64 = 0;
    let mut hi: u64 = 0x1_0000_0000;
    proof {
        assert(0x1_0000_0000u64 * 0x1_0000_0000u64 > 0xffff_ffff_ffff_ffffu64) by (nonlinear_arith);
    }
    while hi - lo > 1
        invariant
            lo < hi <= 0x1_0000_0000,
            lo * lo <= n,
            n < hi * hi,
        decreases hi - lo,
    {
        let mid = lo + (hi - lo) / 2;
        proof {
            assert(mid * mid <= 0x1_0000_0000 * 0x1_0000_0000) by (nonlinear_arith)
                requires
                    mid <= 0x1_0000_0000,
            ;
        }
        if (mid as u128) * (mid as u128) <= n as u128 {
            lo = mid;
        } else {
            hi = mid;
        }
    }
    assert(hi == lo + 1);
    lo
}

// ---------------------------------------------------------------------------
// Square roots
// ---------------------------------------------------------------------------

/// One step of the expansion of √n: from `(m, d, a)` to the next `(m', d', a')`.
pub open spec fn sqrt_cf_step(n: int, a0: int, s: (int, int, int)) -> (int, int, int) {
    let m = s.1 * s.2 - s.0;
    let d = (n - m * m) / s.1;
    (m, d, (a0 + m) / d)
}

/// The state `(m_k, d_k, a_k)` of the continued fraction of √n after `k` steps, starting
/// from `(0, 1, a0)` with `a0 = ⌊√n⌋`.
pub open spec fn sqrt_cf_state(n: nat, a0: nat, k: nat) -> (int, int, int)
    decreases k,
{
    if k == 0 {
        (0, 1, a0 as int)
    } else {
        sqrt_cf_step(n as int, a0 as int, sqrt_cf_state(n, a0, (k - 1) as nat))
    }
}

/// The `k`-th partial quotient `a_k` of √n.
pub open spec fn sqrt_cf_term(n: nat, a0: nat, k: nat) -> int {
    sqrt_cf_state(n, a0, k).2
}

/// The expansion of √n (for non-square `n` with `a0 = ⌊√n⌋`) reaches the end of its first
/// period: some `a_k` with `k >= 1` equals `2 * a0`.
pub open spec fn sqrt_period_ends(n: nat, a0: nat) -> bool {
    exists|k: nat| k >= 1 && #[trigger] sqrt_cf_term(n, a0, k) == 2 * a0
}

/// `⌊√n⌋`.
pub open spec fn sqrt_a0(n: nat) -> nat {
    choose|r: nat| is_isqrt(r, n)
}

/// The length of the period of √n: the least `k >= 1` with `a_k = 2 * a0`.
pub open spec fn sqrt_period_length(n: nat) -> nat {
    let a0 = sqrt_a0(n);
    choose|k: nat|
        k >= 1 && sqrt_cf_term(n, a0, k) == 2 * a0 && forall|j: nat|
            1 <= j < k ==> #[trigger] sqrt_cf_term(n, a0, j) != 2 * a0
}

/// The periodic part `a_1, ..., a_r` of the continued fraction of √n.
pub open spec fn sqrt_periodic_part(n: nat) -> Seq<u64> {
    Seq::new(sqrt_period_length(n), |j: int| sqrt_cf_term(n, sqrt_a0(n), (j + 1) as nat) as u64)
}

/// The integer square root is unique.
pub proof fn lemma_isqrt_unique(r1: nat, r2: nat, n: nat)
    requires
        is_isqrt(r1, n),
        is_isqrt(r2, n),
    ensures
        r1 == r2,
{
    if r1 < r2 {
        assert((r1 + 1) * (r1 + 1) <= r2 * r2) by (nonlinear_arith)
            requires
                r1 + 1 <= r2,
        ;
    }
    if r2 < r1 {
        assert((r2 + 1) * (r2 + 1) <= r1 * r1) by (nonlinear_arith)
            requires
                r2 + 1 <= r1,
        ;
    }
}

/// The invariant of the states after the first: `(m + √n) / d` is a reduced quadratic
/// irrational, written with integers only.
pub open spec fn reduced_state(n: int, a0: int, m: int, d: int) -> bool {
    &&& d >= 1
    &&& 0 <= m <= a0
    &&& (n - m * m) % d == 0
    &&& d <= a0 + m
    &&& m + d >= a0 + 1
}

/// A step of the expansion keeps the state reduced, and its values stay small.
proof fn lemma_sqrt_cf_step(n: int, a0: int, m: int, d: int, a: int)
    requires
        a0 >= 1,
        a0 * a0 < n < (a0 + 1) * (a0 + 1),
        (m == 0 && d == 1) || reduced_state(n, a0, m, d),
        a == (a0 + m) / d,
    ensures
        d * a >= m,
        d * a <= 2 * a0,
        ({
            let m2 = d * a - m;
            let d2 = (n - m2 * m2) / d;
            &&& m2 * m2 <= n
            &&& reduced_state(n, a0, m2, d2)
            &&& d2 * d == n - m2 * m2
        }),
{
    assert(d >= 1 && 0 <= m <= a0);
    lemma_fundamental_div_mod(a0 + m, d);
    lemma_mod_bound(a0 + m, d);
    let r = (a0 + m) % d;
    assert(a0 + m == d * a + r);
    assert(a >= 1) by {
        if m == 0 && d == 1 {
        } else {
            lemma_div_is_ordered(d, a0 + m, d);
            lemma_div_by_self(d);
        }
    }
    // d * a >= m
    if d >= m {
        assert(d * a >= d) by (nonlinear_arith)
            requires
                a >= 1,
                d >= 1,
        ;
    } else {
        assert(d * a + d > a0 + m);
    }
    let m2 = d * a - m;
    assert(0 <= m2 <= a0);
    assert(m2 + d >= a0 + 1);
    assert(m2 * m2 <= a0 * a0) by (nonlinear_arith)
        requires
            0 <= m2 <= a0,
    ;
    // d divides n - m2^2 since m2 ≡ -m (mod d)
    assert(n - m2 * m2 == (n - m * m) - d * (a * (d * a - 2 * m))) by (nonlinear_arith)
        requires
            m2 == d * a - m,
    ;
    if m == 0 && d == 1 {
        lemma_mod_of_one(n - m2 * m2);
    } else {
        lemma_mod_multiples_vanish(-(a * (d * a - 2 * m)), n - m * m, d);
        assert((n - m2 * m2) % d == (n - m * m) % d) by {
            assert(d * (-(a * (d * a - 2 * m))) + (n - m * m) == n - m2 * m2) by (nonlinear_arith)
                requires
                    n - m2 * m2 == (n - m * m) - d * (a * (d * a - 2 * m)),
            ;
        }
    }
    let e = n - m2 * m2;
    lemma_fundamental_div_mod(e, d);
    let d2 = e / d;
    assert(e == d * d2);
    assert(e > 0);
    assert(d2 >= 1) by {
        if d2 <= 0 {
            assert(d * d2 <= 0) by (nonlinear_arith)
                requires
                    d >= 1,
                    d2 <= 0,
            ;
        }
    }
    // d2 <= a0 + m2, otherwise n >= (a0 + 1)^2
    assert(d2 <= a0 + m2) by {
        if d2 >= a0 + m2 + 1 {
            lemma_mul_inequality(a0 + 1 - m2, d, a0 + m2 + 1);
            lemma_mul_inequality(a0 + m2 + 1, d2, d);
            lemma_mul_is_commutative(d, d2);
            lemma_mul_is_commutative(d, a0 + m2 + 1);
            assert(d * d2 >= (a0 + 1 - m2) * (a0 + m2 + 1));
            assert((a0 + 1 - m2) * (a0 + m2 + 1) == (a0 + 1) * (a0 + 1) - m2 * m2)
                by (nonlinear_arith);
        }
    }
    // m2 + d2 >= a0 + 1, otherwise n <= a0^2
    assert(m2 + d2 >= a0 + 1) by {
        if m2 + d2 <= a0 {
            assert(d <= m2 + m);
            assert(d * d2 <= (a0 + m2) * (a0 - m2)) by (nonlinear_arith)
                requires
                    1 <= d <= a0 + m2,
                    1 <= d2 <= a0 - m2,
            ;
            assert((a0 + m2) * (a0 - m2) == a0 * a0 - m2 * m2) by (nonlinear_arith);
        }
    }
    lemma_mod_of_multiple_int(d, d2);
    lemma_mul_is_commutative(d, d2);
}

proof fn lemma_mod_of_one(x: int)
    ensures
        x % 1 == 0,
{
    lemma_fundamental_div_mod(x, 1);
    lemma_mod_bound(x, 1);
}

proof fn lemma_mod_of_multiple_int(k: int, d: int)
    requires
        d >= 1,
    ensures
        (d * k) % d == 0,
        (k * d) % d == 0,
{
    lemma_mod_multiples_basic(k, d);
    lemma_mul_is_commutative(k, d);
}

// ---------------------------------------------------------------------------
// The expansion of √n is periodic
// ---------------------------------------------------------------------------

/// The pair `(m_k, d_k)` of the `k`-th state.
pub open spec fn sqrt_cf_pair(n: nat, a0: nat, k: nat) -> (int, int) {
    (sqrt_cf_state(n, a0, k).0, sqrt_cf_state(n, a0, k).1)
}

/// Each state's partial quotient is `⌊(a0 + m) / d⌋` of its pair.
pub proof fn lemma_state_term(n: nat, a0: nat, k: nat)
    ensures
        sqrt_cf_state(n, a0, k).2 == (a0 + sqrt_cf_state(n, a0, k).0) / sqrt_cf_state(n, a0, k).1,
{
    if k == 0 {
        lemma_div_basics(a0 as int);
    }
}

/// Every state after the first is reduced, and consecutive denominators multiply to
/// `n - m^2`.
pub proof fn lemma_states_reduced(n: nat, a0: nat, k: nat)
    requires
        a0 >= 1,
        a0 * a0 < n < (a0 + 1) * (a0 + 1),
        k >= 1,
    ensures
        reduced_state(n as int, a0 as int, sqrt_cf_state(n, a0, k).0, sqrt_cf_state(n, a0, k).1),
        sqrt_cf_state(n, a0, k).1 * sqrt_cf_state(n, a0, (k - 1) as nat).1 == n - sqrt_cf_state(
            n,
            a0,
            k,
        ).0 * sqrt_cf_state(n, a0, k).0,
    decreases k,
{
    let j = (k - 1) as nat;
    let s = sqrt_cf_state(n, a0, j);
    lemma_state_term(n, a0, j);
    if k > 1 {
        lemma_states_reduced(n, a0, j);
    }
    lemma_sqrt_cf_step(n as int, a0 as int, s.0, s.1, s.2);
    lemma_mul_is_commutative(s.1, sqrt_cf_state(n, a0, k).1);
}

/// The pair that precedes `(m, d)` in the expansion, when that predecessor is reduced.
pub open spec fn sqrt_cf_prev(n: int, a0: int, m: int, d: int) -> (int, int) {
    let dp = (n - m * m) / d;
    (a0 - (a0 + m) % dp, dp)
}

/// From the second state on, each pair determines the one before it.
proof fn lemma_prev_state(n: nat, a0: nat, k: nat)
    requires
        a0 >= 1,
        a0 * a0 < n < (a0 + 1) * (a0 + 1),
        k >= 2,
    ensures
        sqrt_cf_pair(n, a0, (k - 1) as nat) == sqrt_cf_prev(
            n as int,
            a0 as int,
            sqrt_cf_pair(n, a0, k).0,
            sqrt_cf_pair(n, a0, k).1,
        ),
{
    let j = (k - 1) as nat;
    let s = sqrt_cf_state(n, a0, j);
    let t = sqrt_cf_state(n, a0, k);
    let (m, d, a) = s;
    let (m2, d2) = (t.0, t.1);
    lemma_states_reduced(n, a0, j);
    lemma_states_reduced(n, a0, k);
    assert(m2 == d * a - m);
    // the previous denominator
    assert((n - m2 * m2) / d2 == d) by {
        lemma_div_multiples_vanish(d, d2);
        lemma_mul_is_commutative(d2, d);
    }
    // the previous numerator: a0 + m2 = d a + (a0 - m) with 0 <= a0 - m < d
    assert((a0 + m2) % d == a0 - m) by {
        lemma_mod_multiples_vanish(a, a0 - m, d);
        lemma_small_mod((a0 - m) as nat, d as nat);
        lemma_mul_is_commutative(d, a);
    }
}

/// The pair before the second state is `(a0, 1)`, whose partial quotient is `2 a0`.
proof fn lemma_prev_of_first(n: nat, a0: nat)
    requires
        a0 >= 1,
        a0 * a0 < n < (a0 + 1) * (a0 + 1),
    ensures
        sqrt_cf_prev(n as int, a0 as int, sqrt_cf_pair(n, a0, 1).0, sqrt_cf_pair(n, a0, 1).1) == (
            a0 as int,
            1int,
        ),
{
    let t = sqrt_cf_state(n, a0, 1);
    lemma_states_reduced(n, a0, 1);
    assert(t.1 * 1 == n - t.0 * t.0);
    lemma_div_by_self(t.1);
    lemma_mod_of_one(a0 + t.0);
}

/// Some pair of states after the first repeats: pairs are reduced, so they take fewer than
/// `(a0 + 1)(2 a0 + 1)` values.
proof fn lemma_pair_repeats(n: nat, a0: nat) -> (r: (nat, nat))
    requires
        a0 >= 1,
        a0 * a0 < n < (a0 + 1) * (a0 + 1),
    ensures
        1 <= r.0 < r.1,
        sqrt_cf_pair(n, a0, r.0) == sqrt_cf_pair(n, a0, r.1),
{
    let w: int = 2 * a0 as int + 1;
    let b: int = (a0 + 1) * w;
    let f = |k: int| sqrt_cf_pair(n, a0, k as nat).0 * w + sqrt_cf_pair(n, a0, k as nat).1;
    let x = vstd::set_lib::set_int_range(1, b + 2);
    let y = x.map(f);
    vstd::set_lib::lemma_int_range(1, b + 2);
    vstd::set_lib::lemma_int_range(0, b);
    assert forall|k: int| x.contains(k) implies 0 <= #[trigger] f(k) < b by {
        lemma_states_reduced(n, a0, k as nat);
        let (m, d) = sqrt_cf_pair(n, a0, k as nat);
        assert(0 <= m * w + d < b) by (nonlinear_arith)
            requires
                0 <= m <= a0,
                1 <= d <= 2 * a0,
                w == 2 * a0 + 1,
                b == (a0 + 1) * w,
        ;
    }
    assert(y.subset_of(vstd::set_lib::set_int_range(0, b))) by {
        assert forall|v: int| y.contains(v) implies vstd::set_lib::set_int_range(0, b).contains(v) by {
            let k = choose|k: int| x.contains(k) && f(k) == v;
        }
    }
    vstd::set_lib::lemma_len_subset(y, vstd::set_lib::set_int_range(0, b));
    if vstd::relations::injective_on(f, x) {
        vstd::set_lib::lemma_map_size(x, y, f);
        assert(false);
    }
    let (i, j) = choose|i: int, j: int| x.contains(i) && x.contains(j) && #[trigger] f(i) == #[trigger] f(j) && i != j;
    lemma_states_reduced(n, a0, i as nat);
    lemma_states_reduced(n, a0, j as nat);
    let (mi, di) = sqrt_cf_pair(n, a0, i as nat);
    let (mj, dj) = sqrt_cf_pair(n, a0, j as nat);
    assert(mi == mj && di == dj) by (nonlinear_arith)
        requires
            mi * w + di == mj * w + dj,
            1 <= di < w,
            1 <= dj < w,
            mi >= 0,
            mj >= 0,
    ;
    if i < j {
        (i as nat, j as nat)
    } else {
        (j as nat, i as nat)
    }
}

/// Walking back from a repeated pair: if the pairs at `i < j` agree, so do those at `1` and
/// `j - i + 1`.
proof fn lemma_repeat_descends(n: nat, a0: nat, i: nat, j: nat)
    requires
        a0 >= 1,
        a0 * a0 < n < (a0 + 1) * (a0 + 1),
        1 <= i < j,
        sqrt_cf_pair(n, a0, i) == sqrt_cf_pair(n, a0, j),
    ensures
        sqrt_cf_pair(n, a0, 1) == sqrt_cf_pair(n, a0, (j - i + 1) as nat),
    decreases i,
{
    if i > 1 {
        lemma_prev_state(n, a0, i);
        lemma_prev_state(n, a0, j);
        lemma_repeat_descends(n, a0, (i - 1) as nat, (j - 1) as nat);
    }
}

/// The integer square root exists.
pub proof fn lemma_isqrt_exists(n: nat)
    ensures
        exists|r: nat| #[trigger] is_isqrt(r, n),
    decreases n,
{
    if n == 0 {
        assert((0nat + 1) * (0nat + 1) == 1) by (nonlinear_arith);
        assert(is_isqrt(0, 0));
    } else {
        lemma_isqrt_exists((n - 1) as nat);
        let r = choose|r: nat| #[trigger] is_isqrt(r, (n - 1) as nat);
        if (r + 1) * (r + 1) <= n {
            assert((r + 1) * (r + 1) == n);
            assert(n < (r + 2) * (r + 2)) by (nonlinear_arith)
                requires
                    (r + 1) * (r + 1) == n,
            ;
            assert(is_isqrt(r + 1, n));
        } else {
            assert(is_isqrt(r, n));
        }
    }
}

/// The continued fraction of √n for a non-square `n` is periodic: its first period ends with
/// a partial quotient `2 a0`.
pub proof fn lemma_sqrt_period_ends(n: nat)
    requires
        sqrt_a0(n) * sqrt_a0(n) != n,
    ensures
        sqrt_period_ends(n, sqrt_a0(n)),
{
    lemma_isqrt_exists(n);
    let a0 = sqrt_a0(n);
    assert(is_isqrt(a0, n));
    if a0 == 0 {
        assert((a0 + 1) * (a0 + 1) == 1) by (nonlinear_arith)
            requires
                a0 == 0,
        ;
        assert(n < 1);
        assert(0nat * 0 == 0);
    }
    assert(a0 >= 1);
    let (i, j) = lemma_pair_repeats(n, a0);
    lemma_repeat_descends(n, a0, i, j);
    let p = (j - i) as nat;
    lemma_prev_state(n, a0, p + 1);
    lemma_prev_of_first(n, a0);
    lemma_state_term(n, a0, p);
    assert(sqrt_cf_pair(n, a0, p) == (a0 as int, 1int));
    lemma_div_basics(2 * a0 as int);
    assert(sqrt_cf_term(n, a0, p) == 2 * a0);
}

/// For a non-square `n`, `a0 = ⌊√n⌋ >= 1` and `a0^2 < n < (a0 + 1)^2`.
pub proof fn lemma_sqrt_a0_facts(n: nat)
    requires
        sqrt_a0(n) * sqrt_a0(n) != n,
    ensures
        is_isqrt(sqrt_a0(n), n),
        sqrt_a0(n) >= 1,
        sqrt_a0(n) * sqrt_a0(n) < n,
{
    lemma_isqrt_exists(n);
    let a0 = sqrt_a0(n);
    assert(is_isqrt(a0, n));
    if a0 == 0 {
        assert((a0 + 1) * (a0 + 1) == 1) by (nonlinear_arith)
            requires
                a0 == 0,
        ;
        assert(0nat * 0 == 0);
    }
}

/// From one index where the period ends, a least such index exists.
proof fn lemma_least_period_end(n: nat, a0: nat, k: nat)
    requires
        k >= 1,
        sqrt_cf_term(n, a0, k) == 2 * a0,
    ensures
        exists|r: nat|
            #![trigger sqrt_cf_term(n, a0, r)]
            r >= 1 && sqrt_cf_term(n, a0, r) == 2 * a0 && forall|j: nat|
                1 <= j < r ==> #[trigger] sqrt_cf_term(n, a0, j) != 2 * a0,
    decreases k,
{
    if exists|j: nat| 1 <= j < k && #[trigger] sqrt_cf_term(n, a0, j) == 2 * a0 {
        let j = choose|j: nat| 1 <= j < k && #[trigger] sqrt_cf_term(n, a0, j) == 2 * a0;
        lemma_least_period_end(n, a0, j);
    } else {
        assert(forall|j: nat| 1 <= j < k ==> #[trigger] sqrt_cf_term(n, a0, j) != 2 * a0);
    }
}

/// The first period of √n ends in the state `(a0, 1, 2 a0)`.
pub proof fn lemma_period_end_state(n: nat)
    requires
        sqrt_a0(n) * sqrt_a0(n) != n,
    ensures
        sqrt_period_length(n) >= 1,
        sqrt_cf_state(n, sqrt_a0(n), sqrt_period_length(n)) == (
            sqrt_a0(n) as int,
            1int,
            2 * sqrt_a0(n) as int,
        ),
        forall|j: nat|
            1 <= j < sqrt_period_length(n) ==> #[trigger] sqrt_cf_term(n, sqrt_a0(n), j) != 2
                * sqrt_a0(n),
{
    let a0 = sqrt_a0(n);
    lemma_sqrt_a0_facts(n);
    lemma_sqrt_period_ends(n);
    let k = choose|k: nat| k >= 1 && #[trigger] sqrt_cf_term(n, a0, k) == 2 * a0;
    lemma_least_period_end(n, a0, k);
    let r = sqrt_period_length(n);
    assert(r >= 1 && sqrt_cf_term(n, a0, r) == 2 * a0);
    lemma_states_reduced(n, a0, r);
    lemma_state_term(n, a0, r);
    let (m, d, a) = sqrt_cf_state(n, a0, r);
    lemma_fundamental_div_mod(a0 + m, d);
    lemma_mod_bound(a0 + m, d);
    assert(d == 1) by {
        if d >= 2 {
            assert(d * (2 * a0) >= 4 * a0) by (nonlinear_arith)
                requires
                    d >= 2,
                    a0 >= 1,
            ;
        }
    }
    assert(m == a0) by {
        lemma_div_basics(a0 + m);
    }
}

/// After the first period the states repeat: `S_{r + j} = S_j` for `j >= 1`.
pub proof fn lemma_states_repeat(n: nat, j: nat)
    requires
        sqrt_a0(n) * sqrt_a0(n) != n,
        j >= 1,
    ensures
        sqrt_cf_state(n, sqrt_a0(n), sqrt_period_length(n) + j) == sqrt_cf_state(
            n,
            sqrt_a0(n),
            j,
        ),
    decreases j,
{
    let a0 = sqrt_a0(n);
    let r = sqrt_period_length(n);
    lemma_period_end_state(n);
    if j == 1 {
        assert(1 * (2 * a0 as int) - a0 == a0);
        assert(1 * (a0 as int) - 0 == a0);
        assert(sqrt_cf_state(n, a0, r + 1) == sqrt_cf_step(n as int, a0 as int, sqrt_cf_state(n, a0, r)));
        assert(sqrt_cf_state(n, a0, 1) == sqrt_cf_step(n as int, a0 as int, sqrt_cf_state(n, a0, 0)));
    } else {
        lemma_states_repeat(n, (j - 1) as nat);
        assert(sqrt_cf_state(n, a0, r + j) == sqrt_cf_step(
            n as int,
            a0 as int,
            sqrt_cf_state(n, a0, (r + j - 1) as nat),
        ));
        assert((r + j - 1) as nat == r + (j - 1) as nat);
    }
}

/// The partial quotients repeat with the period: `a_i = a_{((i-1) mod r) + 1}` for `i >= 1`.
pub proof fn lemma_terms_repeat(n: nat, i: nat)
    requires
        sqrt_a0(n) * sqrt_a0(n) != n,
        i >= 1,
    ensures
        sqrt_cf_term(n, sqrt_a0(n), i) == sqrt_cf_term(
            n,
            sqrt_a0(n),
            (((i - 1) as int % sqrt_period_length(n) as int) + 1) as nat,
        ),
    decreases i,
{
    let r = sqrt_period_length(n);
    lemma_period_end_state(n);
    if i <= r {
        lemma_small_mod((i - 1) as nat, r);
    } else {
        let j = (i - r) as nat;
        lemma_states_repeat(n, j);
        assert(r + j == i);
        lemma_terms_repeat(n, j);
        lemma_mod_add_multiples_vanish((j - 1) as int, r as int);
        assert((j - 1) as int + r == (i - 1) as int);
    }
}

/// The partial quotients of √n stay in `[1, 2 a0]` after the first.
pub proof fn lemma_term_bounds(n: nat, k: nat)
    requires
        sqrt_a0(n) * sqrt_a0(n) != n,
    ensures
        0 <= sqrt_cf_term(n, sqrt_a0(n), k) <= 2 * sqrt_a0(n),
{
    let a0 = sqrt_a0(n);
    lemma_sqrt_a0_facts(n);
    lemma_state_term(n, a0, k);
    if k >= 1 {
        lemma_states_reduced(n, a0, k);
        let (m, d, a) = sqrt_cf_state(n, a0, k);
        lemma_div_is_ordered_by_denominator(a0 + m, 1, d);
        lemma_div_basics(a0 + m);
        lemma_div_pos_is_pos(a0 + m, d);
    } else {
        lemma_div_basics(a0 as int);
    }
}

/// The map on pairs behind one step of the expansion: `(m, d)` goes to `(d a - m, (n - m'^2) / d)`
/// with `a = ⌊(a0 + m) / d⌋`.
pub open spec fn sqrt_pair_step(n: int, a0: int, p: (int, int)) -> (int, int) {
    let a = (a0 + p.0) / p.1;
    let m = p.1 * a - p.0;
    (m, (n - m * m) / p.1)
}

/// The pair `(m_{k+1}, d_k)`: walking these backwards takes the same steps as the forward
/// expansion.
pub open spec fn sqrt_cross_pair(n: nat, a0: nat, k: nat) -> (int, int) {
    (sqrt_cf_pair(n, a0, k + 1).0, sqrt_cf_pair(n, a0, k).1)
}

/// The step map takes each pair of the expansion to the next one.
proof fn lemma_pair_step_forward(n: nat, a0: nat, k: nat)
    ensures
        sqrt_pair_step(n as int, a0 as int, sqrt_cf_pair(n, a0, k)) == sqrt_cf_pair(n, a0, k + 1),
{
    lemma_state_term(n, a0, k);
    assert(sqrt_cf_state(n, a0, k + 1) == sqrt_cf_step(n as int, a0 as int, sqrt_cf_state(n, a0, k)));
}

/// The step map takes the cross pair at `k >= 1` to the cross pair at `k - 1`.
proof fn lemma_pair_step_backward(n: nat, a0: nat, k: nat)
    requires
        a0 >= 1,
        a0 * a0 < n < (a0 + 1) * (a0 + 1),
        k >= 1,
    ensures
        sqrt_pair_step(n as int, a0 as int, sqrt_cross_pair(n, a0, k)) == sqrt_cross_pair(
            n,
            a0,
            (k - 1) as nat,
        ),
{
    let (m, d, a) = sqrt_cf_state(n, a0, k);
    lemma_states_reduced(n, a0, k);
    lemma_state_term(n, a0, k);
    assert(sqrt_cf_state(n, a0, k + 1) == sqrt_cf_step(n as int, a0 as int, sqrt_cf_state(n, a0, k)));
    let m1 = d * a - m;
    assert(sqrt_cf_pair(n, a0, k + 1).0 == m1);
    // a0 + m1 == d * a + (a0 - m) with 0 <= a0 - m < d
    assert(a0 + m1 == a * d + (a0 - m)) by (nonlinear_arith)
        requires
            m1 == d * a - m,
    ;
    lemma_fundamental_div_mod_converse(a0 + m1, d, a, a0 - m);
    assert((a0 + m1) / d == a);
    assert(d * a - m1 == m);
    // the denominator before
    let dp = sqrt_cf_state(n, a0, (k - 1) as nat).1;
    assert(dp * d == n - m * m);
    lemma_div_multiples_vanish(dp, d);
    lemma_mul_is_commutative(dp, d);
    assert((n - m * m) / d == dp);
    assert(sqrt_cf_pair(n, a0, k).0 == m);
}

/// Going back from the end of the first period retraces the period: the cross pair at
/// `r - j` is the pair at `j`, for `1 <= j <= r`.
proof fn lemma_period_reflects(n: nat, j: nat)
    requires
        sqrt_a0(n) * sqrt_a0(n) != n,
        1 <= j <= sqrt_period_length(n),
    ensures
        sqrt_cross_pair(n, sqrt_a0(n), (sqrt_period_length(n) - j) as nat) == sqrt_cf_pair(
            n,
            sqrt_a0(n),
            j,
        ),
    decreases j,
{
    let a0 = sqrt_a0(n);
    let r = sqrt_period_length(n);
    lemma_sqrt_a0_facts(n);
    lemma_period_end_state(n);
    if j == 1 {
        // the cross pair at r is the pair at r: (a0, 1)
        lemma_states_repeat(n, 1);
        assert(sqrt_cf_state(n, a0, 1) == sqrt_cf_step(n as int, a0 as int, sqrt_cf_state(n, a0, 0)));
        assert(1 * (a0 as int) - 0 == a0);
        assert(sqrt_cross_pair(n, a0, r) == sqrt_cf_pair(n, a0, r));
        lemma_pair_step_backward(n, a0, r);
        lemma_pair_step_forward(n, a0, r);
        lemma_states_repeat(n, 1);
    } else {
        lemma_period_reflects(n, (j - 1) as nat);
        let i = (r - (j - 1)) as nat;
        assert(i >= 1);
        lemma_pair_step_backward(n, a0, i);
        lemma_pair_step_forward(n, a0, (j - 1) as nat);
        assert((i - 1) as nat == (r - j) as nat);
    }
}

/// The first period of √n is a palindrome before its last term: `a_j = a_{r-j}` for
/// `1 <= j < r`.
pub proof fn lemma_sqrt_period_palindrome(n: nat, j: nat)
    requires
        sqrt_a0(n) * sqrt_a0(n) != n,
        1 <= j < sqrt_period_length(n),
    ensures
        sqrt_cf_term(n, sqrt_a0(n), j) == sqrt_cf_term(
            n,
            sqrt_a0(n),
            (sqrt_period_length(n) - j) as nat,
        ),
{
    let a0 = sqrt_a0(n);
    let r = sqrt_period_length(n);
    lemma_sqrt_a0_facts(n);
    let i = (r - j) as nat;
    lemma_period_reflects(n, j);
    lemma_period_reflects(n, j + 1);
    assert((r - (j + 1)) as nat == (i - 1) as nat);
    let (mj, dj, aj) = sqrt_cf_state(n, a0, j);
    let (mi, di, ai) = sqrt_cf_state(n, a0, i);
    let mj1 = sqrt_cf_state(n, a0, j + 1).0;
    let mi1 = sqrt_cf_state(n, a0, i + 1).0;
    assert(sqrt_cf_state(n, a0, j + 1) == sqrt_cf_step(n as int, a0 as int, sqrt_cf_state(n, a0, j)));
    assert(sqrt_cf_state(n, a0, i + 1) == sqrt_cf_step(n as int, a0 as int, sqrt_cf_state(n, a0, i)));
    // the cross pairs give m_{i+1} = m_j, d_i = d_j and m_i = m_{j+1}
    assert(mi1 == mj && di == dj);
    assert(mi == mj1);
    lemma_states_reduced(n, a0, j);
    assert(dj * ai == dj * aj);
    lemma_mul_equality_converse(dj, ai, aj);
}

/// `d * x == d * y` with `d > 0` gives `x == y`.
proof fn lemma_mul_equality_converse(d: int, x: int, y: int)
    requires
        d > 0,
        d * x == d * y,
    ensures
        x == y,
{
    if x < y {
        lemma_mul_strict_inequality(x, y, d);
        lemma_mul_is_commutative(d, x);
        lemma_mul_is_commutative(d, y);
    } else if x > y {
        lemma_mul_strict_inequality(y, x, d);
        lemma_mul_is_commutative(d, x);
        lemma_mul_is_commutative(d, y);
    }
}

/// The terms of the first period of √n before its last lie in `[1, a0]`.
pub proof fn lemma_inner_term_bounds(n: nat, k: nat)
    requires
        sqrt_a0(n) * sqrt_a0(n) != n,
        1 <= k < sqrt_period_length(n),
    ensures
        1 <= sqrt_cf_term(n, sqrt_a0(n), k) <= sqrt_a0(n),
{
    let a0 = sqrt_a0(n);
    lemma_sqrt_a0_facts(n);
    lemma_period_end_state(n);
    lemma_states_reduced(n, a0, k);
    lemma_state_term(n, a0, k);
    let (m, d, a) = sqrt_cf_state(n, a0, k);
    assert(sqrt_cf_term(n, a0, k) != 2 * a0);
    if d == 1 {
        lemma_div_basics(a0 + m);
        assert(m == a0);
    }
    assert(d >= 2);
    lemma_div_is_ordered_by_denominator(a0 + m, 2, d);
    lemma_div_is_ordered(a0 + m, 2 * (a0 as int), 2);
    lemma_div_multiples_vanish(a0 as int, 2);
    lemma_div_is_ordered(d, a0 + m, d);
    lemma_div_by_self(d);
}

/// For `n < 2^64`, the terms of the repeating expansion `[a0; periodic...]` used by the
/// convergents are the partial quotients of √n.
pub proof fn lemma_cf_term_is_sqrt_term(n: nat, i: nat)
    requires
        sqrt_a0(n) * sqrt_a0(n) != n,
        n <= u64::MAX,
    ensures
        cf_term(sqrt_a0(n) as u64, sqrt_periodic_part(n), i) == sqrt_cf_term(n, sqrt_a0(n), i),
{
    let a0 = sqrt_a0(n);
    lemma_sqrt_a0_facts(n);
    assert(a0 < 0x1_0000_0000) by {
        if a0 >= 0x1_0000_0000 {
            assert(a0 * a0 >= 0x1_0000_0000 * 0x1_0000_0000) by (nonlinear_arith)
                requires
                    a0 >= 0x1_0000_0000,
            ;
        }
    }
    lemma_period_end_state(n);
    let r = sqrt_period_length(n);
    if i == 0 {
        lemma_state_term(n, a0, 0);
        lemma_div_basics(a0 as int);
    } else {
        lemma_terms_repeat(n, i);
        lemma_mod_bound((i - 1) as int, r as int);
        let j = ((i - 1) as int % r as int) + 1;
        lemma_term_bounds(n, j as nat);
        assert(sqrt_periodic_part(n)[j - 1] == sqrt_cf_term(n, a0, j as nat) as u64);
    }
}

/// The first period computed term by term is `sqrt_periodic_part`.
proof fn lemma_periodic_part_is_canonical(n: nat, periodic: Seq<u64>)
    requires
        periodic.len() >= 1,
        forall|j: int|
            0 <= j < periodic.len() ==> #[trigger] periodic[j] as int == sqrt_cf_term(
                n,
                sqrt_a0(n),
                (j + 1) as nat,
            ),
        periodic[periodic.len() - 1] == 2 * sqrt_a0(n),
        forall|j: int| 0 <= j < periodic.len() - 1 ==> #[trigger] periodic[j] != 2 * sqrt_a0(n),
    ensures
        periodic == sqrt_periodic_part(n),
{
    let a0 = sqrt_a0(n);
    let len = periodic.len() as nat;
    assert forall|j: nat| 1 <= j < len implies #[trigger] sqrt_cf_term(n, a0, j) != 2 * a0 by {
        assert(periodic[j - 1] as int == sqrt_cf_term(n, a0, ((j - 1) + 1) as nat));
    }
    assert(periodic[len - 1] as int == sqrt_cf_term(n, a0, ((len - 1) + 1) as nat));
    let k = sqrt_period_length(n);
    assert(k >= 1 && sqrt_cf_term(n, a0, k) == 2 * a0 && forall|j: nat|
        1 <= j < k ==> #[trigger] sqrt_cf_term(n, a0, j) != 2 * a0);
    if k < len {
        assert(sqrt_cf_term(n, a0, k) != 2 * a0);
    }
    if k > len {
        assert(sqrt_cf_term(n, a0, len) != 2 * a0);
    }
    assert forall|j: int| 0 <= j < len implies #[trigger] periodic[j] == sqrt_periodic_part(n)[j] by {
        assert(periodic[j] as int == sqrt_cf_term(n, a0, (j + 1) as nat));
    }
    assert(periodic =~= sqrt_periodic_part(n));
}

impl ContinuedFraction {
    /// Continued fraction expansion of √n: `a0 = ⌊√n⌋` and, for non-square `n`, the partial
    /// quotients `a_1, ..., a_r` up to and including the first one equal to `2 * a0`
    /// (the period). The terms before the last lie in `[1, a0]` and read the same backwards.
    /// A perfect square has an empty periodic part.
    pub fn from_sqrt(n: u64) -> (r: Self)
        ensures
            is_isqrt(r.a0 as nat, n as nat),
            r.a0 == sqrt_a0(n as nat),
            (r.a0 as nat) * (r.a0 as nat) != n ==> r.periodic@ == sqrt_periodic_part(n as nat),
            (r.a0 as nat) * (r.a0 as nat) == n ==> r.periodic.len() == 0,
            (r.a0 as nat) * (r.a0 as nat) != n ==> {
                &&& r.periodic.len() >= 1
                &&& forall|j: int|
                    0 <= j < r.periodic.len() ==> #[trigger] r.periodic[j] as int == sqrt_cf_term(
                        n as nat,
                        r.a0 as nat,
                        (j + 1) as nat,
                    )
                &&& r.periodic[r.periodic.len() - 1] == 2 * r.a0
                &&& forall|j: int| 0 <= j < r.periodic.len() - 1 ==> #[trigger] r.periodic[j] != 2 * r.a0
                &&& forall|j: int|
                    0 <= j < r.periodic.len() - 1 ==> 1 <= #[trigger] r.periodic[j] <= r.a0
                &&& forall|j: int|
                    0 <= j < r.periodic.len() - 1 ==> #[trigger] r.periodic[j] == r.periodic[r.periodic.len()
                        - 2 - j]
            },
    {
        let sqrt_n = isqrt(n);
        proof {
            lemma_isqrt_unique(sqrt_n as nat, sqrt_a0(n as nat), n as nat);
        }
        if sqrt_n * sqrt_n == n {
            return ContinuedFraction { a0: sqrt_n, periodic: Vec::new() };
        }
        let a0 = sqrt_n;
        proof {
            assert(a0 >= 1) by {
                if a0 == 0 {
                    assert((a0 as int + 1) * (a0 as int + 1) == 1) by (nonlinear_arith)
                        requires
                            a0 == 0,
                    ;
                    assert(n < 1);
                }
            }
        }
        proof {
            lemma_sqrt_period_ends(n as nat);
        }
        let ghost target = choose|k: nat| k >= 1 && #[trigger] sqrt_cf_term(n as nat, a0 as nat, k) == 2 * a0;
        let mut periodic: Vec<u64> = Vec::new();
        let mut m: u64 = 0;
        let mut d: u64 = 1;
        let mut a: u64 = a0;
        let mut done: bool = false;
        while !done
            invariant
                a0 >= 1,
                a0 <= 0xffff_ffff,
                (a0 as int) * (a0 as int) < n < (a0 as int + 1) * (a0 as int + 1),
                target >= 1,
                sqrt_cf_term(n as nat, a0 as nat, target) == 2 * a0,
                periodic.len() <= target,
                (m as int, d as int, a as int) == sqrt_cf_state(n as nat, a0 as nat, periodic.len() as nat),
                (periodic.len() == 0 && m == 0 && d == 1) || reduced_state(n as int, a0 as int, m as int, d as int),
                a as int == (a0 + m) as int / (d as int),
                forall|j: int|
                    0 <= j < periodic.len() ==> #[trigger] periodic[j] as int == sqrt_cf_term(
                        n as nat,
                        a0 as nat,
                        (j + 1) as nat,
                    ),
                !done ==> forall|j: int| 0 <= j < periodic.len() ==> #[trigger] periodic[j] != 2 * a0,
                done ==> periodic.len() >= 1 && periodic[periodic.len() - 1] == 2 * a0,
                done ==> forall|j: int| 0 <= j < periodic.len() - 1 ==> #[trigger] periodic[j] != 2 * a0,
            decreases target - periodic.len() + (if done {
                0int
            } else {
                1int
            }),
        {
            proof {
                lemma_sqrt_cf_step(n as int, a0 as int, m as int, d as int, a as int);
                assert(periodic.len() < target) by {
                    if periodic.len() == target {
                        assert(periodic[target - 1] as int == sqrt_cf_term(
                            n as nat,
                            a0 as nat,
                            ((target - 1) + 1) as nat,
                        ));
                    }
                }
            }
            let ghost k = periodic.len();
            m = d * a - m;
            d = (n - m * m) / d;
            a = (a0 + m) / d;
            periodic.push(a);
            proof {
                assert(sqrt_cf_state(n as nat, a0 as nat, (k + 1) as nat) == sqrt_cf_step(
                    n as int,
                    a0 as int,
                    sqrt_cf_state(n as nat, a0 as nat, k as nat),
                ));
                assert(periodic[k as int] == a);
            }
            if a == 2 * a0 {
                done = true;
            }
        }
        proof {
            lemma_periodic_part_is_canonical(n as nat, periodic@);
            let len = periodic.len() as int;
            assert(len == sqrt_period_length(n as nat));
            assert forall|j: int| 0 <= j < len - 1 implies 1 <= #[trigger] periodic[j] <= a0
                && periodic[j] == periodic[len - 2 - j] by {
                lemma_inner_term_bounds(n as nat, (j + 1) as nat);
                lemma_sqrt_period_palindrome(n as nat, (j + 1) as nat);
                assert(periodic[j] as int == sqrt_cf_term(n as nat, a0 as nat, (j + 1) as nat));
                assert(periodic[len - 2 - j] as int == sqrt_cf_term(
                    n as nat,
                    a0 as nat,
                    ((len - 2 - j) + 1) as nat,
                ));
                assert(((len - 2 - j) + 1) as nat == (sqrt_period_length(n as nat) - (j + 1)) as nat);
            }
        }
        ContinuedFraction { a0, periodic }
    }
}


// ---------------------------------------------------------------------------
// Convergents
// ---------------------------------------------------------------------------

/// The `i`-th term of the expansion `[a0; periodic, periodic, ...]`, the periodic part
/// repeating.
pub open spec fn cf_term(a0: u64, periodic: Seq<u64>, i: nat) -> nat {
    if i == 0 {
        a0 as nat
    } else {
        periodic[((i - 1) as int) % (periodic.len() as int)] as nat
    }
}

/// The numerator `h_i` of the `i`-th convergent: `h_{-2} = 0`, `h_{-1} = 1`,
/// `h_i = a_i h_{i-1} + h_{i-2}`.
pub open spec fn convergent_numerator(a0: u64, periodic: Seq<u64>, i: int) -> nat
    decreases i + 2,
{
    if i <= -2 {
        0
    } else if i == -1 {
        1
    } else {
        cf_term(a0, periodic, i as nat) * convergent_numerator(a0, periodic, i - 1)
            + convergent_numerator(a0, periodic, i - 2)
    }
}

/// The denominator `k_i` of the `i`-th convergent: `k_{-2} = 1`, `k_{-1} = 0`,
/// `k_i = a_i k_{i-1} + k_{i-2}`.
pub open spec fn convergent_denominator(a0: u64, periodic: Seq<u64>, i: int) -> nat
    decreases i + 2,
{
    if i <= -2 {
        1
    } else if i == -1 {
        0
    } else {
        cf_term(a0, periodic, i as nat) * convergent_denominator(a0, periodic, i - 1)
            + convergent_denominator(a0, periodic, i - 2)
    }
}

/// How many convergents a request for `count` of them yields: all of them, except that an
/// expansion with no periodic part is finite and has just one.
pub open spec fn convergent_count(periodic_len: usize, count: usize) -> usize {
    if periodic_len == 0 && count > 1 {
        1
    } else {
        count
    }
}

impl ContinuedFraction {
    /// The first `count` convergents `(h_i, k_i)`; the periodic part repeats as needed. An
    /// expansion with no periodic part is finite and has the single convergent `(a0, 1)`.
    pub fn convergents(&self, count: usize) -> (r: Vec<(u64, u64)>)
        requires
            forall|i: int|
                0 <= i < convergent_count(self.periodic.len(), count) ==> #[trigger] convergent_numerator(
                    self.a0,
                    self.periodic@,
                    i,
                ) <= u64::MAX && convergent_denominator(self.a0, self.periodic@, i) <= u64::MAX,
        ensures
            r.len() == convergent_count(self.periodic.len(), count),
            forall|i: int|
                0 <= i < r.len() ==> #[trigger] r[i] == (
                    convergent_numerator(self.a0, self.periodic@, i) as u64,
                    convergent_denominator(self.a0, self.periodic@, i) as u64,
                ),
    {
        let ghost old_count = count;
        let count = if self.periodic.len() == 0 && count > 1 {
            1
        } else {
            count
        };
        assert(count == convergent_count(self.periodic.len(), old_count));
        let mut convergents: Vec<(u64, u64)> = Vec::new();
        let mut h_prev2: u64 = 0;
        let mut h_prev1: u64 = 1;
        let mut k_prev2: u64 = 1;
        let mut k_prev1: u64 = 0;
        let mut i: usize = 0;
        while i < count
            invariant
                0 <= i <= count,
                count <= 1 || self.periodic.len() > 0,
                forall|j: int|
                    0 <= j < count ==> #[trigger] convergent_numerator(self.a0, self.periodic@, j)
                        <= u64::MAX && convergent_denominator(self.a0, self.periodic@, j) <= u64::MAX,
                convergents.len() == i,
                h_prev1 == convergent_numerator(self.a0, self.periodic@, i - 1),
                h_prev2 == convergent_numerator(self.a0, self.periodic@, i - 2),
                k_prev1 == convergent_denominator(self.a0, self.periodic@, i - 1),
                k_prev2 == convergent_denominator(self.a0, self.periodic@, i - 2),
                forall|j: int|
                    0 <= j < i ==> #[trigger] convergents[j] == (
                        convergent_numerator(self.a0, self.periodic@, j) as u64,
                        convergent_denominator(self.a0, self.periodic@, j) as u64,
                    ),
            decreases count - i,
        {
            let a_i = if i == 0 {
                self.a0
            } else {
                proof {
                    vstd::arithmetic::div_mod::lemma_mod_bound((i - 1) as int, self.periodic.len() as int);
                }
                self.periodic[(i - 1) % self.periodic.len()]
            };
            proof {
                assert(a_i as nat == cf_term(self.a0, self.periodic@, i as nat));
                let h = convergent_numerator(self.a0, self.periodic@, i as int);
                let k = convergent_denominator(self.a0, self.periodic@, i as int);
                assert(h <= u64::MAX && k <= u64::MAX);
                assert(a_i * h_prev1 <= h) by (nonlinear_arith)
                    requires
                        h == a_i * h_prev1 + h_prev2,
                        h_prev2 >= 0,
                ;
                assert(a_i * k_prev1 <= k) by (nonlinear_arith)
                    requires
                        k == a_i * k_prev1 + k_prev2,
                        k_prev2 >= 0,
                ;
            }
            let h = a_i * h_prev1 + h_prev2;
            let k = a_i * k_prev1 + k_prev2;
            convergents.push((h, k));
            h_prev2 = h_prev1;
            h_prev1 = h;
            k_prev2 = k_prev1;
            k_prev1 = k;
            i = i + 1;
        }
        convergents
    }

    /// The period length: the number of terms in the periodic part.
    pub fn period_length(&self) -> (r: usize)
        ensures
            r == self.periodic.len(),
    {
        self.periodic.len()
    }
}

// ---------------------------------------------------------------------------
// Rationals
// ---------------------------------------------------------------------------

/// The quotients of Euclid's algorithm on `(d, r)`: the continued fraction of `d / r`
/// after its integer part has been taken.
pub open spec fn euclid_quotients(d: nat, r: nat) -> Seq<nat>
    decreases r,
{
    if r == 0 {
        Seq::empty()
    } else {
        proof {
            lemma_mod_pos_bound(d as int, r as int);
        }
        seq![d / r] + euclid_quotients(r, d % r)
    }
}

/// Continued fraction of the rational `p / q`: `a0 = p / q` and the further partial
/// quotients from Euclid's algorithm (`[p]` when `q = 0`). The further quotients are at least 1,
/// the last at least 2, and the expansion evaluates to `p / q` in lowest terms.
pub fn rational_cf(p: u64, q: u64) -> (r: ContinuedFraction)
    ensures
        q == 0 ==> r.a0 == p && r.periodic.len() == 0,
        q != 0 ==> r.a0 == p / q && r.periodic@.map_values(|x: u64| x as nat) == euclid_quotients(
            q as nat,
            (p % q) as nat,
        ),
        q != 0 ==> forall|i: int| 0 <= i < r.periodic.len() ==> #[trigger] r.periodic[i] >= 1,
        q != 0 && r.periodic.len() > 0 ==> r.periodic[r.periodic.len() - 1] >= 2,
        q != 0 ==> cf_value(seq![r.a0 as nat] + r.periodic@.map_values(|x: u64| x as nat)) == (
            (p as nat) / spec_gcd(p as nat, q as nat),
            (q as nat) / spec_gcd(p as nat, q as nat),
        ),
{
    if q == 0 {
        return ContinuedFraction { a0: p, periodic: Vec::new() };
    }
    let a0 = p / q;
    let mut terms: Vec<u64> = Vec::new();
    let mut rem = p % q;
    let mut d = q;
    let ghost whole = euclid_quotients(q as nat, (p % q) as nat);
    proof {
        assert(terms@.map_values(|x: u64| x as nat) + euclid_quotients(d as nat, rem as nat) =~= whole);
    }
    while rem != 0
        invariant
            terms@.map_values(|x: u64| x as nat) + euclid_quotients(d as nat, rem as nat) == whole,
        decreases rem,
    {
        let ghost before = terms@;
        let new_d = rem;
        let a = d / rem;
        proof {
            lemma_mod_pos_bound(d as int, rem as int);
        }
        rem = d % rem;
        d = new_d;
        terms.push(a);
        proof {
            assert(terms@.map_values(|x: u64| x as nat) =~= before.map_values(|x: u64| x as nat).push(
                a as nat,
            ));
            assert(terms@.map_values(|x: u64| x as nat) + euclid_quotients(d as nat, rem as nat)
                =~= before.map_values(|x: u64| x as nat) + (seq![a as nat] + euclid_quotients(
                d as nat,
                rem as nat,
            )));
        }
    }
    proof {
        assert(terms@.map_values(|x: u64| x as nat) + Seq::<nat>::empty() =~= terms@.map_values(
            |x: u64| x as nat,
        ));
        let ts = terms@.map_values(|x: u64| x as nat);
        lemma_mod_pos_bound(p as int, q as int);
        lemma_euclid_quotient_bounds(q as nat, (p % q) as nat);
        assert forall|i: int| 0 <= i < terms.len() implies #[trigger] terms[i] >= 1 by {
            assert(ts[i] == terms[i] as nat);
        }
        if terms.len() > 0 {
            assert(ts[ts.len() - 1] == terms[terms.len() - 1] as nat);
        }
        let s = seq![a0 as nat] + ts;
        assert(s == seq![(p / q) as nat] + euclid_quotients(q as nat, (p % q) as nat));
        lemma_rational_cf_value(p as nat, q as nat);
        lemma_cf_value_coprime(s);
        lemma_lowest_terms_unique(cf_value(s).0, cf_value(s).1, p as nat, q as nat);
    }
    ContinuedFraction { a0, periodic: terms }
}

/// The value `n / d` of the finite continued fraction `[s0; s1, ..., sk]`, as a pair `(n, d)`
/// (the empty one stands for infinity, `(1, 0)`).
pub open spec fn cf_value(s: Seq<nat>) -> (nat, nat)
    decreases s.len(),
{
    if s.len() == 0 {
        (1, 0)
    } else {
        let (n, d) = cf_value(s.drop_first());
        (s[0] * n + d, n)
    }
}

/// The continued fraction of `p / q` evaluates back to `p / q`: for `q > 0`, the quotients
/// `[p / q; euclid_quotients(q, p mod q)]` that `rational_cf` returns have a value `n / d`
/// with `d > 0` and `n * q == d * p`.
pub proof fn lemma_rational_cf_value(p: nat, q: nat)
    requires
        q > 0,
    ensures
        ({
            let (n, d) = cf_value(seq![p / q] + euclid_quotients(q, p % q));
            n * q == d * p && d >= 1
        }),
    decreases q,
{
    let a = p / q;
    let r = p % q;
    let rest = euclid_quotients(q, r);
    let s = seq![a] + rest;
    assert(s.drop_first() =~= rest);
    assert(s[0] == a);
    assert(cf_value(s) == (a * cf_value(rest).0 + cf_value(rest).1, cf_value(rest).0));
    lemma_fundamental_div_mod(p as int, q as int);
    lemma_mod_pos_bound(p as int, q as int);
    if r == 0 {
        assert(rest =~= Seq::<nat>::empty());
        assert(cf_value(rest) == (1nat, 0nat));
        let n0 = cf_value(rest).0;
        assert(n0 == 1);
        assert(a * n0 == a) by (nonlinear_arith)
            requires
                n0 == 1,
        ;
        assert(cf_value(s).0 == a && cf_value(s).1 == 1);
        assert(a * q == 1 * p) by (nonlinear_arith)
            requires
                p == q * a + r,
                r == 0,
        ;
    } else {
        lemma_rational_cf_value(q, r);
        assert(rest == seq![q / r] + euclid_quotients(r, q % r));
        let (n1, d1) = cf_value(rest);
        assert(n1 * r == d1 * q && d1 >= 1);
        assert(n1 >= 1) by (nonlinear_arith)
            requires
                n1 * r == d1 * q,
                d1 >= 1,
                q > 0,
                r > 0,
        ;
        assert((a * n1 + d1) * q == n1 * p) by (nonlinear_arith)
            requires
                n1 * r == d1 * q,
                p == q * a + r,
        ;
    }
}

/// The quotients of Euclid's algorithm on `(d, r)` with `r < d` are all at least 1, and the
/// last of them is at least 2.
pub proof fn lemma_euclid_quotient_bounds(d: nat, r: nat)
    requires
        r < d,
    ensures
        forall|i: int|
            0 <= i < euclid_quotients(d, r).len() ==> #[trigger] euclid_quotients(d, r)[i] >= 1,
        euclid_quotients(d, r).len() > 0 ==> euclid_quotients(d, r)[euclid_quotients(d, r).len()
            - 1] >= 2,
    decreases r,
{
    if r > 0 {
        lemma_mod_pos_bound(d as int, r as int);
        lemma_euclid_quotient_bounds(r, d % r);
        let rest = euclid_quotients(r, d % r);
        let s = euclid_quotients(d, r);
        assert(s == seq![d / r] + rest);
        lemma_fundamental_div_mod(d as int, r as int);
        assert(d / r >= 1) by {
            lemma_div_is_ordered(r as int, d as int, r as int);
            lemma_div_by_self(r as int);
        }
        assert forall|i: int| 0 <= i < s.len() implies #[trigger] s[i] >= 1 by {
            if i > 0 {
                assert(s[i] == rest[i - 1]);
            }
        }
        if rest.len() == 0 {
            assert(d % r == 0) by {
                if d % r != 0 {
                    lemma_mod_pos_bound(r as int, (d % r) as int);
                    assert(rest.len() >= 1);
                }
            }
            assert(d / r >= 2) by (nonlinear_arith)
                requires
                    d == r * (d / r) + d % r,
                    d % r == 0,
                    r < d,
                    d / r >= 1,
            ;
        } else {
            assert(s[s.len() - 1] == rest[rest.len() - 1]);
        }
    }
}

/// The value `(n, d)` of a finite continued fraction is in lowest terms.
pub proof fn lemma_cf_value_coprime(s: Seq<nat>)
    ensures
        spec_gcd(cf_value(s).0, cf_value(s).1) == 1,
    decreases s.len(),
{
    if s.len() == 0 {
        assert(spec_gcd(1, 0) == 1);
    } else {
        let rest = s.drop_first();
        lemma_cf_value_coprime(rest);
        let (n1, d1) = cf_value(rest);
        let a = s[0];
        let n = a * n1 + d1;
        assert(cf_value(s) == (n, n1));
        lemma_gcd_divides(n1, d1);
        let g = spec_gcd(n, n1);
        lemma_gcd_divides(n, n1);
        assert(g > 0) by {
            if g == 0 {
                assert(n1 == 0 && n == 0);
                assert(d1 == 0) by (nonlinear_arith)
                    requires
                        n == a * n1 + d1,
                        n1 == 0,
                        n == 0,
                ;
            }
        }
        lemma_divides_mul(g, n1 as int, a as int);
        lemma_divides_add_sub(g, n as int, (a * n1) as int);
        assert((n - a * n1) as int == d1 as int);
        lemma_common_divisor_divides_gcd(n1, d1, g);
        lemma_divisor_le(g, 1);
    }
}

/// A fraction `n / d` in lowest terms equal to `p / q` is `p / q` reduced by `gcd(p, q)`.
proof fn lemma_lowest_terms_unique(n: nat, d: nat, p: nat, q: nat)
    requires
        q > 0,
        d >= 1,
        n * q == d * p,
        spec_gcd(n, d) == 1,
    ensures
        n == p / spec_gcd(p, q),
        d == q / spec_gcd(p, q),
{
    let g = spec_gcd(p, q);
    lemma_gcd_divides(p, q);
    lemma_fundamental_div_mod(p as int, g as int);
    lemma_fundamental_div_mod(q as int, g as int);
    let p1 = p / g;
    let q1 = q / g;
    assert(p == g * p1 && q == g * q1);
    // Bezout for (n, d) and for (p, q)
    let (e, u, v) = ext_gcd_spec(n as int, d as int);
    lemma_ext_gcd(n as int, d as int);
    assert(e == 1);
    let (f, x, y) = ext_gcd_spec(p as int, q as int);
    lemma_ext_gcd(p as int, q as int);
    assert(f == g);
    assert(n * q1 == d * p1) by (nonlinear_arith)
        requires
            n * q == d * p,
            p == g * p1,
            q == g * q1,
            g > 0,
    ;
    let t = p1 * u + q1 * v;
    assert(q1 == d * t) by (nonlinear_arith)
        requires
            n * u + d * v == 1,
            n * q1 == d * p1,
            t == p1 * u + q1 * v,
    ;
    assert(p1 == n * t) by (nonlinear_arith)
        requires
            n * u + d * v == 1,
            n * q1 == d * p1,
            t == p1 * u + q1 * v,
    ;
    assert(p1 * x + q1 * y == 1) by (nonlinear_arith)
        requires
            p * x + q * y == g,
            p == g * p1,
            q == g * q1,
            g > 0,
    ;
    assert(t * (n * x + d * y) == 1) by (nonlinear_arith)
        requires
            p1 * x + q1 * y == 1,
            q1 == d * t,
            p1 == n * t,
    ;
    assert(t >= 1) by (nonlinear_arith)
        requires
            q1 == d * t,
            q == g * q1,
            q > 0,
            g > 0,
            d >= 1,
    ;
    assert(t == 1) by (nonlinear_arith)
        requires
            t * (n * x + d * y) == 1,
            t >= 1,
    ;
}

/// Consecutive convergents satisfy `h_i k_{i-1} - h_{i-1} k_i = (-1)^(i+1)`, so each
/// convergent `h_i / k_i` is in lowest terms.
pub proof fn lemma_convergent_determinant(a0: u64, periodic: Seq<u64>, i: int)
    requires
        i >= -1,
    ensures
        convergent_numerator(a0, periodic, i) * convergent_denominator(a0, periodic, i - 1)
            - convergent_numerator(a0, periodic, i - 1) * convergent_denominator(a0, periodic, i)
            == (if i % 2 == 0 {
            -1int
        } else {
            1int
        }),
    decreases i + 1,
{
    if i >= 0 {
        lemma_convergent_determinant(a0, periodic, i - 1);
        let a = cf_term(a0, periodic, i as nat) as int;
        let h1 = convergent_numerator(a0, periodic, i - 1) as int;
        let h2 = convergent_numerator(a0, periodic, i - 2) as int;
        let k1 = convergent_denominator(a0, periodic, i - 1) as int;
        let k2 = convergent_denominator(a0, periodic, i - 2) as int;
        assert(convergent_numerator(a0, periodic, i) == a * h1 + h2);
        assert(convergent_denominator(a0, periodic, i) == a * k1 + k2);
        assert((a * h1 + h2) * k1 - h1 * (a * k1 + k2) == -(h1 * k2 - h2 * k1)) by (nonlinear_arith);
        assert((i - 1) % 2 == 0 <==> i % 2 != 0);
        let hi = convergent_numerator(a0, periodic, i) as int;
        let ki = convergent_denominator(a0, periodic, i) as int;
        assert(hi * k1 - h1 * ki == -(h1 * k2 - h2 * k1)) by (nonlinear_arith)
            requires
                hi == a * h1 + h2,
                ki == a * k1 + k2,
        ;
        assert(h1 * k2 - h2 * k1 == (if (i - 1) % 2 == 0 {
            -1int
        } else {
            1int
        }));
        assert(hi * k1 - h1 * ki == (if i % 2 == 0 {
            -1int
        } else {
            1int
        }));
    } else {
        assert(i == -1);
        assert(convergent_numerator(a0, periodic, -1) == 1);
        assert(convergent_denominator(a0, periodic, -2) == 1);
        assert(convergent_numerator(a0, periodic, -2) == 0);
        assert(convergent_denominator(a0, periodic, -1) == 0);
        let h = convergent_numerator(a0, periodic, -1) as int;
        let k = convergent_denominator(a0, periodic, -2) as int;
        let h2 = convergent_numerator(a0, periodic, -2) as int;
        let k2 = convergent_denominator(a0, periodic, -1) as int;
        assert(h * k - h2 * k2 == 1) by (nonlinear_arith)
            requires
                h == 1,
                k == 1,
                h2 == 0,
                k2 == 0,
        ;
        assert((-1int) % 2 == 1);
    }
}

} // verus!
