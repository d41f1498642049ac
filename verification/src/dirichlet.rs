//! Dirichlet characters given by their table of values modulo `q`.
use crate::arithmetic::{gcd, primitive_character_count, primitive_characters};
use crate::divisibility::spec_gcd;
use crate::divisibility::prime;
use vstd::arithmetic::power::pow;
use crate::quadratic::{legendre, legendre_symbol, lemma_legendre_multiplicative};
use vstd::prelude::*;

verus! {

/// A Dirichlet character mod `q`: its value on each residue class `0..q`.
pub struct DirichletCharacter {
    modulus: u64,
    values: Vec<i64>,
}

impl DirichletCharacter {
    /// One value per residue class.
    #[verifier::type_invariant]
    spec fn table_matches_modulus(self) -> bool {
        self.values.len() == self.modulus
    }

    /// The modulus `q`.
    pub closed spec fn spec_modulus(self) -> nat {
        self.modulus as nat
    }

    /// The value on each residue class `0..q`.
    pub closed spec fn spec_values(self) -> Seq<i64> {
        self.values@
    }

    /// χ(n): 0 at `n = 0`, otherwise the value of the class of `n` mod `q`.
    pub open spec fn value_at(self, n: nat) -> i64 {
        if n == 0 {
            0
        } else {
            self.spec_values()[(n % self.spec_modulus()) as int]
        }
    }

    /// The table is that of the principal character mod `q`: 1 on the classes coprime to
    /// `q`, 0 elsewhere.
    pub open spec fn is_principal_table(self) -> bool {
        &&& self.spec_values().len() == self.spec_modulus()
        &&& forall|i: int|
            0 <= i < self.spec_modulus() ==> #[trigger] self.spec_values()[i] == (if spec_gcd(
                i as nat,
                self.spec_modulus(),
            ) == 1 {
                1i64
            } else {
                0i64
            })
    }

    /// The table is that of the Legendre symbol mod `p`: `(n/p)` on the class of `n`.
    pub open spec fn is_legendre_table(self) -> bool {
        &&& self.spec_values().len() == self.spec_modulus()
        &&& forall|n: int|
            0 <= n < self.spec_modulus() ==> #[trigger] self.spec_values()[n] == legendre_symbol(
                n,
                self.spec_modulus(),
            )
    }

    /// Every non-zero value is 1.
    pub open spec fn nonzero_values_are_one(self) -> bool {
        forall|i: int|
            0 <= i < self.spec_values().len() && #[trigger] self.spec_values()[i] != 0
                ==> self.spec_values()[i] == 1
    }

    /// Create the principal character mod `q`: χ(n) = 1 if gcd(n, q) = 1, else 0.
    pub fn principal(modulus: u64) -> (r: Self)
        requires
            (modulus as nat) <= usize::MAX,
        ensures
            r.spec_modulus() == modulus,
            r.is_principal_table(),
    {
        let mut values: Vec<i64> = Vec::new();
        let mut i: u64 = 0;
        while i < modulus
            invariant
                i <= modulus,
                values.len() == i,
                forall|j: int|
                    0 <= j < i ==> #[trigger] values[j] == (if spec_gcd(j as nat, modulus as nat)
                        == 1 {
                        1i64
                    } else {
                        0i64
                    }),
            decreases modulus - i,
        {
            if gcd(i, modulus) == 1 {
                values.push(1);
            } else {
                values.push(0);
            }
            i = i + 1;
        }
        DirichletCharacter { modulus, values }
    }

    /// Create the Legendre symbol character mod the odd prime `p`: χ(n) = (n/p).
    pub fn legendre_character(p: u64) -> (r: Self)
        requires
            p <= i64::MAX + 1,
            (p as nat) <= usize::MAX,
        ensures
            r.spec_modulus() == p,
            r.is_legendre_table(),
    {
        if p == 0 {
            return DirichletCharacter { modulus: 0, values: Vec::new() };
        }
        let mut values: Vec<i64> = Vec::new();
        values.push(0);
        proof {
            vstd::arithmetic::div_mod::lemma_small_mod(0, p as nat);
        }
        let mut n: u64 = 1;
        while n < p
            invariant
                1 <= n <= p,
                p <= i64::MAX + 1,
                values.len() == n,
                forall|j: int| 0 <= j < n ==> #[trigger] values[j] == legendre_symbol(j, p as nat),
            decreases p - n,
        {
            proof {
                crate::modular::lemma_trunc_div_rem(n as int, p as int);
                vstd::arithmetic::div_mod::lemma_small_mod(n as nat, p as nat);
            }
            let v = legendre(n as i64, p);
            values.push(v);
            n = n + 1;
        }
        DirichletCharacter { modulus: p, values }
    }

    /// Evaluate the character at `n` (0 at `n = 0`).
    pub fn eval_i64(&self, n: u64) -> (r: i64)
        requires
            n == 0 || self.spec_modulus() > 0,
        ensures
            r == self.value_at(n as nat),
    {
        proof {
            use_type_invariant(self);
        }
        if n == 0 {
            return 0;
        }
        self.values[(n % self.modulus) as usize]
    }

    /// A character given by its table of values, one per residue class `0..q`; `None` when the
    /// table does not have exactly `q` entries.
    pub fn from_table(modulus: u64, values: Vec<i64>) -> (r: Option<Self>)
        ensures
            r is Some <==> values.len() == modulus,
            r matches Some(chi) ==> chi.spec_modulus() == modulus && chi.spec_values() == values@,
    {
        if values.len() as u64 != modulus {
            return None;
        }
        Some(DirichletCharacter { modulus, values })
    }

    /// The table of values, one per residue class `0..q`.
    pub fn table(&self) -> (r: &Vec<i64>)
        ensures
            r@ == self.spec_values(),
    {
        &self.values
    }

    /// The modulus of this character.
    pub fn modulus(&self) -> (r: u64)
        ensures
            r == self.spec_modulus(),
    {
        self.modulus
    }

    /// Check if this is the principal character: every non-zero value is 1.
    pub fn is_principal(&self) -> (r: bool)
        ensures
            r == self.nonzero_values_are_one(),
    {
        let mut i: usize = 0;
        while i < self.values.len()
            invariant
                0 <= i <= self.values.len(),
                forall|j: int| 0 <= j < i && #[trigger] self.values@[j] != 0 ==> self.values@[j] == 1,
            decreases self.values.len() - i,
        {
            if self.values[i] != 0 && self.values[i] != 1 {
                proof {
                    assert(self.spec_values()[i as int] == self.values@[i as int]);
                }
                return false;
            }
            i = i + 1;
        }
        true
    }
}

/// The number of primitive Dirichlet characters mod `q`:
/// `q ∏_{p || q} (1 - 2/p) ∏_{p^2 | q} (1 - 1/p)^2` (so `p - 2` for a prime `p`, 0 for
/// `q ≡ 2 (mod 4)`).
pub fn count_primitive_characters(q: u64) -> (r: u64)
    ensures
        r == primitive_character_count(q as nat),
{
    primitive_characters(q)
}

/// The principal character passes `is_principal`.
pub proof fn lemma_principal_is_principal(chi: DirichletCharacter)
    requires
        chi.is_principal_table(),
    ensures
        chi.nonzero_values_are_one(),
{
}

/// A character repeats with period `q`: χ(n + q) = χ(n) for `n >= 1`.
pub proof fn lemma_character_periodic(chi: DirichletCharacter, n: nat)
    requires
        chi.spec_modulus() > 0,
        n >= 1,
    ensures
        chi.value_at(n + chi.spec_modulus()) == chi.value_at(n),
{
    let q = chi.spec_modulus();
    vstd::arithmetic::div_mod::lemma_mod_add_multiples_vanish(n as int, q as int);
}

/// `gcd(n mod q, q) == gcd(n, q)`.
proof fn lemma_gcd_mod(n: nat, q: nat)
    requires
        q > 0,
    ensures
        spec_gcd(n % q, q) == spec_gcd(n, q),
{
    crate::divisibility::lemma_gcd_step(q, n);
    crate::divisibility::lemma_gcd_commutes(q, n);
}

/// The principal character is completely multiplicative: χ(ab) = χ(a) χ(b).
pub proof fn lemma_principal_multiplicative(chi: DirichletCharacter, a: nat, b: nat)
    requires
        chi.is_principal_table(),
        chi.spec_modulus() > 0,
    ensures
        chi.value_at(a * b) == chi.value_at(a) * chi.value_at(b),
{
    let q = chi.spec_modulus();
    if a == 0 || b == 0 {
        assert(a * b == 0) by (nonlinear_arith)
            requires
                a == 0 || b == 0,
        ;
        assert(chi.value_at(a) == 0 || chi.value_at(b) == 0);
        assert(chi.value_at(a) * chi.value_at(b) == 0) by (nonlinear_arith)
            requires
                chi.value_at(a) == 0 || chi.value_at(b) == 0,
        ;
    } else {
        assert(a * b >= 1) by (nonlinear_arith)
            requires
                a >= 1,
                b >= 1,
        ;
        vstd::arithmetic::div_mod::lemma_mod_bound(a as int, q as int);
        vstd::arithmetic::div_mod::lemma_mod_bound(b as int, q as int);
        vstd::arithmetic::div_mod::lemma_mod_bound((a * b) as int, q as int);
        lemma_gcd_mod(a, q);
        lemma_gcd_mod(b, q);
        lemma_gcd_mod(a * b, q);
        crate::divisibility::lemma_coprime_mul(a, b, q);
        assert(chi.spec_values()[((a * b) % q) as int] == (if spec_gcd((a * b) % q, q) == 1 {
            1i64
        } else {
            0i64
        }));
        assert(chi.spec_values()[(a % q) as int] == (if spec_gcd(a % q, q) == 1 {
            1i64
        } else {
            0i64
        }));
        assert(chi.spec_values()[(b % q) as int] == (if spec_gcd(b % q, q) == 1 {
            1i64
        } else {
            0i64
        }));
        let x = chi.value_at(a);
        let y = chi.value_at(b);
        if x == 0 {
            assert(x * y == 0);
        } else if y == 0 {
            assert(x * y == 0);
        } else {
            assert(x == 1 && y == 1);
            assert(chi.value_at(a * b) == 1);
            assert(x * y == 1) by (nonlinear_arith)
                requires
                    x == 1 && y == 1,
            ;
        }
    }
}

/// The Legendre character mod a prime is completely multiplicative: χ(ab) = χ(a) χ(b).
pub proof fn lemma_legendre_character_multiplicative(chi: DirichletCharacter, a: nat, b: nat)
    requires
        chi.is_legendre_table(),
        prime(chi.spec_modulus()),
    ensures
        chi.value_at(a * b) == chi.value_at(a) * chi.value_at(b),
{
    let p = chi.spec_modulus();
    let pi = p as int;
    // on every n the table gives the symbol of n itself
    assert forall|n: nat| n >= 1 implies #[trigger] chi.value_at(n) == legendre_symbol(
        n as int,
        p,
    ) by {
        vstd::arithmetic::div_mod::lemma_mod_bound(n as int, pi);
        vstd::arithmetic::div_mod::lemma_mod_twice(n as int, pi);
    }
    lemma_legendre_multiplicative(a as int, b as int, p);
    if a == 0 || b == 0 {
        assert(a * b == 0) by (nonlinear_arith)
            requires
                a == 0 || b == 0,
        ;
        assert(chi.value_at(a) * chi.value_at(b) == 0) by (nonlinear_arith)
            requires
                chi.value_at(a) == 0 || chi.value_at(b) == 0,
        ;
    } else {
        assert(a * b >= 1) by (nonlinear_arith)
            requires
                a >= 1,
                b >= 1,
        ;
        assert(chi.value_at(a * b) == legendre_symbol((a * b) as int, p));
        assert(chi.value_at(a) == legendre_symbol(a as int, p));
        assert(chi.value_at(b) == legendre_symbol(b as int, p));
    }
}

/// The Legendre character mod an odd prime is not principal: it takes the value -1.
pub proof fn lemma_legendre_character_not_principal(chi: DirichletCharacter)
    requires
        chi.is_legendre_table(),
        prime(chi.spec_modulus()),
        chi.spec_modulus() > 2,
    ensures
        !chi.nonzero_values_are_one(),
{
    let p = chi.spec_modulus();
    crate::lagrange::lemma_non_residue_exists(p);
    let z = choose|z: nat|
        2 <= z < p && #[trigger] pow(z as int, ((p - 1) / 2) as nat) % (p as int) == p - 1;
    vstd::arithmetic::div_mod::lemma_small_mod(z, p);
    assert(legendre_symbol(z as int, p) == -1);
    assert(chi.spec_values()[z as int] == -1);
}

} // verus!
