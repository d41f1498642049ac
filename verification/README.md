# numtheory

Computational number theory with machine-checked contracts: every function in `src/` is
verified by Verus against a mathematical model of what it computes.

- `divisibility` — primes, gcd, multiplicities and prime divisors as spec functions, with the
  lemmas relating them (Euclid's lemma, gcd properties).
- `primes` — sieve, trial division, modular exponentiation, factorization, Miller–Rabin
  (every prime passes it), n-th prime and the prime counting function.
- `modular` — extended Euclid (Bézout), inverses, CRT (solution and its uniqueness),
  Tonelli–Shanks square roots, modular add/sub/mul.
- `fermat`, `lagrange` — binomial coefficients, Fermat's little theorem, Lagrange's bound on
  roots mod p, Euler's criterion and the existence of non-residues.
- `arithmetic`, `divisors` — φ, μ, d, σ, Mertens, gcd/lcm; φ counts coprimes, d and σ count
  and add the divisors.
- `quadratic` — Legendre, Jacobi and Kronecker symbols, quadratic residues; the Jacobi
  symbol vanishes exactly on a common factor.
- `continued_fraction` — expansions of √n (periodic; the period before its last term is a
  palindrome of terms in `[1, a0]`) and of rationals (in lowest terms), convergents.
- `diophantine` — linear equations (particular and general solution; every solution lies in
  the general one), Pell's equation and its negative form (with checks that their convergents
  fit in 64 bits), powers of solutions in ℤ[√d].
- `dirichlet` — principal and Legendre characters (multiplicativity, periodicity).

`app/` holds what is left unverified: complex numbers, ζ(s) and L-functions over floats,
and serde copies of the data types. `tests/` exercises the library on concrete values.
