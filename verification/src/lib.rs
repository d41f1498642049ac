//! Number theory: primes, residues, arithmetic functions, continued
//! fractions, Diophantine equations and Dirichlet characters.
pub mod divisibility;
pub mod divisors;
pub mod fermat;
pub mod lagrange;
pub mod modular;
pub mod primes;
pub mod quadratic;
pub mod arithmetic;
pub mod dirichlet;
pub mod continued_fraction;
pub mod diophantine;

pub use arithmetic::{
    divisor_count, divisor_sum, divisor_sum_safe, euler_totient, euler_totient_sieve, gcd, lcm,
    mertens, mobius, mobius_sieve,
};
pub use continued_fraction::{rational_cf, ContinuedFraction};
pub use diophantine::{
    linear_diophantine, linear_diophantine_general, pell_negative_fits_check, pell_nth_solution,
    pell_solve, pell_solve_fits_check, pell_solve_negative, LinearDiophantineSolution,
    PellSolution,
};
pub use dirichlet::{count_primitive_characters, DirichletCharacter};
pub use modular::{
    crt, extended_gcd, mod_add, mod_inverse, mod_mul, mod_sqrt, mod_sub,
};
pub use primes::{
    factorize, is_prime, is_prime_small, miller_rabin, mod_pow, nth_prime, prime_count,
    sieve_primes, PrimeFactor,
};
pub use quadratic::{is_quadratic_residue, jacobi, kronecker, legendre, quadratic_residues};
