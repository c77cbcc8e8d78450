//! Probabilistic primality testing on arbitrary-precision integers.
//!
//! The crate decides, with a caller-chosen number of randomized rounds,
//! whether a `BigUint` is prime. Candidates are first divided by a short
//! table of small primes; the survivors go through Miller–Rabin rounds built
//! on a modular exponentiation that watches for nontrivial square roots of
//! one.
//!
//! Big-integer arithmetic and randomness come from `num-bigint` and `rand`;
//! their behaviour is taken on trust in [`trusted`]. Everything above that
//! layer is proved, including the fact that a prime is never reported
//! composite.

pub mod miller_rabin;
pub mod number_theory;
pub mod trusted;

pub use miller_rabin::{
    checked_witness, checked_witnessexp, composite, is_probably_prime, witness, witnessexp, Witness,
};
