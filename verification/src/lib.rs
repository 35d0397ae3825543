//! Deterministic primality testing by the AKS procedure.
//!
//! The crate is built around a small polynomial engine for the ring
//! `(Z/nZ)[x] / (x^r - 1)`: cyclic multiplication and binary exponentiation,
//! generic over an unsigned number capability with a fixed-width and an
//! arbitrary-precision realisation.  On top of it sits the five-step decision
//! procedure `aks`.
//!
//! - `numeric`, `sums`, `coprime`, `order`, `binomial`: the arithmetic that the
//!   contracts and proofs speak of.
//! - `ring`: the mathematical model of the polynomial ring and its laws.
//! - `traits`, `bigint`: the number capability and its two realisations.
//! - `polynomial`: the executable engine, `mod_mul` and `mod_pow`.
//! - `aks_prime`: the decision procedure.
//! - `correctness`: what is proved of its decisions.
//! - `utils`: primality by trial division.

pub mod numeric;
pub mod sums;
pub mod ring;
pub mod coprime;
pub mod order;
pub mod binomial;
pub mod bigint;
pub mod traits;
pub mod polynomial;
pub mod aks_prime;
pub mod utils;
pub mod correctness;
