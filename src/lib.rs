//! Primality testing by trial division, generation of the first `n` primes,
//! and a sieve of Eratosthenes, all proved against one definition of a prime.
//!
//! Sets of primes are `Vec<usize>` kept in strictly ascending order.

pub mod agreement;
pub mod eratosthenes;
pub mod generate;
pub mod theory;
pub mod trial;

pub use eratosthenes::sieve;
pub use generate::get_primes;
pub use trial::is_prime;
