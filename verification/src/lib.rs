//! An incrementally extending segmented sieve of Eratosthenes.
//!
//! The library produces the prime numbers in increasing order, on demand and
//! without a predetermined upper bound.  A [`primes::Primes`] value owns the
//! list of primes confirmed so far; pulling past the end of that list sieves
//! exactly one new segment of integers, using only the already-confirmed
//! primes as trial divisors.

pub mod primality;
pub mod primes;
pub mod sieve;
