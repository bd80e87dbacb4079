//! Primes up to a bound, by a sieve of Eratosthenes over the odd numbers that
//! keeps one bit per candidate in a packed array of machine words.
//!
//! - [`bitvec`]: the packed array of booleans.
//! - [`primes`]: what a prime is, and the facts about divisors that the
//!   sieve rests on.
//! - [`sieve`]: the sieve itself.
//! - [`report`]: listing and counting the primes of a sieved array.
//! - [`theorems`]: what listing and counting give for the sieve of a bound.
//! - [`args`]: reading the command line.

pub mod args;
pub mod bitvec;
pub mod primes;
pub mod report;
pub mod sieve;
pub mod theorems;
