//! Classic algorithms with machine-checked contracts: a sieve of
//! Eratosthenes (sequential and segmented multi-worker), sorting, and
//! binary search.

pub mod primes;
pub mod search;
pub mod sieve;
pub mod sort;
