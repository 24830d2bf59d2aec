//! Small number-theoretic and combinatorial utilities, verified with Verus.
//!
//! The centre of the library is the enumeration of multiplicative partitions
//! (`factors`) and the product-sum representations built from them (`obscura`).
pub mod combinatorics;
pub mod factors;
pub mod integers;
pub mod obscura;
pub mod ordered;
pub mod primes;
pub mod strings;
pub mod words;
