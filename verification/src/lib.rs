//! Core of an order-preserving, additively homomorphic encryption scheme.
//!
//! The crate provides the Paillier cryptosystem over arbitrary-precision
//! integers, strong-prime generation through a Miller-Rabin primality
//! oracle, a bilinear-pairing tag layer modelled over a prime-order scalar
//! field, and an order-preserving index: a multiway search tree whose
//! comparisons are delegated to a decryption-capable oracle and which
//! assigns a fixed-width order code to every stored leaf.

pub mod arith;
pub mod bigint;
pub mod primes;
pub mod paillier;
pub mod field;
pub mod group;
pub mod tree;
pub mod scheme;
pub mod config;
pub mod error;
