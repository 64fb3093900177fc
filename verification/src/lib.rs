//! A small password toolkit: generation of random passwords and passphrases,
//! Argon2id hashing and verification, and MD5 cracking by exhaustive search
//! over a fixed alphabet or by a dictionary scan.
//!
//! The heart of the crate is the index enumerator: a bijection between the
//! integers `[0, k^w)` and the strings of width `w` over an alphabet of `k`
//! distinct characters, which drives the exhaustive search.

pub mod enumerator;
pub mod digest;
pub mod search;
pub mod passgen;
pub mod argon;
