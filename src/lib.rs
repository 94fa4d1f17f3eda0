//! Anagram lookup by prime fingerprints.
//!
//! Each letter of a language is given a distinct prime; a word's fingerprint
//! is the product of the primes of its (case-folded) letters, so two words
//! share a fingerprint exactly when they are anagrams of each other, as long
//! as the product fits in 64 bits (a larger one is reported as an error).

pub mod alphabet;
pub mod fingerprint;
pub mod lookup;
pub mod primes;

