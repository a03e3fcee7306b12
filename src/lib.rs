//! Prime implicants of a Boolean function by the Quine–McCluskey method.
//!
//! Terms are tri-state bit sequences. Two terms that differ in one defined
//! position merge into a term with a `DontCare` there; terms are grouped by
//! popcount, neighbouring groups are merged generation after generation, and
//! the terms that merge with nothing in their generation are the prime
//! implicants.
pub mod combine;
pub mod grouping;
pub mod primes;
pub mod term;

pub use combine::{compare_sets, find_prime_implicants};
pub use grouping::sort_bits;
pub use primes::search_prime_implicants;
pub use term::{hamming, parse, Bit, BitSet};
