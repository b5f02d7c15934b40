//! Witness generation and constraint model for a circuit proving that a public
//! value is the n-th term of a linear-congruential sequence from a private seed.
pub mod field;
pub mod decompose;
pub mod reference;
pub mod chain;
