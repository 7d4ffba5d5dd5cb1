//! Bit arithmetic on machine words.
pub mod math32;
pub mod math64;
