//! Exact arithmetic over a prime field, polynomials over it, and a
//! Euclidean-algorithm decoder for Reed–Solomon-style codes.
pub mod decryption;
pub mod division;
pub mod error;
pub mod manipulative;
pub mod modulo;
pub mod number_theory;
pub mod ring;
