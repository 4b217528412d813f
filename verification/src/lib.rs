//! Shamir's secret sharing over GF(256).
//!
//! A secret is split into `n` shares so that any `k` of them give it back:
//! each byte of the secret is the constant term of a random polynomial of
//! degree `k - 1`, and a share holds the values of these polynomials at one
//! nonzero point of the field. Joining interpolates the polynomials at zero.
pub mod error;
pub mod field;
pub mod lagrange;
pub mod polynomial;
pub mod random;
pub mod shamir;
pub mod sharing;
pub mod tables;

pub use error::ShamirError;
pub use field::GFC256;
pub use shamir::ShamirSS;
