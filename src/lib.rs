//! Fast polynomial evaluation and low-degree extension over the BLS12-381
//! base field, built on degree-2 rational maps instead of roots of unity.

pub mod error;
pub mod field;
pub mod matrix;
pub mod table;
pub mod isogeny;
pub mod bls12_381;
pub mod poly;
pub mod ecfft;
