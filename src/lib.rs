//! The BabyBear prime field in Montgomery form, and the pure decision logic of
//! a univariate PLONK-style verifier built over it.

pub mod field;
pub mod protocol;

pub use field::BabyBear;
