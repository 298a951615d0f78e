//! Dense linear-algebra engine over exact rational scalars, together with
//! the small number-theory, combinatorics and unit-conversion helpers that
//! accompany it.
//!
//! Every tensor operation returns a fresh value; numerical work is exact,
//! so an operation that would leave the representable range reports `None`
//! instead of silently losing precision.

pub mod discrete;
pub mod laws;
pub mod linalg;
pub mod matrix;
pub mod numbers;
pub mod rat;
pub mod units;
pub mod vector;
