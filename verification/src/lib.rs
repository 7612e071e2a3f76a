//! Fibonacci numbers of any index, computed exactly.
//!
//! The crate has two layers. [`BigUnsigned`] is a non-negative integer of
//! unbounded size with addition and decimal rendering; [`fibonacci`] drives
//! it through the recurrence `F(k) = F(k-1) + F(k-2)` one step at a time.

pub mod big_unsigned;
pub mod decimal;
pub mod fibonacci;
pub mod limbs;
pub mod text;

pub use crate::big_unsigned::BigUnsigned;
pub use crate::fibonacci::{fib, fibonacci, recursive_fibonacci};
