//! Exact rational arithmetic over signed integers, with canonical-form
//! fractions and a long-division engine that isolates the repeating block
//! of a rational's decimal expansion.

pub mod gcd;
pub mod rational;
pub mod decimal;
