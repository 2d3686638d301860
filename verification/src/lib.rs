//! A value type for numbers in scientific notation `coefficient x10^ exponent`,
//! with exact decimal parsing, round-trip-safe formatting, and precision-preserving
//! arithmetic over an exact base-10 fixed-point coefficient.

pub mod decimal;
pub mod digits;
pub mod laws;
pub mod notation;
