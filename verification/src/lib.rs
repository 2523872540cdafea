//! Search for arithmetic expressions over a list of numbers that evaluate to a
//! target, under ordinary or modular arithmetic.

pub mod base_types;
pub mod generators;
pub mod parsing;
pub mod timing;
