//! The values, operators and expressions that the search works on.

pub mod expressions;
pub mod numbers;
pub mod numerals;
pub mod primitives;
