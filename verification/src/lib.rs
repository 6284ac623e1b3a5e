//! A Mamdani-style fuzzy inference engine over piecewise-linear membership
//! functions.
//!
//! Positions on a variable's axis are fixed-point integers (the caller picks
//! the scale, e.g. tenths); membership degrees are exact rationals ([`rat::Rat`]),
//! so every step of fuzzification, rule evaluation, aggregation and
//! center-of-gravity defuzzification is carried out exactly.

pub mod logic;
pub mod rat;
pub mod sets;
pub mod shapes;
