//! Search engine for integer solutions of a^x + b^y = c^z with x, y, z >= 3,
//! used to probe Beal's conjecture: every such solution should have a, b, c
//! sharing a common factor greater than 1.
//!
//! The engine has three layers, each verified against a mathematical model:
//! - `power`: enumerates power numbers (base, exponent, result) under a limit;
//! - `scan`: finds all pairs of power numbers whose results sum to a third
//!   power number's result, with diagnostic counters;
//! - `factor`: classifies each found solution by whether its three bases
//!   share a divisor greater than 1.

pub mod factor;
pub mod power;
pub mod scan;
