//! Descriptive statistics over lists of integers: mean, median and mode.
//!
//! The executable entry points live in [`stats`]; the specification
//! vocabulary (element counts, sums, sortedness) lives in [`counting`];
//! the general properties relating the functions are proved in [`laws`].
pub mod counting;
pub mod laws;
pub mod stats;
