//! SABO OS v3: a priority task scheduler and a set of micro-benchmarks,
//! with their behaviour stated and proved with Verus.
pub mod benchmark;
mod clock;
pub mod scheduler;
