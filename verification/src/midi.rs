//! Musical time: time signatures and the convergence of patterns.

pub mod lcm;
pub mod time;
