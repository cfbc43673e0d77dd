//! Drum patterns in a compact text notation, their lengths in 128th notes,
//! and the number of bars after which several patterns meet a time signature again.

pub mod dsl;
pub mod midi;
