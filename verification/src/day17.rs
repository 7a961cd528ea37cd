//! Rocks falling into a seven-wide shaft, pushed sideways by a cyclic
//! sequence of jets, and the height of the tower they build.

pub mod shape;
pub mod model;
pub mod chamber;
pub mod seal;
pub mod laws;
pub mod cycle;
