//! Selection of a near-uniformly spaced subset from a sorted sequence of
//! timestamps.

pub mod error;
pub mod grid;
pub mod laws;
pub mod selection;
pub mod state;
pub mod timelapse;
